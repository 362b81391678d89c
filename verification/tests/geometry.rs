use fractalical::FP;
use fractalical::fixed::{clamp_i64, fdiv, isqrt};
use fractalical::geom::{Rotation, Transform, Vec2};

#[test]
fn fdiv_rounds_toward_negative_infinity() {
    assert_eq!(fdiv(7, 2), 3);
    assert_eq!(fdiv(-7, 2), -4);
    assert_eq!(fdiv(-8, 2), -4);
    assert_eq!(fdiv(0, 5), 0);
    assert_eq!(fdiv(-1, 100000), -1);
}

#[test]
fn isqrt_exact_values() {
    assert_eq!(isqrt(0), 0);
    assert_eq!(isqrt(1), 1);
    assert_eq!(isqrt(3), 1);
    assert_eq!(isqrt(4), 2);
    assert_eq!(isqrt(999999), 999);
    assert_eq!(isqrt(1000000), 1000);
    assert_eq!(isqrt(u64::MAX), 4294967295);
}

#[test]
fn clamp_holds_range() {
    assert_eq!(clamp_i64(5, 0, 10), 5);
    assert_eq!(clamp_i64(-5, 0, 10), 0);
    assert_eq!(clamp_i64(15, 0, 10), 10);
}

#[test]
fn vec2_componentwise_ops() {
    let a = Vec2::new(300000, -200000);
    let b = Vec2::new(100000, 50000);
    let s = a.add(b);
    assert_eq!((s.x, s.y), (400000, -150000));
    let d = a.sub(b);
    assert_eq!((d.x, d.y), (200000, -250000));
    // 3.0 * 1.0 = 3.0 and -2.0 * 0.5 = -1.0, elementwise.
    let m = a.mul(b);
    assert_eq!((m.x, m.y), (300000, -100000));
    // 3.0 / 1.0 = 3.0 and -2.0 / 0.5 = -4.0, elementwise.
    let q = a.div(b);
    assert_eq!((q.x, q.y), (300000, -400000));
    // Scalar: 0.5 of each.
    let h = a.mul_fp(50000);
    assert_eq!((h.x, h.y), (150000, -100000));
    let u = a.div_fp(50000);
    assert_eq!((u.x, u.y), (600000, -400000));
}

#[test]
fn magnitude_is_floor_of_euclidean_length() {
    // A 3-4-5 triangle: |(3.0, 4.0)| = 5.0.
    let v = Vec2::new(300000, 400000);
    assert_eq!(v.magnitude(), 500000);
    // |(1, 1)| = sqrt(2), rounded down.
    let w = Vec2::new(100000, 100000);
    assert_eq!(w.magnitude(), 141421);
    assert_eq!(Vec2::new(0, 0).magnitude(), 0);
}

#[test]
fn normalized_scales_to_unit_length() {
    let v = Vec2::new(300000, 400000);
    let n = v.normalized();
    assert_eq!((n.x, n.y), (60000, 80000));
    let w = Vec2::new(0, -700000);
    let nw = w.normalized();
    assert_eq!((nw.x, nw.y), (0, -100000));
}

#[test]
fn rotation_identity_fixes_points() {
    let r = Rotation::identity();
    assert_eq!((r.cos, r.sin), (FP, 0));
    let v = Vec2::new(123456, -654321);
    let w = v.rotate(&r);
    assert_eq!((w.x, w.y), (123456, -654321));
}

#[test]
fn quarter_turn_rotation() {
    // cos 0, sin 1: (x, y) -> (-y, x) under the matrix used here.
    let r = Rotation { cos: 0, sin: FP };
    let v = Vec2::new(200000, 100000);
    let w = v.rotate(&r);
    assert_eq!((w.x, w.y), (-100000, 200000));
}

#[test]
fn small_angle_rotation_series() {
    let r = Rotation::from_small_angle(5000);
    assert_eq!(r.sin, 5000);
    // cos 0.05 ~ 1 - 0.05^2/2: 100000 - 125.
    assert_eq!(r.cos, 99875);
    let z = Rotation::from_small_angle(0);
    assert_eq!((z.cos, z.sin), (FP, 0));
}

#[test]
fn direction_rotation_from_cursor_offset() {
    // Cursor ten pixels straight above the centre: the zero angle.
    let up = Rotation::from_direction(Vec2::new(0, -1000000));
    assert_eq!((up.cos, up.sin), (FP, 0));
    // Cursor to the right: a quarter turn.
    let right = Rotation::from_direction(Vec2::new(1000000, 0));
    assert_eq!((right.cos, right.sin), (0, FP));
    // A 3-4-5 direction lands exactly on the circle.
    let diag = Rotation::from_direction(Vec2::new(3000000, 4000000));
    assert_eq!((diag.cos, diag.sin), (-80000, 60000));
    assert_eq!(
        diag.cos as i128 * diag.cos as i128 + diag.sin as i128 * diag.sin as i128,
        (FP as i128) * (FP as i128)
    );
}

#[test]
fn apply_scales_rotates_translates_in_order() {
    let t = Transform {
        position: Vec2::new(10000000, 20000000),
        rotation: Rotation::identity(),
        scale: 50000,
        alpha: 0xff,
    };
    let p = Vec2::new(1000000, 0);
    let q = t.apply(p);
    assert_eq!((q.x, q.y), (10500000, 20000000));
    let back = t.apply_inverse(q);
    assert_eq!((back.x, back.y), (1000000, 0));
}

#[test]
fn inverse_round_trip_without_rotation_is_tight() {
    let t = Transform {
        position: Vec2::new(33000000, 44000000),
        rotation: Rotation::identity(),
        scale: 60000,
        alpha: 0xf0,
    };
    for &(px, py) in &[(0i64, 0i64), (12345678, -9876543), (-50000000, 50000000)] {
        let p = Vec2::new(px, py);
        let q = t.apply_inverse(t.apply(p));
        let bound_x = (8 * px.abs() + 60 * FP) / FP;
        let bound_y = (8 * py.abs() + 60 * FP) / FP;
        assert!((q.x - px).abs() <= bound_x, "x drift {} over {}", q.x - px, bound_x);
        assert!((q.y - py).abs() <= bound_y, "y drift {} over {}", q.y - py, bound_y);
    }
}

#[test]
fn inverse_round_trip_with_rotation_is_tight() {
    // An exact 3-4-5 rotation, scale 0.1 (the harshest clamp value).
    let t = Transform {
        position: Vec2::new(50000000, 50000000),
        rotation: Rotation { cos: -80000, sin: 60000 },
        scale: 10000,
        alpha: 0xf0,
    };
    for &(px, py) in &[(1000000i64, 2000000i64), (-40000000, 10000000), (777777, -777777)] {
        let p = Vec2::new(px, py);
        let q = t.apply_inverse(t.apply(p));
        let bound_x = (8 * px.abs() + 60 * FP) / FP;
        let bound_y = (8 * py.abs() + 60 * FP) / FP;
        assert!((q.x - px).abs() <= bound_x, "x drift {} over {}", q.x - px, bound_x);
        assert!((q.y - py).abs() <= bound_y, "y drift {} over {}", q.y - py, bound_y);
    }
}
