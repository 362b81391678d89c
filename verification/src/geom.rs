//! 2D vectors, rotations and affine transforms in fixed-point arithmetic.
//!
//! A `Vec2` coordinate is a pixel position times `FP`; a `Transform` scale is
//! a factor times `FP`; a `Rotation` holds the cosine and sine of an angle,
//! each times `FP`, so rotating is multiplication by a 2x2 integer matrix
//! followed by one floor division per coordinate.

use vstd::prelude::*;

verus! {

use crate::fixed::{FP, fdiv, isqrt, sqrt_floor, is_sqrt, iabs};
use vstd::arithmetic::div_mod::lemma_fundamental_div_mod;

/// Largest coordinate magnitude (2000 pixels, in units of `1/FP`) that the
/// transform operations accept; keeps every intermediate product inside
/// `i64`.
pub const COORD_LIMIT: i64 = 200000000;

/// Smallest interactive scale factor (0.1 times `FP`).
pub const SCALE_MIN: i64 = 10000;

/// Largest interactive scale factor (1.0 times `FP`).
pub const SCALE_MAX: i64 = 100000;

/// A mathematical 2D vector over unbounded integers; the view of `Vec2` and
/// the domain of the transform specification functions.
pub ghost struct V2 {
    pub x: int,
    pub y: int,
}

impl V2 {
    /// Componentwise sum.
    pub open spec fn add(self, o: V2) -> V2 {
        V2 { x: self.x + o.x, y: self.y + o.y }
    }

    /// Componentwise difference.
    pub open spec fn sub(self, o: V2) -> V2 {
        V2 { x: self.x - o.x, y: self.y - o.y }
    }

    /// Multiply by a fixed-point factor `s` (a factor times `FP`).
    pub open spec fn scale_fp(self, s: int) -> V2 {
        V2 { x: self.x * s / (FP as int), y: self.y * s / (FP as int) }
    }

    /// Divide by a fixed-point factor `s`.
    pub open spec fn unscale_fp(self, s: int) -> V2 {
        V2 { x: self.x * (FP as int) / s, y: self.y * (FP as int) / s }
    }

    /// Rotate by the angle whose cosine times `FP` is `c` and whose sine
    /// times `FP` is `s`.
    pub open spec fn rotate_fp(self, c: int, s: int) -> V2 {
        V2 {
            x: (self.x * c - self.y * s) / (FP as int),
            y: (self.y * c + self.x * s) / (FP as int),
        }
    }
}

/// A 2D vector in fixed-point units (a pixel position times `FP`).
#[derive(Clone, Copy, PartialEq, Eq, Structural, Debug)]
pub struct Vec2 {
    pub x: i64,
    pub y: i64,
}

impl View for Vec2 {
    type V = V2;

    open spec fn view(&self) -> V2 {
        V2 { x: self.x as int, y: self.y as int }
    }
}

impl Vec2 {
    /// Build a vector from raw fixed-point units.
    pub fn new(x: i64, y: i64) -> (r: Self)
        ensures
            r@ == (V2 { x: x as int, y: y as int }),
    {
        Vec2 { x, y }
    }

    /// Build a vector from whole pixel coordinates.
    pub fn from_pixels(px: i64, py: i64) -> (r: Self)
        requires
            -92233720368 <= px <= 92233720368,
            -92233720368 <= py <= 92233720368,
        ensures
            r@ == (V2 { x: px * FP as int, y: py * FP as int }),
    {
        Vec2 { x: px.checked_mul(FP).unwrap(), y: py.checked_mul(FP).unwrap() }
    }

    /// Componentwise sum.
    pub fn add(self, rhs: Self) -> (r: Self)
        requires
            i64::MIN <= self@.x + rhs@.x <= i64::MAX,
            i64::MIN <= self@.y + rhs@.y <= i64::MAX,
        ensures
            r@ == self@.add(rhs@),
    {
        Vec2 { x: self.x.checked_add(rhs.x).unwrap(), y: self.y.checked_add(rhs.y).unwrap() }
    }

    /// Componentwise difference.
    pub fn sub(self, rhs: Self) -> (r: Self)
        requires
            i64::MIN <= self@.x - rhs@.x <= i64::MAX,
            i64::MIN <= self@.y - rhs@.y <= i64::MAX,
        ensures
            r@ == self@.sub(rhs@),
    {
        Vec2 { x: self.x.checked_sub(rhs.x).unwrap(), y: self.y.checked_sub(rhs.y).unwrap() }
    }

    /// Componentwise fixed-point product.
    pub fn mul(self, rhs: Self) -> (r: Self)
        requires
            i64::MIN < self@.x * rhs@.x <= i64::MAX,
            i64::MIN < self@.y * rhs@.y <= i64::MAX,
        ensures
            r@.x == self@.x * rhs@.x / (FP as int),
            r@.y == self@.y * rhs@.y / (FP as int),
    {
        Vec2 {
            x: fdiv(self.x.checked_mul(rhs.x).unwrap(), FP),
            y: fdiv(self.y.checked_mul(rhs.y).unwrap(), FP),
        }
    }

    /// Componentwise fixed-point quotient.
    pub fn div(self, rhs: Self) -> (r: Self)
        requires
            rhs@.x > 0,
            rhs@.y > 0,
            i64::MIN < self@.x * FP as int <= i64::MAX,
            i64::MIN < self@.y * FP as int <= i64::MAX,
        ensures
            r@.x == self@.x * (FP as int) / rhs@.x,
            r@.y == self@.y * (FP as int) / rhs@.y,
    {
        Vec2 {
            x: fdiv(self.x.checked_mul(FP).unwrap(), rhs.x),
            y: fdiv(self.y.checked_mul(FP).unwrap(), rhs.y),
        }
    }

    /// Multiply by a fixed-point scalar `s`.
    pub fn mul_fp(self, s: i64) -> (r: Self)
        requires
            0 <= s <= SCALE_MAX,
            -1000000000000 <= self@.x <= 1000000000000,
            -1000000000000 <= self@.y <= 1000000000000,
        ensures
            r@ == self@.scale_fp(s as int),
            iabs(r@.x) <= iabs(self@.x),
            iabs(r@.y) <= iabs(self@.y),
    {
        proof {
            lemma_scale_fp_bound(self@.x, s as int);
            lemma_scale_fp_bound(self@.y, s as int);
        }
        Vec2 {
            x: fdiv(self.x.checked_mul(s).unwrap(), FP),
            y: fdiv(self.y.checked_mul(s).unwrap(), FP),
        }
    }

    /// Divide by a fixed-point scalar `s`.
    pub fn div_fp(self, s: i64) -> (r: Self)
        requires
            SCALE_MIN <= s <= SCALE_MAX,
            -10000000000 <= self@.x <= 10000000000,
            -10000000000 <= self@.y <= 10000000000,
        ensures
            r@ == self@.unscale_fp(s as int),
            iabs(r@.x) <= 11 * iabs(self@.x) + 1,
            iabs(r@.y) <= 11 * iabs(self@.y) + 1,
    {
        proof {
            lemma_unscale_fp_bound(self@.x, s as int);
            lemma_unscale_fp_bound(self@.y, s as int);
        }
        Vec2 {
            x: fdiv(self.x.checked_mul(FP).unwrap(), s),
            y: fdiv(self.y.checked_mul(FP).unwrap(), s),
        }
    }

    /// Rotate by `rot` (counter-clockwise for a positive angle under the
    /// y-down screen convention).
    pub fn rotate(self, rot: &Rotation) -> (r: Self)
        requires
            rot.wf(),
            -1000000000 <= self@.x <= 1000000000,
            -1000000000 <= self@.y <= 1000000000,
        ensures
            r@ == self@.rotate_fp(rot@.0, rot@.1),
            iabs(r@.x) <= iabs(self@.x) + iabs(self@.y) + (iabs(self@.x) + iabs(self@.y)) / 10000 + 1,
            iabs(r@.y) <= iabs(self@.x) + iabs(self@.y) + (iabs(self@.x) + iabs(self@.y)) / 10000 + 1,
    {
        proof {
            lemma_rotate_fp_bound(self@.x, self@.y, rot@.0, rot@.1);
        }
        let xc = self.x.checked_mul(rot.cos).unwrap();
        let ys = self.y.checked_mul(rot.sin).unwrap();
        let yc = self.y.checked_mul(rot.cos).unwrap();
        let xs = self.x.checked_mul(rot.sin).unwrap();
        Vec2 {
            x: fdiv(xc.checked_sub(ys).unwrap(), FP),
            y: fdiv(yc.checked_add(xs).unwrap(), FP),
        }
    }

    /// Euclidean length, rounded down to whole fixed-point units.
    pub fn magnitude(self) -> (r: i64)
        requires
            -2000000000 <= self@.x <= 2000000000,
            -2000000000 <= self@.y <= 2000000000,
        ensures
            r as int == sqrt_floor(self@.x * self@.x + self@.y * self@.y),
            is_sqrt(self@.x * self@.x + self@.y * self@.y, r as int),
            0 <= r <= 3000000000,
    {
        proof {
            lemma_square_bound(self@.x, 2000000000);
            lemma_square_bound(self@.y, 2000000000);
        }
        let xx = self.x.checked_mul(self.x).unwrap();
        let yy = self.y.checked_mul(self.y).unwrap();
        let n = (xx as u64).checked_add(yy as u64).unwrap();
        let m = isqrt(n);
        proof {
            assert(3000000001int * 3000000001int > 8000000000000000000int) by (nonlinear_arith);
            if m as int > 3000000000int {
                assert((m as int) * (m as int) >= 3000000001int * 3000000001int)
                    by (nonlinear_arith)
                    requires m as int >= 3000000001int;
            }
        }
        m as i64
    }

    /// Scale to unit length (times `FP`). The zero vector has no direction:
    /// callers must keep it out.
    pub fn normalized(self) -> (r: Self)
        requires
            -2000000000 <= self@.x <= 2000000000,
            -2000000000 <= self@.y <= 2000000000,
            self@.x != 0 || self@.y != 0,
        ensures
            r@.x == self@.x * (FP as int) / sqrt_floor(self@.x * self@.x + self@.y * self@.y),
            r@.y == self@.y * (FP as int) / sqrt_floor(self@.x * self@.x + self@.y * self@.y),
    {
        let m = self.magnitude();
        proof {
            let n = self@.x * self@.x + self@.y * self@.y;
            assert(n >= 1) by (nonlinear_arith)
                requires n == self@.x * self@.x + self@.y * self@.y,
                    self@.x != 0 || self@.y != 0;
            assert(m as int > 0) by (nonlinear_arith)
                requires
                    (m as int) * (m as int) <= n,
                    n < (m as int + 1) * (m as int + 1),
                    n >= 1,
                    m as int >= 0;
        }
        Vec2 {
            x: fdiv(self.x.checked_mul(FP).unwrap(), m),
            y: fdiv(self.y.checked_mul(FP).unwrap(), m),
        }
    }
}

/// A rotation, stored as the cosine and sine of its angle, each times `FP`.
/// The pair is kept within `ROT_NORM_TOL` of the unit circle, so applying a
/// rotation and then its inverse distorts lengths by at most a few parts in
/// `FP`.
#[derive(Clone, Copy, PartialEq, Eq, Structural, Debug)]
pub struct Rotation {
    pub cos: i64,
    pub sin: i64,
}

/// How far `cos^2 + sin^2` may drift from `FP^2`.
pub const ROT_NORM_TOL: i64 = 800000;

impl View for Rotation {
    type V = (int, int);

    open spec fn view(&self) -> (int, int) {
        (self.cos as int, self.sin as int)
    }
}

/// A cosine/sine pair (each times `FP`) lies close enough to the unit
/// circle.
pub open spec fn rot_wf(c: int, s: int) -> bool {
    &&& -(FP as int + 8) <= c <= FP as int + 8
    &&& -(FP as int + 8) <= s <= FP as int + 8
    &&& (FP as int) * (FP as int) - (ROT_NORM_TOL as int) <= c * c + s * s
    &&& c * c + s * s <= (FP as int) * (FP as int) + (ROT_NORM_TOL as int)
}

impl Rotation {
    /// The pair lies close enough to the unit circle.
    pub open spec fn wf(self) -> bool {
        rot_wf(self@.0, self@.1)
    }

    /// The zero angle.
    pub fn identity() -> (r: Self)
        ensures
            r.wf(),
            r@ == (FP as int, 0int),
    {
        proof {
            assert(100000int * 100000int == 10000000000int) by (nonlinear_arith);
        }
        Rotation { cos: FP, sin: 0 }
    }

    /// A small angle `t/FP` (radians), built from the series
    /// `cos t = 1 - t^2/2` truncated after the quadratic term; for
    /// `|t| <= 0.05 * FP` the truncation error is below one unit.
    pub fn from_small_angle(t: i64) -> (r: Self)
        requires
            -5000 <= t <= 5000,
        ensures
            r.wf(),
            r@.1 == t as int,
            r@.0 == FP as int - (t as int) * (t as int) / (2 * FP as int),
            FP as int - 125 <= r@.0 <= FP as int,
    {
        let f2: i64 = 2 * FP;
        proof {
            let ti = t as int;
            let fi = FP as int;
            assert(0 <= ti * ti <= 25000000) by (nonlinear_arith)
                requires -5000 <= ti <= 5000;
            vstd::arithmetic::div_mod::lemma_div_pos_is_pos(ti * ti, 2 * fi);
            vstd::arithmetic::div_mod::lemma_div_is_ordered(ti * ti, 25000000, 2 * fi);
            vstd::arithmetic::div_mod::lemma_fundamental_div_mod_converse_div(
                25000000, 200000, 125, 0);
        }
        let q = fdiv(t.checked_mul(t).unwrap(), f2);
        let c = FP - q;
        proof {
            let ti = t as int;
            let fi = FP as int;
            let qi = q as int;
            lemma_fundamental_div_mod(ti * ti, 2 * fi);
            vstd::arithmetic::div_mod::lemma_mod_bound(ti * ti, 2 * fi);
            let rho = (ti * ti) % (2 * fi);
            assert((fi - qi) * (fi - qi) + ti * ti == fi * fi + rho + qi * qi)
                by (nonlinear_arith)
                requires ti * ti == (2 * fi) * qi + rho;
            assert(0 <= rho + qi * qi <= 2 * fi + 15625) by (nonlinear_arith)
                requires 0 <= rho < 2 * fi, 0 <= qi <= 125;
        }
        Rotation { cos: c, sin: t }
    }

    /// The angle of the offset `d` from an object's centre to the cursor,
    /// measured so the cursor straight above the centre gives the zero
    /// angle and a clockwise sweep on screen increases it continuously:
    /// the cosine is `-d.y / |d|` and the sine is `d.x / |d|`.
    pub fn from_direction(d: Vec2) -> (r: Self)
        requires
            -2000000000 <= d@.x <= 2000000000,
            -2000000000 <= d@.y <= 2000000000,
            d@.x * d@.x + d@.y * d@.y >= 160000000000,
        ensures
            r.wf(),
            r@.0 == (-d@.y) * (FP as int) / sqrt_floor(d@.x * d@.x + d@.y * d@.y),
            r@.1 == d@.x * (FP as int) / sqrt_floor(d@.x * d@.x + d@.y * d@.y),
    {
        let m = d.magnitude();
        proof {
            lemma_direction_wf(d@.x, d@.y, m as int);
        }
        let u = -d.y;
        let v = d.x;
        Rotation {
            cos: fdiv(u.checked_mul(FP).unwrap(), m),
            sin: fdiv(v.checked_mul(FP).unwrap(), m),
        }
    }

    /// The opposite angle; exact, and exactly as well-formed.
    pub fn inverse(self) -> (r: Self)
        requires
            self.wf(),
        ensures
            r.wf(),
            r@ == (self@.0, -self@.1),
    {
        proof {
            assert((-self.sin as int) * (-self.sin as int)
                == (self.sin as int) * (self.sin as int)) by (nonlinear_arith);
        }
        Rotation { cos: self.cos, sin: -self.sin }
    }
}

/// An affine transform: scale by `scale/FP`, rotate by `rotation`, then
/// translate by `position`. `alpha` is the opacity used when compositing
/// through the transform.
#[derive(Clone, Copy, PartialEq, Eq, Structural, Debug)]
pub struct Transform {
    pub position: Vec2,
    pub rotation: Rotation,
    pub scale: i64,
    pub alpha: u8,
}

/// The mathematical content of a `Transform`: its view, and the domain of
/// the affine-map specification functions.
pub ghost struct TransformV {
    pub position: V2,
    pub cos: int,
    pub sin: int,
    pub scale: int,
    pub alpha: int,
}

impl TransformV {
    /// The interactive invariant: the scale stays inside the clamp range,
    /// the rotation stays near the unit circle, and the position stays
    /// within the coordinate limit.
    pub open spec fn wf(self) -> bool {
        &&& SCALE_MIN as int <= self.scale <= SCALE_MAX as int
        &&& rot_wf(self.cos, self.sin)
        &&& -(COORD_LIMIT as int) <= self.position.x <= COORD_LIMIT as int
        &&& -(COORD_LIMIT as int) <= self.position.y <= COORD_LIMIT as int
    }

    /// Where `apply` sends a local-space point: scale, rotate, translate.
    pub open spec fn apply(self, p: V2) -> V2 {
        p.scale_fp(self.scale).rotate_fp(self.cos, self.sin).add(self.position)
    }

    /// Where `apply_inverse` sends a buffer-space point: untranslate,
    /// unrotate, unscale.
    pub open spec fn apply_inverse(self, p: V2) -> V2 {
        p.sub(self.position).rotate_fp(self.cos, -self.sin).unscale_fp(self.scale)
    }
}

impl View for Transform {
    type V = TransformV;

    open spec fn view(&self) -> TransformV {
        TransformV {
            position: self.position@,
            cos: self.rotation@.0,
            sin: self.rotation@.1,
            scale: self.scale as int,
            alpha: self.alpha as int,
        }
    }
}

impl Transform {
    /// The interactive invariant, stated on the view.
    pub open spec fn wf(self) -> bool {
        self@.wf()
    }

    /// Map a point from transform-local space into buffer space.
    pub fn apply(&self, point: Vec2) -> (r: Vec2)
        requires
            self.wf(),
            -(COORD_LIMIT as int) <= point@.x <= COORD_LIMIT as int,
            -(COORD_LIMIT as int) <= point@.y <= COORD_LIMIT as int,
        ensures
            r@ == self@.apply(point@),
            -700000000 <= r@.x <= 700000000,
            -700000000 <= r@.y <= 700000000,
    {
        let scaled = point.mul_fp(self.scale);
        let rotated = scaled.rotate(&self.rotation);
        rotated.add(self.position)
    }

    /// Map a point from buffer space back into transform-local space; the
    /// exact algebraic inverse of `apply`, step by step, up to fixed-point
    /// rounding.
    pub fn apply_inverse(&self, point: Vec2) -> (r: Vec2)
        requires
            self.wf(),
            -(COORD_LIMIT as int) <= point@.x <= COORD_LIMIT as int,
            -(COORD_LIMIT as int) <= point@.y <= COORD_LIMIT as int,
        ensures
            r@ == self@.apply_inverse(point@),
            -10000000000 <= r@.x <= 10000000000,
            -10000000000 <= r@.y <= 10000000000,
    {
        let centered = point.sub(self.position);
        let unrotated = centered.rotate(&self.rotation.inverse());
        unrotated.div_fp(self.scale)
    }
}

/// The inverse law: mapping a local point into buffer space and back
/// returns it, up to fixed-point rounding. Quantitatively, each coordinate
/// of the round trip lands within `8/FP` of the original relatively, plus
/// sixty fixed-point units (under a thousandth of a pixel) absolutely:
/// `|roundtrip(p).x - p.x| <= (8 * |p.x| + 60 * FP) / FP`, and likewise
/// for `y`.
pub proof fn lemma_apply_inverse_roundtrip(t: TransformV, p: V2)
    requires
        t.wf(),
        -(COORD_LIMIT as int) <= p.x <= COORD_LIMIT as int,
        -(COORD_LIMIT as int) <= p.y <= COORD_LIMIT as int,
    ensures
        iabs(t.apply_inverse(t.apply(p)).x - p.x) * (FP as int)
            <= 8 * iabs(p.x) + 60 * (FP as int),
        iabs(t.apply_inverse(t.apply(p)).y - p.y) * (FP as int)
            <= 8 * iabs(p.y) + 60 * (FP as int),
{
    let f = FP as int;
    let n = t.scale;
    let c = t.cos;
    let s = t.sin;
    let d = c * c + s * s;
    assert(d == c * c + (-s) * (-s)) by (nonlinear_arith)
        requires d == c * c + s * s;
    lemma_roundtrip_coord(p.x, p.y, n, c, s, d);
    lemma_roundtrip_coord(p.y, p.x, n, c, -s, d);
    let ax = p.x * n / f;
    let ay = p.y * n / f;
    let bx = (ax * c - ay * s) / f;
    let by = (ay * c + ax * s) / f;
    // Negating the sine only flips the sign of its products.
    assert(bx * c - by * (-s) == bx * c + by * s) by (nonlinear_arith);
    assert(by * c + bx * (-s) == by * c - bx * s) by (nonlinear_arith);
    assert(ay * c - ax * (-s) == ay * c + ax * s) by (nonlinear_arith);
    assert(ax * c + ay * (-s) == ax * c - ay * s) by (nonlinear_arith);
    assert(by * c - bx * (-(-s)) == by * c - bx * s) by (nonlinear_arith);
    // The x round trip matches the generic coordinate lemma directly.
    assert(t.apply(p).x - t.position.x == bx);
    assert(t.apply(p).y - t.position.y == by);
    assert(t.apply_inverse(t.apply(p)).x == ((bx * c + by * s) / f) * f / n);
    // The y round trip is the x round trip of the axes swapped with the
    // rotation reflected: under (x, y, s) -> (y, x, -s) the scale step
    // swaps, the rotation matrix transposes into itself, and the unrotate
    // step swaps likewise.
    assert((ay * c - ax * (-s)) / f == by);
    assert((ax * c + ay * (-s)) / f == bx);
    assert(t.apply_inverse(t.apply(p)).y == ((by * c - bx * s) / f) * f / n);
}

/// The single-coordinate round-trip bound: with `u` playing the first
/// axis and `w` the second, forward is scale-then-rotate and backward is
/// transpose-rotate-then-unscale.
proof fn lemma_roundtrip_coord(u: int, w: int, n: int, c: int, s: int, d: int)
    requires
        SCALE_MIN as int <= n <= SCALE_MAX as int,
        -(FP as int + 8) <= c <= FP as int + 8,
        -(FP as int + 8) <= s <= FP as int + 8,
        d == c * c + s * s,
        (FP as int) * (FP as int) - (ROT_NORM_TOL as int) <= d
            <= (FP as int) * (FP as int) + (ROT_NORM_TOL as int),
        -(COORD_LIMIT as int) <= u <= COORD_LIMIT as int,
        -(COORD_LIMIT as int) <= w <= COORD_LIMIT as int,
    ensures
        ({
            let f = FP as int;
            let au = u * n / f;
            let aw = w * n / f;
            let bu = (au * c - aw * s) / f;
            let bw = (aw * c + au * s) / f;
            let vu = (bu * c + bw * s) / f;
            let r = vu * f / n;
            iabs(r - u) * f <= 8 * iabs(u) + 60 * f
        }),
{
    let f = FP as int;
    let au = u * n / f;
    let aw = w * n / f;
    let bu = (au * c - aw * s) / f;
    let bw = (aw * c + au * s) / f;
    let vu = (bu * c + bw * s) / f;
    let r = vu * f / n;

    // Division decompositions: each floor division leaves a remainder in
    // [0, divisor).
    lemma_fundamental_div_mod(u * n, f);
    vstd::arithmetic::div_mod::lemma_mod_bound(u * n, f);
    let a1 = (u * n) % f;
    assert(au * f == u * n - a1) by (nonlinear_arith)
        requires u * n == f * au + a1;
    lemma_fundamental_div_mod(w * n, f);
    vstd::arithmetic::div_mod::lemma_mod_bound(w * n, f);
    let a2 = (w * n) % f;
    assert(aw * f == w * n - a2) by (nonlinear_arith)
        requires w * n == f * aw + a2;
    lemma_fundamental_div_mod(au * c - aw * s, f);
    vstd::arithmetic::div_mod::lemma_mod_bound(au * c - aw * s, f);
    let b1 = (au * c - aw * s) % f;
    assert(bu * f == au * c - aw * s - b1) by (nonlinear_arith)
        requires au * c - aw * s == f * bu + b1;
    lemma_fundamental_div_mod(aw * c + au * s, f);
    vstd::arithmetic::div_mod::lemma_mod_bound(aw * c + au * s, f);
    let b2 = (aw * c + au * s) % f;
    assert(bw * f == aw * c + au * s - b2) by (nonlinear_arith)
        requires aw * c + au * s == f * bw + b2;
    lemma_fundamental_div_mod(bu * c + bw * s, f);
    vstd::arithmetic::div_mod::lemma_mod_bound(bu * c + bw * s, f);
    let g1 = (bu * c + bw * s) % f;
    assert(vu * f == bu * c + bw * s - g1) by (nonlinear_arith)
        requires bu * c + bw * s == f * vu + g1;
    lemma_fundamental_div_mod(vu * f, n);
    vstd::arithmetic::div_mod::lemma_mod_bound(vu * f, n);
    let d1 = (vu * f) % n;
    assert(r * n == vu * f - d1) by (nonlinear_arith)
        requires vu * f == n * r + d1;

    // Unrotating the rotated point recovers `au` scaled by the norm `d`,
    // up to the collected remainders.
    let e1 = b1 * c + b2 * s + g1 * f;
    assert(vu * (f * f) == (bu * f) * c + (bw * f) * s - g1 * f) by (nonlinear_arith)
        requires vu * f == bu * c + bw * s - g1;
    assert((au * c - aw * s - b1) * c + (aw * c + au * s - b2) * s
        == au * d - (b1 * c + b2 * s)) by (nonlinear_arith)
        requires d == c * c + s * s;
    assert(vu * (f * f) == au * d - e1);

    // Undo the scale: relate the result to `u` through one exact identity.
    assert(r * (n * (f * f)) == (vu * f) * (f * f) - d1 * (f * f)) by (nonlinear_arith)
        requires r * n == vu * f - d1;
    assert((vu * f) * (f * f) == (vu * (f * f)) * f) by (nonlinear_arith);
    assert((au * d - e1) * f == (au * f) * d - e1 * f) by (nonlinear_arith);
    assert((au * f) * d == (u * n) * d - a1 * d) by (nonlinear_arith)
        requires au * f == u * n - a1;
    assert(r * (n * (f * f)) == (u * n) * d - a1 * d - e1 * f - d1 * (f * f));
    assert((r - u) * (n * (f * f)) == (u * n) * (d - f * f) - a1 * d - e1 * f - d1 * (f * f))
        by (nonlinear_arith)
        requires r * (n * (f * f)) == (u * n) * d - a1 * d - e1 * f - d1 * (f * f);

    // Bound each term.
    let tol = ROT_NORM_TOL as int;
    assert(-(iabs(u) * n * tol) <= (u * n) * (d - f * f) <= iabs(u) * n * tol)
        by (nonlinear_arith)
        requires
            -tol <= d - f * f <= tol,
            n > 0,
            iabs(u) == if u < 0 { -u } else { u };
    assert(0 <= a1 * d <= f * (f * f + tol)) by (nonlinear_arith)
        requires 0 <= a1 < f, 0 < f * f - tol <= d <= f * f + tol, f == 100000, tol == 800000;
    assert(-(2 * f * (f + 8)) <= b1 * c + b2 * s <= 2 * f * (f + 8)) by (nonlinear_arith)
        requires
            0 <= b1 < f,
            0 <= b2 < f,
            -(f + 8) <= c <= f + 8,
            -(f + 8) <= s <= f + 8;
    assert(-(2 * f * (f + 8) * f) - 0 <= e1 * f
        && e1 * f <= (2 * f * (f + 8) + f * f) * f) by (nonlinear_arith)
        requires
            e1 == b1 * c + b2 * s + g1 * f,
            -(2 * f * (f + 8)) <= b1 * c + b2 * s <= 2 * f * (f + 8),
            0 <= g1 < f,
            f > 0;
    assert(0 <= d1 * (f * f) <= n * (f * f)) by (nonlinear_arith)
        requires 0 <= d1 < n, f > 0;

    // Collect: the deviation times n*f^2 is small.
    let dev = (r - u) * (n * (f * f));
    assert(-(iabs(u) * n * tol) - f * (f * f + tol) - (2 * f * (f + 8) + f * f) * f
        - n * (f * f) <= dev);
    assert(dev <= iabs(u) * n * tol + 0 + 2 * f * (f + 8) * f + 0 + 0 + f * (f * f + tol));
    // Divide out n*f^2 conservatively.
    assert(iabs(r - u) * f <= 8 * iabs(u) + 60 * f) by (nonlinear_arith)
        requires
            dev == (r - u) * (n * (f * f)),
            -(iabs(u) * n * tol) - f * (f * f + tol) - (2 * f * (f + 8) + f * f) * f
                - n * (f * f) <= dev,
            dev <= iabs(u) * n * tol + 2 * f * (f + 8) * f + f * (f * f + tol),
            f == 100000,
            tol == 800000,
            10000 <= n <= 100000,
            iabs(u) == if u < 0 { -u } else { u },
            iabs(r - u) == if r - u < 0 { -(r - u) } else { r - u },
            iabs(u) >= 0;
}

/// Multiplying by a factor in `[0, FP]` and dividing by `FP` cannot grow a
/// magnitude.
proof fn lemma_scale_fp_bound(x: int, s: int)
    requires
        0 <= s <= FP as int,
        -1000000000000 <= x <= 1000000000000,
    ensures
        iabs(x * s / (FP as int)) <= iabs(x),
        i64::MIN < x * s <= i64::MAX,
{
    let f = FP as int;
    assert(-1000000000000 * f <= x * s <= 1000000000000 * f) by (nonlinear_arith)
        requires 0 <= s <= f, -1000000000000 <= x <= 1000000000000, f == 100000;
    if x >= 0 {
        assert(0 <= x * s <= x * f) by (nonlinear_arith)
            requires 0 <= s <= f, x >= 0;
        vstd::arithmetic::div_mod::lemma_div_is_ordered(x * s, x * f, f);
        vstd::arithmetic::div_mod::lemma_div_pos_is_pos(x * s, f);
        vstd::arithmetic::div_mod::lemma_div_multiples_vanish(x, f);
    } else {
        assert(x * f <= x * s <= 0) by (nonlinear_arith)
            requires 0 <= s <= f, x < 0;
        vstd::arithmetic::div_mod::lemma_div_is_ordered(x * f, x * s, f);
        vstd::arithmetic::div_mod::lemma_div_multiples_vanish(x, f);
        assert(x * s / f <= 0) by {
            vstd::arithmetic::div_mod::lemma_div_is_ordered(x * s, 0, f);
        }
    }
}

/// Dividing by a factor in `[FP/10, FP]` grows a magnitude at most tenfold,
/// plus one unit of rounding.
proof fn lemma_unscale_fp_bound(x: int, s: int)
    requires
        SCALE_MIN as int <= s <= SCALE_MAX as int,
        -10000000000 <= x <= 10000000000,
    ensures
        iabs(x * (FP as int) / s) <= 11 * iabs(x) + 1,
        i64::MIN < x * (FP as int) <= i64::MAX,
{
    let f = FP as int;
    assert(-10000000000 * f <= x * f <= 10000000000 * f) by (nonlinear_arith)
        requires -10000000000 <= x <= 10000000000, f == 100000;
    lemma_fundamental_div_mod(x * f, s);
    let q = x * f / s;
    let r = x * f % s;
    vstd::arithmetic::div_mod::lemma_mod_bound(x * f, s);
    assert(x * f == s * q + r);
    if q > 11 * iabs(x) {
        assert(false) by (nonlinear_arith)
            requires
                x * f == s * q + r,
                0 <= r < s,
                f == 100000,
                f / 10 <= s <= f,
                q > 11 * iabs(x),
                iabs(x) == if x < 0 { -x } else { x };
    }
    if q < -11 * iabs(x) - 1 {
        assert(false) by (nonlinear_arith)
            requires
                x * f == s * q + r,
                0 <= r < s,
                f == 100000,
                f / 10 <= s <= f,
                q < -11 * iabs(x) - 1,
                iabs(x) == if x < 0 { -x } else { x };
    }
}

/// The rotation matrix entries are within `8/FP` of a unit matrix, so a
/// rotated vector is barely longer than the original (in the 1-norm).
proof fn lemma_rotate_fp_bound(x: int, y: int, c: int, s: int)
    requires
        -1000000000 <= x <= 1000000000,
        -1000000000 <= y <= 1000000000,
        -(FP as int + 8) <= c <= FP as int + 8,
        -(FP as int + 8) <= s <= FP as int + 8,
    ensures
        iabs((x * c - y * s) / (FP as int)) <= iabs(x) + iabs(y) + (iabs(x) + iabs(y)) / 10000 + 1,
        iabs((y * c + x * s) / (FP as int)) <= iabs(x) + iabs(y) + (iabs(x) + iabs(y)) / 10000 + 1,
        i64::MIN < x * c - y * s <= i64::MAX,
        i64::MIN < y * c + x * s <= i64::MAX,
        i64::MIN < x * c <= i64::MAX,
        i64::MIN < y * s <= i64::MAX,
        i64::MIN < y * c <= i64::MAX,
        i64::MIN < x * s <= i64::MAX,
{
    let f = FP as int;
    let b = (iabs(x) + iabs(y)) * (f + 8);
    assert(iabs(x * c) <= iabs(x) * (f + 8) && iabs(y * s) <= iabs(y) * (f + 8)
        && iabs(y * c) <= iabs(y) * (f + 8) && iabs(x * s) <= iabs(x) * (f + 8))
        by (nonlinear_arith)
        requires
            -(f + 8) <= c <= f + 8,
            -(f + 8) <= s <= f + 8,
            iabs(x) == if x < 0 { -x } else { x },
            iabs(y) == if y < 0 { -y } else { y },
            iabs(x * c) == if x * c < 0 { -(x * c) } else { x * c },
            iabs(y * s) == if y * s < 0 { -(y * s) } else { y * s },
            iabs(y * c) == if y * c < 0 { -(y * c) } else { y * c },
            iabs(x * s) == if x * s < 0 { -(x * s) } else { x * s };
    let a = iabs(x) + iabs(y);
    assert(0 <= b <= 2000000000 * (f + 8)) by (nonlinear_arith)
        requires
            b == a * (f + 8),
            0 <= a <= 2000000000,
            f == 100000;
    assert(iabs(x) * (f + 8) + iabs(y) * (f + 8) == b) by (nonlinear_arith)
        requires b == (iabs(x) + iabs(y)) * (f + 8);
    lemma_div_abs_bound(x * c - y * s, b, f);
    lemma_div_abs_bound(y * c + x * s, b, f);
    assert(b / f == a + a * 8 / f) by {
        vstd::arithmetic::div_mod::lemma_hoist_over_denominator(a * 8, a, f as nat);
        assert(a * 8 + a * f == b) by (nonlinear_arith)
            requires b == a * (f + 8);
    }
    assert(a * 8 / f <= a / 10000) by {
        assert(a * 8 == 8 * a);
        vstd::arithmetic::div_mod::lemma_div_denominator(8 * a, 8, 12500);
        vstd::arithmetic::div_mod::lemma_div_multiples_vanish(a, 8);
        assert(8 * 12500 == f);
        vstd::arithmetic::div_mod::lemma_div_is_ordered_by_denominator(a, 10000, 12500);
    }
}

/// Entries built by dividing a direction by its own length land near the
/// unit circle: with the cursor at least four pixels out, the quotients'
/// squares sum to `FP^2` give or take `ROT_NORM_TOL`.
pub proof fn lemma_direction_wf(dx: int, dy: int, m: int)
    requires
        -2000000000 <= dx <= 2000000000,
        -2000000000 <= dy <= 2000000000,
        dx * dx + dy * dy >= 160000000000,
        is_sqrt(dx * dx + dy * dy, m),
        0 <= m <= 3000000000,
    ensures
        m >= 400000,
        -(FP as int) <= (-dy) * (FP as int) / m <= FP as int,
        -(FP as int) <= dx * (FP as int) / m <= FP as int,
        (FP as int) * (FP as int) - (ROT_NORM_TOL as int)
            <= ((-dy) * (FP as int) / m) * ((-dy) * (FP as int) / m)
                + (dx * (FP as int) / m) * (dx * (FP as int) / m),
        ((-dy) * (FP as int) / m) * ((-dy) * (FP as int) / m)
            + (dx * (FP as int) / m) * (dx * (FP as int) / m)
            <= (FP as int) * (FP as int) + (ROT_NORM_TOL as int),
        i64::MIN < (-dy) * (FP as int) <= i64::MAX,
        i64::MIN < dx * (FP as int) <= i64::MAX,
{
    let f = FP as int;
    let u = -dy;
    let v = dx;
    let big = u * u + v * v;
    assert(big == dx * dx + dy * dy) by (nonlinear_arith)
        requires u == -dy, v == dx, big == u * u + v * v;
    // The bracketing pins m at or above four pixels.
    assert(m >= 400000) by (nonlinear_arith)
        requires big >= 160000000000, big < (m + 1) * (m + 1), m >= 0;
    // Each component is no longer than the whole vector.
    assert(u * u <= big && v * v <= big) by (nonlinear_arith)
        requires big == u * u + v * v;
    assert(-m <= u <= m && -m <= v <= m) by (nonlinear_arith)
        requires
            u * u <= big,
            v * v <= big,
            big < (m + 1) * (m + 1),
            m >= 0;
    assert(i64::MIN < u * f <= i64::MAX && i64::MIN < v * f <= i64::MAX)
        by (nonlinear_arith)
        requires -3000000000 <= u <= 3000000000, -3000000000 <= v <= 3000000000, f == 100000;
    let c = u * f / m;
    let s = v * f / m;
    lemma_fundamental_div_mod(u * f, m);
    lemma_fundamental_div_mod(v * f, m);
    vstd::arithmetic::div_mod::lemma_mod_bound(u * f, m);
    vstd::arithmetic::div_mod::lemma_mod_bound(v * f, m);
    let p1 = (u * f) % m;
    let p2 = (v * f) % m;
    assert(c * m == u * f - p1) by (nonlinear_arith)
        requires u * f == m * c + p1;
    assert(s * m == v * f - p2) by (nonlinear_arith)
        requires v * f == m * s + p2;
    // |c| <= F and |s| <= F, since |u|, |v| <= m.
    assert(-(m * f) <= u * f <= m * f && -(m * f) <= v * f <= m * f) by (nonlinear_arith)
        requires -m <= u <= m, -m <= v <= m, f > 0;
    assert(m * f == m * f && m * (-f) == -(m * f)) by (nonlinear_arith);
    vstd::arithmetic::div_mod::lemma_div_is_ordered(u * f, m * f, m);
    vstd::arithmetic::div_mod::lemma_div_is_ordered(-(m * f), u * f, m);
    vstd::arithmetic::div_mod::lemma_div_is_ordered(v * f, m * f, m);
    vstd::arithmetic::div_mod::lemma_div_is_ordered(-(m * f), v * f, m);
    vstd::arithmetic::div_mod::lemma_div_multiples_vanish(f, m);
    vstd::arithmetic::div_mod::lemma_div_multiples_vanish(-f, m);
    assert(-f <= c <= f && -f <= s <= f);
    // The squared norm, scaled by m^2, expands exactly.
    let t = c * c + s * s;
    assert(t * (m * m) == (c * m) * (c * m) + (s * m) * (s * m)) by (nonlinear_arith)
        requires t == c * c + s * s;
    assert((u * f - p1) * (u * f - p1)
        == f * f * (u * u) - 2 * f * (u * p1) + p1 * p1) by (nonlinear_arith);
    assert((v * f - p2) * (v * f - p2)
        == f * f * (v * v) - 2 * f * (v * p2) + p2 * p2) by (nonlinear_arith);
    assert(f * f * (u * u) + f * f * (v * v) == f * f * big) by (nonlinear_arith)
        requires big == u * u + v * v;
    assert(2 * f * (u * p1) + 2 * f * (v * p2) == 2 * f * (u * p1 + v * p2))
        by (nonlinear_arith);
    assert((u * f - p1) * (u * f - p1) + (v * f - p2) * (v * f - p2)
        == f * f * big - 2 * f * (u * p1 + v * p2) + p1 * p1 + p2 * p2);
    // Bound the three pieces.
    assert(-2 * (m * m) <= u * p1 + v * p2 <= 2 * (m * m)) by (nonlinear_arith)
        requires -m <= u <= m, -m <= v <= m, 0 <= p1 < m, 0 <= p2 < m;
    assert(0 <= p1 * p1 + p2 * p2 <= 2 * (m * m)) by (nonlinear_arith)
        requires 0 <= p1 < m, 0 <= p2 < m;
    assert(f * f * (m * m) <= f * f * big && f * f * big <= f * f * (m * m) + 2 * f * f * m)
        by (nonlinear_arith)
        requires m * m <= big, big < (m + 1) * (m + 1), f > 0, m >= 0;
    assert(-2 * f * (2 * (m * m)) <= -2 * f * (u * p1 + v * p2)
        && -2 * f * (u * p1 + v * p2) <= 2 * f * (2 * (m * m))) by (nonlinear_arith)
        requires -2 * (m * m) <= u * p1 + v * p2 <= 2 * (m * m), f > 0;
    // Combine into the two-sided norm bound.
    assert((c * m) * (c * m) == (u * f - p1) * (u * f - p1));
    assert((s * m) * (s * m) == (v * f - p2) * (v * f - p2));
    assert(t * (m * m) == f * f * big - 2 * f * (u * p1 + v * p2) + p1 * p1 + p2 * p2);
    assert(t * (m * m) <= f * f * (m * m) + 2 * f * f * m + 4 * f * (m * m) + 2 * (m * m))
        by (nonlinear_arith)
        requires
            t * (m * m) == f * f * big - 2 * f * (u * p1 + v * p2) + p1 * p1 + p2 * p2,
            f * f * big <= f * f * (m * m) + 2 * f * f * m,
            -2 * f * (u * p1 + v * p2) <= 2 * f * (2 * (m * m)),
            p1 * p1 + p2 * p2 <= 2 * (m * m),
            f == 100000;
    assert(t * (m * m) >= f * f * (m * m) - 4 * f * (m * m))
        by (nonlinear_arith)
        requires
            t * (m * m) == f * f * big - 2 * f * (u * p1 + v * p2) + p1 * p1 + p2 * p2,
            f * f * big >= f * f * (m * m),
            -2 * f * (u * p1 + v * p2) >= -2 * f * (2 * (m * m)),
            p1 * p1 + p2 * p2 >= 0,
            f == 100000;
    assert(t <= f * f + 8 * f) by (nonlinear_arith)
        requires
            t * (m * m) <= f * f * (m * m) + 2 * f * f * m + 4 * f * (m * m) + 2 * (m * m),
            m >= 4 * f,
            f == 100000;
    assert(t >= f * f - 8 * f) by (nonlinear_arith)
        requires
            t * (m * m) >= f * f * (m * m) - 4 * f * (m * m),
            m >= 4 * f,
            f == 100000;
}

/// `|a| <= m` implies `|a / f|` is at most `m / f`, plus one for the floor
/// on the negative side.
proof fn lemma_div_abs_bound(a: int, m: int, f: int)
    requires
        f > 0,
        m >= 0,
        -m <= a <= m,
    ensures
        iabs(a / f) <= m / f + 1,
{
    vstd::arithmetic::div_mod::lemma_div_is_ordered(a, m, f);
    vstd::arithmetic::div_mod::lemma_div_is_ordered(-m, a, f);
    assert((-m) / f >= -(m / f) - 1) by {
        lemma_fundamental_div_mod(m, f);
        vstd::arithmetic::div_mod::lemma_mod_bound(m, f);
        let q = m / f;
        let r = m % f;
        if r == 0 {
            assert(-m == (-q) * f + 0) by (nonlinear_arith)
                requires m == f * q + r, r == 0;
            vstd::arithmetic::div_mod::lemma_fundamental_div_mod_converse_div(-m, f, -q, 0);
        } else {
            assert(-m == (-q - 1) * f + (f - r)) by (nonlinear_arith)
                requires m == f * q + r;
            vstd::arithmetic::div_mod::lemma_fundamental_div_mod_converse_div(
                -m, f, -q - 1, f - r);
        }
    }
}

/// A square of a bounded value is bounded.
proof fn lemma_square_bound(x: int, m: int)
    requires
        m >= 0,
        -m <= x <= m,
    ensures
        0 <= x * x <= m * m,
{
    assert(0 <= x * x <= m * m) by (nonlinear_arith)
        requires -m <= x <= m, m >= 0;
}

} // verus!
