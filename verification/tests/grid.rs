use fractalical::FP;
use fractalical::geom::{Rotation, Transform, Vec2};
use fractalical::grid::{PixelGrid, BUF_LEN};

fn identity_at_origin(alpha: u8) -> Transform {
    Transform {
        position: Vec2::new(0, 0),
        rotation: Rotation::identity(),
        scale: FP,
        alpha,
    }
}

#[test]
fn set_pixel_writes_three_bytes() {
    let mut g = PixelGrid::new_filled(9);
    g.set_pixel(Vec2::new(2 * FP, 3 * FP), &[10, 20, 30]);
    let i = (2 + 3 * 1000) * 4;
    assert_eq!(&g.0[i..i + 4], &[10, 20, 30, 9]);
    assert_eq!(g.0.len(), BUF_LEN);
}

#[test]
fn set_pixel_clamps_out_of_range_coordinates() {
    // Far out of range on both axes: the write lands on the nearest
    // in-bounds pixel, never outside the buffer.
    let mut g = PixelGrid::new_filled(0);
    g.set_pixel(Vec2::new(-5 * FP, 2000 * FP), &[1, 2, 3]);
    let i = (0 + 999 * 1000) * 4;
    assert_eq!(&g.0[i..i + 3], &[1, 2, 3]);
    g.set_pixel(Vec2::new(i64::MAX / 2, -1), &[7, 8, 9]);
    let j = (999 + 0 * 1000) * 4;
    assert_eq!(&g.0[j..j + 3], &[7, 8, 9]);
    assert_eq!(g.0.len(), BUF_LEN);
}

#[test]
fn fractional_coordinates_truncate_to_their_pixel() {
    let mut g = PixelGrid::new_filled(0);
    // (4.7, 0.2) falls in the cell of pixel (4, 0).
    g.set_pixel(Vec2::new(470000, 20000), &[5, 6, 7]);
    assert_eq!(&g.0[16..19], &[5, 6, 7]);
}

#[test]
fn opaque_blend_equals_direct_overwrite() {
    let mut direct = PixelGrid::new_filled(77);
    let mut blended = PixelGrid::new_filled(77);
    let p = Vec2::new(5 * FP, 6 * FP);
    direct.set_pixel(p, &[200, 100, 50]);
    blended.set_pixel_transformed(p, &identity_at_origin(255), &[200, 100, 50]);
    let i = (5 + 6 * 1000) * 4;
    assert_eq!(&direct.0[i..i + 3], &blended.0[i..i + 3]);
    assert_eq!(&blended.0[i..i + 3], &[200, 100, 50]);
}

#[test]
fn transparent_blend_leaves_destination_unchanged() {
    let mut g = PixelGrid::new_filled(123);
    let p = Vec2::new(5 * FP, 6 * FP);
    g.set_pixel_transformed(p, &identity_at_origin(0), &[200, 100, 50]);
    assert!(g.0.iter().all(|&b| b == 123));
}

#[test]
fn partial_blend_mixes_channels() {
    let mut g = PixelGrid::new_filled(100);
    let p = Vec2::new(0, 0);
    g.set_pixel_transformed(p, &identity_at_origin(128), &[200, 0, 100]);
    // (100 * 127 + src * 128) / 255, rounded to nearest.
    assert_eq!(g.0[0] as u32, (100 * 127 + 200 * 128 + 127) / 255);
    assert_eq!(g.0[1] as u32, (100 * 127 + 0 * 128 + 127) / 255);
    assert_eq!(g.0[2] as u32, (100 * 127 + 100 * 128 + 127) / 255);
    assert_eq!(g.0[3], 100);
}

#[test]
fn blend_rounds_to_nearest_not_down() {
    // At opacity 1/255 a bright source still nudges a black destination
    // up by one: 200/255 rounds to 1, where truncation would lose it.
    let mut g = PixelGrid::new_filled(0);
    g.set_pixel_transformed(Vec2::new(0, 0), &identity_at_origin(1), &[200, 0, 0]);
    assert_eq!(g.0[0], 1);
    assert_eq!(g.0[1], 0);
}

#[test]
fn transformed_write_lands_at_the_mapped_pixel() {
    // Scale 0.5 around (100, 100): local (20, 40) maps to (110, 120).
    let t = Transform {
        position: Vec2::new(100 * FP, 100 * FP),
        rotation: Rotation::identity(),
        scale: FP / 2,
        alpha: 255,
    };
    let mut g = PixelGrid::new_filled(0);
    g.set_pixel_transformed(Vec2::new(20 * FP, 40 * FP), &t, &[9, 9, 9]);
    let i = (110 + 120 * 1000) * 4;
    assert_eq!(&g.0[i..i + 3], &[9, 9, 9]);
}

#[test]
fn blends_compound_in_call_order() {
    // Two half-opacity writes accumulate in place: the second reads what
    // the first wrote.
    let t = identity_at_origin(128);
    let mut g = PixelGrid::new_filled(0);
    let p = Vec2::new(0, 0);
    g.set_pixel_transformed(p, &t, &[255, 255, 255]);
    let once = g.0[0];
    g.set_pixel_transformed(p, &t, &[255, 255, 255]);
    let twice = g.0[0];
    assert_eq!(once as u32, (0 * 127 + 255 * 128 + 127) / 255);
    assert_eq!(twice as u32, (once as u32 * 127 + 255 * 128 + 127) / 255);
    assert!(twice > once);
}
