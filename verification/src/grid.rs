//! The RGBA framebuffer and its two write operations: a direct pixel write
//! for UI chrome, and a transform-mediated alpha-blended write used by the
//! feedback pass.
//!
//! Out-of-range coordinates are clamped componentwise onto the nearest
//! in-bounds pixel; no write ever lands outside the buffer.

use vstd::prelude::*;

verus! {

use crate::fixed::{FP, fdiv, clamp_spec, clamp_i64};
use crate::geom::{V2, Vec2, Transform, TransformV, COORD_LIMIT};
use vstd::arithmetic::div_mod::lemma_div_is_ordered;
use vstd::arithmetic::div_mod::lemma_div_pos_is_pos;
use vstd::arithmetic::div_mod::lemma_fundamental_div_mod_converse_div;

/// Buffer width in pixels.
pub const WIDTH: i64 = 1000;

/// Buffer height in pixels.
pub const HEIGHT: i64 = 1000;

/// Bytes in one frame: `WIDTH * HEIGHT * 4`.
pub const BUF_LEN: usize = 4000000;

/// The largest in-range x coordinate, in fixed-point units:
/// `(WIDTH - 1) * FP`.
pub const XMAX_FP: i64 = 99900000;

/// The largest in-range y coordinate, in fixed-point units:
/// `(HEIGHT - 1) * FP`.
pub const YMAX_FP: i64 = 99900000;

/// An owned RGBA framebuffer of `WIDTH x HEIGHT` pixels, row-major, four
/// bytes per pixel.
pub struct PixelGrid(pub Vec<u8>);

impl PixelGrid {
    /// The buffer length matches the fixed dimensions.
    pub open spec fn wf(self) -> bool {
        self.0@.len() == BUF_LEN
    }

    /// The in-bounds pixel column nearest to the fixed-point coordinate
    /// `x`.
    pub open spec fn col_of(x: int) -> int {
        clamp_spec(x / (FP as int), 0, WIDTH as int - 1)
    }

    /// The in-bounds pixel row nearest to the fixed-point coordinate `y`.
    pub open spec fn row_of(y: int) -> int {
        clamp_spec(y / (FP as int), 0, HEIGHT as int - 1)
    }

    /// Byte offset of the pixel nearest to `p`.
    pub open spec fn idx_of(p: V2) -> int {
        (Self::col_of(p.x) + Self::row_of(p.y) * (WIDTH as int)) * 4
    }

    /// Every point, however far out of range, maps to a byte offset whose
    /// three colour bytes lie inside the buffer.
    pub proof fn lemma_idx_in_bounds(p: V2)
        ensures
            0 <= Self::idx_of(p),
            Self::idx_of(p) + 2 < BUF_LEN as int,
    {
    }

    /// A fresh buffer filled with one byte value.
    pub fn new_filled(b: u8) -> (r: Self)
        ensures
            r.wf(),
            forall|i: int| 0 <= i < BUF_LEN as int ==> r.0@[i] == b,
    {
        let data: Vec<u8> = vec![b; BUF_LEN];
        PixelGrid(data)
    }

    /// Write one pixel's colour bytes directly, clamping the coordinates
    /// into range; the alpha byte at the target is untouched.
    pub fn set_pixel(&mut self, point: Vec2, pixel: &[u8; 3])
        requires
            old(self).wf(),
            point@.x > i64::MIN,
            point@.y > i64::MIN,
        ensures
            final(self).wf(),
            final(self).0@ == write_px(
                old(self).0@, point@, (pixel@[0], pixel@[1], pixel@[2])),
    {
        let i = Self::byte_index(point);
        self.0[i] = pixel[0];
        self.0[i + 1] = pixel[1];
        self.0[i + 2] = pixel[2];
    }

    /// Map `point` through `transform`, clamp, and alpha-blend the colour
    /// into the three colour bytes there, reading each destination byte
    /// before overwriting it.
    pub fn set_pixel_transformed(&mut self, point: Vec2, transform: &Transform, pixel: &[u8; 3])
        requires
            old(self).wf(),
            transform.wf(),
            -(COORD_LIMIT as int) <= point@.x <= COORD_LIMIT as int,
            -(COORD_LIMIT as int) <= point@.y <= COORD_LIMIT as int,
        ensures
            final(self).wf(),
            final(self).0@ == write_px_blend(
                old(self).0@, transform@, point@, (pixel@[0], pixel@[1], pixel@[2])),
    {
        let mapped = transform.apply(point);
        let i = Self::byte_index(mapped);
        let a = transform.alpha;
        self.0[i] = blend_byte(self.0[i], pixel[0], a);
        self.0[i + 1] = blend_byte(self.0[i + 1], pixel[1], a);
        self.0[i + 2] = blend_byte(self.0[i + 2], pixel[2], a);
    }

    /// Clamp a point into range and return its byte offset.
    fn byte_index(point: Vec2) -> (i: usize)
        requires
            point@.x > i64::MIN,
            point@.y > i64::MIN,
        ensures
            i as int == Self::idx_of(point@),
            i + 2 < BUF_LEN,
    {
        let cx = clamp_i64(point.x, 0, XMAX_FP);
        let cy = clamp_i64(point.y, 0, YMAX_FP);
        proof {
            lemma_clamp_div(point@.x);
            lemma_clamp_div(point@.y);
        }
        let px = fdiv(cx, FP);
        let py = fdiv(cy, FP);
        ((px + py * WIDTH) * 4) as usize
    }
}

/// The buffer after one direct pixel write: the colour's three bytes land
/// at the clamped coordinate's offset, everything else is untouched.
pub open spec fn write_px(data: Seq<u8>, p: V2, c: (u8, u8, u8)) -> Seq<u8> {
    let i = PixelGrid::idx_of(p);
    data.update(i, c.0).update(i + 1, c.1).update(i + 2, c.2)
}

/// The buffer after one transform-mediated write: the point is mapped
/// through the transform, clamped, and the colour is alpha-blended over
/// the three colour bytes there at the transform's opacity.
pub open spec fn write_px_blend(data: Seq<u8>, t: TransformV, p: V2, c: (u8, u8, u8)) -> Seq<u8> {
    let i = PixelGrid::idx_of(t.apply(p));
    let a = t.alpha;
    data.update(i, blend(data[i] as int, c.0 as int, a) as u8)
        .update(i + 1, blend(data[i + 1] as int, c.1 as int, a) as u8)
        .update(i + 2, blend(data[i + 2] as int, c.2 as int, a) as u8)
}

/// The "over" compositing of a source channel onto a destination channel
/// at opacity `a/255`, in integer arithmetic with the quotient rounded to
/// the nearest byte (the denominator is odd, so no tie can arise).
pub open spec fn blend(dst: int, src: int, a: int) -> int {
    (dst * (255 - a) + src * a + 127) / 255
}

/// Full opacity replaces the destination channel outright.
pub proof fn lemma_blend_opaque(dst: int, src: int)
    requires
        0 <= src <= 255,
    ensures
        blend(dst, src, 255) == src,
{
    assert(dst * 0 == 0) by (nonlinear_arith);
    assert(src * 255 + 127 == 255 * src + 127) by (nonlinear_arith);
    vstd::arithmetic::div_mod::lemma_hoist_over_denominator(127, src, 255);
    lemma_fundamental_div_mod_converse_div(127, 255, 0, 127);
}

/// Zero opacity leaves the destination channel unchanged.
pub proof fn lemma_blend_transparent(dst: int, src: int)
    requires
        0 <= dst <= 255,
    ensures
        blend(dst, src, 0) == dst,
{
    assert(src * 0 == 0) by (nonlinear_arith);
    assert(dst * 255 + 127 == 255 * dst + 127) by (nonlinear_arith);
    vstd::arithmetic::div_mod::lemma_hoist_over_denominator(127, dst, 255);
    lemma_fundamental_div_mod_converse_div(127, 255, 0, 127);
}

/// A blend of byte channels stays a byte.
pub proof fn lemma_blend_in_range(dst: int, src: int, a: int)
    requires
        0 <= dst <= 255,
        0 <= src <= 255,
        0 <= a <= 255,
    ensures
        0 <= blend(dst, src, a) <= 255,
{
    assert(0 <= dst * (255 - a) + src * a + 127 <= 65152) by (nonlinear_arith)
        requires 0 <= dst <= 255, 0 <= src <= 255, 0 <= a <= 255;
    lemma_div_pos_is_pos(dst * (255 - a) + src * a + 127, 255);
    lemma_div_is_ordered(dst * (255 - a) + src * a + 127, 65152, 255);
    lemma_fundamental_div_mod_converse_div(65152, 255, 255, 127);
}

/// One channel of the "over" operation, executable.
fn blend_byte(dst: u8, src: u8, a: u8) -> (r: u8)
    ensures
        r as int == blend(dst as int, src as int, a as int),
{
    proof {
        lemma_blend_in_range(dst as int, src as int, a as int);
    }
    let num: u32 = (dst as u32) * (255 - (a as u32)) + (src as u32) * (a as u32) + 127;
    (num / 255) as u8
}

/// Clamping a fixed-point coordinate and then taking its pixel cell agrees
/// with taking the cell first and clamping the cell index.
proof fn lemma_clamp_div(x: int)
    ensures
        clamp_spec(x, 0, 99900000) / 100000 == clamp_spec(x / 100000, 0, 999),
        0 <= clamp_spec(x, 0, 99900000) / 100000 <= 999,
{
    lemma_fundamental_div_mod_converse_div(99900000, 100000, 999, 0);
    if x < 0 {
        vstd::arithmetic::div_mod::lemma_div_is_ordered(x, -1, 100000);
        lemma_fundamental_div_mod_converse_div(-1, 100000, -1, 99999);
        vstd::arithmetic::div_mod::lemma_div_of0(100000);
    } else if x <= 99900000 {
        lemma_div_pos_is_pos(x, 100000);
        lemma_div_is_ordered(x, 99900000, 100000);
    } else {
        lemma_div_is_ordered(99900000, x, 100000);
        lemma_div_pos_is_pos(x, 100000);
    }
}

} // verus!
