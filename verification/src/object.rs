//! A single manipulable transform object: its manipulation handles, the
//! hover/grab/drag/delete state machine driven by one input sample per
//! tick, and the overlay that renders its border and handles.

use vstd::prelude::*;

verus! {

use crate::fixed::{FP, fdiv, isqrt, sqrt_floor, iabs, clamp_spec, clamp_i64};
use crate::geom::{V2, Vec2, Rotation, Transform, TransformV, SCALE_MIN, SCALE_MAX};
use crate::grid::{PixelGrid, WIDTH, HEIGHT, write_px_blend};
use vstd::arithmetic::div_mod::lemma_div_pos_is_pos;
use vstd::arithmetic::div_mod::lemma_div_is_ordered_by_denominator;
use vstd::arithmetic::div_mod::lemma_fundamental_div_mod_converse_div;

/// The distinct manipulation handles an object exposes.
#[derive(Clone, Copy, PartialEq, Eq, Structural, Debug)]
pub enum Hoverables {
    Rotate,
    Translate,
    Scale,
    Alpha,
    Delete,
}

/// The primary button's state for one tick: `Pressed` fires once on the
/// down-transition and `Released` once on the up-transition.
#[derive(Clone, Copy, PartialEq, Eq, Structural, Debug)]
pub enum MouseClickState {
    Pressed,
    Held,
    Released,
    Idle,
}

/// Half the canvas width in fixed-point units: `WIDTH / 2 * FP`.
pub const HALF_W: i64 = 50000000;

/// Half the canvas height in fixed-point units: `HEIGHT / 2 * FP`.
pub const HALF_H: i64 = 50000000;

/// Numerator of the handle inset: `15 * FP * FP`, so `INSET_NUM / scale`
/// is fifteen pixels of local space corrected for the current scale.
pub const INSET_NUM: i64 = 150000000000;

/// The scale-corrected handle inset: fifteen pixels divided by the scale
/// factor, in local fixed-point units.
pub open spec fn inset_spec(scale: int) -> int {
    (INSET_NUM as int) / scale
}

/// The cursor lies within the buffer.
pub open spec fn in_buffer(p: V2) -> bool {
    &&& 0 <= p.x <= (WIDTH as int) * (FP as int)
    &&& 0 <= p.y <= (HEIGHT as int) * (FP as int)
}

/// The local point lies on the object's canvas.
pub open spec fn in_canvas(l: V2) -> bool {
    &&& -(HALF_W as int) <= l.x <= HALF_W as int
    &&& -(HALF_H as int) <= l.y <= HALF_H as int
}

/// The arc band near the top edge that rotates the object.
pub open spec fn in_rotate_zone(l: V2, scale: int) -> bool {
    &&& -8500000 < l.x < 8500000
    &&& -(HALF_H as int) + inset_spec(scale) < l.y
        < -(HALF_H as int) + 7000000 + inset_spec(scale)
}

/// The cross-shaped region near the centre that drags the object.
pub open spec fn in_translate_zone(l: V2) -> bool {
    &&& -6500000 < l.x < 6500000
    &&& -6500000 < l.y < 6500000
}

/// The square near the bottom-right corner that rescales the object.
pub open spec fn in_scale_zone(l: V2, scale: int) -> bool {
    &&& (HALF_W as int) - 8500000 - inset_spec(scale) < l.x
        < (HALF_W as int) - inset_spec(scale)
    &&& (HALF_H as int) - 8500000 - inset_spec(scale) < l.y
        < (HALF_H as int) - inset_spec(scale)
}

/// The square near the top-left corner that deletes the object.
pub open spec fn in_delete_zone(l: V2, scale: int) -> bool {
    &&& -(HALF_W as int) + inset_spec(scale) < l.x
        < -(HALF_W as int) + 5000000 + inset_spec(scale)
    &&& -(HALF_H as int) + inset_spec(scale) < l.y
        < -(HALF_H as int) + 5000000 + inset_spec(scale)
}

/// Which handle, if any, the local point hovers, in fixed priority order.
pub open spec fn hover_target(l: V2, scale: int) -> Option<Hoverables> {
    if in_rotate_zone(l, scale) {
        Some(Hoverables::Rotate)
    } else if in_translate_zone(l) {
        Some(Hoverables::Translate)
    } else if in_scale_zone(l, scale) {
        Some(Hoverables::Scale)
    } else if in_delete_zone(l, scale) {
        Some(Hoverables::Delete)
    } else {
        None
    }
}

/// Hit-zones for distinct handles never overlap: across the whole
/// interactive scale range, no local point lies in two of them, so which
/// handle a point hovers never depends on the testing order.
pub proof fn lemma_handle_zones_disjoint(l: V2, scale: int)
    requires
        SCALE_MIN as int <= scale <= SCALE_MAX as int,
    ensures
        !(in_rotate_zone(l, scale) && in_translate_zone(l)),
        !(in_rotate_zone(l, scale) && in_scale_zone(l, scale)),
        !(in_rotate_zone(l, scale) && in_delete_zone(l, scale)),
        !(in_translate_zone(l) && in_scale_zone(l, scale)),
        !(in_translate_zone(l) && in_delete_zone(l, scale)),
        !(in_scale_zone(l, scale) && in_delete_zone(l, scale)),
{
    lemma_div_pos_is_pos(INSET_NUM as int, scale);
    lemma_div_is_ordered_by_denominator(INSET_NUM as int, SCALE_MIN as int, scale);
    lemma_div_is_ordered_by_denominator(INSET_NUM as int, scale, SCALE_MAX as int);
    lemma_fundamental_div_mod_converse_div(150000000000, 10000, 15000000, 0);
    lemma_fundamental_div_mod_converse_div(150000000000, 100000, 1500000, 0);
}

/// The cursor distance below which a rotate drag keeps the old angle: four
/// pixels squared, in squared fixed-point units.
pub const ROTATE_DEADZONE_SQ: i64 = 160000000000;

/// How a grabbed handle reshapes the transform from the raw cursor
/// position `p`.
pub open spec fn grab_step(t: TransformV, h: Hoverables, p: V2) -> TransformV {
    match h {
        Hoverables::Rotate => {
            let d = p.sub(t.position);
            if d.x * d.x + d.y * d.y >= ROTATE_DEADZONE_SQ as int {
                let m = sqrt_floor(d.x * d.x + d.y * d.y);
                TransformV {
                    cos: (-d.y) * (FP as int) / m,
                    sin: d.x * (FP as int) / m,
                    ..t
                }
            } else {
                t
            }
        },
        Hoverables::Translate => TransformV { position: p, ..t },
        Hoverables::Scale => {
            let d = p.sub(t.position);
            let m = sqrt_floor(d.x * d.x + d.y * d.y);
            TransformV {
                scale: clamp_spec(
                    m * (WIDTH as int) / ((HEIGHT as int) * 540),
                    SCALE_MIN as int,
                    SCALE_MAX as int,
                ),
                ..t
            }
        },
        _ => t,
    }
}

/// The mathematical content of a `ScreenTransform`: its view, and the
/// domain of the input transition function.
pub ghost struct ObjV {
    pub transform: TransformV,
    pub controls_visible: bool,
    pub hovering: Option<Hoverables>,
    pub grabbing: Option<Hoverables>,
    pub scale_start: Option<V2>,
    pub dead: bool,
}

impl ObjV {
    /// The object's transform satisfies the interactive invariant.
    pub open spec fn wf(self) -> bool {
        self.transform.wf()
    }
}

/// Whether one input sample is absorbed by this object: a grab always
/// consumes, and otherwise the cursor must land on the canvas.
pub open spec fn consumes(o: ObjV, p: V2) -> bool {
    o.grabbing is Some || in_canvas(o.transform.apply_inverse(p))
}

/// The complete transition of one object under one input sample.
pub open spec fn mi_next(o: ObjV, p: V2, st: MouseClickState) -> ObjV {
    match o.grabbing {
        Some(h) => ObjV {
            transform: grab_step(o.transform, h, p),
            hovering: None,
            grabbing: if st is Released {
                None
            } else {
                o.grabbing
            },
            ..o
        },
        None => {
            let l = o.transform.apply_inverse(p);
            if !in_canvas(l) {
                ObjV { controls_visible: false, ..o }
            } else {
                let h = hover_target(l, o.transform.scale);
                ObjV {
                    controls_visible: true,
                    hovering: h,
                    grabbing: if st is Pressed && (h == Some(Hoverables::Rotate)
                        || h == Some(Hoverables::Translate)
                        || h == Some(Hoverables::Scale)) {
                        h
                    } else {
                        o.grabbing
                    },
                    scale_start: if st is Pressed && h == Some(Hoverables::Scale) {
                        Some(p)
                    } else {
                        o.scale_start
                    },
                    dead: o.dead || (st is Pressed && h == Some(Hoverables::Delete)),
                    ..o
                }
            }
        },
    }
}

/// A transition never breaks the transform invariant.
pub proof fn lemma_mi_next_wf(o: ObjV, p: V2, st: MouseClickState)
    requires
        o.wf(),
        in_buffer(p),
    ensures
        mi_next(o, p, st).wf(),
{
    match o.grabbing {
        Some(h) => {
            lemma_grab_step_wf(o.transform, h, p);
        },
        None => {},
    }
}

/// A grab step never breaks the transform invariant.
pub proof fn lemma_grab_step_wf(t: TransformV, h: Hoverables, p: V2)
    requires
        t.wf(),
        in_buffer(p),
    ensures
        grab_step(t, h, p).wf(),
{
    match h {
        Hoverables::Rotate => {
            let d = p.sub(t.position);
            let m2 = d.x * d.x + d.y * d.y;
            if m2 >= ROTATE_DEADZONE_SQ as int {
                crate::fixed::lemma_sqrt_bounds(m2);
                let m = sqrt_floor(m2);
                assert(0 <= m2 <= 180000000000000000) by (nonlinear_arith)
                    requires
                        -300000000 <= d.x <= 300000000,
                        -300000000 <= d.y <= 300000000,
                        m2 == d.x * d.x + d.y * d.y;
                assert(m <= 3000000000) by (nonlinear_arith)
                    requires
                        m * m <= m2,
                        m2 <= 180000000000000000,
                        m >= 0;
                crate::geom::lemma_direction_wf(d.x, d.y, m);
            }
        },
        _ => {},
    }
}

/// The neutral colour of the border grid-lines.
pub open spec fn border_color() -> (u8, u8, u8) {
    (0x13u8, 0x1Bu8, 0x23u8)
}

/// The four-tier palette for a handle: the clicking colour while grabbed,
/// the hovering colour while hovered, the plain hoverable colour
/// otherwise.
pub open spec fn handle_color(o: ObjV, h: Hoverables) -> (u8, u8, u8) {
    if o.grabbing == Some(h) {
        (0x85u8, 0x1Eu8, 0x2Eu8)
    } else if o.hovering == Some(h) {
        (0xDBu8, 0x32u8, 0x4Du8)
    } else {
        (0xA6u8, 0x26u8, 0x39u8)
    }
}

/// One column of the border sweep: ten scale-corrected grid-line pixels
/// against the top and bottom canvas edges, from line `lw` up.
pub open spec fn border_col_band(data: Seq<u8>, t: TransformV, x: int, lw: int) -> Seq<u8>
    decreases 10 - lw,
{
    if lw >= 10 {
        data
    } else {
        let off = lw * 10000000000 / t.scale;
        let d1 = write_px_blend(
            data, t, V2 { x: x, y: -(HALF_H as int) + off }, border_color());
        let d2 = write_px_blend(
            d1, t, V2 { x: x, y: HALF_H as int - off }, border_color());
        border_col_band(d2, t, x, lw + 1)
    }
}

/// The vertical border sweep from column `x` to the right canvas edge,
/// stepped by the scale so the lines land on every screen pixel.
pub open spec fn border_cols(data: Seq<u8>, t: TransformV, x: int) -> Seq<u8>
    decreases HALF_W as int - x,
    when t.scale >= 1
{
    if x >= HALF_W as int {
        data
    } else {
        let d1 = border_col_band(data, t, x, 0);
        let nx = if x >= HALF_W as int - t.scale {
            HALF_W as int
        } else {
            x + t.scale
        };
        border_cols(d1, t, nx)
    }
}

/// One row of the border sweep: grid-line pixels against the left and
/// right canvas edges, from line `lw` up.
pub open spec fn border_row_band(data: Seq<u8>, t: TransformV, y: int, lw: int) -> Seq<u8>
    decreases 10 - lw,
{
    if lw >= 10 {
        data
    } else {
        let off = lw * 10000000000 / t.scale;
        let d1 = write_px_blend(
            data, t, V2 { x: -(HALF_W as int) + off, y: y }, border_color());
        let d2 = write_px_blend(
            d1, t, V2 { x: HALF_W as int - off, y: y }, border_color());
        border_row_band(d2, t, y, lw + 1)
    }
}

/// The horizontal border sweep from row `y` down to the bottom edge.
pub open spec fn border_rows(data: Seq<u8>, t: TransformV, y: int) -> Seq<u8>
    decreases HALF_H as int - y,
    when t.scale >= 1
{
    if y >= HALF_H as int {
        data
    } else {
        let d1 = border_row_band(data, t, y, 0);
        let ny = if y >= HALF_H as int - t.scale {
            HALF_H as int
        } else {
            y + t.scale
        };
        border_rows(d1, t, ny)
    }
}

/// One column of the rotate handle's arc band, from row `ay` out to the
/// outer arc.
pub open spec fn arc_rows(data: Seq<u8>, t: TransformV, c: (u8, u8, u8), ax: int, ay: int)
    -> Seq<u8>
    decreases sqrt_floor(10000 - ax * ax) - ay,
{
    if ay >= sqrt_floor(10000 - ax * ax) {
        data
    } else {
        let q = inset_spec(t.scale);
        let d1 = write_px_blend(data, t, V2 {
            x: ax * (FP as int),
            y: -ay * (FP as int) - (HALF_H as int) + 100 * (FP as int) + q,
        }, c);
        arc_rows(d1, t, c, ax, ay + 1)
    }
}

/// The rotate handle's arc band, swept column by column.
pub open spec fn arc_cols(data: Seq<u8>, t: TransformV, c: (u8, u8, u8), ax: int) -> Seq<u8>
    decreases 75 - ax,
{
    if ax >= 75 {
        data
    } else {
        let inner = sqrt_floor(5625 - ax * ax);
        let lo = if inner < 50 {
            50int
        } else {
            inner
        };
        arc_cols(arc_rows(data, t, c, ax, lo), t, c, ax + 1)
    }
}

/// One column of the rotate handle's two straight tails.
pub open spec fn tail_rows(data: Seq<u8>, t: TransformV, c: (u8, u8, u8), bx: int, by: int)
    -> Seq<u8>
    decreases bx - by,
{
    if by >= bx {
        data
    } else {
        let q = inset_spec(t.scale);
        let y = -by * (FP as int) - (HALF_H as int) + 100 * (FP as int) + q;
        let d1 = write_px_blend(data, t, V2 { x: bx * (FP as int), y: y }, c);
        let d2 = write_px_blend(d1, t, V2 { x: -bx * (FP as int), y: y }, c);
        tail_rows(d2, t, c, bx, by + 1)
    }
}

/// The rotate handle's tails, swept column by column.
pub open spec fn tail_cols(data: Seq<u8>, t: TransformV, c: (u8, u8, u8), bx: int) -> Seq<u8>
    decreases 85 - bx,
{
    if bx >= 85 {
        data
    } else {
        tail_cols(tail_rows(data, t, c, bx, 40), t, c, bx + 1)
    }
}

/// One column of the translate handle's central cross, drawn in both
/// orientations.
pub open spec fn cross_rows(data: Seq<u8>, t: TransformV, c: (u8, u8, u8), tx: int, ty: int)
    -> Seq<u8>
    decreases 40 - ty,
{
    if ty >= 40 {
        data
    } else {
        let d1 = write_px_blend(
            data, t, V2 { x: tx * (FP as int), y: ty * (FP as int) }, c);
        let d2 = write_px_blend(
            d1, t, V2 { x: ty * (FP as int), y: tx * (FP as int) }, c);
        cross_rows(d2, t, c, tx, ty + 1)
    }
}

/// The translate handle's cross, swept column by column.
pub open spec fn cross_cols(data: Seq<u8>, t: TransformV, c: (u8, u8, u8), tx: int) -> Seq<u8>
    decreases 10 - tx,
{
    if tx >= 10 {
        data
    } else {
        cross_cols(cross_rows(data, t, c, tx, -40), t, c, tx + 1)
    }
}

/// One column of the translate handle's four arrow tips.
pub open spec fn arrow_rows(data: Seq<u8>, t: TransformV, c: (u8, u8, u8), vx: int, vy: int)
    -> Seq<u8>
    decreases 25 - iabs(vx) - vy,
{
    if vy >= 25 - iabs(vx) {
        data
    } else {
        let f = FP as int;
        let d1 = write_px_blend(data, t, V2 { x: vx * f, y: (vy + 40) * f }, c);
        let d2 = write_px_blend(d1, t, V2 { x: vx * f, y: -(vy + 40) * f }, c);
        let d3 = write_px_blend(d2, t, V2 { x: (vy + 40) * f, y: vx * f }, c);
        let d4 = write_px_blend(d3, t, V2 { x: -(vy + 40) * f, y: vx * f }, c);
        arrow_rows(d4, t, c, vx, vy + 1)
    }
}

/// The translate handle's arrow tips, swept column by column.
pub open spec fn arrow_cols(data: Seq<u8>, t: TransformV, c: (u8, u8, u8), vx: int) -> Seq<u8>
    decreases 25 - vx,
{
    if vx >= 25 {
        data
    } else {
        arrow_cols(arrow_rows(data, t, c, vx, 0), t, c, vx + 1)
    }
}

/// One column of the scale handle's square bracket near the bottom-right
/// corner, drawn in both orientations.
pub open spec fn scalebox_rows(data: Seq<u8>, t: TransformV, c: (u8, u8, u8), sx: int, sy: int)
    -> Seq<u8>
    decreases 80 - sy,
{
    if sy >= 80 {
        data
    } else {
        let f = FP as int;
        let q = inset_spec(t.scale);
        let d1 = write_px_blend(data, t, V2 {
            x: sx * f + HALF_W as int - 8000000 - q,
            y: sy * f + HALF_H as int - 8000000 - q,
        }, c);
        let d2 = write_px_blend(d1, t, V2 {
            x: sy * f + HALF_W as int - 8000000 - q,
            y: sx * f + HALF_H as int - 8000000 - q,
        }, c);
        scalebox_rows(d2, t, c, sx, sy + 1)
    }
}

/// The scale handle's bracket, swept column by column.
pub open spec fn scalebox_cols(data: Seq<u8>, t: TransformV, c: (u8, u8, u8), sx: int) -> Seq<u8>
    decreases 80 - sx,
{
    if sx >= 80 {
        data
    } else {
        scalebox_cols(scalebox_rows(data, t, c, sx, 60), t, c, sx + 1)
    }
}

/// One column of the delete handle's two diagonal strokes near the
/// top-left corner.
pub open spec fn delete_rows(data: Seq<u8>, t: TransformV, c: (u8, u8, u8), dx: int, dy: int)
    -> Seq<u8>
    decreases 40 - dy,
{
    if dy >= 40 {
        data
    } else {
        let q = inset_spec(t.scale);
        let d1 = write_px_blend(data, t, V2 {
            x: (dx + dy) * 50000 - HALF_W as int + q,
            y: (dx - dy) * 50000 - HALF_H as int + q,
        }, c);
        let d2 = write_px_blend(d1, t, V2 {
            x: (dy + dx) * 50000 - HALF_W as int + q,
            y: (dy - dx) * 50000 + 4000000 - HALF_H as int + q,
        }, c);
        delete_rows(d2, t, c, dx, dy + 1)
    }
}

/// The delete handle's strokes, swept column by column.
pub open spec fn delete_cols(data: Seq<u8>, t: TransformV, c: (u8, u8, u8), dx: int) -> Seq<u8>
    decreases 50 - dx,
{
    if dx >= 50 {
        data
    } else {
        delete_cols(delete_rows(data, t, c, dx, -40), t, c, dx + 1)
    }
}

/// The complete overlay of one object: its border grid-lines always, and,
/// while its controls are visible, the four handles, each in the colour
/// the four-tier palette selects from the grab/hover state.
pub open spec fn overlay_spec(data: Seq<u8>, o: ObjV) -> Seq<u8> {
    let t = o.transform;
    let d1 = border_rows(border_cols(data, t, -(HALF_W as int)), t, -(HALF_H as int));
    if !o.controls_visible {
        d1
    } else {
        let rc = handle_color(o, Hoverables::Rotate);
        let tc = handle_color(o, Hoverables::Translate);
        let d2 = tail_cols(arc_cols(d1, t, rc, -75), t, rc, 40);
        let d3 = arrow_cols(cross_cols(d2, t, tc, -10), t, tc, -25);
        let d4 = scalebox_cols(d3, t, handle_color(o, Hoverables::Scale), 0);
        delete_cols(d4, t, handle_color(o, Hoverables::Delete), 30)
    }
}

/// A grab only ever engages on the handle hovered at the moment of the
/// press: whenever a transition changes the grab to a handle, that handle
/// is the new hover.
pub proof fn lemma_grab_needs_hover(o: ObjV, p: V2, st: MouseClickState)
    ensures
        (mi_next(o, p, st).grabbing != o.grabbing && mi_next(o, p, st).grabbing is Some)
            ==> mi_next(o, p, st).grabbing == mi_next(o, p, st).hovering,
{
}

/// An object over the canvas: one transform plus its interaction state.
#[derive(Clone, Copy)]
pub struct ScreenTransform {
    pub transform: Transform,
    pub controls_visible: bool,
    pub hovering: Option<Hoverables>,
    pub grabbing: Option<Hoverables>,
    pub scale_start: Option<Vec2>,
    pub dead: bool,
}

impl View for ScreenTransform {
    type V = ObjV;

    open spec fn view(&self) -> ObjV {
        ObjV {
            transform: self.transform@,
            controls_visible: self.controls_visible,
            hovering: self.hovering,
            grabbing: self.grabbing,
            scale_start: match self.scale_start {
                Some(v) => Some(v@),
                None => None,
            },
            dead: self.dead,
        }
    }
}

impl ScreenTransform {
    /// The object's transform satisfies the interactive invariant.
    pub open spec fn wf(self) -> bool {
        self@.wf()
    }

    /// Feed one input sample through the object's state machine. Returns
    /// whether the sample was absorbed by this object; the new state is
    /// exactly `mi_next` of the old.
    pub fn mouse_input(&mut self, pos: Vec2, mouse_state: MouseClickState) -> (consumed: bool)
        requires
            old(self).wf(),
            in_buffer(pos@),
        ensures
            final(self).wf(),
            final(self)@ == mi_next(old(self)@, pos@, mouse_state),
            consumed == consumes(old(self)@, pos@),
    {
        proof {
            lemma_mi_next_wf(old(self)@, pos@, mouse_state);
        }
        if let Some(grabbing) = self.grabbing {
            self.hovering = None;
            match grabbing {
                Hoverables::Rotate => {
                    let d = pos.sub(self.transform.position);
                    proof {
                        assert(0 <= d@.x * d@.x <= 90000000000000000
                            && 0 <= d@.y * d@.y <= 90000000000000000) by (nonlinear_arith)
                            requires
                                -300000000 <= d@.x <= 300000000,
                                -300000000 <= d@.y <= 300000000;
                    }
                    let xx = d.x.checked_mul(d.x).unwrap();
                    let yy = d.y.checked_mul(d.y).unwrap();
                    let m2 = xx.checked_add(yy).unwrap();
                    if m2 >= ROTATE_DEADZONE_SQ {
                        self.transform.rotation = Rotation::from_direction(d);
                    }
                },
                Hoverables::Translate => {
                    self.transform.position = pos;
                },
                Hoverables::Scale => {
                    let d = pos.sub(self.transform.position);
                    let m = d.magnitude();
                    let raw = fdiv(m.checked_mul(WIDTH).unwrap(), HEIGHT * 540);
                    self.transform.scale = clamp_i64(raw, SCALE_MIN, SCALE_MAX);
                },
                _ => {},
            }
            match mouse_state {
                MouseClickState::Released => {
                    self.grabbing = None;
                },
                _ => {},
            }
            return true;
        }
        let local_pos = self.transform.apply_inverse(pos);

        if local_pos.x < -HALF_W || local_pos.x > HALF_W || local_pos.y < -HALF_H
            || local_pos.y > HALF_H {
            self.controls_visible = false;
            return false;
        } else {
            self.controls_visible = true;
        }

        let q = inset_for(self.transform.scale);
        if local_pos.x > -8500000 && local_pos.x < 8500000 && local_pos.y > -HALF_H + q
            && local_pos.y < -HALF_H + 7000000 + q {
            self.hovering = Some(Hoverables::Rotate);
            match mouse_state {
                MouseClickState::Pressed => {
                    self.grabbing = Some(Hoverables::Rotate);
                },
                _ => {},
            }
        } else if local_pos.x > -6500000 && local_pos.x < 6500000 && local_pos.y > -6500000
            && local_pos.y < 6500000 {
            self.hovering = Some(Hoverables::Translate);
            match mouse_state {
                MouseClickState::Pressed => {
                    self.grabbing = Some(Hoverables::Translate);
                },
                _ => {},
            }
        } else if local_pos.x > HALF_W - 8500000 - q && local_pos.x < HALF_W - q
            && local_pos.y > HALF_H - 8500000 - q && local_pos.y < HALF_H - q {
            self.hovering = Some(Hoverables::Scale);
            match mouse_state {
                MouseClickState::Pressed => {
                    self.grabbing = Some(Hoverables::Scale);
                    self.scale_start = Some(pos);
                },
                _ => {},
            }
        } else if local_pos.x > -HALF_W + q && local_pos.x < -HALF_W + 5000000 + q
            && local_pos.y > -HALF_H + q && local_pos.y < -HALF_H + 5000000 + q {
            self.hovering = Some(Hoverables::Delete);
            match mouse_state {
                MouseClickState::Pressed => {
                    self.dead = true;
                },
                _ => {},
            }
        } else {
            self.hovering = None;
        }
        true
    }

    /// Render the object's border grid-lines and, while its controls are
    /// visible, its manipulation handles, coloured by hover/grab state:
    /// the buffer afterwards is exactly the `overlay_spec` fold of the
    /// buffer before.
    pub fn draw(&self, grid: &mut PixelGrid)
        requires
            self.wf(),
            old(grid).wf(),
        ensures
            final(grid).wf(),
            final(grid).0@ == overlay_spec(old(grid).0@, self@),
    {
        let ghost t_v = self.transform@;
        let ghost d0 = grid.0@;
        let unhoverable: [u8; 3] = [0x13, 0x1B, 0x23];
        let hoverable: [u8; 3] = [0xA6, 0x26, 0x39];
        let hovering_c: [u8; 3] = [0xDB, 0x32, 0x4D];
        let clicking: [u8; 3] = [0x85, 0x1E, 0x2E];
        let n = self.transform.scale;

        // Border grid-lines, ten pixels thick on screen, stepped so the
        // sweep lands on every screen pixel at the current scale.
        let mut x: i64 = -HALF_W;
        while x < HALF_W
            invariant
                self.wf(),
                grid.wf(),
                n == self.transform.scale,
                t_v == self.transform@,
                (unhoverable@[0], unhoverable@[1], unhoverable@[2]) == border_color(),
                -HALF_W <= x <= HALF_W,
                border_cols(grid.0@, t_v, x as int)
                    == border_cols(d0, t_v, -(HALF_W as int)),
            decreases HALF_W - x,
        {
            let ghost pre = grid.0@;
            let mut lw: i64 = 0;
            while lw < 10
                invariant
                    self.wf(),
                    grid.wf(),
                    n == self.transform.scale,
                    t_v == self.transform@,
                    (unhoverable@[0], unhoverable@[1], unhoverable@[2]) == border_color(),
                    -HALF_W <= x < HALF_W,
                    0 <= lw <= 10,
                    border_col_band(grid.0@, t_v, x as int, lw as int)
                        == border_col_band(pre, t_v, x as int, 0),
                decreases 10 - lw,
            {
                let off = line_offset(lw, n);
                let ghost before = grid.0@;
                grid.set_pixel_transformed(
                    Vec2::new(x, -HALF_H + off), &self.transform, &unhoverable);
                grid.set_pixel_transformed(
                    Vec2::new(x, HALF_H - off), &self.transform, &unhoverable);
                proof {
                    assert(border_col_band(before, t_v, x as int, lw as int)
                        == border_col_band(grid.0@, t_v, x as int, lw as int + 1));
                }
                lw = lw + 1;
            }
            proof {
                assert(border_cols(pre, t_v, x as int) == border_cols(
                    grid.0@,
                    t_v,
                    if x as int >= HALF_W as int - t_v.scale {
                        HALF_W as int
                    } else {
                        x as int + t_v.scale
                    },
                ));
            }
            if x >= HALF_W - n {
                x = HALF_W;
            } else {
                x = x + n;
            }
        }
        let ghost dc = grid.0@;
        proof {
            assert(dc == border_cols(d0, t_v, -(HALF_W as int)));
        }
        let mut y: i64 = -HALF_H;
        while y < HALF_H
            invariant
                self.wf(),
                grid.wf(),
                n == self.transform.scale,
                t_v == self.transform@,
                (unhoverable@[0], unhoverable@[1], unhoverable@[2]) == border_color(),
                -HALF_H <= y <= HALF_H,
                border_rows(grid.0@, t_v, y as int)
                    == border_rows(dc, t_v, -(HALF_H as int)),
            decreases HALF_H - y,
        {
            let ghost pre = grid.0@;
            let mut lw: i64 = 0;
            while lw < 10
                invariant
                    self.wf(),
                    grid.wf(),
                    n == self.transform.scale,
                    t_v == self.transform@,
                    (unhoverable@[0], unhoverable@[1], unhoverable@[2]) == border_color(),
                    -HALF_H <= y < HALF_H,
                    0 <= lw <= 10,
                    border_row_band(grid.0@, t_v, y as int, lw as int)
                        == border_row_band(pre, t_v, y as int, 0),
                decreases 10 - lw,
            {
                let off = line_offset(lw, n);
                let ghost before = grid.0@;
                grid.set_pixel_transformed(
                    Vec2::new(-HALF_W + off, y), &self.transform, &unhoverable);
                grid.set_pixel_transformed(
                    Vec2::new(HALF_W - off, y), &self.transform, &unhoverable);
                proof {
                    assert(border_row_band(before, t_v, y as int, lw as int)
                        == border_row_band(grid.0@, t_v, y as int, lw as int + 1));
                }
                lw = lw + 1;
            }
            proof {
                assert(border_rows(pre, t_v, y as int) == border_rows(
                    grid.0@,
                    t_v,
                    if y as int >= HALF_H as int - t_v.scale {
                        HALF_H as int
                    } else {
                        y as int + t_v.scale
                    },
                ));
            }
            if y >= HALF_H - n {
                y = HALF_H;
            } else {
                y = y + n;
            }
        }
        let ghost db = grid.0@;
        proof {
            assert(db == border_rows(dc, t_v, -(HALF_H as int)));
        }

        if !self.controls_visible {
            proof {
                assert(grid.0@ == overlay_spec(d0, self@));
            }
            return ;
        }
        let q = inset_for(n);

        // Rotate handle: an arc band near the top edge, with two straight
        // tails.
        let rotate_color = if matches!(self.grabbing, Some(Hoverables::Rotate)) {
            clicking
        } else if matches!(self.hovering, Some(Hoverables::Rotate)) {
            hovering_c
        } else {
            hoverable
        };
        let ghost rc = handle_color(self@, Hoverables::Rotate);
        proof {
            assert((rotate_color@[0], rotate_color@[1], rotate_color@[2]) == rc);
        }
        let mut ax: i64 = -75;
        while ax < 75
            invariant
                self.wf(),
                grid.wf(),
                n == self.transform.scale,
                t_v == self.transform@,
                q as int == inset_spec(t_v.scale),
                1500000 <= q <= 15000000,
                (rotate_color@[0], rotate_color@[1], rotate_color@[2]) == rc,
                -75 <= ax <= 75,
                arc_cols(grid.0@, t_v, rc, ax as int) == arc_cols(db, t_v, rc, -75),
            decreases 75 - ax,
        {
            let ghost pre = grid.0@;
            proof {
                assert(0 <= ax * ax <= 5625) by (nonlinear_arith)
                    requires -75 <= ax <= 75;
            }
            let outer = isqrt((10000 - ax * ax) as u64);
            let inner = isqrt((5625 - ax * ax) as u64);
            proof {
                assert(outer <= 100 && inner <= 100) by (nonlinear_arith)
                    requires
                        (outer as int) * (outer as int) <= 10000,
                        (inner as int) * (inner as int) <= 10000;
            }
            let lo: i64 = if inner < 50 {
                50
            } else {
                inner as i64
            };
            let mut ay: i64 = lo;
            while ay < outer as i64
                invariant
                    self.wf(),
                    grid.wf(),
                    n == self.transform.scale,
                    t_v == self.transform@,
                    q as int == inset_spec(t_v.scale),
                    1500000 <= q <= 15000000,
                    (rotate_color@[0], rotate_color@[1], rotate_color@[2]) == rc,
                    -75 <= ax < 75,
                    50 <= ay <= 100,
                    outer <= 100,
                    outer as int == sqrt_floor(10000 - (ax as int) * (ax as int)),
                    arc_rows(grid.0@, t_v, rc, ax as int, ay as int)
                        == arc_rows(pre, t_v, rc, ax as int, lo as int),
                decreases outer as i64 - ay,
            {
                let ghost before = grid.0@;
                grid.set_pixel_transformed(
                    Vec2::new(ax * FP, -ay * FP - HALF_H + 100 * FP + q),
                    &self.transform,
                    &rotate_color,
                );
                proof {
                    assert(arc_rows(before, t_v, rc, ax as int, ay as int)
                        == arc_rows(grid.0@, t_v, rc, ax as int, ay as int + 1));
                }
                ay = ay + 1;
            }
            proof {
                assert(arc_cols(pre, t_v, rc, ax as int)
                    == arc_cols(grid.0@, t_v, rc, ax as int + 1));
            }
            ax = ax + 1;
        }
        let ghost dt0 = grid.0@;
        proof {
            assert(dt0 == arc_cols(db, t_v, rc, -75));
        }
        let mut bx: i64 = 40;
        while bx < 85
            invariant
                self.wf(),
                grid.wf(),
                t_v == self.transform@,
                q as int == inset_spec(t_v.scale),
                1500000 <= q <= 15000000,
                (rotate_color@[0], rotate_color@[1], rotate_color@[2]) == rc,
                40 <= bx <= 85,
                tail_cols(grid.0@, t_v, rc, bx as int) == tail_cols(dt0, t_v, rc, 40),
            decreases 85 - bx,
        {
            let ghost pre = grid.0@;
            let mut by: i64 = 40;
            while by < bx
                invariant
                    self.wf(),
                    grid.wf(),
                    t_v == self.transform@,
                    q as int == inset_spec(t_v.scale),
                    1500000 <= q <= 15000000,
                    (rotate_color@[0], rotate_color@[1], rotate_color@[2]) == rc,
                    40 <= bx < 85,
                    40 <= by <= bx,
                    tail_rows(grid.0@, t_v, rc, bx as int, by as int)
                        == tail_rows(pre, t_v, rc, bx as int, 40),
                decreases bx - by,
            {
                let ghost before = grid.0@;
                grid.set_pixel_transformed(
                    Vec2::new(bx * FP, -by * FP - HALF_H + 100 * FP + q),
                    &self.transform,
                    &rotate_color,
                );
                grid.set_pixel_transformed(
                    Vec2::new(-bx * FP, -by * FP - HALF_H + 100 * FP + q),
                    &self.transform,
                    &rotate_color,
                );
                proof {
                    assert(tail_rows(before, t_v, rc, bx as int, by as int)
                        == tail_rows(grid.0@, t_v, rc, bx as int, by as int + 1));
                }
                by = by + 1;
            }
            proof {
                assert(tail_cols(pre, t_v, rc, bx as int)
                    == tail_cols(grid.0@, t_v, rc, bx as int + 1));
            }
            bx = bx + 1;
        }
        let ghost d2 = grid.0@;
        proof {
            assert(d2 == tail_cols(dt0, t_v, rc, 40));
        }

        // Translate handle: a cross at the centre with four arrow tips.
        let translate_color = if matches!(self.grabbing, Some(Hoverables::Translate)) {
            clicking
        } else if matches!(self.hovering, Some(Hoverables::Translate)) {
            hovering_c
        } else {
            hoverable
        };
        let ghost tc = handle_color(self@, Hoverables::Translate);
        proof {
            assert((translate_color@[0], translate_color@[1], translate_color@[2]) == tc);
        }
        let mut tx: i64 = -10;
        while tx < 10
            invariant
                self.wf(),
                grid.wf(),
                t_v == self.transform@,
                (translate_color@[0], translate_color@[1], translate_color@[2]) == tc,
                -10 <= tx <= 10,
                cross_cols(grid.0@, t_v, tc, tx as int) == cross_cols(d2, t_v, tc, -10),
            decreases 10 - tx,
        {
            let ghost pre = grid.0@;
            let mut ty: i64 = -40;
            while ty < 40
                invariant
                    self.wf(),
                    grid.wf(),
                    t_v == self.transform@,
                    (translate_color@[0], translate_color@[1], translate_color@[2]) == tc,
                    -10 <= tx < 10,
                    -40 <= ty <= 40,
                    cross_rows(grid.0@, t_v, tc, tx as int, ty as int)
                        == cross_rows(pre, t_v, tc, tx as int, -40),
                decreases 40 - ty,
            {
                let ghost before = grid.0@;
                grid.set_pixel_transformed(
                    Vec2::new(tx * FP, ty * FP), &self.transform, &translate_color);
                grid.set_pixel_transformed(
                    Vec2::new(ty * FP, tx * FP), &self.transform, &translate_color);
                proof {
                    assert(cross_rows(before, t_v, tc, tx as int, ty as int)
                        == cross_rows(grid.0@, t_v, tc, tx as int, ty as int + 1));
                }
                ty = ty + 1;
            }
            proof {
                assert(cross_cols(pre, t_v, tc, tx as int)
                    == cross_cols(grid.0@, t_v, tc, tx as int + 1));
            }
            tx = tx + 1;
        }
        let ghost da0 = grid.0@;
        proof {
            assert(da0 == cross_cols(d2, t_v, tc, -10));
        }
        let mut vx: i64 = -25;
        while vx < 25
            invariant
                self.wf(),
                grid.wf(),
                t_v == self.transform@,
                (translate_color@[0], translate_color@[1], translate_color@[2]) == tc,
                -25 <= vx <= 25,
                arrow_cols(grid.0@, t_v, tc, vx as int) == arrow_cols(da0, t_v, tc, -25),
            decreases 25 - vx,
        {
            let ghost pre = grid.0@;
            let limit: i64 = if vx < 0 {
                25 + vx
            } else {
                25 - vx
            };
            let mut vy: i64 = 0;
            while vy < limit
                invariant
                    self.wf(),
                    grid.wf(),
                    t_v == self.transform@,
                    (translate_color@[0], translate_color@[1], translate_color@[2]) == tc,
                    -25 <= vx < 25,
                    limit as int == 25 - iabs(vx as int),
                    0 <= vy <= limit <= 25,
                    arrow_rows(grid.0@, t_v, tc, vx as int, vy as int)
                        == arrow_rows(pre, t_v, tc, vx as int, 0),
                decreases limit - vy,
            {
                let ghost before = grid.0@;
                grid.set_pixel_transformed(
                    Vec2::new(vx * FP, (vy + 40) * FP), &self.transform, &translate_color);
                grid.set_pixel_transformed(
                    Vec2::new(vx * FP, -(vy + 40) * FP), &self.transform, &translate_color);
                grid.set_pixel_transformed(
                    Vec2::new((vy + 40) * FP, vx * FP), &self.transform, &translate_color);
                grid.set_pixel_transformed(
                    Vec2::new(-(vy + 40) * FP, vx * FP), &self.transform, &translate_color);
                proof {
                    assert(arrow_rows(before, t_v, tc, vx as int, vy as int)
                        == arrow_rows(grid.0@, t_v, tc, vx as int, vy as int + 1));
                }
                vy = vy + 1;
            }
            proof {
                assert(arrow_cols(pre, t_v, tc, vx as int)
                    == arrow_cols(grid.0@, t_v, tc, vx as int + 1));
            }
            vx = vx + 1;
        }
        let ghost d3 = grid.0@;
        proof {
            assert(d3 == arrow_cols(da0, t_v, tc, -25));
        }

        // Scale handle: a square bracket near the bottom-right corner.
        let scale_color = if matches!(self.grabbing, Some(Hoverables::Scale)) {
            clicking
        } else if matches!(self.hovering, Some(Hoverables::Scale)) {
            hovering_c
        } else {
            hoverable
        };
        let ghost sc = handle_color(self@, Hoverables::Scale);
        proof {
            assert((scale_color@[0], scale_color@[1], scale_color@[2]) == sc);
        }
        let mut sx: i64 = 0;
        while sx < 80
            invariant
                self.wf(),
                grid.wf(),
                t_v == self.transform@,
                q as int == inset_spec(t_v.scale),
                1500000 <= q <= 15000000,
                (scale_color@[0], scale_color@[1], scale_color@[2]) == sc,
                0 <= sx <= 80,
                scalebox_cols(grid.0@, t_v, sc, sx as int) == scalebox_cols(d3, t_v, sc, 0),
            decreases 80 - sx,
        {
            let ghost pre = grid.0@;
            let mut sy: i64 = 60;
            while sy < 80
                invariant
                    self.wf(),
                    grid.wf(),
                    t_v == self.transform@,
                    q as int == inset_spec(t_v.scale),
                    1500000 <= q <= 15000000,
                    (scale_color@[0], scale_color@[1], scale_color@[2]) == sc,
                    0 <= sx < 80,
                    60 <= sy <= 80,
                    scalebox_rows(grid.0@, t_v, sc, sx as int, sy as int)
                        == scalebox_rows(pre, t_v, sc, sx as int, 60),
                decreases 80 - sy,
            {
                let ghost before = grid.0@;
                grid.set_pixel_transformed(
                    Vec2::new(sx * FP + HALF_W - 8000000 - q, sy * FP + HALF_H - 8000000 - q),
                    &self.transform,
                    &scale_color,
                );
                grid.set_pixel_transformed(
                    Vec2::new(sy * FP + HALF_W - 8000000 - q, sx * FP + HALF_H - 8000000 - q),
                    &self.transform,
                    &scale_color,
                );
                proof {
                    assert(scalebox_rows(before, t_v, sc, sx as int, sy as int)
                        == scalebox_rows(grid.0@, t_v, sc, sx as int, sy as int + 1));
                }
                sy = sy + 1;
            }
            proof {
                assert(scalebox_cols(pre, t_v, sc, sx as int)
                    == scalebox_cols(grid.0@, t_v, sc, sx as int + 1));
            }
            sx = sx + 1;
        }
        let ghost d4 = grid.0@;
        proof {
            assert(d4 == scalebox_cols(d3, t_v, sc, 0));
        }

        // Delete handle: two diagonal strokes near the top-left corner.
        let delete_color = if matches!(self.grabbing, Some(Hoverables::Delete)) {
            clicking
        } else if matches!(self.hovering, Some(Hoverables::Delete)) {
            hovering_c
        } else {
            hoverable
        };
        let ghost dcr = handle_color(self@, Hoverables::Delete);
        proof {
            assert((delete_color@[0], delete_color@[1], delete_color@[2]) == dcr);
        }
        let mut dx: i64 = 30;
        while dx < 50
            invariant
                self.wf(),
                grid.wf(),
                t_v == self.transform@,
                q as int == inset_spec(t_v.scale),
                1500000 <= q <= 15000000,
                (delete_color@[0], delete_color@[1], delete_color@[2]) == dcr,
                30 <= dx <= 50,
                delete_cols(grid.0@, t_v, dcr, dx as int) == delete_cols(d4, t_v, dcr, 30),
            decreases 50 - dx,
        {
            let ghost pre = grid.0@;
            let mut dy: i64 = -40;
            while dy < 40
                invariant
                    self.wf(),
                    grid.wf(),
                    t_v == self.transform@,
                    q as int == inset_spec(t_v.scale),
                    1500000 <= q <= 15000000,
                    (delete_color@[0], delete_color@[1], delete_color@[2]) == dcr,
                    30 <= dx < 50,
                    -40 <= dy <= 40,
                    delete_rows(grid.0@, t_v, dcr, dx as int, dy as int)
                        == delete_rows(pre, t_v, dcr, dx as int, -40),
                decreases 40 - dy,
            {
                let ghost before = grid.0@;
                grid.set_pixel_transformed(
                    Vec2::new(
                        (dx + dy) * 50000 - HALF_W + q,
                        (dx - dy) * 50000 - HALF_H + q,
                    ),
                    &self.transform,
                    &delete_color,
                );
                grid.set_pixel_transformed(
                    Vec2::new(
                        (dy + dx) * 50000 - HALF_W + q,
                        (dy - dx) * 50000 + 4000000 - HALF_H + q,
                    ),
                    &self.transform,
                    &delete_color,
                );
                proof {
                    assert(delete_rows(before, t_v, dcr, dx as int, dy as int)
                        == delete_rows(grid.0@, t_v, dcr, dx as int, dy as int + 1));
                }
                dy = dy + 1;
            }
            proof {
                assert(delete_cols(pre, t_v, dcr, dx as int)
                    == delete_cols(grid.0@, t_v, dcr, dx as int + 1));
            }
            dx = dx + 1;
        }
        proof {
            assert(grid.0@ == delete_cols(d4, t_v, dcr, 30));
            assert(grid.0@ == overlay_spec(d0, self@));
        }
    }
}

/// One border line's offset into the canvas: `lw` screen pixels of
/// thickness, corrected for the current scale, in local fixed-point units.
fn line_offset(lw: i64, n: i64) -> (off: i64)
    requires
        0 <= lw < 10,
        SCALE_MIN <= n <= SCALE_MAX,
    ensures
        off as int == (lw as int) * 10000000000 / (n as int),
        0 <= off <= 9000000,
{
    proof {
        lemma_div_pos_is_pos(lw as int * 10000000000, n as int);
        lemma_div_is_ordered_by_denominator(lw as int * 10000000000, SCALE_MIN as int, n as int);
        vstd::arithmetic::div_mod::lemma_div_is_ordered(
            lw as int * 10000000000, 90000000000, SCALE_MIN as int);
        lemma_fundamental_div_mod_converse_div(90000000000, 10000, 9000000, 0);
    }
    fdiv(lw * 10000000000, n)
}

/// The scale-corrected handle inset, executable.
fn inset_for(scale: i64) -> (q: i64)
    requires
        SCALE_MIN <= scale <= SCALE_MAX,
    ensures
        q as int == inset_spec(scale as int),
        1500000 <= q <= 15000000,
{
    proof {
        lemma_div_pos_is_pos(INSET_NUM as int, scale as int);
        lemma_div_is_ordered_by_denominator(INSET_NUM as int, SCALE_MIN as int, scale as int);
        lemma_div_is_ordered_by_denominator(INSET_NUM as int, scale as int, SCALE_MAX as int);
        lemma_fundamental_div_mod_converse_div(150000000000, 10000, 15000000, 0);
        lemma_fundamental_div_mod_converse_div(150000000000, 100000, 1500000, 0);
    }
    fdiv(INSET_NUM, scale)
}

} // verus!
