//! The scene: an ordered collection of transform objects (front first), a
//! spawn hot-zone, and the per-tick input dispatch and draw passes.
//!
//! One tick is `update` (dispatch the input sample front-to-back, promote
//! the consumer, drop dead objects, maybe spawn) followed by `draw`
//! (background, feedback resample of the previous frame through every live
//! transform, then the editing overlay).

use vstd::prelude::*;

verus! {

use crate::fixed::FP;
use crate::geom::{V2, Vec2, Rotation, Transform};
use crate::grid::{PixelGrid, BUF_LEN, write_px, write_px_blend};
use crate::object::{
    Hoverables, MouseClickState, ObjV, ScreenTransform, consumes, mi_next, in_buffer,
    in_canvas, hover_target, overlay_spec, HALF_W, HALF_H,
};

/// What the scene-level cursor hover can rest on: the spawn zone.
#[derive(Clone, Copy, PartialEq, Eq, Structural, Debug)]
pub enum WorldHoverMode {
    Add,
}

/// Which of the two draw passes run: both, the overlay only, or the
/// feedback resample only.
#[derive(Clone, Copy, PartialEq, Eq, Structural, Debug)]
pub enum EditMode {
    Dual,
    Edit,
    View,
}

/// Every object in the sequence satisfies the interactive invariant.
pub open spec fn objs_wf(s: Seq<ObjV>) -> bool {
    forall|j: int| 0 <= j < s.len() ==> (#[trigger] s[j]).wf()
}

/// `i` is the first index whose object absorbs the input sample.
pub open spec fn is_first_consumer(s: Seq<ObjV>, p: V2, i: int) -> bool {
    &&& 0 <= i < s.len()
    &&& consumes(s[i], p)
    &&& forall|j: int| 0 <= j < i ==> !consumes(#[trigger] s[j], p)
}

/// No object absorbs the input sample.
pub open spec fn no_consumer(s: Seq<ObjV>, p: V2) -> bool {
    forall|j: int| 0 <= j < s.len() ==> !consumes(#[trigger] s[j], p)
}

/// At most one index can be the first consumer.
pub proof fn lemma_first_consumer_unique(s: Seq<ObjV>, p: V2, i1: int, i2: int)
    requires
        is_first_consumer(s, p, i1),
        is_first_consumer(s, p, i2),
    ensures
        i1 == i2,
{
}

/// The object list after the input pass: objects up to and including
/// `cut` were fed the sample (the dispatch stopped at the first
/// consumer), those after it were not.
pub open spec fn after_input(s: Seq<ObjV>, p: V2, st: MouseClickState, cut: int) -> Seq<ObjV> {
    Seq::new(s.len(), |j: int| if j <= cut {
        mi_next(s[j], p, st)
    } else {
        s[j]
    })
}

/// Move the element at `i` to the front, keeping the rest in order.
pub open spec fn promote(s: Seq<ObjV>, i: int) -> Seq<ObjV> {
    s.remove(i).insert(0, s[i])
}

/// Drop every object whose dead flag is set.
pub open spec fn retain_live(s: Seq<ObjV>) -> Seq<ObjV> {
    s.filter(|o: ObjV| !o.dead)
}

/// The cursor rests on the spawn hot-zone.
pub open spec fn in_spawn_zone(p: V2) -> bool {
    &&& 2000000 < p.x < 8000000
    &&& 2000000 < p.y < 8000000
}

/// What holds of every freshly spawned object, whatever the random draw:
/// centred within fifty pixels of the buffer centre, scale in
/// `[0.495, 0.595]`, rotation within `0.05` radians of zero, fresh
/// interaction state.
pub open spec fn spawned_ok(o: ObjV) -> bool {
    &&& o.wf()
    &&& 45000000 <= o.transform.position.x <= 55000000
    &&& 45000000 <= o.transform.position.y <= 55000000
    &&& 49500 <= o.transform.scale <= 59500
    &&& -5000 <= o.transform.sin <= 5000
    &&& (FP as int) - 125 <= o.transform.cos <= FP as int
    &&& o.transform.alpha == 0xf0
    &&& o.hovering is None
    &&& o.grabbing is None
    &&& o.scale_start is None
    &&& !o.controls_visible
    &&& !o.dead
}

/// The object list `update` leaves behind, before any spawn: dispatch the
/// sample, promote the first consumer to the front, then drop the dead.
pub open spec fn update_base(s: Seq<ObjV>, pos: Option<V2>, st: MouseClickState) -> Seq<ObjV> {
    match pos {
        Some(p) => if exists|i: int| is_first_consumer(s, p, i) {
            let i = choose|i: int| is_first_consumer(s, p, i);
            retain_live(promote(after_input(s, p, st, i), i))
        } else {
            retain_live(after_input(s, p, st, s.len() - 1))
        },
        None => retain_live(s),
    }
}

/// The colour of the spawn-zone affordance: the hovering colour while the
/// cursor rests on the zone, the plain hoverable colour otherwise.
pub open spec fn spawn_color(h: Option<WorldHoverMode>) -> (u8, u8, u8) {
    if h == Some(WorldHoverMode::Add) {
        (0xDBu8, 0x32u8, 0x4Du8)
    } else {
        (0xA6u8, 0x26u8, 0x39u8)
    }
}

/// One column of the spawn-zone affordance, drawn in both orientations,
/// from row `zy` down.
pub open spec fn zone_rows(data: Seq<u8>, c: (u8, u8, u8), zx: int, zy: int) -> Seq<u8>
    decreases 80 - zy,
{
    if zy >= 80 {
        data
    } else {
        let f = FP as int;
        let d1 = write_px(data, V2 { x: zx * f, y: zy * f }, c);
        let d2 = write_px(d1, V2 { x: zy * f, y: zx * f }, c);
        zone_rows(d2, c, zx, zy + 1)
    }
}

/// The spawn-zone affordance, swept column by column.
pub open spec fn zone_cols(data: Seq<u8>, c: (u8, u8, u8), zx: int) -> Seq<u8>
    decreases 57 - zx,
{
    if zx >= 57 {
        data
    } else {
        zone_cols(zone_rows(data, c, zx, 20), c, zx + 1)
    }
}

/// The feedback compositing of one previous-frame pixel colour through the
/// transforms from index `k` on, in front-to-back order.
pub open spec fn feedback_pixel(data: Seq<u8>, s: Seq<ObjV>, k: int, p: V2, c: (u8, u8, u8))
    -> Seq<u8>
    decreases s.len() - k,
{
    if k >= s.len() {
        data
    } else {
        feedback_pixel(write_px_blend(data, s[k].transform, p, c), s, k + 1, p, c)
    }
}

/// The centre-relative position of buffer pixel `pi`.
pub open spec fn pixel_center(pi: int) -> V2 {
    V2 {
        x: (pi % 1000) * (FP as int) - HALF_W as int,
        y: (pi / 1000) * (FP as int) - HALF_H as int,
    }
}

/// The feedback pass from pixel `pi` on: every previous-frame pixel whose
/// first channel is not the background sentinel is composited through
/// every live transform at its centre-relative position; sentinel pixels
/// contribute nothing.
pub open spec fn feedback_from(data: Seq<u8>, s: Seq<ObjV>, last: Seq<u8>, pi: int) -> Seq<u8>
    decreases 1000000 - pi,
{
    if pi >= 1000000 {
        data
    } else {
        let d1 = if last[4 * pi] == 0xE3 {
            data
        } else {
            feedback_pixel(
                data, s, 0, pixel_center(pi),
                (last[4 * pi], last[4 * pi + 1], last[4 * pi + 2]))
        };
        feedback_from(d1, s, last, pi + 1)
    }
}

/// Every object's overlay, drawn back to front, so the front object
/// (index 0) lands on top.
pub open spec fn objects_overlay(data: Seq<u8>, s: Seq<ObjV>) -> Seq<u8>
    decreases s.len(),
{
    if s.len() == 0 {
        data
    } else {
        overlay_spec(objects_overlay(data, s.subrange(1, s.len() as int)), s[0])
    }
}

/// The scene.
pub struct World {
    /// Live objects, front (highest hit/draw priority) first.
    pub transforms: Vec<ScreenTransform>,
    /// Whether the cursor rested on the spawn zone at the last update.
    pub hovering: Option<WorldHoverMode>,
}

impl World {
    /// The objects' mathematical content, front first.
    pub open spec fn objs(self) -> Seq<ObjV> {
        self.transforms@.map_values(|o: ScreenTransform| o@)
    }

    /// Every object satisfies the interactive invariant.
    pub open spec fn wf(self) -> bool {
        objs_wf(self.objs())
    }

    /// A scene holding the single seed object: centred, scale `0.6`,
    /// rotation zero, opacity `0xf0`.
    pub fn new() -> (w: World)
        ensures
            w.wf(),
            w.hovering is None,
            w.objs().len() == 1,
            w.objs()[0].transform.position == (V2 { x: 50000000, y: 50000000 }),
            w.objs()[0].transform.cos == FP as int,
            w.objs()[0].transform.sin == 0,
            w.objs()[0].transform.scale == 60000,
            w.objs()[0].transform.alpha == 0xf0,
            w.objs()[0].hovering is None,
            w.objs()[0].grabbing is None,
            w.objs()[0].scale_start is None,
            !w.objs()[0].controls_visible,
            !w.objs()[0].dead,
    {
        let mut transforms: Vec<ScreenTransform> = Vec::new();
        let seed = ScreenTransform {
            transform: Transform {
                position: Vec2::new(50000000, 50000000),
                rotation: Rotation::identity(),
                scale: 60000,
                alpha: 0xf0,
            },
            hovering: None,
            grabbing: None,
            scale_start: None,
            controls_visible: false,
            dead: false,
        };
        transforms.push(seed);
        World { transforms, hovering: None }
    }

    /// One input tick. Dispatches the sample to the objects front-to-back
    /// (the first consumer stops the pass and is moved to the front),
    /// removes every object whose dead flag is set, refreshes the
    /// spawn-zone hover flag, and, on a press over the spawn zone, appends
    /// one randomised object at the back.
    pub fn update(&mut self, mouse_pos: Option<Vec2>, mouse_state: MouseClickState)
        requires
            old(self).wf(),
            (match mouse_pos {
                Some(p) => in_buffer(p@),
                None => true,
            }),
        ensures
            final(self).wf(),
            (match mouse_pos {
                Some(p) => final(self).hovering == (if in_spawn_zone(p@) {
                    Some(WorldHoverMode::Add)
                } else {
                    Option::<WorldHoverMode>::None
                }),
                None => final(self).hovering == old(self).hovering,
            }),
            ({
                let posv = (match mouse_pos {
                    Some(p) => Some(p@),
                    None => Option::<V2>::None,
                });
                let base = update_base(old(self).objs(), posv, mouse_state);
                if final(self).hovering is Some && mouse_state is Pressed {
                    &&& final(self).objs().len() == base.len() + 1
                    &&& final(self).objs().subrange(0, base.len() as int) == base
                    &&& spawned_ok(final(self).objs().last())
                } else {
                    final(self).objs() == base
                }
            }),
    {
        let ghost s0 = self.objs();
        let mut cut: Option<usize> = None;

        if let Some(pos) = mouse_pos {
            let mut i: usize = 0;
            while i < self.transforms.len()
                invariant_except_break
                    in_buffer(pos@),
                    s0 == old(self).objs(),
                    self.hovering == old(self).hovering,
                    self.transforms@.len() == s0.len(),
                    0 <= i <= s0.len(),
                    cut is None,
                    objs_wf(self.objs()),
                    forall|j: int| 0 <= j < i
                        ==> (#[trigger] self.transforms@[j])@ == mi_next(s0[j], pos@, mouse_state),
                    forall|j: int| 0 <= j < i ==> !consumes(#[trigger] s0[j], pos@),
                    forall|j: int| i <= j < s0.len()
                        ==> (#[trigger] self.transforms@[j])@ == s0[j],
                ensures
                    s0 == old(self).objs(),
                    self.hovering == old(self).hovering,
                    self.transforms@.len() == s0.len(),
                    objs_wf(self.objs()),
                    (match cut {
                        Some(ci) => {
                            &&& is_first_consumer(s0, pos@, ci as int)
                            &&& forall|j: int| 0 <= j <= ci as int
                                ==> (#[trigger] self.transforms@[j])@
                                    == mi_next(s0[j], pos@, mouse_state)
                            &&& forall|j: int| (ci as int) < j < s0.len()
                                ==> (#[trigger] self.transforms@[j])@ == s0[j]
                        },
                        None => {
                            &&& no_consumer(s0, pos@)
                            &&& forall|j: int| 0 <= j < s0.len()
                                ==> (#[trigger] self.transforms@[j])@
                                    == mi_next(s0[j], pos@, mouse_state)
                        },
                    }),
                decreases s0.len() - i,
            {
                let mut obj = self.transforms[i];
                proof {
                    assert(self.objs()[i as int] == obj@);
                    assert(self.objs()[i as int].wf());
                }
                let ghost before = self.objs();
                let consumed = obj.mouse_input(pos, mouse_state);
                self.transforms[i] = obj;
                proof {
                    let so = self.objs();
                    assert forall|j: int| 0 <= j < so.len() implies
                        (#[trigger] so[j]).wf() by {
                        assert(so[j] == self.transforms@[j]@);
                        if j != i as int {
                            assert(self.transforms@[j]@ == before[j]);
                            assert(before[j].wf());
                        }
                    };
                }
                if consumed {
                    cut = Some(i);
                    break ;
                }
                i = i + 1;
            }

            // Promote the consumer to the front of the draw/hit order.
            if let Some(ci) = cut {
                let ghost s1 = self.objs();
                let top = self.transforms.remove(ci);
                self.transforms.insert(0, top);
                proof {
                    assert(self.objs() =~= promote(s1, ci as int));
                    assert(self.objs() =~= promote(
                        after_input(s0, pos@, mouse_state, ci as int), ci as int)) by {
                        assert(s1 =~= after_input(s0, pos@, mouse_state, ci as int));
                    }
                }
            } else {
                proof {
                    assert(self.objs() =~= after_input(
                        s0, pos@, mouse_state, s0.len() - 1));
                }
            }
        }

        // Remove every object whose dead flag is set; front-to-back order
        // of the survivors is kept.
        let ghost s2 = self.objs();
        let mut kept: Vec<ScreenTransform> = Vec::new();
        let mut j: usize = 0;
        while j < self.transforms.len()
            invariant
                objs_wf(s2),
                s2 == self.objs(),
                self.transforms@.len() == s2.len(),
                0 <= j <= s2.len(),
                kept@.map_values(|o: ScreenTransform| o@)
                    == retain_live(s2.subrange(0, j as int)),
            decreases s2.len() - j,
        {
            proof {
                lemma_retain_live_step(s2, j as int);
            }
            if !self.transforms[j].dead {
                kept.push(self.transforms[j]);
                proof {
                    assert(kept@.map_values(|o: ScreenTransform| o@)
                        =~= retain_live(s2.subrange(0, j as int)).push(s2[j as int]));
                }
            }
            j = j + 1;
        }
        proof {
            assert(s2.subrange(0, s2.len() as int) =~= s2);
            lemma_retain_live_wf(s2);
        }
        self.transforms = kept;

        // Spawn-zone hover affordance.
        if let Some(pos) = mouse_pos {
            if pos.x > 2000000 && pos.x < 8000000 && pos.y > 2000000 && pos.y < 8000000 {
                self.hovering = Some(WorldHoverMode::Add);
            } else {
                self.hovering = None;
            }
        }

        proof {
            let posv = (match mouse_pos {
                Some(p) => Some(p@),
                None => Option::<V2>::None,
            });
            if mouse_pos is Some {
                let p = mouse_pos->0@;
                if cut is Some {
                    let ci = cut->0 as int;
                    assert(is_first_consumer(s0, p, ci));
                    let w = choose|i: int| is_first_consumer(s0, p, i);
                    lemma_first_consumer_unique(s0, p, w, ci);
                } else {
                    assert(no_consumer(s0, p));
                    assert(!(exists|i: int| is_first_consumer(s0, p, i)));
                }
            }
            assert(self.objs() == update_base(s0, posv, mouse_state));
        }

        // Spawn one randomised object on a press over the spawn zone.
        if self.hovering.is_some() && matches!(mouse_state, MouseClickState::Pressed) {
            let ghost base = self.objs();
            let rx = (random_u64() % 10000001) as i64;
            let ry = (random_u64() % 10000001) as i64;
            let rt = (random_u64() % 10001) as i64 - 5000;
            let rs = (random_u64() % 10001) as i64 + 49500;
            let fresh = ScreenTransform {
                transform: Transform {
                    position: Vec2::new(55000000 - rx, 55000000 - ry),
                    rotation: Rotation::from_small_angle(rt),
                    scale: rs,
                    alpha: 0xf0,
                },
                hovering: None,
                grabbing: None,
                scale_start: None,
                controls_visible: false,
                dead: false,
            };
            self.transforms.push(fresh);
            proof {
                assert(self.objs() =~= base.push(fresh@));
                assert(self.objs().subrange(0, base.len() as int) =~= base);
                assert(fresh@.wf());
                assert forall|j: int| 0 <= j < self.objs().len() implies
                    (#[trigger] self.objs()[j]).wf() by {
                    if j < base.len() {
                        assert(self.objs()[j] == base[j]);
                        assert(base[j].wf());
                    } else {
                        assert(self.objs()[j] == fresh@);
                    }
                }
            }
        }
    }
}

impl World {
    /// One draw tick over the double buffer. The frame becomes the static
    /// background, then (unless overlay-only) the feedback resample of the
    /// previous frame through every live transform, then (unless
    /// view-only) the spawn-zone affordance and every object's overlay,
    /// back to front; the previous-frame buffer becomes the post-feedback
    /// image, so UI chrome never feeds back into the next tick.
    pub fn draw(
        &self,
        clear_buffer: &PixelGrid,
        frame: &mut PixelGrid,
        last_frame_buffer: &mut PixelGrid,
        edit_mode: EditMode,
    )
        requires
            self.wf(),
            clear_buffer.wf(),
            old(frame).wf(),
            old(last_frame_buffer).wf(),
        ensures
            final(frame).wf(),
            final(last_frame_buffer).wf(),
            ({
                let fed = if edit_mode is Edit {
                    clear_buffer.0@
                } else {
                    feedback_from(
                        clear_buffer.0@, self.objs(), old(last_frame_buffer).0@, 0)
                };
                &&& final(last_frame_buffer).0@ == (if edit_mode is Edit {
                    old(last_frame_buffer).0@
                } else {
                    fed
                })
                &&& final(frame).0@ == (if edit_mode is View {
                    fed
                } else {
                    objects_overlay(
                        zone_cols(fed, spawn_color(self.hovering), 43), self.objs())
                })
            }),
    {
        let ghost s = self.objs();
        let ghost last0 = last_frame_buffer.0@;

        // Static background.
        let mut i: usize = 0;
        while i < BUF_LEN
            invariant
                clear_buffer.wf(),
                frame.0@.len() == BUF_LEN,
                0 <= i <= BUF_LEN,
                forall|j: int| 0 <= j < i as int ==> frame.0@[j] == clear_buffer.0@[j],
            decreases BUF_LEN - i,
        {
            frame.0[i] = clear_buffer.0[i];
            i = i + 1;
        }
        proof {
            assert(frame.0@ =~= clear_buffer.0@);
        }

        // Feedback pass: every non-sentinel pixel of the previous frame is
        // composited through every live transform.
        if matches!(edit_mode, EditMode::Dual) || matches!(edit_mode, EditMode::View) {
            let mut pi: usize = 0;
            while pi < 1000000
                invariant
                    self.wf(),
                    s == self.objs(),
                    frame.0@.len() == BUF_LEN,
                    last_frame_buffer.0@.len() == BUF_LEN,
                    last_frame_buffer.0@ == last0,
                    0 <= pi <= 1000000,
                    feedback_from(frame.0@, s, last0, pi as int)
                        == feedback_from(clear_buffer.0@, s, last0, 0),
                decreases 1000000 - pi,
            {
                let ghost pre = frame.0@;
                let base = pi * 4;
                if last_frame_buffer.0[base] != 0xE3 {
                    proof {
                        vstd::arithmetic::div_mod::lemma_div_is_ordered(
                            pi as int, 999999, 1000);
                        vstd::arithmetic::div_mod::lemma_fundamental_div_mod_converse_div(
                            999999, 1000, 999, 999);
                        vstd::arithmetic::div_mod::lemma_div_pos_is_pos(pi as int, 1000);
                        vstd::arithmetic::div_mod::lemma_mod_bound(pi as int, 1000);
                    }
                    let x = ((pi % 1000) as i64) * FP - HALF_W;
                    let y = ((pi / 1000) as i64) * FP - HALF_H;
                    let color: [u8; 3] = [
                        last_frame_buffer.0[base],
                        last_frame_buffer.0[base + 1],
                        last_frame_buffer.0[base + 2],
                    ];
                    let ghost cpx = (last0[4 * pi as int], last0[4 * pi as int + 1],
                        last0[4 * pi as int + 2]);
                    proof {
                        assert((color@[0], color@[1], color@[2]) == cpx);
                        assert((V2 { x: x as int, y: y as int }) == pixel_center(pi as int));
                    }
                    let mut k: usize = 0;
                    while k < self.transforms.len()
                        invariant
                            self.wf(),
                            s == self.objs(),
                            frame.0@.len() == BUF_LEN,
                            0 <= k <= s.len(),
                            -50000000 <= x <= 50000000,
                            -50000000 <= y <= 50000000,
                            (color@[0], color@[1], color@[2]) == cpx,
                            feedback_pixel(frame.0@, s, k as int,
                                V2 { x: x as int, y: y as int }, cpx)
                                == feedback_pixel(pre, s, 0,
                                    V2 { x: x as int, y: y as int }, cpx),
                        decreases self.transforms@.len() - k,
                    {
                        let ghost before = frame.0@;
                        let t = self.transforms[k].transform;
                        proof {
                            assert(self.objs()[k as int].wf());
                            assert(self.objs()[k as int].transform == t@);
                        }
                        frame.set_pixel_transformed(Vec2::new(x, y), &t, &color);
                        proof {
                            assert(feedback_pixel(before, s, k as int,
                                V2 { x: x as int, y: y as int }, cpx)
                                == feedback_pixel(frame.0@, s, k as int + 1,
                                    V2 { x: x as int, y: y as int }, cpx));
                        }
                        k = k + 1;
                    }
                    proof {
                        assert(feedback_from(pre, s, last0, pi as int)
                            == feedback_from(frame.0@, s, last0, pi as int + 1));
                    }
                } else {
                    proof {
                        assert(feedback_from(pre, s, last0, pi as int)
                            == feedback_from(frame.0@, s, last0, pi as int + 1));
                    }
                }
                pi = pi + 1;
            }
            proof {
                assert(frame.0@ == feedback_from(clear_buffer.0@, s, last0, 0));
            }
            // Snapshot: the fed-back image becomes the next tick's source,
            // before any overlay chrome lands on the frame.
            let mut ci: usize = 0;
            while ci < BUF_LEN
                invariant
                    frame.0@.len() == BUF_LEN,
                    last_frame_buffer.0@.len() == BUF_LEN,
                    0 <= ci <= BUF_LEN,
                    forall|j: int| 0 <= j < ci as int
                        ==> last_frame_buffer.0@[j] == frame.0@[j],
                decreases BUF_LEN - ci,
            {
                last_frame_buffer.0[ci] = frame.0[ci];
                ci = ci + 1;
            }
            proof {
                assert(last_frame_buffer.0@ =~= frame.0@);
            }
        }

        // Overlay pass: spawn-zone affordance, then every object's border
        // and handles, back to front so the front object draws on top.
        if matches!(edit_mode, EditMode::Dual) || matches!(edit_mode, EditMode::Edit) {
            let ghost dz = frame.0@;
            let add_color: [u8; 3] = if matches!(self.hovering, Some(WorldHoverMode::Add)) {
                [0xDB, 0x32, 0x4D]
            } else {
                [0xA6, 0x26, 0x39]
            };
            proof {
                match self.hovering {
                    Some(m) => {
                        assert(m == WorldHoverMode::Add);
                        assert(self.hovering == Some(WorldHoverMode::Add));
                    },
                    None => {},
                }
                assert((add_color@[0], add_color@[1], add_color@[2])
                    == spawn_color(self.hovering));
            }
            let ghost zc = spawn_color(self.hovering);
            let mut zx: i64 = 43;
            while zx < 57
                invariant
                    frame.0@.len() == BUF_LEN,
                    (add_color@[0], add_color@[1], add_color@[2]) == zc,
                    43 <= zx <= 57,
                    zone_cols(frame.0@, zc, zx as int) == zone_cols(dz, zc, 43),
                decreases 57 - zx,
            {
                let ghost pre = frame.0@;
                let mut zy: i64 = 20;
                while zy < 80
                    invariant
                        frame.0@.len() == BUF_LEN,
                        (add_color@[0], add_color@[1], add_color@[2]) == zc,
                        43 <= zx < 57,
                        20 <= zy <= 80,
                        zone_rows(frame.0@, zc, zx as int, zy as int)
                            == zone_rows(pre, zc, zx as int, 20),
                    decreases 80 - zy,
                {
                    let ghost before = frame.0@;
                    frame.set_pixel(Vec2::from_pixels(zx, zy), &add_color);
                    frame.set_pixel(Vec2::from_pixels(zy, zx), &add_color);
                    proof {
                        assert(zone_rows(before, zc, zx as int, zy as int)
                            == zone_rows(frame.0@, zc, zx as int, zy as int + 1));
                    }
                    zy = zy + 1;
                }
                proof {
                    assert(zone_cols(pre, zc, zx as int)
                        == zone_cols(frame.0@, zc, zx as int + 1));
                }
                zx = zx + 1;
            }
            let ghost dov = frame.0@;
            proof {
                assert(dov == zone_cols(dz, zc, 43));
            }
            let mut k: usize = self.transforms.len();
            while k > 0
                invariant
                    self.wf(),
                    s == self.objs(),
                    frame.0@.len() == BUF_LEN,
                    k <= s.len(),
                    frame.0@ == objects_overlay(dov, s.subrange(k as int, s.len() as int)),
                decreases k,
            {
                k = k - 1;
                let ghost before = frame.0@;
                let obj = self.transforms[k];
                proof {
                    assert(self.objs()[k as int].wf());
                    assert(self.objs()[k as int] == obj@);
                }
                obj.draw(frame);
                proof {
                    let tail = s.subrange(k as int, s.len() as int);
                    assert(tail.subrange(1, tail.len() as int)
                        =~= s.subrange(k as int + 1, s.len() as int));
                    assert(tail[0] == s[k as int]);
                    assert(objects_overlay(dov, tail)
                        == overlay_spec(objects_overlay(dov,
                            s.subrange(k as int + 1, s.len() as int)), s[k as int]));
                    assert(frame.0@ == objects_overlay(dov, tail));
                }
            }
            proof {
                assert(s.subrange(0, s.len() as int) =~= s);
                assert(frame.0@ == objects_overlay(dov, s));
            }
        }
    }
}

/// Dropping the dead keeps only objects of the original sequence, so
/// well-formedness survives the removal.
pub proof fn lemma_retain_live_wf(s: Seq<ObjV>)
    requires
        objs_wf(s),
    ensures
        objs_wf(retain_live(s)),
    decreases s.len(),
{
    reveal_with_fuel(Seq::filter, 2);
    let pred = |o: ObjV| !o.dead;
    if s.len() == 0 {
        assert(retain_live(s) =~= Seq::<ObjV>::empty());
    } else {
        assert(objs_wf(s.drop_last())) by {
            assert(forall|j: int| 0 <= j < s.len() - 1
                ==> #[trigger] s.drop_last()[j] == s[j]);
        }
        lemma_retain_live_wf(s.drop_last());
        let sub = retain_live(s.drop_last());
        let r = retain_live(s);
        assert(r == if pred(s.last()) {
            sub.push(s.last())
        } else {
            sub
        });
        assert forall|j: int| 0 <= j < r.len() implies (#[trigger] r[j]).wf() by {
            if j < sub.len() {
                assert(r[j] == sub[j]);
            } else {
                assert(r[j] == s.last());
                assert(s.last().wf());
            }
        }
    }
}

/// Dead removal on a sequence whose head alone is dead drops exactly the
/// head.
pub proof fn lemma_retain_live_head_dead(s: Seq<ObjV>)
    requires
        s.len() >= 1,
        s[0].dead,
        forall|j: int| 1 <= j < s.len() ==> !(#[trigger] s[j]).dead,
    ensures
        retain_live(s) == s.subrange(1, s.len() as int),
{
    let rest = s.subrange(1, s.len() as int);
    assert(s =~= seq![s[0]] + rest);
    assert(forall|j: int| 0 <= j < rest.len() ==> !(#[trigger] rest[j]).dead);
    lemma_retain_live_all(rest);
    reveal_with_fuel(Seq::filter, 2);
    Seq::<ObjV>::filter_distributes_over_add(seq![s[0]], rest, |o: ObjV| !o.dead);
    assert(seq![s[0]].filter(|o: ObjV| !o.dead) =~= Seq::<ObjV>::empty());
    assert(retain_live(s) =~= rest);
}

/// A sequence with no dead object is untouched by dead removal.
pub proof fn lemma_retain_live_all(s: Seq<ObjV>)
    requires
        forall|j: int| 0 <= j < s.len() ==> !(#[trigger] s[j]).dead,
    ensures
        retain_live(s) == s,
    decreases s.len(),
{
    reveal_with_fuel(Seq::filter, 2);
    if s.len() == 0 {
        assert(retain_live(s) =~= s);
    } else {
        assert(forall|j: int| 0 <= j < s.len() - 1
            ==> #[trigger] s.drop_last()[j] == s[j]);
        lemma_retain_live_all(s.drop_last());
        assert(retain_live(s) =~= s);
    }
}

/// The front-promotion law: when the cursor misses the canvases of every
/// object in front of the one at `i` and lands on that object's canvas,
/// and no object is grabbing or dying, one update moves exactly that
/// object (transitioned by its own state machine) to the front of the
/// collection and keeps every object: the objects that were tried first
/// follow it with their controls hidden, the rest are untouched.
pub proof fn lemma_front_promotion(s: Seq<ObjV>, p: V2, st: MouseClickState, i: int)
    requires
        0 <= i < s.len(),
        forall|j: int| 0 <= j < s.len() ==> (#[trigger] s[j]).grabbing is None,
        forall|j: int| 0 <= j < s.len() ==> !(#[trigger] s[j]).dead,
        forall|j: int| 0 <= j < i
            ==> !in_canvas((#[trigger] s[j]).transform.apply_inverse(p)),
        in_canvas(s[i].transform.apply_inverse(p)),
        !mi_next(s[i], p, st).dead,
    ensures
        update_base(s, Some(p), st).len() == s.len(),
        update_base(s, Some(p), st)[0] == mi_next(s[i], p, st),
        forall|j: int| 0 <= j < i
            ==> update_base(s, Some(p), st)[j + 1] == mi_next(#[trigger] s[j], p, st),
        forall|j: int| i < j < s.len()
            ==> #[trigger] update_base(s, Some(p), st)[j] == s[j],
{
    assert(consumes(s[i], p));
    assert(forall|j: int| 0 <= j < i ==> !consumes(#[trigger] s[j], p));
    assert(is_first_consumer(s, p, i));
    let w = choose|k: int| is_first_consumer(s, p, k);
    lemma_first_consumer_unique(s, p, w, i);
    let ai = after_input(s, p, st, i);
    let pr = promote(ai, i);
    assert(pr.len() == s.len());
    assert(pr[0] == ai[i]);
    assert(forall|j: int| 0 <= j < i ==> #[trigger] pr[j + 1] == ai[j]);
    assert(forall|j: int| i < j < s.len() ==> #[trigger] pr[j] == ai[j]);
    // A fed non-consumer only hides its controls, so nobody dies.
    assert forall|j: int| 0 <= j < pr.len() implies !(#[trigger] pr[j]).dead by {
        if j == 0 {
            assert(pr[j] == mi_next(s[i], p, st));
        } else if j <= i {
            assert(pr[j] == mi_next(s[j - 1], p, st));
            assert(!consumes(s[j - 1], p));
        } else {
            assert(pr[j] == s[j]);
        }
    }
    lemma_retain_live_all(pr);
    assert(update_base(s, Some(p), st) == pr);
}

/// The dead-removal law: a press on an object's delete handle (it is the
/// first consumer, it was not grabbing, and its local cursor falls on the
/// delete zone) removes exactly that object by the end of the update; the
/// survivors keep their order, the ones in front of it with their controls
/// hidden, the ones behind it untouched, and none of them refers to the
/// removed object's state.
#[verifier::rlimit(100)]
#[verifier::spinoff_prover]
pub proof fn lemma_dead_removal(s: Seq<ObjV>, p: V2, i: int)
    requires
        0 <= i < s.len(),
        forall|j: int| 0 <= j < s.len() ==> !(#[trigger] s[j]).dead,
        forall|j: int| 0 <= j < i ==> (#[trigger] s[j]).grabbing is None,
        forall|j: int| 0 <= j < i
            ==> !in_canvas((#[trigger] s[j]).transform.apply_inverse(p)),
        s[i].grabbing is None,
        in_canvas(s[i].transform.apply_inverse(p)),
        hover_target(s[i].transform.apply_inverse(p), s[i].transform.scale)
            == Some(Hoverables::Delete),
    ensures
        update_base(s, Some(p), MouseClickState::Pressed).len() == s.len() - 1,
        forall|j: int| 0 <= j < i
            ==> update_base(s, Some(p), MouseClickState::Pressed)[j]
                == mi_next(#[trigger] s[j], p, MouseClickState::Pressed),
        forall|j: int| i < j < s.len()
            ==> #[trigger] update_base(s, Some(p), MouseClickState::Pressed)[j - 1] == s[j],
{
    let st = MouseClickState::Pressed;
    assert(consumes(s[i], p));
    assert(forall|j: int| 0 <= j < i ==> !consumes(#[trigger] s[j], p));
    assert(is_first_consumer(s, p, i));
    let w = choose|k: int| is_first_consumer(s, p, k);
    lemma_first_consumer_unique(s, p, w, i);
    let ai = after_input(s, p, st, i);
    let pr = promote(ai, i);
    // The pressed object is dead after its transition; nothing else is.
    lemma_delete_press_kills(s[i], p);
    assert(pr[0] == ai[i] && ai[i] == mi_next(s[i], p, st));
    let rest = pr.subrange(1, pr.len() as int);
    assert(pr =~= seq![pr[0]] + rest);
    assert forall|j: int| 0 <= j < rest.len() implies !(#[trigger] rest[j]).dead by {
        assert(rest[j] == pr[j + 1]);
        if j < i {
            assert(pr[j + 1] == ai[j]);
            assert(ai[j] == mi_next(s[j], p, st));
            lemma_non_consumer_keeps_dead(s[j], p, st);
        } else {
            assert(pr[j + 1] == ai[j + 1]);
            assert(ai[j + 1] == s[j + 1]);
        }
    }
    lemma_retain_live_head_dead(pr);
    assert(retain_live(pr) == rest);
    assert(update_base(s, Some(p), st) == rest);
}

/// A press over an object's delete zone marks it dead.
proof fn lemma_delete_press_kills(o: ObjV, p: V2)
    requires
        o.grabbing is None,
        in_canvas(o.transform.apply_inverse(p)),
        hover_target(o.transform.apply_inverse(p), o.transform.scale)
            == Some(Hoverables::Delete),
    ensures
        mi_next(o, p, MouseClickState::Pressed).dead,
{
}

/// An object that does not absorb the sample keeps its dead flag.
proof fn lemma_non_consumer_keeps_dead(o: ObjV, p: V2, st: MouseClickState)
    requires
        !consumes(o, p),
    ensures
        mi_next(o, p, st).dead == o.dead,
{
}

/// One step of the incremental dead-removal argument: filtering one more
/// element extends the filtered prefix exactly when the element is live.
proof fn lemma_retain_live_step(s: Seq<ObjV>, j: int)
    requires
        0 <= j < s.len(),
    ensures
        !s[j].dead ==> retain_live(s.subrange(0, j + 1))
            == retain_live(s.subrange(0, j)).push(s[j]),
        s[j].dead ==> retain_live(s.subrange(0, j + 1)) == retain_live(s.subrange(0, j)),
{
    let pred = |o: ObjV| !o.dead;
    let a = s.subrange(0, j);
    let b = s.subrange(0, j + 1);
    assert(b =~= a.push(s[j]));
    assert(b.drop_last() =~= a);
    reveal_with_fuel(Seq::filter, 2);
    assert(b.filter(pred) == if pred(b.last()) {
        b.drop_last().filter(pred).push(b.last())
    } else {
        b.drop_last().filter(pred)
    });
}

/// Relies on `rand::random`: draws one machine-random 64-bit value.
/// Nothing is promised of the outcome; every caller must cope with every
/// value.
#[verifier::external_body]
fn random_u64() -> u64 {
    rand::random::<u64>()
}

} // verus!
