use fractalical::FP;
use fractalical::geom::{Rotation, Transform, Vec2};
use fractalical::grid::PixelGrid;
use fractalical::object::{Hoverables, MouseClickState, ScreenTransform};
use fractalical::world::{EditMode, World, WorldHoverMode};

fn object_at(px: i64, py: i64, scale: i64) -> ScreenTransform {
    ScreenTransform {
        transform: Transform {
            position: Vec2::from_pixels(px, py),
            rotation: Rotation::identity(),
            scale,
            alpha: 0xf0,
        },
        controls_visible: false,
        hovering: None,
        grabbing: None,
        scale_start: None,
        dead: false,
    }
}

#[test]
fn world_starts_with_one_centred_seed() {
    let w = World::new();
    assert_eq!(w.transforms.len(), 1);
    let seed = &w.transforms[0];
    assert_eq!(seed.transform.position, Vec2::new(500 * FP, 500 * FP));
    assert_eq!(seed.transform.scale, 60000);
    assert_eq!((seed.transform.rotation.cos, seed.transform.rotation.sin), (FP, 0));
    assert_eq!(seed.transform.alpha, 0xf0);
    assert!(!seed.dead && !seed.controls_visible);
    assert!(seed.hovering.is_none() && seed.grabbing.is_none());
    assert!(w.hovering.is_none());
}

#[test]
fn translate_drag_scenario() {
    // Press in the centre of the seed object, drag right, release: the
    // grab engages on the translate handle, the position follows the raw
    // cursor, and the release clears the grab without moving it back.
    let mut obj = object_at(500, 500, 60000);
    let consumed = obj.mouse_input(Vec2::from_pixels(500, 500), MouseClickState::Pressed);
    assert!(consumed);
    assert_eq!(obj.hovering, Some(Hoverables::Translate));
    assert_eq!(obj.grabbing, Some(Hoverables::Translate));
    assert!(obj.controls_visible);

    let consumed = obj.mouse_input(Vec2::from_pixels(550, 500), MouseClickState::Held);
    assert!(consumed);
    assert_eq!(obj.transform.position, Vec2::from_pixels(550, 500));
    assert_eq!(obj.grabbing, Some(Hoverables::Translate));

    let consumed = obj.mouse_input(Vec2::from_pixels(550, 500), MouseClickState::Released);
    assert!(consumed);
    assert!(obj.grabbing.is_none());
    assert_eq!(obj.transform.position, Vec2::from_pixels(550, 500));
}

#[test]
fn cursor_off_canvas_is_not_consumed() {
    let mut obj = object_at(500, 500, 10000);
    // Scale 0.1: the canvas covers 450..550 on screen; (100, 100) misses.
    let consumed = obj.mouse_input(Vec2::from_pixels(100, 100), MouseClickState::Idle);
    assert!(!consumed);
    assert!(!obj.controls_visible);
    assert_eq!(obj.transform.position, Vec2::from_pixels(500, 500));
}

#[test]
fn rotate_drag_follows_cursor_direction() {
    let mut obj = object_at(500, 500, 60000);
    obj.grabbing = Some(Hoverables::Rotate);
    // Cursor straight above the centre: the zero angle.
    obj.mouse_input(Vec2::from_pixels(500, 400), MouseClickState::Held);
    assert_eq!((obj.transform.rotation.cos, obj.transform.rotation.sin), (FP, 0));
    // Cursor to the right: a quarter turn.
    obj.mouse_input(Vec2::from_pixels(600, 500), MouseClickState::Held);
    assert_eq!((obj.transform.rotation.cos, obj.transform.rotation.sin), (0, FP));
    // Within the four-pixel dead zone the angle is kept, and a release
    // ends the grab.
    obj.mouse_input(Vec2::from_pixels(500, 500), MouseClickState::Released);
    assert_eq!((obj.transform.rotation.cos, obj.transform.rotation.sin), (0, FP));
    assert!(obj.grabbing.is_none());
}

#[test]
fn scale_drag_clamps_into_range() {
    let mut obj = object_at(500, 500, 60000);
    obj.grabbing = Some(Hoverables::Scale);
    // Cursor on the centre: distance zero clamps up to the minimum.
    obj.mouse_input(Vec2::from_pixels(500, 500), MouseClickState::Held);
    assert_eq!(obj.transform.scale, 10000);
    // 499 pixels out: 49900000 / 540.
    obj.mouse_input(Vec2::from_pixels(999, 500), MouseClickState::Held);
    assert_eq!(obj.transform.scale, 49900000 / 540);
    // A very distant cursor clamps down to the maximum.
    obj.transform.position = Vec2::from_pixels(0, 0);
    obj.mouse_input(Vec2::from_pixels(999, 999), MouseClickState::Held);
    assert_eq!(obj.transform.scale, 100000);
}

#[test]
fn hover_priority_rotate_before_translate() {
    let mut obj = object_at(500, 500, 60000);
    // Local (0, -470): inside the rotate band at scale 0.6 (inset 25),
    // on screen at (500, 500 - 282).
    let consumed = obj.mouse_input(Vec2::from_pixels(500, 218), MouseClickState::Idle);
    assert!(consumed);
    assert_eq!(obj.hovering, Some(Hoverables::Rotate));
    assert!(obj.grabbing.is_none());
    // Empty canvas space still consumes but hovers nothing.
    let consumed = obj.mouse_input(Vec2::from_pixels(650, 650), MouseClickState::Idle);
    assert!(consumed);
    assert_eq!(obj.hovering, None);
}

#[test]
fn scale_press_records_the_drag_anchor() {
    let mut obj = object_at(500, 500, 60000);
    // Local (420, 420) lies in the scale square at scale 0.6 (inset 25);
    // on screen that is (752, 752).
    let cursor = Vec2::from_pixels(752, 752);
    let consumed = obj.mouse_input(cursor, MouseClickState::Pressed);
    assert!(consumed);
    assert_eq!(obj.hovering, Some(Hoverables::Scale));
    assert_eq!(obj.grabbing, Some(Hoverables::Scale));
    assert_eq!(obj.scale_start, Some(cursor));
}

#[test]
fn front_promotion_of_the_back_object() {
    // Three objects with disjoint canvases (scale 0.1: 100 pixels wide).
    let w0 = object_at(100, 100, 10000);
    let w1 = object_at(300, 100, 10000);
    let w2 = object_at(500, 100, 10000);
    let mut w = World { transforms: vec![w0, w1, w2], hovering: None };
    // Click inside the third (back-most) object's canvas.
    w.update(Some(Vec2::from_pixels(500, 100)), MouseClickState::Pressed);
    assert_eq!(w.transforms.len(), 3);
    assert_eq!(w.transforms[0].transform.position, Vec2::from_pixels(500, 100));
    assert_eq!(w.transforms[1].transform.position, Vec2::from_pixels(100, 100));
    assert_eq!(w.transforms[2].transform.position, Vec2::from_pixels(300, 100));
    assert!(w.transforms[0].controls_visible);
}

#[test]
fn delete_press_removes_exactly_that_object() {
    // The front object's delete zone at scale 0.1: local (-320, -320)
    // lands at (468, 468) on screen (inset 150 local, zone -350..-300).
    let target = object_at(500, 500, 10000);
    let other = object_at(100, 100, 10000);
    let mut w = World { transforms: vec![target, other], hovering: None };
    w.update(Some(Vec2::from_pixels(468, 468)), MouseClickState::Pressed);
    assert_eq!(w.transforms.len(), 1);
    assert_eq!(w.transforms[0].transform.position, Vec2::from_pixels(100, 100));
    assert!(w.transforms[0].grabbing.is_none());
    assert!(w.transforms[0].hovering.is_none());
    assert!(!w.transforms[0].dead);
}

#[test]
fn dead_objects_are_removed_even_without_a_cursor() {
    let mut gone = object_at(100, 100, 10000);
    gone.dead = true;
    let kept = object_at(300, 300, 10000);
    let mut w = World { transforms: vec![gone, kept], hovering: None };
    w.update(None, MouseClickState::Idle);
    assert_eq!(w.transforms.len(), 1);
    assert_eq!(w.transforms[0].transform.position, Vec2::from_pixels(300, 300));
}

#[test]
fn spawn_zone_click_appends_one_randomised_object() {
    let mut w = World::new();
    w.update(Some(Vec2::from_pixels(50, 50)), MouseClickState::Pressed);
    assert_eq!(w.hovering, Some(WorldHoverMode::Add));
    assert_eq!(w.transforms.len(), 2);
    let fresh = &w.transforms[1];
    assert!(49500 <= fresh.transform.scale && fresh.transform.scale <= 59500);
    assert!(-5000 <= fresh.transform.rotation.sin && fresh.transform.rotation.sin <= 5000);
    assert!(fresh.transform.rotation.cos >= FP - 125);
    assert!(45000000 <= fresh.transform.position.x && fresh.transform.position.x <= 55000000);
    assert!(45000000 <= fresh.transform.position.y && fresh.transform.position.y <= 55000000);
    assert_eq!(fresh.transform.alpha, 0xf0);
    assert!(!fresh.dead && !fresh.controls_visible);
    assert!(fresh.hovering.is_none() && fresh.grabbing.is_none());
    // The seed stays in front: a spawned object joins at the back.
    assert_eq!(w.transforms[0].transform.position, Vec2::from_pixels(500, 500));
}

#[test]
fn hovering_the_zone_without_press_spawns_nothing() {
    let mut w = World::new();
    w.update(Some(Vec2::from_pixels(50, 50)), MouseClickState::Held);
    assert_eq!(w.hovering, Some(WorldHoverMode::Add));
    assert_eq!(w.transforms.len(), 1);
    w.update(Some(Vec2::from_pixels(500, 900)), MouseClickState::Idle);
    assert_eq!(w.hovering, None);
}

#[test]
fn edit_mode_draw_leaves_the_previous_frame_alone() {
    let w = World::new();
    let clear = PixelGrid::new_filled(0xE3);
    let mut frame = PixelGrid::new_filled(0);
    let mut last = PixelGrid::new_filled(7);
    w.draw(&clear, &mut frame, &mut last, EditMode::Edit);
    assert!(last.0.iter().all(|&b| b == 7));
}

#[test]
fn edit_mode_draw_paints_the_spawn_affordance() {
    // Without a hover the zone square is drawn in the plain hoverable
    // colour; the seed object's border lands far from it.
    let w = World::new();
    let clear = PixelGrid::new_filled(0xE3);
    let mut frame = PixelGrid::new_filled(0);
    let mut last = PixelGrid::new_filled(7);
    w.draw(&clear, &mut frame, &mut last, EditMode::Edit);
    let i = (50 + 50 * 1000) * 4;
    assert_eq!(&frame.0[i..i + 3], &[0xA6, 0x26, 0x39]);
    // Outside every overlay region the background shows through.
    let j = (980 + 5 * 1000) * 4;
    assert_eq!(&frame.0[j..j + 3], &[0xE3, 0xE3, 0xE3]);
}

#[test]
fn view_mode_draw_snapshots_the_frame() {
    let w = World::new();
    let clear = PixelGrid::new_filled(0xE3);
    let mut frame = PixelGrid::new_filled(0);
    // A previous frame of background sentinel except one bright pixel.
    let mut last = PixelGrid::new_filled(0xE3);
    let i = (500 + 500 * 1000) * 4;
    last.0[i] = 0x10;
    last.0[i + 1] = 0x20;
    last.0[i + 2] = 0x30;
    w.draw(&clear, &mut frame, &mut last, EditMode::View);
    assert_eq!(last.0, frame.0);
}
