use verdant::actions;
use verdant::fixed::{fx, Fx};
use verdant::geometry::Rect;
use verdant::touch::{Thumbstick, TouchButton, TouchEvent, TouchId, TouchLayout, TouchPhase, TouchState};
use verdant::vec2::Vec2;

/// A layout roughly like the game's: a stick on the left, two buttons on
/// the right.
fn layout() -> TouchLayout {
    TouchLayout::new(Thumbstick::new(Vec2::from_ints(60, 200), fx(32)))
        .with_button(TouchButton::new(
            actions::use_tool(),
            Rect::from_ints(380, 180, 48, 48),
        ))
        .with_button(TouchButton::new(
            actions::interact(),
            Rect::from_ints(320, 210, 48, 48),
        ))
}

/// A touch event, tersely.
fn touch(id: u64, x: i32, y: i32, phase: TouchPhase) -> TouchEvent {
    TouchEvent {
        id: TouchId(id),
        position: Vec2::from_ints(x, y),
        phase,
    }
}

#[test]
fn a_touch_on_the_stick_produces_movement() {
    let layout = layout();
    let mut state = TouchState::new();
    // Straight down from the centre, at the edge of the stick.
    state.handle(touch(1, 60, 232, TouchPhase::Started), &layout);
    assert_eq!(state.movement(), Vec2::down());
    assert!(state.stick_held());
}

#[test]
fn touch_a_partly_pushed_stick_walks_slowly() {
    // Otherwise every touch is a sprint, and fine positioning on a phone
    // becomes impossible.
    let layout = layout();
    let mut state = TouchState::new();
    state.handle(touch(1, 60, 216, TouchPhase::Started), &layout);
    let length = state.movement().length();
    assert!(
        length > fx(0) && length < Fx::one(),
        "half deflection gave {length:?}"
    );
}

#[test]
fn a_thumb_dragged_past_the_edge_keeps_full_deflection() {
    let layout = layout();
    let mut state = TouchState::new();
    state.handle(touch(1, 60, 200, TouchPhase::Started), &layout);
    state.handle(touch(1, 60, 400, TouchPhase::Moved), &layout);
    let movement = state.movement();
    assert!((movement.length() - Fx::one()).abs() < fx(1) / fx(100));
    assert!(movement.y > Fx::zero(), "should still be pushing down");
}

#[test]
fn the_stick_never_exceeds_full_deflection() {
    let layout = layout();
    for (x, y) in [(0, 0), (480, 270), (60, 260), (-500, -500)] {
        let mut state = TouchState::new();
        state.handle(touch(1, 60, 200, TouchPhase::Started), &layout);
        state.handle(touch(1, x, y, TouchPhase::Moved), &layout);
        assert!(
            state.movement().length() <= Fx::one() + fx(1) / fx(100),
            "({x:?}, {y:?}) gave {:?}",
            state.movement().length()
        );
    }
}

#[test]
fn the_stick_is_forgiving_about_where_a_thumb_lands() {
    // A stick that must be hit exactly is a stick that is missed.
    let layout = layout();
    let mut state = TouchState::new();
    // Outside the radius but inside the grab margin.
    state.handle(touch(1, 60, 250, TouchPhase::Started), &layout);
    assert!(state.stick_held());
}

#[test]
fn a_touch_far_from_everything_claims_nothing() {
    let layout = layout();
    let mut state = TouchState::new();
    state.handle(touch(1, 240, 20, TouchPhase::Started), &layout);
    assert_eq!(state.movement(), Vec2::zero());
    assert!(state.pressed().is_empty());
    assert_eq!(state.touch_count(), 1, "but it is still tracked");
}

#[test]
fn a_touch_on_a_button_presses_it() {
    let layout = layout();
    let mut state = TouchState::new();
    state.handle(touch(1, 400, 200, TouchPhase::Started), &layout);
    assert!(state.is_pressed(actions::use_tool()));
    assert!(!state.is_pressed(actions::interact()));
}

#[test]
fn lifting_a_finger_releases_its_button() {
    let layout = layout();
    let mut state = TouchState::new();
    state.handle(touch(1, 400, 200, TouchPhase::Started), &layout);
    state.handle(touch(1, 400, 200, TouchPhase::Ended), &layout);
    assert!(!state.is_pressed(actions::use_tool()));
    assert_eq!(state.touch_count(), 0);
}

#[test]
fn a_cancelled_touch_releases_too() {
    // Android cancels touches when a system gesture takes over; a button
    // stuck down after that would be held forever.
    let layout = layout();
    let mut state = TouchState::new();
    state.handle(touch(1, 400, 200, TouchPhase::Started), &layout);
    state.handle(touch(1, 400, 200, TouchPhase::Cancelled), &layout);
    assert!(!state.is_pressed(actions::use_tool()));
}

#[test]
fn a_finger_keeps_its_button_when_it_slides_off() {
    // Thumbs move while pressing. Releasing on the slightest drift makes
    // a button feel broken.
    let layout = layout();
    let mut state = TouchState::new();
    state.handle(touch(1, 400, 200, TouchPhase::Started), &layout);
    state.handle(touch(1, 200, 100, TouchPhase::Moved), &layout);
    assert!(state.is_pressed(actions::use_tool()), "the press should survive");
}

#[test]
fn a_finger_that_started_on_nothing_cannot_press_by_sliding_on() {
    // The mirror of the rule above, and the reason claims are decided at
    // touch-down: a thumb resting on the stick sliding under a button
    // must not fire it.
    let layout = layout();
    let mut state = TouchState::new();
    state.handle(touch(1, 240, 20, TouchPhase::Started), &layout);
    state.handle(touch(1, 400, 200, TouchPhase::Moved), &layout);
    assert!(!state.is_pressed(actions::use_tool()));
}

#[test]
fn moving_and_acting_at_once_works() {
    // The whole point of tracking fingers separately: walking while
    // swinging a tool is the normal way to play.
    let layout = layout();
    let mut state = TouchState::new();
    state.handle(touch(1, 60, 232, TouchPhase::Started), &layout);
    state.handle(touch(2, 400, 200, TouchPhase::Started), &layout);
    assert_eq!(state.movement(), Vec2::down());
    assert!(state.is_pressed(actions::use_tool()));
}

#[test]
fn a_second_finger_does_not_steal_the_stick() {
    let layout = layout();
    let mut state = TouchState::new();
    state.handle(touch(1, 60, 232, TouchPhase::Started), &layout);
    state.handle(touch(2, 400, 200, TouchPhase::Started), &layout);
    state.handle(touch(2, 400, 210, TouchPhase::Moved), &layout);
    assert_eq!(state.movement(), Vec2::down(), "the stick should be unmoved");
}

#[test]
fn lifting_the_stick_finger_stops_movement() {
    let layout = layout();
    let mut state = TouchState::new();
    state.handle(touch(1, 60, 232, TouchPhase::Started), &layout);
    state.handle(touch(1, 60, 232, TouchPhase::Ended), &layout);
    assert_eq!(state.movement(), Vec2::zero());
    assert!(!state.stick_held());
}

#[test]
fn two_fingers_on_the_same_button_press_it_once() {
    let layout = layout();
    let mut state = TouchState::new();
    state.handle(touch(1, 400, 200, TouchPhase::Started), &layout);
    state.handle(touch(2, 410, 210, TouchPhase::Started), &layout);
    assert_eq!(state.pressed().len(), 1);
}

#[test]
fn overlapping_buttons_give_the_press_to_the_later_one() {
    let layout = TouchLayout::new(Thumbstick::new(Vec2::from_ints(0, 0), fx(1)))
        .with_button(TouchButton::new(
            actions::use_tool(),
            Rect::from_ints(100, 100, 80, 80),
        ))
        .with_button(TouchButton::new(
            actions::interact(),
            Rect::from_ints(120, 120, 20, 20),
        ));
    let mut state = TouchState::new();
    state.handle(touch(1, 125, 125, TouchPhase::Started), &layout);
    assert!(state.is_pressed(actions::interact()));
    assert!(!state.is_pressed(actions::use_tool()));
}

#[test]
fn clearing_releases_everything() {
    // Android does not send a lift for a touch in progress when the
    // activity pauses.
    let layout = layout();
    let mut state = TouchState::new();
    state.handle(touch(1, 60, 232, TouchPhase::Started), &layout);
    state.handle(touch(2, 400, 200, TouchPhase::Started), &layout);
    state.clear();
    assert_eq!(state.touch_count(), 0);
    assert_eq!(state.movement(), Vec2::zero());
    assert!(state.pressed().is_empty());
}

#[test]
fn a_move_for_an_unknown_finger_is_ignored() {
    // Events can arrive out of order across an activity pause.
    let layout = layout();
    let mut state = TouchState::new();
    state.handle(touch(9, 60, 232, TouchPhase::Moved), &layout);
    assert_eq!(state.touch_count(), 0);
    assert_eq!(state.movement(), Vec2::zero());
}

#[test]
fn the_stick_position_follows_the_finger() {
    let layout = layout();
    let mut state = TouchState::new();
    assert_eq!(state.stick_position(), None);
    state.handle(touch(1, 60, 200, TouchPhase::Started), &layout);
    state.handle(touch(1, 70, 210, TouchPhase::Moved), &layout);
    assert_eq!(state.stick_position(), Some(Vec2::from_ints(70, 210)));
}

#[test]
fn a_stick_at_its_centre_reads_as_neutral() {
    let layout = layout();
    let mut state = TouchState::new();
    state.handle(touch(1, 60, 200, TouchPhase::Started), &layout);
    assert_eq!(state.movement(), Vec2::zero());
}

#[test]
fn a_degenerate_stick_does_not_divide_by_zero() {
    let stick = Thumbstick::new(Vec2::zero(), Fx::zero());
    assert_eq!(stick.direction(Vec2::from_ints(5, 5)), Vec2::zero());
}

