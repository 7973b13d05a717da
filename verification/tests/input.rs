use verdant::actions;
use verdant::fixed::Fx;
use verdant::input::{Binding, DeviceState, GamepadAxis, InputMap, InputState, KeyCode, Leniency, MouseButton};
use verdant::vec2::Vec2;

trait ToF64 {
    fn to_f64(self) -> f64;
}

impl ToF64 for Fx {
    fn to_f64(self) -> f64 {
        self.to_raw() as f64 / 4294967296.0
    }
}

fn pressing(keys: &[KeyCode]) -> DeviceState {
    DeviceState {
        keys: keys.to_vec(),
        ..DeviceState::default()
    }
}

#[test]
fn an_action_reads_as_down_while_its_key_is_held() {
    let map = InputMap::with_defaults();
    let mut input = InputState::new();
    input.update(&map, &pressing(&[KeyCode::KeyE]));

    assert!(input.is_down(actions::interact()));
    assert!(input.just_pressed(actions::interact()));
    assert!(!input.is_down(actions::use_tool()));
}

#[test]
fn just_pressed_only_fires_on_the_first_tick() {
    let map = InputMap::with_defaults();
    let mut input = InputState::new();
    let held = pressing(&[KeyCode::KeyE]);

    input.update(&map, &held);
    assert!(input.just_pressed(actions::interact()));
    input.update(&map, &held);
    assert!(
        !input.just_pressed(actions::interact()),
        "a held key presses once"
    );
    assert!(input.is_down(actions::interact()));
}

#[test]
fn just_released_fires_on_the_tick_after_letting_go() {
    let map = InputMap::with_defaults();
    let mut input = InputState::new();
    input.update(&map, &pressing(&[KeyCode::KeyE]));
    input.update(&map, &pressing(&[]));

    assert!(input.just_released(actions::interact()));
    assert!(!input.is_down(actions::interact()));
}

#[test]
fn any_of_an_actions_bindings_triggers_it() {
    let map = InputMap::with_defaults();
    let mut input = InputState::new();

    input.update(&map, &pressing(&[KeyCode::Space]));
    assert!(input.is_down(actions::use_tool()), "the keyboard binding works");

    let mouse = DeviceState {
        mouse_buttons: vec![MouseButton::Left],
        ..DeviceState::default()
    };
    input.update(&map, &mouse);
    assert!(input.is_down(actions::use_tool()), "and so does the mouse binding");
}

#[test]
fn a_press_stays_buffered_for_the_configured_window() {
    let map = InputMap::with_defaults();
    let mut input = InputState::new();
    input.set_buffer_ticks(3);

    input.update(&map, &pressing(&[KeyCode::KeyE]));
    assert!(input.is_buffered(actions::interact()));

    // Released immediately, but the press is remembered.
    for tick in 0..2 {
        input.update(&map, &pressing(&[]));
        assert!(
            input.is_buffered(actions::interact()),
            "expired at tick {tick:?}"
        );
    }
    input.update(&map, &pressing(&[]));
    assert!(
        !input.is_buffered(actions::interact()),
        "the window should have closed"
    );
}

#[test]
fn consuming_a_buffered_press_stops_it_repeating() {
    let map = InputMap::with_defaults();
    let mut input = InputState::new();
    input.update(&map, &pressing(&[KeyCode::KeyE]));

    assert!(input.consume_buffered(actions::interact()));
    assert!(!input.is_buffered(actions::interact()));
    assert!(
        !input.consume_buffered(actions::interact()),
        "a press fires once"
    );
}

#[test]
fn movement_keys_produce_a_direction() {
    let map = InputMap::with_defaults();
    let mut input = InputState::new();

    input.update(&map, &pressing(&[KeyCode::KeyD]));
    assert_eq!(input.movement(), Vec2::right());

    input.update(&map, &pressing(&[KeyCode::KeyW]));
    assert_eq!(input.movement(), Vec2::up());
}

#[test]
fn arrow_keys_are_equivalent_to_wasd() {
    let map = InputMap::with_defaults();
    let mut input = InputState::new();
    input.update(&map, &pressing(&[KeyCode::ArrowLeft]));
    let arrows = input.movement();
    input.update(&map, &pressing(&[KeyCode::KeyA]));
    assert_eq!(arrows, input.movement());
}

#[test]
fn diagonal_movement_is_not_faster_than_cardinal() {
    let map = InputMap::with_defaults();
    let mut input = InputState::new();
    input.update(&map, &pressing(&[KeyCode::KeyW, KeyCode::KeyD]));

    let length = input.movement().length().to_f64();
    assert!((length - 1.0).abs() < 1e-5, "diagonal speed was {length:?}");
}

#[test]
fn opposite_keys_cancel() {
    let map = InputMap::with_defaults();
    let mut input = InputState::new();
    input.update(&map, &pressing(&[KeyCode::KeyA, KeyCode::KeyD]));
    assert_eq!(input.movement(), Vec2::zero());
}

#[test]
fn stick_movement_inside_the_dead_zone_is_ignored() {
    let map = InputMap::with_defaults();
    let mut input = InputState::new();
    let mut devices = DeviceState::default();
    devices.set_axis(GamepadAxis::LeftStickX, Fx::from_ratio(5, 100));

    input.update(&map, &devices);
    assert_eq!(
        input.movement(),
        Vec2::zero(),
        "a drifting stick must not walk"
    );
}

#[test]
fn lib_a_partly_pushed_stick_walks_slowly() {
    let map = InputMap::with_defaults();
    let mut input = InputState::new();
    let mut devices = DeviceState::default();
    devices.set_axis(GamepadAxis::LeftStickX, Fx::half());

    input.update(&map, &devices);
    assert_eq!(
        input.movement().x,
        Fx::half(),
        "analogue input must stay analogue"
    );
}

#[test]
fn a_pushed_stick_is_clamped_to_unit_length() {
    let map = InputMap::with_defaults();
    let mut input = InputState::new();
    let mut devices = DeviceState::default();
    devices.set_axis(GamepadAxis::LeftStickX, Fx::one());
    devices.set_axis(GamepadAxis::LeftStickY, Fx::one());

    input.update(&map, &devices);
    assert!(input.movement().length() <= Fx::one() + Fx::from_ratio(1, 1000));
}

#[test]
fn an_axis_binding_triggers_past_its_threshold() {
    let mut map = InputMap::new();
    map.bind(
        actions::sprint(),
        Binding::GamepadAxis {
            axis: GamepadAxis::RightStickY,
            positive: false,
        },
    );
    let mut input = InputState::new();

    let mut devices = DeviceState::default();
    devices.set_axis(GamepadAxis::RightStickY, Fx::from_ratio(-2, 10));
    input.update(&map, &devices);
    assert!(!input.is_down(actions::sprint()), "below the threshold");

    devices.set_axis(GamepadAxis::RightStickY, Fx::from_ratio(-9, 10));
    input.update(&map, &devices);
    assert!(input.is_down(actions::sprint()));
}

#[test]
fn rebinding_replaces_the_control() {
    let mut map = InputMap::new();
    map.bind(actions::use_tool(), Binding::Key(KeyCode::Space));
    map.unbind(actions::use_tool(), Binding::Key(KeyCode::Space));
    map.bind(actions::use_tool(), Binding::Key(KeyCode::KeyF));

    let mut input = InputState::new();
    input.update(&map, &pressing(&[KeyCode::Space]));
    assert!(!input.is_down(actions::use_tool()));
    input.update(&map, &pressing(&[KeyCode::KeyF]));
    assert!(input.is_down(actions::use_tool()));
}

#[test]
fn duplicate_bindings_are_ignored() {
    let mut map = InputMap::new();
    map.bind(actions::use_tool(), Binding::Key(KeyCode::Space));
    map.bind(actions::use_tool(), Binding::Key(KeyCode::Space));
    assert_eq!(map.bindings_for(actions::use_tool()).len(), 1);
}

#[test]
fn binding_conflicts_can_be_discovered() {
    let map = InputMap::with_defaults();
    // Escape is deliberately bound to both cancel and menu.
    let conflicts = map.actions_bound_to(Binding::Key(KeyCode::Escape));
    assert!(conflicts.contains(&actions::cancel()));
    assert!(conflicts.contains(&actions::menu()));
}

#[test]
fn losing_focus_releases_everything() {
    let map = InputMap::with_defaults();
    let mut input = InputState::new();
    input.update(&map, &pressing(&[KeyCode::KeyE, KeyCode::KeyW]));
    assert!(input.is_down(actions::interact()));

    input.release_all();
    assert!(!input.is_down(actions::interact()));
    assert!(!input.is_buffered(actions::interact()));
    assert_eq!(input.movement(), Vec2::zero());
}

#[test]
fn leniency_keeps_a_lapsed_condition_available() {
    let mut coyote = Leniency::new(3);
    coyote.update(true);
    assert!(coyote.is_available());

    for _ in 0..2 {
        coyote.update(false);
        assert!(coyote.is_available(), "still within the grace window");
    }
    coyote.update(false);
    assert!(!coyote.is_available());
}

#[test]
fn consuming_leniency_ends_it_immediately() {
    let mut coyote = Leniency::new(5);
    coyote.update(true);
    coyote.consume();
    assert!(!coyote.is_available());
}

#[test]
fn determinism_the_same_event_sequence_resolves_identically() {
    let map = InputMap::with_defaults();
    let sequence = [
        pressing(&[KeyCode::KeyW]),
        pressing(&[KeyCode::KeyW, KeyCode::KeyD]),
        pressing(&[KeyCode::KeyD, KeyCode::KeyE]),
        pressing(&[]),
    ];
    let run = || {
        let mut input = InputState::new();
        let mut trace = Vec::new();
        for devices in &sequence {
            input.update(&map, devices);
            trace.push((
                input.movement().x.to_raw(),
                input.movement().y.to_raw(),
                input.is_down(actions::interact()),
                input.is_buffered(actions::interact()),
            ));
        }
        trace
    };
    assert_eq!(run(), run());
}

