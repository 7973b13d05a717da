//! Action maps, input snapshots, buffering and leniency.
//!
//! Gameplay asks whether an action happened, never whether a key is down:
//! bindings route device controls to named actions, and [`InputState`] is a
//! snapshot taken once per tick, which is what makes input recordable and
//! replays exact.
use crate::action_table::{Action, ActionTable};
use crate::actions;
use crate::fixed::{fx_add, fx_mul, fx_neg, fx_ratio, fx_sub, Fx};
use crate::vec2::{v2, v2_length, v2_length_squared, v2_normalize, v2_scale, Vec2};
use std::ops::Neg;
use vstd::prelude::*;

verus! {

/// The bindings [`InputMap::with_defaults`] gives each action: a key and a
/// gamepad button each, and the left mouse button for using a tool; Escape
/// both cancels and opens the menu.
pub open spec fn default_bindings(name: Seq<char>) -> Seq<Binding> {
    if name == "interact"@ {
        seq![Binding::Key(KeyCode::KeyE), Binding::GamepadButton(GamepadButton::South)]
    } else if name == "use"@ {
        seq![
            Binding::Key(KeyCode::Space),
            Binding::MouseButton(MouseButton::Left),
            Binding::GamepadButton(GamepadButton::West),
        ]
    } else if name == "cancel"@ {
        seq![Binding::Key(KeyCode::Escape), Binding::GamepadButton(GamepadButton::East)]
    } else if name == "inventory"@ {
        seq![Binding::Key(KeyCode::Tab), Binding::GamepadButton(GamepadButton::North)]
    } else if name == "menu"@ {
        seq![Binding::Key(KeyCode::Escape), Binding::GamepadButton(GamepadButton::Start)]
    } else if name == "sprint"@ {
        seq![Binding::Key(KeyCode::ShiftLeft), Binding::GamepadButton(GamepadButton::LeftStick)]
    } else if name == "next_slot"@ {
        seq![
            Binding::Key(KeyCode::BracketRight),
            Binding::GamepadButton(GamepadButton::RightShoulder),
        ]
    } else if name == "previous_slot"@ {
        seq![
            Binding::Key(KeyCode::BracketLeft),
            Binding::GamepadButton(GamepadButton::LeftShoulder),
        ]
    } else {
        Seq::empty()
    }
}

/// A device control an action can be bound to.
#[derive(Clone, Copy, PartialEq, Eq, Structural, PartialOrd, Ord, Hash, Debug)]
pub enum Binding {
    /// A keyboard key.
    Key(KeyCode),
    /// A mouse button.
    MouseButton(MouseButton),
    /// A gamepad button.
    GamepadButton(GamepadButton),
    /// One direction of a gamepad axis, active past the map's threshold.
    GamepadAxis { axis: GamepadAxis, positive: bool },
}

/// A keyboard key, by position.
#[derive(Clone, Copy, PartialEq, Eq, Structural, PartialOrd, Ord, Hash, Debug)]
pub enum KeyCode {
    KeyA,
    KeyB,
    KeyC,
    KeyD,
    KeyE,
    KeyF,
    KeyG,
    KeyH,
    KeyI,
    KeyJ,
    KeyK,
    KeyL,
    KeyM,
    KeyN,
    KeyO,
    KeyP,
    KeyQ,
    KeyR,
    KeyS,
    KeyT,
    KeyU,
    KeyV,
    KeyW,
    KeyX,
    KeyY,
    KeyZ,
    Digit0,
    Digit1,
    Digit2,
    Digit3,
    Digit4,
    Digit5,
    Digit6,
    Digit7,
    Digit8,
    Digit9,
    ArrowUp,
    ArrowDown,
    ArrowLeft,
    ArrowRight,
    Space,
    Enter,
    Escape,
    Tab,
    Backspace,
    ShiftLeft,
    ShiftRight,
    ControlLeft,
    ControlRight,
    AltLeft,
    AltRight,
    F1,
    F2,
    F3,
    F4,
    F5,
    F6,
    F7,
    F8,
    F9,
    F10,
    F11,
    F12,
    Comma,
    Period,
    Slash,
    Semicolon,
    Quote,
    BracketLeft,
    BracketRight,
    Backslash,
    Minus,
    Equal,
    Backquote,
}

/// A mouse button.
#[derive(Clone, Copy, PartialEq, Eq, Structural, PartialOrd, Ord, Hash, Debug)]
pub enum MouseButton {
    Left,
    Right,
    Middle,
    Back,
    Forward,
}

/// A gamepad button, by position.
#[derive(Clone, Copy, PartialEq, Eq, Structural, PartialOrd, Ord, Hash, Debug)]
pub enum GamepadButton {
    South,
    East,
    West,
    North,
    LeftShoulder,
    RightShoulder,
    LeftTrigger,
    RightTrigger,
    Select,
    Start,
    LeftStick,
    RightStick,
    DPadUp,
    DPadDown,
    DPadLeft,
    DPadRight,
}

/// A gamepad axis.
#[derive(Clone, Copy, PartialEq, Eq, Structural, PartialOrd, Ord, Hash, Debug)]
pub enum GamepadAxis {
    LeftStickX,
    LeftStickY,
    RightStickX,
    RightStickY,
}

/// The bindings of the action named `name`, none when it has no entry.
pub open spec fn bindings_of(table: ActionTable<Vec<Binding>>, name: Seq<char>) -> Seq<Binding> {
    match table.get_spec(name) {
        Some(list) => list@,
        None => Seq::empty(),
    }
}

/// Which controls trigger which actions, and the analogue thresholds.
#[derive(Clone, Debug)]
pub struct InputMap {
    bindings: ActionTable<Vec<Binding>>,
    /// How far an axis must move before its binding counts as pressed.
    pub axis_threshold: Fx,
    /// Stick deflection below which movement is ignored.
    pub dead_zone: Fx,
}

impl InputMap {
    /// The bound actions, in ascending order of name.
    pub closed spec fn action_names(&self) -> Seq<Seq<char>> {
        self.bindings.keys()
    }

    /// The bindings of the action named `name`.
    pub closed spec fn bound(&self, name: Seq<char>) -> Seq<Binding> {
        bindings_of(self.bindings, name)
    }

    /// The table is in order.
    pub closed spec fn wf(&self) -> bool {
        self.bindings.wf()
    }

    /// The axis threshold.
    pub closed spec fn threshold(&self) -> Fx {
        self.axis_threshold
    }

    /// The stick dead zone.
    pub closed spec fn dead_zone_spec(&self) -> Fx {
        self.dead_zone
    }

    /// An empty map with the default thresholds: an axis counts past one
    /// half, a stick below fifteen hundredths is at rest.
    pub fn new() -> (r: InputMap)
        ensures
            r.wf(),
            r.action_names() == Seq::<Seq<char>>::empty(),
            forall|name: Seq<char>| #[trigger] r.bound(name) == Seq::<Binding>::empty(),
            r.threshold() == Fx(0x8000_0000),
            r.dead_zone_spec() == fx_ratio(15, 100),
    {
        let r = InputMap {
            bindings: ActionTable::new(),
            axis_threshold: Fx::half(),
            dead_zone: Fx::from_ratio(15, 100),
        };
        proof {
            r.bindings.lemma_wf();
            assert forall|name: Seq<char>| #[trigger] r.bound(name) == Seq::<Binding>::empty() by {
                assert(!r.bindings.keys().contains(name));
            }
        }
        r
    }

    /// The engine's default bindings for keyboard, mouse and gamepad.
    pub fn with_defaults() -> (r: InputMap)
        ensures
            r.wf(),
            r.threshold() == Fx(0x8000_0000),
            r.dead_zone_spec() == fx_ratio(15, 100),
            forall|name: Seq<char>| #[trigger] r.bound(name) == default_bindings(name),
    {
        proof {
            reveal_strlit("interact");
            reveal_strlit("use");
            reveal_strlit("cancel");
            reveal_strlit("inventory");
            reveal_strlit("menu");
            reveal_strlit("sprint");
            reveal_strlit("next_slot");
            reveal_strlit("previous_slot");
            assert("interact"@ != "use"@) by {
                assert("interact"@.len() != "use"@.len());
            }
            assert("interact"@ != "cancel"@) by {
                assert("interact"@.len() != "cancel"@.len());
            }
            assert("interact"@ != "inventory"@) by {
                assert("interact"@.len() != "inventory"@.len());
            }
            assert("interact"@ != "menu"@) by {
                assert("interact"@.len() != "menu"@.len());
            }
            assert("interact"@ != "sprint"@) by {
                assert("interact"@.len() != "sprint"@.len());
            }
            assert("interact"@ != "next_slot"@) by {
                assert("interact"@.len() != "next_slot"@.len());
            }
            assert("interact"@ != "previous_slot"@) by {
                assert("interact"@.len() != "previous_slot"@.len());
            }
            assert("use"@ != "cancel"@) by {
                assert("use"@.len() != "cancel"@.len());
            }
            assert("use"@ != "inventory"@) by {
                assert("use"@.len() != "inventory"@.len());
            }
            assert("use"@ != "menu"@) by {
                assert("use"@.len() != "menu"@.len());
            }
            assert("use"@ != "sprint"@) by {
                assert("use"@.len() != "sprint"@.len());
            }
            assert("use"@ != "next_slot"@) by {
                assert("use"@.len() != "next_slot"@.len());
            }
            assert("use"@ != "previous_slot"@) by {
                assert("use"@.len() != "previous_slot"@.len());
            }
            assert("cancel"@ != "inventory"@) by {
                assert("cancel"@.len() != "inventory"@.len());
            }
            assert("cancel"@ != "menu"@) by {
                assert("cancel"@.len() != "menu"@.len());
            }
            assert("cancel"@ != "sprint"@) by {
                assert("cancel"@[0] != "sprint"@[0]);
            }
            assert("cancel"@ != "next_slot"@) by {
                assert("cancel"@.len() != "next_slot"@.len());
            }
            assert("cancel"@ != "previous_slot"@) by {
                assert("cancel"@.len() != "previous_slot"@.len());
            }
            assert("inventory"@ != "menu"@) by {
                assert("inventory"@.len() != "menu"@.len());
            }
            assert("inventory"@ != "sprint"@) by {
                assert("inventory"@.len() != "sprint"@.len());
            }
            assert("inventory"@ != "next_slot"@) by {
                assert("inventory"@[0] != "next_slot"@[0]);
            }
            assert("inventory"@ != "previous_slot"@) by {
                assert("inventory"@.len() != "previous_slot"@.len());
            }
            assert("menu"@ != "sprint"@) by {
                assert("menu"@.len() != "sprint"@.len());
            }
            assert("menu"@ != "next_slot"@) by {
                assert("menu"@.len() != "next_slot"@.len());
            }
            assert("menu"@ != "previous_slot"@) by {
                assert("menu"@.len() != "previous_slot"@.len());
            }
            assert("sprint"@ != "next_slot"@) by {
                assert("sprint"@.len() != "next_slot"@.len());
            }
            assert("sprint"@ != "previous_slot"@) by {
                assert("sprint"@.len() != "previous_slot"@.len());
            }
            assert("next_slot"@ != "previous_slot"@) by {
                assert("next_slot"@.len() != "previous_slot"@.len());
            }
        }
        let mut map = InputMap::new();
        map.bind_fresh(
            actions::interact(),
            Binding::Key(KeyCode::KeyE),
            Binding::GamepadButton(GamepadButton::South),
        );
        map.bind_fresh(
            actions::use_tool(),
            Binding::Key(KeyCode::Space),
            Binding::MouseButton(MouseButton::Left),
        );
        let ghost two = map.bound("use"@);
        map.bind(actions::use_tool(), Binding::GamepadButton(GamepadButton::West));
        proof {
            let west = Binding::GamepadButton(GamepadButton::West);
            assert(two[0] != west && two[1] != west);
            assert(!two.contains(west));
        }
        map.bind_fresh(
            actions::cancel(),
            Binding::Key(KeyCode::Escape),
            Binding::GamepadButton(GamepadButton::East),
        );
        map.bind_fresh(
            actions::inventory(),
            Binding::Key(KeyCode::Tab),
            Binding::GamepadButton(GamepadButton::North),
        );
        map.bind_fresh(
            actions::menu(),
            Binding::Key(KeyCode::Escape),
            Binding::GamepadButton(GamepadButton::Start),
        );
        map.bind_fresh(
            actions::sprint(),
            Binding::Key(KeyCode::ShiftLeft),
            Binding::GamepadButton(GamepadButton::LeftStick),
        );
        map.bind_fresh(
            actions::next_slot(),
            Binding::Key(KeyCode::BracketRight),
            Binding::GamepadButton(GamepadButton::RightShoulder),
        );
        map.bind_fresh(
            actions::previous_slot(),
            Binding::Key(KeyCode::BracketLeft),
            Binding::GamepadButton(GamepadButton::LeftShoulder),
        );
        proof {
            assert forall|name: Seq<char>| #[trigger] map.bound(name) == default_bindings(name) by {
                if name == "use"@ {
                    assert(map.bound(name) =~= default_bindings(name));
                }
            }
        }
        map
    }

    /// Binds two different controls to an action that had none.
    fn bind_fresh(&mut self, action: Action, first: Binding, second: Binding)
        requires
            old(self).wf(),
            old(self).bound(action.0@) == Seq::<Binding>::empty(),
            first != second,
        ensures
            final(self).wf(),
            final(self).threshold() == old(self).threshold(),
            final(self).dead_zone_spec() == old(self).dead_zone_spec(),
            final(self).bound(action.0@) == seq![first, second],
            forall|name: Seq<char>| name != action.0@ ==> #[trigger] final(self).bound(name) == old(self).bound(name),
    {
        self.bind(action, first);
        proof {
            assert(!Seq::<Binding>::empty().contains(first));
            assert(self.bound(action.0@) =~= seq![first]);
            assert(!seq![first].contains(second)) by {
                if seq![first].contains(second) {
                    let i = choose|i: int| 0 <= i < 1 && seq![first][i] == second;
                    assert(seq![first][0] == first);
                }
            }
        }
        self.bind(action, second);
        proof {
            assert(self.bound(action.0@) =~= seq![first, second]);
        }
    }

    /// Adds a binding to an action; binding the same control twice is a
    /// no-op.
    pub fn bind(&mut self, action: Action, binding: Binding)
        requires
            old(self).wf(),
        ensures
            final(self).wf(),
            final(self).threshold() == old(self).threshold(),
            final(self).dead_zone_spec() == old(self).dead_zone_spec(),
            forall|name: Seq<char>| #[trigger] final(self).bound(name) == if name == action.0@ {
                if old(self).bound(name).contains(binding) {
                    old(self).bound(name)
                } else {
                    old(self).bound(name).push(binding)
                }
            } else {
                old(self).bound(name)
            },
            forall|name: Seq<char>| #[trigger] final(self).action_names().contains(name) <==> (old(self).action_names().contains(name) || name == action.0@),
    {
        proof {
            self.bindings.lemma_wf();
        }
        let mut list: Vec<Binding> = match self.bindings.position(action) {
            Some(i) => self.bindings.replace_at(i, Vec::new()),
            None => Vec::new(),
        };
        let ghost mid = self.bindings;
        proof {
            assert(list@ == old(self).bound(action.0@));
            assert forall|name: Seq<char>| name != action.0@ implies #[trigger] bindings_of(mid, name)
                == old(self).bound(name) by {}
        }
        if !bindings_contain(&list, binding) {
            list.push(binding);
        }
        let ghost pushed = list@;
        self.bindings.set(action, list);
        proof {
            assert forall|name: Seq<char>| #[trigger] self.bound(name) == if name == action.0@ {
                if old(self).bound(name).contains(binding) {
                    old(self).bound(name)
                } else {
                    old(self).bound(name).push(binding)
                }
            } else {
                old(self).bound(name)
            } by {
                if name != action.0@ {
                    assert(bindings_of(mid, name) == old(self).bound(name));
                }
            }
        }
    }

    /// Removes a binding from an action.
    pub fn unbind(&mut self, action: Action, binding: Binding)
        requires
            old(self).wf(),
        ensures
            final(self).wf(),
            final(self).threshold() == old(self).threshold(),
            final(self).dead_zone_spec() == old(self).dead_zone_spec(),
            forall|name: Seq<char>| #[trigger] final(self).bound(name) == if name == action.0@ {
                old(self).bound(name).filter(|b: Binding| b != binding)
            } else {
                old(self).bound(name)
            },
            forall|name: Seq<char>| #[trigger] final(self).action_names().contains(name) <==> old(self).action_names().contains(name),
    {
        proof {
            self.bindings.lemma_wf();
        }
        match self.bindings.position(action) {
            Some(i) => {
                let list = self.bindings.replace_at(i, Vec::new());
                let ghost mid = self.bindings;
                proof {
                    assert(list@ == old(self).bound(action.0@));
                    assert forall|name: Seq<char>| name != action.0@ implies #[trigger] bindings_of(mid, name)
                        == old(self).bound(name) by {}
                }
                let kept = without(&list, binding);
                self.bindings.set(action, kept);
                proof {
                    assert forall|name: Seq<char>| #[trigger] self.bound(name) == if name == action.0@ {
                        old(self).bound(name).filter(|b: Binding| b != binding)
                    } else {
                        old(self).bound(name)
                    } by {
                        if name != action.0@ {
                            assert(bindings_of(mid, name) == old(self).bound(name));
                        }
                    }
                    assert forall|name: Seq<char>| #[trigger] self.action_names().contains(name)
                        <==> old(self).action_names().contains(name) by {
                        if name == action.0@ {
                            assert(old(self).bindings.keys()[i as int] == name);
                        }
                    }
                }
            },
            None => {
                proof {
                    assert forall|name: Seq<char>| #[trigger] self.bound(name) == if name == action.0@ {
                        old(self).bound(name).filter(|b: Binding| b != binding)
                    } else {
                        old(self).bound(name)
                    } by {
                        if name == action.0@ {
                            assert(old(self).bound(name) =~= Seq::<Binding>::empty());
                            reveal(Seq::filter);
                            assert(Seq::<Binding>::empty().filter(|b: Binding| b != binding) =~= Seq::<Binding>::empty());
                        }
                    }
                }
            },
        }
    }

    /// Removes every binding of an action.
    pub fn clear_action(&mut self, action: Action)
        requires
            old(self).wf(),
        ensures
            final(self).wf(),
            final(self).threshold() == old(self).threshold(),
            final(self).dead_zone_spec() == old(self).dead_zone_spec(),
            forall|name: Seq<char>| #[trigger] final(self).bound(name) == if name == action.0@ {
                Seq::<Binding>::empty()
            } else {
                old(self).bound(name)
            },
            forall|name: Seq<char>| #[trigger] final(self).action_names().contains(name) <==> (old(self).action_names().contains(name) && name != action.0@),
    {
        proof {
            self.bindings.lemma_wf();
        }
        let _ = self.bindings.remove(action);
    }

    /// The bindings of an action; empty when it has none.
    pub fn bindings_for(&self, action: Action) -> (r: Vec<Binding>)
        requires
            self.wf(),
        ensures
            r@ == self.bound(action.0@),
    {
        proof {
            self.bindings.lemma_wf();
        }
        match self.bindings.position(action) {
            Some(i) => {
                let list = self.bindings.value_at(i);
                copy_bindings(list)
            },
            None => Vec::new(),
        }
    }

    /// Every bound action, in ascending order of name.
    pub fn actions(&self) -> (r: Vec<Action>)
        requires
            self.wf(),
        ensures
            r@.map_values(|a: Action| a.0@) == self.action_names(),
    {
        self.bindings.actions()
    }

    /// Every action one control triggers, in ascending order of name: how
    /// binding conflicts are found.
    pub fn actions_bound_to(&self, binding: Binding) -> (r: Vec<Action>)
        requires
            self.wf(),
        ensures
            r@.map_values(|a: Action| a.0@) == self.action_names().filter(
                |name: Seq<char>| self.bound(name).contains(binding),
            ),
    {
        proof {
            self.bindings.lemma_wf();
        }
        let ghost pred = |name: Seq<char>| self.bound(name).contains(binding);
        let mut out: Vec<Action> = Vec::new();
        let mut i: usize = 0;
        let n = self.bindings.len();
        while i < n
            invariant
                self.wf(),
                n == self.bindings.keys().len(),
                n == self.bindings.values().len(),
                i <= n,
                pred == (|name: Seq<char>| self.bound(name).contains(binding)),
                forall|k: int|
                    0 <= k < n ==> self.bindings.get_spec(#[trigger] self.bindings.keys()[k])
                        == Some(self.bindings.values()[k]),
                out@.map_values(|a: Action| a.0@) == self.action_names().take(i as int).filter(pred),
            decreases n - i,
        {
            let action = self.bindings.action_at(i);
            let list = self.bindings.value_at(i);
            proof {
                reveal(Seq::filter);
                let names = self.action_names();
                assert(names.take(i + 1).drop_last() =~= names.take(i as int));
                assert(names.take(i + 1).last() == names[i as int]);
                assert(names.take(i + 1).filter(pred) == if pred(names[i as int]) {
                    names.take(i as int).filter(pred).push(names[i as int])
                } else {
                    names.take(i as int).filter(pred)
                });
                assert(self.bound(names[i as int]) == list@);
            }
            if bindings_contain(list, binding) {
                out.push(action);
                proof {
                    assert(out@.map_values(|a: Action| a.0@) =~= self.action_names().take(
                        i as int,
                    ).filter(pred).push(action.0@));
                }
            }
            i = i + 1;
        }
        proof {
            assert(self.action_names().take(n as int) =~= self.action_names());
        }
        out
    }
}

fn bindings_contain(list: &Vec<Binding>, binding: Binding) -> (r: bool)
    ensures
        r == list@.contains(binding),
{
    let mut i: usize = 0;
    while i < list.len()
        invariant
            i <= list@.len(),
            forall|k: int| 0 <= k < i ==> list@[k] != binding,
        decreases list@.len() - i,
    {
        if list[i] == binding {
            return true;
        }
        i = i + 1;
    }
    false
}

fn copy_bindings(list: &Vec<Binding>) -> (r: Vec<Binding>)
    ensures
        r@ == list@,
{
    let mut out: Vec<Binding> = Vec::new();
    let mut i: usize = 0;
    while i < list.len()
        invariant
            i <= list@.len(),
            out@ == list@.take(i as int),
        decreases list@.len() - i,
    {
        out.push(list[i]);
        assert(list@.take(i + 1) =~= list@.take(i as int).push(list@[i as int]));
        i = i + 1;
    }
    assert(list@.take(list@.len() as int) =~= list@);
    out
}

fn without(list: &Vec<Binding>, binding: Binding) -> (r: Vec<Binding>)
    ensures
        r@ == list@.filter(|b: Binding| b != binding),
{
    let ghost keep = |b: Binding| b != binding;
    let mut out: Vec<Binding> = Vec::new();
    let mut i: usize = 0;
    while i < list.len()
        invariant
            i <= list@.len(),
            keep == (|b: Binding| b != binding),
            out@ == list@.take(i as int).filter(keep),
        decreases list@.len() - i,
    {
        proof {
            reveal(Seq::filter);
            assert(list@.take(i + 1).drop_last() =~= list@.take(i as int));
            assert(list@.take(i + 1).last() == list@[i as int]);
            assert(list@.take(i + 1).filter(keep) == if keep(list@[i as int]) {
                list@.take(i as int).filter(keep).push(list@[i as int])
            } else {
                list@.take(i as int).filter(keep)
            });
        }
        if list[i] != binding {
            out.push(list[i]);
        }
        i = i + 1;
    }
    assert(list@.take(list@.len() as int) =~= list@);
    out
}

/// The value of `axis` in `axes`: the first entry for it, zero when none.
pub open spec fn axis_value(axes: Seq<(GamepadAxis, Fx)>, axis: GamepadAxis) -> Fx
    decreases axes.len(),
{
    if axes.len() == 0 {
        Fx(0)
    } else if axes[0].0 == axis {
        axes[0].1
    } else {
        axis_value(axes.drop_first(), axis)
    }
}

/// Whether `binding` is active on the devices, with `threshold` for axes.
pub open spec fn binding_active(d: DeviceState, binding: Binding, threshold: Fx) -> bool {
    match binding {
        Binding::Key(key) => d.keys@.contains(key),
        Binding::MouseButton(button) => d.mouse_buttons@.contains(button),
        Binding::GamepadButton(button) => d.gamepad_buttons@.contains(button),
        Binding::GamepadAxis { axis, positive } => if positive {
            axis_value(d.gamepad_axes@, axis).0 >= threshold.0
        } else {
            axis_value(d.gamepad_axes@, axis).0 <= fx_neg(threshold).0
        },
    }
}

/// A button binding is active exactly when its button is among those held,
/// whatever the axis threshold: a held key, mouse button or gamepad button
/// activates every binding to it, and nothing else does.
pub proof fn lemma_button_bindings_follow_held_buttons(
    d: DeviceState,
    threshold: Fx,
    key: KeyCode,
    mouse: MouseButton,
    pad: GamepadButton,
)
    ensures
        binding_active(d, Binding::Key(key), threshold) <==> exists|i: int|
            0 <= i < d.keys@.len() && #[trigger] d.keys@[i] == key,
        binding_active(d, Binding::MouseButton(mouse), threshold) <==> exists|i: int|
            0 <= i < d.mouse_buttons@.len() && #[trigger] d.mouse_buttons@[i] == mouse,
        binding_active(d, Binding::GamepadButton(pad), threshold) <==> exists|i: int|
            0 <= i < d.gamepad_buttons@.len() && #[trigger] d.gamepad_buttons@[i] == pad,
{
}

/// An axis binding active at some threshold stays active at any lower one,
/// and an axis pushed fully (`±1`) activates its binding at any threshold up
/// to one.
pub proof fn lemma_axis_bindings_follow_the_threshold(
    d: DeviceState,
    axis: GamepadAxis,
    positive: bool,
    low: Fx,
    high: Fx,
)
    requires
        low.0 <= high.0,
    ensures
        binding_active(d, Binding::GamepadAxis { axis, positive }, high) ==> binding_active(
            d,
            Binding::GamepadAxis { axis, positive },
            low,
        ),
        (positive && axis_value(d.gamepad_axes@, axis).0 == 4294967296 && high.0 <= 4294967296)
            ==> binding_active(d, Binding::GamepadAxis { axis, positive }, high),
        (!positive && axis_value(d.gamepad_axes@, axis).0 == -4294967296 && 0 <= high.0
            <= 4294967296) ==> binding_active(d, Binding::GamepadAxis { axis, positive }, high),
{
}

/// Raw device state, as the platform layer reports it for one tick.
#[derive(Clone, Debug, Default)]
pub struct DeviceState {
    /// Keys currently held.
    pub keys: Vec<KeyCode>,
    /// Mouse buttons currently held.
    pub mouse_buttons: Vec<MouseButton>,
    /// Gamepad buttons currently held.
    pub gamepad_buttons: Vec<GamepadButton>,
    /// Gamepad axis positions, each in `-1..=1`.
    pub gamepad_axes: Vec<(GamepadAxis, Fx)>,
    /// Cursor position in world units.
    pub cursor: Vec2,
    /// Scroll wheel movement this tick.
    pub scroll: Fx,
}

impl DeviceState {
    /// True when `key` is held.
    pub fn is_key_down(&self, key: KeyCode) -> (r: bool)
        ensures
            r == self.keys@.contains(key),
    {
        let mut i: usize = 0;
        while i < self.keys.len()
            invariant
                i <= self.keys@.len(),
                forall|k: int| 0 <= k < i ==> self.keys@[k] != key,
            decreases self.keys@.len() - i,
        {
            if self.keys[i] == key {
                return true;
            }
            i = i + 1;
        }
        false
    }

    /// An axis position; zero when it has not been reported.
    pub fn axis(&self, axis: GamepadAxis) -> (r: Fx)
        ensures
            r == axis_value(self.gamepad_axes@, axis),
    {
        let mut i: usize = 0;
        assert(self.gamepad_axes@.skip(0) =~= self.gamepad_axes@);
        while i < self.gamepad_axes.len()
            invariant
                i <= self.gamepad_axes@.len(),
                axis_value(self.gamepad_axes@, axis) == axis_value(
                    self.gamepad_axes@.skip(i as int),
                    axis,
                ),
            decreases self.gamepad_axes@.len() - i,
        {
            proof {
                assert(self.gamepad_axes@.skip(i as int).drop_first() =~= self.gamepad_axes@.skip(
                    i + 1,
                ));
            }
            if self.gamepad_axes[i].0 == axis {
                return self.gamepad_axes[i].1;
            }
            i = i + 1;
        }
        Fx::zero()
    }

    /// Reports an axis position, replacing any earlier report for it.
    pub fn set_axis(&mut self, axis: GamepadAxis, value: Fx)
        ensures
            axis_value(final(self).gamepad_axes@, axis) == value,
            forall|other: GamepadAxis|
                other != axis ==> axis_value(final(self).gamepad_axes@, other) == axis_value(
                    old(self).gamepad_axes@,
                    other,
                ),
            final(self).keys@ == old(self).keys@,
            final(self).mouse_buttons@ == old(self).mouse_buttons@,
            final(self).gamepad_buttons@ == old(self).gamepad_buttons@,
            final(self).cursor == old(self).cursor,
            final(self).scroll == old(self).scroll,
    {
        let mut i: usize = 0;
        while i < self.gamepad_axes.len()
            invariant
                i <= self.gamepad_axes@.len(),
                *self == *old(self),
                forall|k: int| 0 <= k < i ==> (#[trigger] self.gamepad_axes@[k]).0 != axis,
            decreases self.gamepad_axes@.len() - i,
        {
            if self.gamepad_axes[i].0 == axis {
                proof {
                    lemma_axis_value_update(old(self).gamepad_axes@, i as int, axis, value);
                }
                self.gamepad_axes.set(i, (axis, value));
                return;
            }
            i = i + 1;
        }
        proof {
            lemma_axis_value_push(old(self).gamepad_axes@, axis, value);
        }
        self.gamepad_axes.push((axis, value));
    }

    /// True when `binding` is active; axis bindings count once the axis is
    /// at `threshold` in their direction.
    pub fn is_binding_active(&self, binding: Binding, threshold: Fx) -> (r: bool)
        ensures
            r == binding_active(*self, binding, threshold),
    {
        match binding {
            Binding::Key(key) => self.is_key_down(key),
            Binding::MouseButton(button) => mouse_contains(&self.mouse_buttons, button),
            Binding::GamepadButton(button) => pad_contains(&self.gamepad_buttons, button),
            Binding::GamepadAxis { axis, positive } => {
                let value = self.axis(axis);
                if positive {
                    value.0 >= threshold.0
                } else {
                    value.0 <= threshold.neg().0
                }
            },
        }
    }
}

/// Overwriting the first entry for `axis` sets its value and leaves every
/// other axis as it was.
proof fn lemma_axis_value_update(s: Seq<(GamepadAxis, Fx)>, j: int, axis: GamepadAxis, value: Fx)
    requires
        0 <= j < s.len(),
        s[j].0 == axis,
        forall|k: int| 0 <= k < j ==> (#[trigger] s[k]).0 != axis,
    ensures
        axis_value(s.update(j, (axis, value)), axis) == value,
        forall|other: GamepadAxis|
            other != axis ==> axis_value(s.update(j, (axis, value)), other) == axis_value(s, other),
    decreases j,
{
    let t = s.update(j, (axis, value));
    if j == 0 {
        assert(t.drop_first() =~= s.drop_first());
    }
    if j > 0 {
        assert(t[0] == s[0]);
        assert(t.drop_first() =~= s.drop_first().update(j - 1, (axis, value)));
        assert forall|k: int| 0 <= k < j - 1 implies (#[trigger] s.drop_first()[k]).0 != axis by {
            assert(s[k + 1].0 != axis);
        }
        lemma_axis_value_update(s.drop_first(), j - 1, axis, value);
    }
    assert forall|other: GamepadAxis| other != axis implies axis_value(t, other) == axis_value(
        s,
        other,
    ) by {
        if j > 0 && s[0].0 != other {
            assert(axis_value(t.drop_first(), other) == axis_value(s.drop_first(), other));
        }
    }
}

/// Appending an entry for an axis with none sets its value and leaves every
/// other axis as it was.
proof fn lemma_axis_value_push(s: Seq<(GamepadAxis, Fx)>, axis: GamepadAxis, value: Fx)
    requires
        forall|k: int| 0 <= k < s.len() ==> (#[trigger] s[k]).0 != axis,
    ensures
        axis_value(s.push((axis, value)), axis) == value,
        forall|other: GamepadAxis|
            other != axis ==> axis_value(s.push((axis, value)), other) == axis_value(s, other),
    decreases s.len(),
{
    let t = s.push((axis, value));
    if s.len() > 0 {
        assert(t[0] == s[0]);
        assert(t.drop_first() =~= s.drop_first().push((axis, value)));
        assert forall|k: int| 0 <= k < s.drop_first().len() implies (#[trigger] s.drop_first()[k]).0
            != axis by {
            assert(s[k + 1].0 != axis);
        }
        lemma_axis_value_push(s.drop_first(), axis, value);
    } else {
        assert(t.drop_first() =~= Seq::<(GamepadAxis, Fx)>::empty());
    }
    assert forall|other: GamepadAxis| other != axis implies axis_value(t, other) == axis_value(
        s,
        other,
    ) by {
        assert(t.len() > 0);
        if s.len() > 0 && s[0].0 != other {
            assert(axis_value(t.drop_first(), other) == axis_value(s.drop_first(), other));
        }
        if s.len() == 0 {
            assert(t[0] == (axis, value));
            assert(axis_value(t.drop_first(), other) == Fx(0));
        }
    }
}

fn mouse_contains(list: &Vec<MouseButton>, button: MouseButton) -> (r: bool)
    ensures
        r == list@.contains(button),
{
    let mut i: usize = 0;
    while i < list.len()
        invariant
            i <= list@.len(),
            forall|k: int| 0 <= k < i ==> list@[k] != button,
        decreases list@.len() - i,
    {
        if list[i] == button {
            return true;
        }
        i = i + 1;
    }
    false
}

fn pad_contains(list: &Vec<GamepadButton>, button: GamepadButton) -> (r: bool)
    ensures
        r == list@.contains(button),
{
    let mut i: usize = 0;
    while i < list.len()
        invariant
            i <= list@.len(),
            forall|k: int| 0 <= k < i ==> list@[k] != button,
        decreases list@.len() - i,
    {
        if list[i] == button {
            return true;
        }
        i = i + 1;
    }
    false
}

impl InputMap {
    /// The action names are distinct.
    pub proof fn lemma_distinct_actions(&self)
        requires
            self.wf(),
        ensures
            forall|a: int, b: int|
                0 <= a < b < self.action_names().len() ==> #[trigger] self.action_names()[a]
                    != #[trigger] self.action_names()[b],
    {
        self.bindings.lemma_wf();
    }
}

/// Some binding of the action named `name` is active on the devices.
pub open spec fn action_active(map: InputMap, devices: DeviceState, name: Seq<char>) -> bool {
    exists|k: int|
        0 <= k < map.bound(name).len() && binding_active(
            devices,
            #[trigger] map.bound(name)[k],
            map.threshold(),
        )
}

/// Holding a gamepad button activates every action bound to it (and so, at
/// the next update, holds that action down); likewise for keys.
pub proof fn lemma_held_buttons_activate_their_actions(
    map: InputMap,
    d: DeviceState,
    name: Seq<char>,
    k: int,
    i: int,
)
    requires
        0 <= k < map.bound(name).len(),
    ensures
        (0 <= i < d.gamepad_buttons@.len() && map.bound(name)[k] == Binding::GamepadButton(
            d.gamepad_buttons@[i],
        )) ==> action_active(map, d, name),
        (0 <= i < d.keys@.len() && map.bound(name)[k] == Binding::Key(d.keys@[i]))
            ==> action_active(map, d, name),
{
    if 0 <= i < d.gamepad_buttons@.len() && map.bound(name)[k] == Binding::GamepadButton(
        d.gamepad_buttons@[i],
    ) {
        lemma_button_bindings_follow_held_buttons(
            d,
            map.threshold(),
            KeyCode::KeyE,
            MouseButton::Left,
            d.gamepad_buttons@[i],
        );
        assert(binding_active(d, map.bound(name)[k], map.threshold()));
    }
    if 0 <= i < d.keys@.len() && map.bound(name)[k] == Binding::Key(d.keys@[i]) {
        lemma_button_bindings_follow_held_buttons(
            d,
            map.threshold(),
            d.keys@[i],
            MouseButton::Left,
            GamepadButton::South,
        );
        assert(binding_active(d, map.bound(name)[k], map.threshold()));
    }
}

/// The stick, when it is pushed past the dead zone and clamped to unit
/// length; otherwise the held direction keys, normalised so diagonals are
/// no faster than straight lines.
pub open spec fn movement_of(map: InputMap, d: DeviceState) -> Vec2 {
    let stick = v2(
        axis_value(d.gamepad_axes@, GamepadAxis::LeftStickX),
        axis_value(d.gamepad_axes@, GamepadAxis::LeftStickY),
    );
    let one = Fx(0x1_0000_0000);
    if v2_length(stick).0 > map.dead_zone_spec().0 {
        if v2_length_squared(stick).0 > fx_mul(one, one).0 {
            v2_scale(v2_normalize(stick), one)
        } else {
            stick
        }
    } else {
        let up = d.keys@.contains(KeyCode::KeyW) || d.keys@.contains(KeyCode::ArrowUp);
        let down = d.keys@.contains(KeyCode::KeyS) || d.keys@.contains(KeyCode::ArrowDown);
        let left = d.keys@.contains(KeyCode::KeyA) || d.keys@.contains(KeyCode::ArrowLeft);
        let right = d.keys@.contains(KeyCode::KeyD) || d.keys@.contains(KeyCode::ArrowRight);
        let y1 = if up {
            fx_sub(Fx(0), one)
        } else {
            Fx(0)
        };
        let y2 = if down {
            fx_add(y1, one)
        } else {
            y1
        };
        let x1 = if left {
            fx_sub(Fx(0), one)
        } else {
            Fx(0)
        };
        let x2 = if right {
            fx_add(x1, one)
        } else {
            x1
        };
        v2_normalize(v2(x2, y2))
    }
}

/// How many ticks a fresh press stays buffered by default.
pub const DEFAULT_BUFFER_TICKS: u32 = 6;

/// One action's state across two ticks, and its press buffer.
#[derive(Clone, Copy, Debug, Default, PartialEq, Eq, Structural)]
pub struct ActionState {
    /// Down this tick.
    pub down: bool,
    /// Down last tick.
    pub was_down: bool,
    /// Ticks left in which a press still counts.
    pub buffer: u32,
}

/// The state of an action never seen.
pub open spec fn idle() -> ActionState {
    ActionState { down: false, was_down: false, buffer: 0 }
}

/// One tick of an action's state: a fresh press refills the buffer, which
/// otherwise runs down to zero.
pub open spec fn stepped(s: ActionState, down: bool, ticks: u32) -> ActionState {
    ActionState {
        down,
        was_down: s.down,
        buffer: if down && !s.down {
            ticks
        } else if s.buffer > 0 {
            (s.buffer - 1) as u32
        } else {
            0
        },
    }
}

/// The per-tick input snapshot gameplay reads.
#[derive(Clone, Debug)]
pub struct InputState {
    states: ActionTable<ActionState>,
    movement: Vec2,
    cursor: Vec2,
    scroll: Fx,
    buffer_ticks: u32,
}

impl InputState {
    /// The state of the action named `name`.
    pub closed spec fn state_of(&self, name: Seq<char>) -> ActionState {
        match self.states.get_spec(name) {
            Some(s) => s,
            None => idle(),
        }
    }

    /// The movement vector.
    pub closed spec fn movement_spec(&self) -> Vec2 {
        self.movement
    }

    /// The cursor position.
    pub closed spec fn cursor_spec(&self) -> Vec2 {
        self.cursor
    }

    /// The scroll amount.
    pub closed spec fn scroll_spec(&self) -> Fx {
        self.scroll
    }

    /// The configured buffer window.
    pub closed spec fn buffer_ticks_spec(&self) -> u32 {
        self.buffer_ticks
    }

    /// The state table is in order.
    pub closed spec fn wf(&self) -> bool {
        self.states.wf()
    }

    /// Nothing pressed, with the default buffer window.
    pub fn new() -> (r: InputState)
        ensures
            r.wf(),
            forall|name: Seq<char>| #[trigger] r.state_of(name) == idle(),
            r.movement_spec() == v2(Fx(0), Fx(0)),
            r.cursor_spec() == v2(Fx(0), Fx(0)),
            r.scroll_spec() == Fx(0),
            r.buffer_ticks_spec() == DEFAULT_BUFFER_TICKS,
    {
        let r = InputState {
            states: ActionTable::new(),
            movement: Vec2::zero(),
            cursor: Vec2::zero(),
            scroll: Fx::zero(),
            buffer_ticks: DEFAULT_BUFFER_TICKS,
        };
        proof {
            r.states.lemma_wf();
            assert forall|name: Seq<char>| #[trigger] r.state_of(name) == idle() by {
                assert(!r.states.keys().contains(name));
            }
        }
        r
    }

    /// Sets how many ticks a press stays buffered.
    pub fn set_buffer_ticks(&mut self, ticks: u32)
        requires
            old(self).wf(),
        ensures
            final(self).wf(),
            final(self).buffer_ticks_spec() == ticks,
            forall|name: Seq<char>| #[trigger] final(self).state_of(name) == old(self).state_of(name),
            final(self).movement_spec() == old(self).movement_spec(),
            final(self).cursor_spec() == old(self).cursor_spec(),
            final(self).scroll_spec() == old(self).scroll_spec(),
    {
        self.buffer_ticks = ticks;
    }

    /// Takes this tick's snapshot: every mapped action steps with whether
    /// any of its bindings is active; movement, cursor and scroll are read
    /// from the devices.
    pub fn update(&mut self, map: &InputMap, devices: &DeviceState)
        requires
            old(self).wf(),
            map.wf(),
        ensures
            final(self).wf(),
            forall|name: Seq<char>| #[trigger] final(self).state_of(name) == if map.action_names().contains(name) {
                stepped(
                    old(self).state_of(name),
                    action_active(*map, *devices, name),
                    old(self).buffer_ticks_spec(),
                )
            } else {
                old(self).state_of(name)
            },
            final(self).movement_spec() == movement_of(*map, *devices),
            final(self).cursor_spec() == devices.cursor,
            final(self).scroll_spec() == devices.scroll,
            final(self).buffer_ticks_spec() == old(self).buffer_ticks_spec(),
    {
        let actions = map.actions();
        proof {
            map.lemma_distinct_actions();
        }
        let ghost names = map.action_names();
        let mut i: usize = 0;
        while i < actions.len()
            invariant
                self.wf(),
                map.wf(),
                actions@.map_values(|a: Action| a.0@) == names,
                names == map.action_names(),
                forall|a: int, b: int| 0 <= a < b < names.len() ==> #[trigger] names[a] != #[trigger] names[b],
                i <= actions@.len(),
                self.buffer_ticks == old(self).buffer_ticks,
                self.movement == old(self).movement,
                self.cursor == old(self).cursor,
                self.scroll == old(self).scroll,
                forall|name: Seq<char>| #[trigger] self.state_of(name) == if names.take(i as int).contains(name) {
                    stepped(
                        old(self).state_of(name),
                        action_active(*map, *devices, name),
                        old(self).buffer_ticks_spec(),
                    )
                } else {
                    old(self).state_of(name)
                },
            decreases actions@.len() - i,
        {
            let action = actions[i];
            let ghost name = action.0@;
            assert(names[i as int] == name);
            let down = any_active(map, devices, action);
            let current = self.lookup(action);
            proof {
                assert(!names.take(i as int).contains(name)) by {
                    if names.take(i as int).contains(name) {
                        let k = choose|k: int| 0 <= k < i && names.take(i as int)[k] == name;
                        assert(names[k] == names[i as int]);
                    }
                }
                assert(self.state_of(name) == old(self).state_of(name));
            }
            let buffer = if down && !current.down {
                self.buffer_ticks
            } else if current.buffer > 0 {
                current.buffer - 1
            } else {
                0
            };
            let next = ActionState { down, was_down: current.down, buffer };
            let ghost before = *self;
            self.states.set(action, next);
            proof {
                assert forall|n: Seq<char>| #[trigger] self.state_of(n) == if names.take(i + 1).contains(n) {
                    stepped(
                        old(self).state_of(n),
                        action_active(*map, *devices, n),
                        old(self).buffer_ticks_spec(),
                    )
                } else {
                    old(self).state_of(n)
                } by {
                    assert(names.take(i + 1) =~= names.take(i as int).push(name));
                    let next_names = names.take(i + 1);
                    if next_names.contains(n) {
                        let k = choose|k: int| 0 <= k < next_names.len() && next_names[k] == n;
                        if k < i {
                            assert(names.take(i as int)[k] == n);
                        }
                    }
                    if names.take(i as int).contains(n) {
                        let k = choose|k: int| 0 <= k < i && names.take(i as int)[k] == n;
                        assert(names.take(i + 1)[k] == n);
                    }
                    if n == name {
                        assert(names.take(i + 1)[i as int] == n);
                    }
                    assert(names.take(i + 1).contains(n) <==> (names.take(i as int).contains(n) || n == name));
                    assert(before.state_of(n) == if names.take(i as int).contains(n) {
                        stepped(
                            old(self).state_of(n),
                            action_active(*map, *devices, n),
                            old(self).buffer_ticks_spec(),
                        )
                    } else {
                        old(self).state_of(n)
                    });
                }
            }
            i = i + 1;
        }
        proof {
            assert(names.take(actions@.len() as int) =~= names);
        }
        let ghost stepped_all = *self;
        self.movement = resolve_movement(map, devices);
        self.cursor = devices.cursor;
        self.scroll = devices.scroll;
        proof {
            assert forall|name: Seq<char>| #[trigger] self.state_of(name) == if map.action_names().contains(name) {
                stepped(
                    old(self).state_of(name),
                    action_active(*map, *devices, name),
                    old(self).buffer_ticks_spec(),
                )
            } else {
                old(self).state_of(name)
            } by {
                assert(self.state_of(name) == stepped_all.state_of(name));
            }
        }
    }

    fn lookup(&self, action: Action) -> (r: ActionState)
        requires
            self.wf(),
        ensures
            r == self.state_of(action.0@),
    {
        proof {
            self.states.lemma_wf();
        }
        match self.states.position(action) {
            Some(p) => *self.states.value_at(p),
            None => ActionState { down: false, was_down: false, buffer: 0 },
        }
    }

    /// True while the action is held.
    pub fn is_down(&self, action: Action) -> (r: bool)
        requires
            self.wf(),
        ensures
            r == self.state_of(action.0@).down,
    {
        self.lookup(action).down
    }

    /// True on the tick the action was first pressed.
    pub fn just_pressed(&self, action: Action) -> (r: bool)
        requires
            self.wf(),
        ensures
            r == (self.state_of(action.0@).down && !self.state_of(action.0@).was_down),
    {
        let state = self.lookup(action);
        state.down && !state.was_down
    }

    /// True on the tick the action was let go.
    pub fn just_released(&self, action: Action) -> (r: bool)
        requires
            self.wf(),
        ensures
            r == (!self.state_of(action.0@).down && self.state_of(action.0@).was_down),
    {
        let state = self.lookup(action);
        !state.down && state.was_down
    }

    /// True while a recent press is still buffered.
    pub fn is_buffered(&self, action: Action) -> (r: bool)
        requires
            self.wf(),
        ensures
            r == (self.state_of(action.0@).buffer > 0),
    {
        self.lookup(action).buffer > 0
    }

    /// Uses up a buffered press, so that it fires once: true when there was
    /// one.
    pub fn consume_buffered(&mut self, action: Action) -> (r: bool)
        requires
            old(self).wf(),
        ensures
            final(self).wf(),
            r == (old(self).state_of(action.0@).buffer > 0),
            forall|name: Seq<char>| #[trigger] final(self).state_of(name) == if name == action.0@ && r {
                (ActionState { buffer: 0, ..old(self).state_of(name) })
            } else {
                old(self).state_of(name)
            },
            final(self).movement_spec() == old(self).movement_spec(),
            final(self).cursor_spec() == old(self).cursor_spec(),
            final(self).scroll_spec() == old(self).scroll_spec(),
            final(self).buffer_ticks_spec() == old(self).buffer_ticks_spec(),
    {
        proof {
            self.states.lemma_wf();
        }
        match self.states.position(action) {
            Some(p) => {
                let state = *self.states.value_at(p);
                if state.buffer > 0 {
                    self.states.replace_at(p, ActionState { buffer: 0, ..state });
                    true
                } else {
                    false
                }
            },
            None => false,
        }
    }

    /// The movement vector, each component in `-1..=1`.
    pub fn movement(&self) -> (r: Vec2)
        ensures
            r == self.movement_spec(),
    {
        self.movement
    }

    /// The cursor position.
    pub fn cursor(&self) -> (r: Vec2)
        ensures
            r == self.cursor_spec(),
    {
        self.cursor
    }

    /// Scroll wheel movement this tick.
    pub fn scroll(&self) -> (r: Fx)
        ensures
            r == self.scroll_spec(),
    {
        self.scroll
    }

    /// Releases everything, as when the window loses focus: every action is
    /// up with nothing buffered, and there is no movement or scroll.
    pub fn release_all(&mut self)
        requires
            old(self).wf(),
        ensures
            final(self).wf(),
            forall|name: Seq<char>| #[trigger] final(self).state_of(name) == (ActionState {
                down: false,
                was_down: old(self).state_of(name).down,
                buffer: 0,
            }) || (final(self).state_of(name) == idle() && old(self).state_of(name) == idle()),
            final(self).movement_spec() == v2(Fx(0), Fx(0)),
            final(self).scroll_spec() == Fx(0),
            final(self).cursor_spec() == old(self).cursor_spec(),
            final(self).buffer_ticks_spec() == old(self).buffer_ticks_spec(),
    {
        let n = self.states.len();
        let mut i: usize = 0;
        proof {
            self.states.lemma_wf();
            old(self).states.lemma_wf();
        }
        while i < n
            invariant
                self.wf(),
                n == self.states.keys().len(),
                n == old(self).states.values().len(),
                n == self.states.values().len(),
                self.states.keys() == old(self).states.keys(),
                i <= n,
                self.buffer_ticks == old(self).buffer_ticks,
                self.cursor == old(self).cursor,
                forall|k: int| 0 <= k < n ==> #[trigger] self.states.values()[k] == if k < i {
                    (ActionState { down: false, was_down: old(self).states.values()[k].down, buffer: 0 })
                } else {
                    old(self).states.values()[k]
                },
            decreases n - i,
        {
            let state = *self.states.value_at(i);
            let ghost prev = self.states.values();
            self.states.replace_at(i, ActionState { down: false, was_down: state.down, buffer: 0 });
            proof {
                assert forall|k: int| 0 <= k < n implies #[trigger] self.states.values()[k] == if k < i + 1 {
                    (ActionState { down: false, was_down: old(self).states.values()[k].down, buffer: 0 })
                } else {
                    old(self).states.values()[k]
                } by {
                    assert(self.states.values()[k] == prev.update(i as int, ActionState { down: false, was_down: state.down, buffer: 0 })[k]);
                    if k != i {
                        assert(self.states.values()[k] == prev[k]);
                    }
                }
            }
            i = i + 1;
        }
        self.movement = Vec2::zero();
        self.scroll = Fx::zero();
        proof {
            self.states.lemma_wf();
            old(self).states.lemma_wf();
            assert forall|name: Seq<char>| #[trigger] self.state_of(name) == (ActionState {
                down: false,
                was_down: old(self).state_of(name).down,
                buffer: 0,
            }) || (self.state_of(name) == idle() && old(self).state_of(name) == idle()) by {
                if self.states.keys().contains(name) {
                    let k = choose|k: int| 0 <= k < n && self.states.keys()[k] == name;
                    assert(self.states.get_spec(self.states.keys()[k]) == Some(self.states.values()[k]));
                    assert(old(self).states.get_spec(old(self).states.keys()[k]) == Some(old(self).states.values()[k]));
                }
            }
        }
    }
}

fn any_active(map: &InputMap, devices: &DeviceState, action: Action) -> (r: bool)
    requires
        map.wf(),
    ensures
        r == action_active(*map, *devices, action.0@),
{
    let list = map.bindings_for(action);
    let threshold = map.axis_threshold;
    let mut k: usize = 0;
    while k < list.len()
        invariant
            list@ == map.bound(action.0@),
            threshold == map.threshold(),
            k <= list@.len(),
            forall|m: int| 0 <= m < k ==> !binding_active(*devices, #[trigger] list@[m], threshold),
        decreases list@.len() - k,
    {
        if devices.is_binding_active(list[k], threshold) {
            return true;
        }
        k = k + 1;
    }
    false
}

fn resolve_movement(map: &InputMap, devices: &DeviceState) -> (r: Vec2)
    ensures
        r == movement_of(*map, *devices),
{
    let stick = Vec2::new(
        devices.axis(GamepadAxis::LeftStickX),
        devices.axis(GamepadAxis::LeftStickY),
    );
    if stick.length().0 > map.dead_zone.0 {
        return stick.clamp_length(Fx::one());
    }
    let mut direction = Vec2::zero();
    if devices.is_key_down(KeyCode::KeyW) || devices.is_key_down(KeyCode::ArrowUp) {
        direction.y = direction.y - Fx::one();
    }
    if devices.is_key_down(KeyCode::KeyS) || devices.is_key_down(KeyCode::ArrowDown) {
        direction.y = direction.y + Fx::one();
    }
    if devices.is_key_down(KeyCode::KeyA) || devices.is_key_down(KeyCode::ArrowLeft) {
        direction.x = direction.x - Fx::one();
    }
    if devices.is_key_down(KeyCode::KeyD) || devices.is_key_down(KeyCode::ArrowRight) {
        direction.x = direction.x + Fx::one();
    }
    direction.normalize()
}

/// A condition that stays available for a few ticks after it lapses:
/// coyote time, and the like.
#[derive(Clone, Copy, Debug, Default)]
pub struct Leniency {
    remaining: u32,
    window: u32,
}

impl Leniency {
    /// Ticks of grace left.
    pub closed spec fn remaining_spec(&self) -> u32 {
        self.remaining
    }

    /// The grace window.
    pub closed spec fn window_spec(&self) -> u32 {
        self.window
    }

    /// A lapsed condition with a grace window of `window` ticks.
    pub fn new(window: u32) -> (r: Leniency)
        ensures
            r.remaining_spec() == 0,
            r.window_spec() == window,
    {
        Leniency { remaining: 0, window }
    }

    /// Advances one tick with the condition's current value: holding
    /// refills the window, lapsing runs it down.
    pub fn update(&mut self, condition: bool)
        ensures
            final(self).window_spec() == old(self).window_spec(),
            final(self).remaining_spec() == if condition {
                old(self).window_spec()
            } else if old(self).remaining_spec() > 0 {
                (old(self).remaining_spec() - 1) as u32
            } else {
                0
            },
    {
        if condition {
            self.remaining = self.window;
        } else if self.remaining > 0 {
            self.remaining = self.remaining - 1;
        }
    }

    /// True while the condition holds or is within its grace window.
    pub fn is_available(&self) -> (r: bool)
        ensures
            r == (self.remaining_spec() > 0),
    {
        self.remaining > 0
    }

    /// Ends the grace period, so it cannot be used twice.
    pub fn consume(&mut self)
        ensures
            final(self).remaining_spec() == 0,
            final(self).window_spec() == old(self).window_spec(),
    {
        self.remaining = 0;
    }
}

} // verus!
