//! Touch input, and the virtual controls built on it.
//!
//! A phone has no keyboard: this module tracks the fingers on the screen and
//! resolves them into a thumbstick direction and a set of pressed actions.
//! A finger's claim (the stick, a button, or nothing) is decided when it
//! comes down and kept until it lifts, and fingers are told apart by the
//! platform's id, never by where they are.
use crate::action_table::{same_action, Action};
use crate::fixed::{fx_add, Fx};
use crate::geometry::{rect_contains_point, Rect};
use crate::vec2::{v2, v2_div, v2_length, v2_sub, Vec2};
use vstd::prelude::*;

verus! {

/// A finger on the screen.
#[derive(Clone, Copy, Debug, PartialEq, Eq, Structural, Hash, PartialOrd, Ord)]
pub struct TouchId(pub u64);

/// What is happening to a touch point.
#[derive(Clone, Copy, Debug, PartialEq, Eq, Structural)]
pub enum TouchPhase {
    /// The finger just came down.
    Started,
    /// It is down and may have moved.
    Moved,
    /// It lifted.
    Ended,
    /// The platform took it away: a system gesture, or a call arriving.
    Cancelled,
}

/// One touch event from the platform.
#[derive(Clone, Copy, Debug, PartialEq)]
pub struct TouchEvent {
    /// Which finger.
    pub id: TouchId,
    /// Where, in the game's internal pixel space.
    pub position: Vec2,
    /// What it is doing.
    pub phase: TouchPhase,
}

/// A round region that acts as a thumbstick.
#[derive(Clone, Copy, Debug, PartialEq)]
pub struct Thumbstick {
    /// Where the stick rests, in internal pixels.
    pub centre: Vec2,
    /// How far the thumb travels for full deflection.
    pub radius: Fx,
    /// How far outside `radius` a touch may start and still grab the stick.
    pub grab_margin: Fx,
}

/// A touch starting at `p` takes the stick: it lands within the radius
/// plus the grab margin.
pub open spec fn stick_accepts(s: Thumbstick, p: Vec2) -> bool {
    v2_length(v2_sub(s.centre, p)).0 <= fx_add(s.radius, s.grab_margin).0
}

/// The direction a thumb at `p` pushes: the offset from the centre over
/// the radius, or over its own length once it is past the edge, and zero
/// for a degenerate stick or a thumb at the centre.
pub open spec fn stick_direction(s: Thumbstick, p: Vec2) -> Vec2 {
    let offset = v2_sub(p, s.centre);
    let distance = v2_length(offset);
    if s.radius.0 <= 0 {
        v2(Fx(0), Fx(0))
    } else if distance.0 <= 0 {
        v2(Fx(0), Fx(0))
    } else if distance.0 >= s.radius.0 {
        v2_div(offset, distance)
    } else {
        v2_div(offset, s.radius)
    }
}

impl Thumbstick {
    /// A stick at a position, grabbable up to twice its radius away.
    pub fn new(centre: Vec2, radius: Fx) -> (r: Thumbstick)
        ensures
            r == (Thumbstick { centre, radius, grab_margin: radius }),
    {
        Thumbstick { centre, radius, grab_margin: radius }
    }

    /// True when a touch starting here should take control of the stick.
    pub fn accepts(&self, position: Vec2) -> (r: bool)
        ensures
            r == stick_accepts(*self, position),
    {
        position.distance(self.centre).0 <= (self.radius + self.grab_margin).0
    }

    /// The direction a thumb at `position` is pushing; a thumb dragged past
    /// the edge keeps pushing at full deflection.
    pub fn direction(&self, position: Vec2) -> (r: Vec2)
        ensures
            r == stick_direction(*self, position),
    {
        if self.radius.0 <= 0 {
            return Vec2::zero();
        }
        let offset = position - self.centre;
        let distance = offset.length();
        if distance.0 <= 0 {
            return Vec2::zero();
        }
        if distance.0 >= self.radius.0 {
            return offset / distance;
        }
        offset / self.radius
    }
}

/// A rectangular region that acts as a button.
#[derive(Clone, Copy, Debug, PartialEq)]
pub struct TouchButton {
    /// The action it triggers.
    pub action: Action,
    /// Where it is, in internal pixels.
    pub bounds: Rect,
}

impl TouchButton {
    /// A button covering a region.
    pub fn new(action: Action, bounds: Rect) -> (r: TouchButton)
        ensures
            r == (TouchButton { action, bounds }),
    {
        TouchButton { action, bounds }
    }

    /// True when a touch at this position presses the button.
    pub fn contains(&self, position: Vec2) -> (r: bool)
        ensures
            r == rect_contains_point(self.bounds, position),
    {
        self.bounds.contains_point(position)
    }
}

/// Which control a finger has claimed.
#[derive(Clone, Copy, Debug, PartialEq, Eq, Structural)]
pub enum Claim {
    /// It is driving the thumbstick.
    Stick,
    /// It is holding a button, by its index in the layout.
    Button(usize),
    /// It landed on nothing.
    Nothing,
}

/// The on-screen control layout: asked both what is pressed and where to
/// draw, so the two cannot disagree.
#[derive(Clone, Debug, PartialEq)]
pub struct TouchLayout {
    /// The movement stick.
    pub stick: Thumbstick,
    /// The action buttons.
    pub buttons: Vec<TouchButton>,
}

/// The last of the first `n` buttons that contains `p`.
pub open spec fn last_button_at(buttons: Seq<TouchButton>, p: Vec2, n: int) -> Option<usize>
    decreases n,
{
    if n <= 0 {
        None
    } else if rect_contains_point(buttons[n - 1].bounds, p) {
        Some((n - 1) as usize)
    } else {
        last_button_at(buttons, p, n - 1)
    }
}

/// What a finger coming down at `p` claims: the stick first, then the
/// topmost button under it.
pub open spec fn claim_at(layout: TouchLayout, p: Vec2) -> Claim {
    if stick_accepts(layout.stick, p) {
        Claim::Stick
    } else {
        match last_button_at(layout.buttons@, p, layout.buttons@.len() as int) {
            Some(i) => Claim::Button(i),
            None => Claim::Nothing,
        }
    }
}

impl TouchLayout {
    /// A layout with a stick and no buttons.
    pub fn new(stick: Thumbstick) -> (r: TouchLayout)
        ensures
            r.stick == stick,
            r.buttons@ == Seq::<TouchButton>::empty(),
    {
        TouchLayout { stick, buttons: Vec::new() }
    }

    /// Adds a button, on top of those already there.
    pub fn with_button(self, button: TouchButton) -> (r: TouchLayout)
        ensures
            r.stick == self.stick,
            r.buttons@ == self.buttons@.push(button),
    {
        let mut layout = self;
        layout.buttons.push(button);
        layout
    }

    /// The index of the button a touch lands on, if any; later buttons win,
    /// so a small button over a larger one takes the press.
    pub fn button_at(&self, position: Vec2) -> (r: Option<usize>)
        ensures
            r == last_button_at(self.buttons@, position, self.buttons@.len() as int),
            r matches Some(i) ==> i < self.buttons@.len(),
    {
        let mut i: usize = self.buttons.len();
        while i > 0
            invariant
                i <= self.buttons@.len(),
                last_button_at(self.buttons@, position, self.buttons@.len() as int)
                    == last_button_at(self.buttons@, position, i as int),
            decreases i,
        {
            if self.buttons[i - 1].contains(position) {
                return Some(i - 1);
            }
            i = i - 1;
        }
        None
    }
}

/// The ids run strictly upwards, so each finger appears once.
pub open spec fn ids_ascending(s: Seq<(TouchId, Claim, Vec2)>) -> bool {
    forall|a: int, b: int| 0 <= a < b < s.len() ==> (#[trigger] s[a]).0.0 < (#[trigger] s[b]).0.0
}

/// What the finger `id` holds, and where it is.
pub open spec fn finger_of(s: Seq<(TouchId, Claim, Vec2)>, id: u64) -> Option<(Claim, Vec2)>
    decreases s.len(),
{
    if s.len() == 0 {
        None
    } else if s[0].0.0 == id {
        Some((s[0].1, s[0].2))
    } else {
        finger_of(s.drop_first(), id)
    }
}

/// The stick's direction: that of the last finger, in id order, that holds
/// it, or zero when none does.
pub open spec fn movement_of(s: Seq<(TouchId, Claim, Vec2)>, layout: TouchLayout) -> Vec2
    decreases s.len(),
{
    if s.len() == 0 {
        v2(Fx(0), Fx(0))
    } else if s.last().1 == Claim::Stick {
        stick_direction(layout.stick, s.last().2)
    } else {
        movement_of(s.drop_last(), layout)
    }
}

/// Some action in `actions` has `a`'s name.
pub open spec fn has_action(actions: Seq<Action>, a: Action) -> bool {
    exists|i: int| 0 <= i < actions.len() && (#[trigger] actions[i]).0@ == a.0@
}

/// The pressed actions: those of the buttons held, each once, in the order
/// of the first finger, by id, holding them; a claim on a button the layout
/// lacks presses nothing.
pub open spec fn pressed_of(s: Seq<(TouchId, Claim, Vec2)>, layout: TouchLayout) -> Seq<Action>
    decreases s.len(),
{
    if s.len() == 0 {
        Seq::empty()
    } else {
        let before = pressed_of(s.drop_last(), layout);
        match s.last().1 {
            Claim::Button(i) => if i < layout.buttons@.len() && !has_action(
                before,
                layout.buttons@[i as int].action,
            ) {
                before.push(layout.buttons@[i as int].action)
            } else {
                before
            },
            _ => before,
        }
    }
}

/// Where the first finger, by id, holding the stick is.
pub open spec fn stick_finger(s: Seq<(TouchId, Claim, Vec2)>) -> Option<Vec2>
    decreases s.len(),
{
    if s.len() == 0 {
        None
    } else if s[0].1 == Claim::Stick {
        Some(s[0].2)
    } else {
        stick_finger(s.drop_first())
    }
}

/// However many fingers hold the same button, its action is pressed once:
/// no two pressed actions share a name.
pub proof fn lemma_each_action_pressed_once(s: Seq<(TouchId, Claim, Vec2)>, layout: TouchLayout)
    ensures
        forall|i: int, j: int|
            0 <= i < j < pressed_of(s, layout).len() ==> (#[trigger] pressed_of(s, layout)[i]).0@
                != (#[trigger] pressed_of(s, layout)[j]).0@,
    decreases s.len(),
{
    if s.len() > 0 {
        lemma_each_action_pressed_once(s.drop_last(), layout);
        let before = pressed_of(s.drop_last(), layout);
        let after = pressed_of(s, layout);
        assert forall|i: int, j: int| 0 <= i < j < after.len() implies (#[trigger] after[i]).0@
            != (#[trigger] after[j]).0@ by {
            if after.len() > before.len() {
                assert(after == before.push(after.last()));
                if j == before.len() {
                    assert(!has_action(before, after.last()));
                    assert(after[i] == before[i]);
                    if before[i].0@ == after.last().0@ {
                        assert(has_action(before, after.last()));
                    }
                } else {
                    assert(after[i] == before[i]);
                    assert(after[j] == before[j]);
                }
            } else {
                assert(after == before);
            }
        }
    }
}

/// In an id-ordered list, the entry at `i` is what `finger_of` finds.
pub proof fn lemma_finger_at(s: Seq<(TouchId, Claim, Vec2)>, i: int)
    requires
        ids_ascending(s),
        0 <= i < s.len(),
    ensures
        finger_of(s, s[i].0.0) == Some((s[i].1, s[i].2)),
    decreases i,
{
    if i > 0 {
        assert(s[0].0.0 < s[i].0.0);
        assert(s.drop_first()[i - 1] == s[i]);
        lemma_finger_at(s.drop_first(), i - 1);
    }
}

/// A finger absent from the list is not found.
pub proof fn lemma_finger_absent(s: Seq<(TouchId, Claim, Vec2)>, id: u64)
    requires
        forall|i: int| 0 <= i < s.len() ==> (#[trigger] s[i]).0.0 != id,
    ensures
        finger_of(s, id) is None,
    decreases s.len(),
{
    if s.len() > 0 {
        assert forall|i: int| 0 <= i < s.drop_first().len() implies (
        #[trigger] s.drop_first()[i]).0.0 != id by {
            assert(s.drop_first()[i] == s[i + 1]);
        }
        lemma_finger_absent(s.drop_first(), id);
    }
}

/// `finger_of` in an id-ordered list, entry by entry.
proof fn lemma_fingers(s: Seq<(TouchId, Claim, Vec2)>)
    requires
        ids_ascending(s),
    ensures
        forall|i: int| 0 <= i < s.len() ==> finger_of(s, (#[trigger] s[i]).0.0) == Some((s[i].1, s[i].2)),
        forall|id: u64| (forall|i: int| 0 <= i < s.len() ==> (#[trigger] s[i]).0.0 != id) ==> finger_of(s, id) is None,
{
    assert forall|i: int| 0 <= i < s.len() implies finger_of(s, (#[trigger] s[i]).0.0) == Some((s[i].1, s[i].2)) by {
        lemma_finger_at(s, i);
    }
    assert forall|id: u64| (forall|i: int| 0 <= i < s.len() ==> (#[trigger] s[i]).0.0 != id) implies finger_of(s, id) is None by {
        lemma_finger_absent(s, id);
    }
}

/// Tracks fingers and resolves them into a stick direction and pressed
/// actions.
#[derive(Clone, Debug)]
pub struct TouchState {
    fingers: Vec<(TouchId, Claim, Vec2)>,
    pressed: Vec<Action>,
    movement: Vec2,
}

impl TouchState {
    /// The fingers down, in ascending order of id.
    pub closed spec fn fingers_spec(&self) -> Seq<(TouchId, Claim, Vec2)> {
        self.fingers@
    }

    /// The actions held.
    pub closed spec fn pressed_spec(&self) -> Seq<Action> {
        self.pressed@
    }

    /// The stick's direction.
    pub closed spec fn movement_spec(&self) -> Vec2 {
        self.movement
    }

    /// Each finger appears once, in ascending order of id.
    pub closed spec fn wf(&self) -> bool {
        ids_ascending(self.fingers@)
    }

    /// An empty tracker.
    pub fn new() -> (r: TouchState)
        ensures
            r.wf(),
            r.fingers_spec() == Seq::<(TouchId, Claim, Vec2)>::empty(),
            r.pressed_spec() == Seq::<Action>::empty(),
            r.movement_spec() == v2(Fx(0), Fx(0)),
    {
        TouchState { fingers: Vec::new(), pressed: Vec::new(), movement: Vec2::zero() }
    }

    /// Where finger `id` is, or would go, in the list: the first entry whose
    /// id is not below it, and whether that entry is it.
    fn locate(&self, id: u64) -> (r: (usize, bool))
        requires
            self.wf(),
        ensures
            r.0 <= self.fingers@.len(),
            forall|i: int| 0 <= i < r.0 ==> (#[trigger] self.fingers@[i]).0.0 < id,
            r.1 <==> (r.0 < self.fingers@.len() && self.fingers@[r.0 as int].0.0 == id),
            forall|i: int| r.0 <= i < self.fingers@.len() ==> (#[trigger] self.fingers@[i]).0.0 >= id,
    {
        let mut i: usize = 0;
        while i < self.fingers.len()
            invariant
                ids_ascending(self.fingers@),
                i <= self.fingers@.len(),
                forall|k: int| 0 <= k < i ==> (#[trigger] self.fingers@[k]).0.0 < id,
            decreases self.fingers@.len() - i,
        {
            if self.fingers[i].0.0 >= id {
                proof {
                    assert forall|k: int| i <= k < self.fingers@.len() implies (
                    #[trigger] self.fingers@[k]).0.0 >= id by {
                        if k > i {
                            assert(self.fingers@[i as int].0.0 < self.fingers@[k].0.0);
                        }
                    }
                }
                return (i, self.fingers[i].0.0 == id);
            }
            i = i + 1;
        }
        (i, false)
    }

    /// Applies one platform event against a layout.
    ///
    /// A finger coming down claims what `claim_at` gives and keeps it until
    /// it lifts: moving only changes where it is, and a move or lift of an
    /// unknown finger changes nothing. The stick direction and pressed
    /// actions are then resolved from the fingers.
    pub fn handle(&mut self, event: TouchEvent, layout: &TouchLayout)
        requires
            old(self).wf(),
        ensures
            final(self).wf(),
            forall|id: u64| #[trigger] finger_of(final(self).fingers_spec(), id) == if id != event.id.0 {
                finger_of(old(self).fingers_spec(), id)
            } else {
                match event.phase {
                    TouchPhase::Started => Some((claim_at(*layout, event.position), event.position)),
                    TouchPhase::Moved => match finger_of(old(self).fingers_spec(), id) {
                        Some(f) => Some((f.0, event.position)),
                        None => None,
                    },
                    _ => None,
                }
            },
            final(self).movement_spec() == movement_of(final(self).fingers_spec(), *layout),
            final(self).pressed_spec() == pressed_of(final(self).fingers_spec(), *layout),
    {
        match event.phase {
            TouchPhase::Started => {
                let claim = if layout.stick.accepts(event.position) {
                    Claim::Stick
                } else {
                    match layout.button_at(event.position) {
                        Some(index) => Claim::Button(index),
                        None => Claim::Nothing,
                    }
                };
                self.put((event.id, claim, event.position));
            },
            TouchPhase::Moved => {
                self.move_to(event.id.0, event.position);
            },
            _ => {
                self.lift(event.id.0);
            },
        }
        self.resolve(layout);
    }

    /// Records `entry`, replacing what its finger held before.
    fn put(&mut self, entry: (TouchId, Claim, Vec2))
        requires
            old(self).wf(),
        ensures
            final(self).wf(),
            forall|id: u64| #[trigger] finger_of(final(self).fingers@, id) == if id != entry.0.0 {
                finger_of(old(self).fingers@, id)
            } else {
                Some((entry.1, entry.2))
            },
    {
        let ghost before = self.fingers@;
        let (at, found) = self.locate(entry.0.0);
        proof {
            lemma_fingers(before);
        }
        if found {
            self.fingers.set(at, entry);
            proof {
                let after = self.fingers@;
                assert(after == before.update(at as int, entry));
                assert(ids_ascending(after)) by {
                    assert forall|a: int, b: int| 0 <= a < b < after.len() implies (
                    #[trigger] after[a]).0.0 < (#[trigger] after[b]).0.0 by {
                        assert(before[a].0.0 < before[b].0.0);
                    }
                }
                lemma_fingers(after);
                assert forall|id: u64| #[trigger] finger_of(after, id) == if id != entry.0.0 {
                    finger_of(before, id)
                } else {
                    Some((entry.1, entry.2))
                } by {
                    if id != entry.0.0 {
                        if exists|i: int| 0 <= i < before.len() && before[i].0.0 == id {
                            let i = choose|i: int| 0 <= i < before.len() && before[i].0.0 == id;
                            assert(after[i] == before[i]);
                        } else {
                            assert forall|i: int| 0 <= i < after.len() implies (#[trigger] after[i]).0.0 != id by {
                                if i != at {
                                    assert(after[i] == before[i]);
                                }
                            }
                        }
                    } else {
                        assert(after[at as int] == entry);
                    }
                }
            }
        } else {
            self.fingers.insert(at, entry);
            proof {
                let after = self.fingers@;
                assert(after == before.insert(at as int, entry));
                assert(ids_ascending(after)) by {
                    assert forall|a: int, b: int| 0 <= a < b < after.len() implies (
                    #[trigger] after[a]).0.0 < (#[trigger] after[b]).0.0 by {
                        if b < at {
                            assert(before[a].0.0 < before[b].0.0);
                        } else if b == at {
                            assert(before[a].0.0 < entry.0.0);
                        } else if a < at {
                            assert(after[b] == before[b - 1]);
                            assert(before[a].0.0 < entry.0.0);
                            assert(before[b - 1].0.0 >= entry.0.0);
                        } else if a == at {
                            assert(after[b] == before[b - 1]);
                            assert(before[b - 1].0.0 >= entry.0.0);
                            assert(before[b - 1].0.0 != entry.0.0) by {
                                if b - 1 != at {
                                    assert(before[at as int].0.0 < before[b - 1].0.0);
                                }
                            }
                        } else {
                            assert(after[a] == before[a - 1]);
                            assert(after[b] == before[b - 1]);
                            assert(before[a - 1].0.0 < before[b - 1].0.0);
                        }
                    }
                }
                lemma_fingers(after);
                assert forall|id: u64| #[trigger] finger_of(after, id) == if id != entry.0.0 {
                    finger_of(before, id)
                } else {
                    Some((entry.1, entry.2))
                } by {
                    if id != entry.0.0 {
                        if exists|i: int| 0 <= i < before.len() && before[i].0.0 == id {
                            let i = choose|i: int| 0 <= i < before.len() && before[i].0.0 == id;
                            if i < at {
                                assert(after[i] == before[i]);
                            } else {
                                assert(after[i + 1] == before[i]);
                            }
                        } else {
                            assert forall|i: int| 0 <= i < after.len() implies (#[trigger] after[i]).0.0 != id by {
                                if i < at {
                                    assert(after[i] == before[i]);
                                } else if i > at {
                                    assert(after[i] == before[i - 1]);
                                }
                            }
                        }
                    } else {
                        assert(after[at as int] == entry);
                    }
                }
            }
        }
    }

    /// Moves finger `id` to `position`, keeping its claim; an unknown finger
    /// is ignored.
    fn move_to(&mut self, id: u64, position: Vec2)
        requires
            old(self).wf(),
        ensures
            final(self).wf(),
            forall|k: u64| #[trigger] finger_of(final(self).fingers@, k) == if k != id {
                finger_of(old(self).fingers@, k)
            } else {
                match finger_of(old(self).fingers@, k) {
                    Some(f) => Some((f.0, position)),
                    None => None,
                }
            },
    {
        let ghost before = self.fingers@;
        let (at, found) = self.locate(id);
        proof {
            lemma_fingers(before);
        }
        if found {
            let entry = (self.fingers[at].0, self.fingers[at].1, position);
            self.fingers.set(at, entry);
            proof {
                let after = self.fingers@;
                assert(after == before.update(at as int, entry));
                assert(ids_ascending(after)) by {
                    assert forall|a: int, b: int| 0 <= a < b < after.len() implies (
                    #[trigger] after[a]).0.0 < (#[trigger] after[b]).0.0 by {
                        assert(before[a].0.0 < before[b].0.0);
                    }
                }
                lemma_fingers(after);
                assert forall|k: u64| #[trigger] finger_of(after, k) == if k != id {
                    finger_of(before, k)
                } else {
                    match finger_of(before, k) {
                        Some(f) => Some((f.0, position)),
                        None => None,
                    }
                } by {
                    if k != id {
                        if exists|i: int| 0 <= i < before.len() && before[i].0.0 == k {
                            let i = choose|i: int| 0 <= i < before.len() && before[i].0.0 == k;
                            assert(after[i] == before[i]);
                        } else {
                            assert forall|i: int| 0 <= i < after.len() implies (#[trigger] after[i]).0.0 != k by {
                                if i != at {
                                    assert(after[i] == before[i]);
                                }
                            }
                        }
                    } else {
                        assert(after[at as int] == entry);
                        assert(before[at as int].0.0 == k);
                    }
                }
            }
        } else {
            proof {
                assert forall|i: int| 0 <= i < before.len() implies (#[trigger] before[i]).0.0 != id by {}
            }
        }
    }

    /// Forgets finger `id`, if it is down.
    fn lift(&mut self, id: u64)
        requires
            old(self).wf(),
        ensures
            final(self).wf(),
            forall|k: u64| #[trigger] finger_of(final(self).fingers@, k) == if k != id {
                finger_of(old(self).fingers@, k)
            } else {
                None
            },
    {
        let ghost before = self.fingers@;
        let (at, found) = self.locate(id);
        proof {
            lemma_fingers(before);
        }
        if found {
            self.fingers.remove(at);
            proof {
                let after = self.fingers@;
                assert(after == before.remove(at as int));
                assert(ids_ascending(after)) by {
                    assert forall|a: int, b: int| 0 <= a < b < after.len() implies (
                    #[trigger] after[a]).0.0 < (#[trigger] after[b]).0.0 by {
                        if b < at {
                            assert(before[a].0.0 < before[b].0.0);
                        } else if a < at {
                            assert(after[b] == before[b + 1]);
                            assert(before[a].0.0 < before[b + 1].0.0);
                        } else {
                            assert(after[a] == before[a + 1]);
                            assert(after[b] == before[b + 1]);
                            assert(before[a + 1].0.0 < before[b + 1].0.0);
                        }
                    }
                }
                lemma_fingers(after);
                assert forall|k: u64| #[trigger] finger_of(after, k) == if k != id {
                    finger_of(before, k)
                } else {
                    None
                } by {
                    if k != id {
                        if exists|i: int| 0 <= i < before.len() && before[i].0.0 == k {
                            let i = choose|i: int| 0 <= i < before.len() && before[i].0.0 == k;
                            if i < at {
                                assert(after[i] == before[i]);
                            } else {
                                assert(i != at);
                                assert(after[i - 1] == before[i]);
                            }
                        } else {
                            assert forall|i: int| 0 <= i < after.len() implies (#[trigger] after[i]).0.0 != k by {
                                if i < at {
                                    assert(after[i] == before[i]);
                                } else {
                                    assert(after[i] == before[i + 1]);
                                }
                            }
                        }
                    } else {
                        assert forall|i: int| 0 <= i < after.len() implies (#[trigger] after[i]).0.0 != k by {
                            if i < at {
                                assert(after[i] == before[i]);
                            } else {
                                assert(after[i] == before[i + 1]);
                                assert(before[at as int].0.0 < before[i + 1].0.0);
                            }
                        }
                    }
                }
            }
        } else {
            proof {
                assert forall|i: int| 0 <= i < before.len() implies (#[trigger] before[i]).0.0 != id by {}
            }
        }
    }

    /// Forgets every finger, as when the app loses focus and no lift will
    /// come for a touch in progress.
    pub fn clear(&mut self)
        ensures
            final(self).wf(),
            final(self).fingers_spec() == Seq::<(TouchId, Claim, Vec2)>::empty(),
            final(self).pressed_spec() == Seq::<Action>::empty(),
            final(self).movement_spec() == v2(Fx(0), Fx(0)),
    {
        self.fingers.clear();
        self.pressed.clear();
        self.movement = Vec2::zero();
    }

    /// Recomputes the stick direction and pressed actions from the fingers.
    fn resolve(&mut self, layout: &TouchLayout)
        requires
            old(self).wf(),
        ensures
            final(self).wf(),
            final(self).fingers@ == old(self).fingers@,
            final(self).movement == movement_of(final(self).fingers@, *layout),
            final(self).pressed@ == pressed_of(final(self).fingers@, *layout),
    {
        self.pressed.clear();
        self.movement = Vec2::zero();
        let mut i: usize = 0;
        while i < self.fingers.len()
            invariant
                self.fingers@ == old(self).fingers@,
                ids_ascending(self.fingers@),
                i <= self.fingers@.len(),
                self.movement == movement_of(self.fingers@.take(i as int), *layout),
                self.pressed@ == pressed_of(self.fingers@.take(i as int), *layout),
            decreases self.fingers@.len() - i,
        {
            let ghost prefix = self.fingers@.take(i + 1);
            proof {
                assert(prefix.drop_last() =~= self.fingers@.take(i as int));
                assert(prefix.last() == self.fingers@[i as int]);
            }
            let claim = self.fingers[i].1;
            let position = self.fingers[i].2;
            match claim {
                Claim::Stick => {
                    self.movement = layout.stick.direction(position);
                },
                Claim::Button(index) => {
                    if index < layout.buttons.len() {
                        let action = layout.buttons[index].action;
                        let held = contains_action(&self.pressed, action);
                        if !held {
                            self.pressed.push(action);
                        }
                    }
                },
                Claim::Nothing => {},
            }
            i = i + 1;
        }
        proof {
            assert(self.fingers@.take(self.fingers@.len() as int) =~= self.fingers@);
        }
    }

    /// The stick's direction this tick.
    pub fn movement(&self) -> (r: Vec2)
        ensures
            r == self.movement_spec(),
    {
        self.movement
    }

    /// The actions held this tick.
    pub fn pressed(&self) -> (r: &[Action])
        ensures
            r@ == self.pressed_spec(),
    {
        self.pressed.as_slice()
    }

    /// True when an action is held by a finger.
    pub fn is_pressed(&self, action: Action) -> (r: bool)
        ensures
            r == has_action(self.pressed_spec(), action),
    {
        contains_action(&self.pressed, action)
    }

    /// How many fingers are down.
    pub fn touch_count(&self) -> (r: usize)
        ensures
            r == self.fingers_spec().len(),
    {
        self.fingers.len()
    }

    /// Whether any finger is on the stick.
    pub fn stick_held(&self) -> (r: bool)
        ensures
            r == (stick_finger(self.fingers_spec()) is Some),
    {
        self.stick_position().is_some()
    }

    /// Where the finger controlling the stick is, for the HUD to draw the
    /// thumb under it.
    pub fn stick_position(&self) -> (r: Option<Vec2>)
        ensures
            r == stick_finger(self.fingers_spec()),
    {
        let mut i: usize = 0;
        proof {
            assert(self.fingers@.skip(0) =~= self.fingers@);
        }
        while i < self.fingers.len()
            invariant
                i <= self.fingers@.len(),
                stick_finger(self.fingers@) == stick_finger(self.fingers@.skip(i as int)),
            decreases self.fingers@.len() - i,
        {
            proof {
                assert(self.fingers@.skip(i as int)[0] == self.fingers@[i as int]);
                assert(self.fingers@.skip(i as int).drop_first() =~= self.fingers@.skip(i + 1));
            }
            if self.fingers[i].1 == Claim::Stick {
                return Some(self.fingers[i].2);
            }
            i = i + 1;
        }
        None
    }
}

impl Default for TouchState {
    fn default() -> (r: TouchState)
        ensures
            r.wf(),
            r.fingers_spec() == Seq::<(TouchId, Claim, Vec2)>::empty(),
            r.pressed_spec() == Seq::<Action>::empty(),
            r.movement_spec() == v2(Fx(0), Fx(0)),
    {
        TouchState::new()
    }
}

/// Whether some action in `list` has `action`'s name.
fn contains_action(list: &Vec<Action>, action: Action) -> (r: bool)
    ensures
        r == has_action(list@, action),
{
    let mut i: usize = 0;
    while i < list.len()
        invariant
            i <= list@.len(),
            forall|k: int| 0 <= k < i ==> (#[trigger] list@[k]).0@ != action.0@,
        decreases list@.len() - i,
    {
        if same_action(list[i], action) {
            return true;
        }
        i = i + 1;
    }
    false
}

} // verus!
