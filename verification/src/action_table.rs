//! Named actions, and tables keyed by them in ascending order of name.
use crate::text::chars_of;
use vstd::prelude::*;

verus! {

/// Something the player can do, by name: gameplay asks whether an action
/// happened, never whether a key is down.
#[derive(Clone, Copy, PartialEq, Eq, PartialOrd, Ord, Hash, Debug)]
pub struct Action(pub &'static str);

impl Action {
    /// The action's name.
    pub fn name(self) -> (r: &'static str)
        ensures
            r@ == self.0@,
    {
        self.0
    }
}

/// `a` sorts before `b`: lexicographic order on characters, a proper
/// prefix first, which is the order of `str`.
pub open spec fn name_lt(a: Seq<char>, b: Seq<char>) -> bool
    decreases a.len(),
{
    if a.len() == 0 {
        b.len() > 0
    } else if b.len() == 0 {
        false
    } else if a[0] != b[0] {
        a[0] < b[0]
    } else {
        name_lt(a.drop_first(), b.drop_first())
    }
}

/// The order is strict and total: of two different names exactly one
/// sorts first.
pub proof fn lemma_name_order_total(a: Seq<char>, b: Seq<char>)
    ensures
        !(name_lt(a, b) && name_lt(b, a)),
        !name_lt(a, a),
        a == b || name_lt(a, b) || name_lt(b, a),
    decreases a.len(),
{
    if a.len() > 0 && b.len() > 0 {
        lemma_name_order_total(a.drop_first(), b.drop_first());
        lemma_name_order_total(a.drop_first(), a.drop_first());
        if a[0] == b[0] && a.drop_first() == b.drop_first() {
            assert(a =~= seq![a[0]] + a.drop_first());
            assert(b =~= seq![b[0]] + b.drop_first());
        }
    } else if a.len() == 0 && b.len() == 0 {
        assert(a =~= b);
    } else if a.len() > 0 {
        lemma_name_order_total(a.drop_first(), a.drop_first());
    }
}

/// The order is transitive.
pub proof fn lemma_name_order_transitive(a: Seq<char>, b: Seq<char>, c: Seq<char>)
    requires
        name_lt(a, b),
        name_lt(b, c),
    ensures
        name_lt(a, c),
    decreases a.len(),
{
    if a.len() > 0 && b.len() > 0 && c.len() > 0 && a[0] == b[0] && b[0] == c[0] {
        lemma_name_order_transitive(a.drop_first(), b.drop_first(), c.drop_first());
    }
}

fn same_chars(a: &Vec<char>, b: &Vec<char>) -> (r: bool)
    ensures
        r == (a@ == b@),
{
    if a.len() != b.len() {
        return false;
    }
    let mut i: usize = 0;
    while i < a.len()
        invariant
            a@.len() == b@.len(),
            i <= a@.len(),
            forall|k: int| 0 <= k < i ==> a@[k] == b@[k],
        decreases a@.len() - i,
    {
        if a[i] != b[i] {
            return false;
        }
        i = i + 1;
    }
    assert(a@ =~= b@);
    true
}

/// The two actions have the same name, which is what `==` on them compares.
pub(crate) fn same_action(a: Action, b: Action) -> (r: bool)
    ensures
        r == (a.0@ == b.0@),
{
    let x = chars_of(a.0);
    let y = chars_of(b.0);
    same_chars(&x, &y)
}

fn name_less(a: &Vec<char>, b: &Vec<char>) -> (r: bool)
    ensures
        r == name_lt(a@, b@),
{
    let mut i: usize = 0;
    assert(a@.skip(0) =~= a@);
    assert(b@.skip(0) =~= b@);
    while i < a.len() && i < b.len()
        invariant
            i <= a@.len(),
            i <= b@.len(),
            name_lt(a@, b@) == name_lt(a@.skip(i as int), b@.skip(i as int)),
        decreases a@.len() - i,
    {
        if a[i] != b[i] {
            return a[i] < b[i];
        }
        proof {
            assert(a@.skip(i as int).drop_first() =~= a@.skip(i + 1));
            assert(b@.skip(i as int).drop_first() =~= b@.skip(i + 1));
        }
        i = i + 1;
    }
    i < b.len()
}


/// The value stored under `name`: that of the first entry with that name.
pub open spec fn lookup<V>(keys: Seq<Seq<char>>, values: Seq<V>, name: Seq<char>) -> Option<V>
    decreases keys.len(),
{
    if keys.len() == 0 || values.len() == 0 {
        None
    } else if keys[0] == name {
        Some(values[0])
    } else {
        lookup(keys.drop_first(), values.drop_first(), name)
    }
}

/// With distinct keys, an entry's value is what its key looks up.
pub proof fn lemma_lookup_at<V>(keys: Seq<Seq<char>>, values: Seq<V>, i: int)
    requires
        keys.len() == values.len(),
        0 <= i < keys.len(),
        forall|a: int, b: int| 0 <= a < b < keys.len() ==> keys[a] != keys[b],
    ensures
        lookup(keys, values, keys[i]) == Some(values[i]),
    decreases i,
{
    if i > 0 {
        assert(keys[0] != keys[i]);
        lemma_lookup_at(keys.drop_first(), values.drop_first(), i - 1);
    }
}

/// A name that is no key looks up nothing.
pub proof fn lemma_lookup_absent<V>(keys: Seq<Seq<char>>, values: Seq<V>, name: Seq<char>)
    requires
        !keys.contains(name),
    ensures
        lookup(keys, values, name) is None,
    decreases keys.len(),
{
    if keys.len() > 0 && values.len() > 0 {
        assert(keys[0] != name);
        assert forall|k: int| 0 <= k < keys.drop_first().len() implies keys.drop_first()[k]
            != name by {
            assert(keys.drop_first()[k] == keys[k + 1]);
        }
        lemma_lookup_absent(keys.drop_first(), values.drop_first(), name);
    }
}

/// A name looks up something exactly when it is a key.
pub proof fn lemma_lookup_some<V>(keys: Seq<Seq<char>>, values: Seq<V>, name: Seq<char>)
    requires
        keys.len() == values.len(),
    ensures
        lookup(keys, values, name) is Some <==> keys.contains(name),
    decreases keys.len(),
{
    if !keys.contains(name) {
        lemma_lookup_absent(keys, values, name);
    } else if keys.len() > 0 {
        if keys[0] != name {
            let k = choose|k: int| 0 <= k < keys.len() && keys[k] == name;
            assert(keys.drop_first()[k - 1] == name);
            lemma_lookup_some(keys.drop_first(), values.drop_first(), name);
        }
    }
}

/// Values keyed by action, held in ascending order of action name with no
/// name twice.
#[derive(Clone, Debug)]
pub struct ActionTable<V> {
    entries: Vec<(Action, V)>,
}

impl<V> ActionTable<V> {
    /// The names, in table order.
    pub closed spec fn keys(&self) -> Seq<Seq<char>> {
        self.entries@.map_values(|e: (Action, V)| e.0.0@)
    }

    /// The values, in table order.
    pub closed spec fn values(&self) -> Seq<V> {
        self.entries@.map_values(|e: (Action, V)| e.1)
    }

    /// The value stored under `name`, if any.
    pub open spec fn get_spec(&self, name: Seq<char>) -> Option<V> {
        lookup(self.keys(), self.values(), name)
    }

    /// Distinct keys in ascending order; the keys and values agree in length.
    pub proof fn lemma_wf(&self)
        requires
            self.wf(),
        ensures
            self.keys().len() == self.values().len(),
            forall|a: int, b: int|
                0 <= a < b < self.keys().len() ==> name_lt(
                    #[trigger] self.keys()[a],
                    #[trigger] self.keys()[b],
                ),
            forall|a: int, b: int|
                0 <= a < b < self.keys().len() ==> #[trigger] self.keys()[a] != #[trigger] self.keys()[b],
            forall|i: int|
                0 <= i < self.keys().len() ==> self.get_spec(#[trigger] self.keys()[i]) == Some(
                    self.values()[i],
                ),
            forall|name: Seq<char>| #[trigger] self.get_spec(name) is Some <==> self.keys().contains(name),
    {
        assert forall|a: int, b: int| 0 <= a < b < self.keys().len() implies name_lt(
            #[trigger] self.keys()[a],
            #[trigger] self.keys()[b],
        ) by {
            assert(name_lt(self.entries@[a].0.0@, self.entries@[b].0.0@));
        }
        assert forall|a: int, b: int| 0 <= a < b < self.keys().len() implies #[trigger] self.keys()[a]
            != #[trigger] self.keys()[b] by {
            assert(name_lt(self.keys()[a], self.keys()[b]));
            lemma_name_order_total(self.keys()[a], self.keys()[a]);
        }
        assert forall|i: int| 0 <= i < self.keys().len() implies self.get_spec(
            #[trigger] self.keys()[i],
        ) == Some(self.values()[i]) by {
            lemma_lookup_at(self.keys(), self.values(), i);
        }
        assert forall|name: Seq<char>| #[trigger] self.get_spec(name) is Some <==> self.keys().contains(
            name,
        ) by {
            lemma_lookup_some(self.keys(), self.values(), name);
        }
    }

    /// The names ascend strictly.
    pub closed spec fn wf(&self) -> bool {
        forall|i: int, j: int|
            0 <= i < j < self.entries@.len() ==> name_lt(
                #[trigger] self.entries@[i].0.0@,
                #[trigger] self.entries@[j].0.0@,
            )
    }

    /// An empty table.
    pub fn new() -> (r: ActionTable<V>)
        ensures
            r.wf(),
            r.keys() == Seq::<Seq<char>>::empty(),
            r.values() == Seq::<V>::empty(),
    {
        let r = ActionTable { entries: Vec::new() };
        assert(r.keys() =~= Seq::<Seq<char>>::empty());
        assert(r.values() =~= Seq::<V>::empty());
        r
    }

    /// Number of entries.
    pub fn len(&self) -> (r: usize)
        ensures
            r == self.keys().len(),
            r == self.values().len(),
    {
        self.entries.len()
    }

    /// Where `action` is, or where it would be inserted: the first entry
    /// whose name does not sort before it, and whether that entry is it.
    fn locate(&self, action: Action) -> (r: (usize, bool))
        requires
            self.wf(),
        ensures
            r.0 <= self.keys().len(),
            forall|i: int| 0 <= i < r.0 ==> name_lt(#[trigger] self.keys()[i], action.0@),
            r.1 <==> (r.0 < self.keys().len() && self.keys()[r.0 as int] == action.0@),
            !r.1 ==> forall|i: int|
                r.0 <= i < self.keys().len() ==> name_lt(action.0@, #[trigger] self.keys()[i]),
    {
        let target = chars_of(action.0);
        let mut i: usize = 0;
        while i < self.entries.len()
            invariant
                self.wf(),
                target@ == action.0@,
                i <= self.entries@.len(),
                forall|k: int| 0 <= k < i ==> name_lt(#[trigger] self.keys()[k], action.0@),
            decreases self.entries@.len() - i,
        {
            let name = chars_of(self.entries[i].0.0);
            assert(self.keys()[i as int] == name@);
            if !name_less(&name, &target) {
                proof {
                    lemma_name_order_total(name@, target@);
                }
                if same_chars(&name, &target) {
                    return (i, true);
                }
                proof {
                    assert(name@ != target@) by {
                        if name@ == target@ {
                            assert(name@ =~= target@);
                        }
                    }
                    assert forall|k: int| i <= k < self.keys().len() implies name_lt(
                        action.0@,
                        #[trigger] self.keys()[k],
                    ) by {
                        if k > i {
                            assert(name_lt(self.entries@[i as int].0.0@, self.entries@[k].0.0@));
                            lemma_name_order_transitive(action.0@, name@, self.keys()[k]);
                        }
                    }
                }
                return (i, false);
            }
            i = i + 1;
        }
        (i, false)
    }

    /// The position of the entry for `action`, if any.
    pub fn position(&self, action: Action) -> (r: Option<usize>)
        requires
            self.wf(),
        ensures
            match r {
                Some(i) => i < self.keys().len() && self.keys()[i as int] == action.0@,
                None => !self.keys().contains(action.0@),
            },
    {
        let (i, found) = self.locate(action);
        if found {
            Some(i)
        } else {
            proof {
                if self.keys().contains(action.0@) {
                    let k = choose|k: int| 0 <= k < self.keys().len() && self.keys()[k] == action.0@;
                    lemma_name_order_total(action.0@, action.0@);
                    if k < i {
                        assert(name_lt(self.keys()[k], action.0@));
                    } else {
                        assert(name_lt(action.0@, self.keys()[k]));
                    }
                }
            }
            None
        }
    }

    /// The value at position `i`.
    pub fn value_at(&self, i: usize) -> (r: &V)
        requires
            i < self.keys().len(),
        ensures
            *r == self.values()[i as int],
    {
        &self.entries[i].1
    }

    /// The action at position `i`.
    pub fn action_at(&self, i: usize) -> (r: Action)
        requires
            i < self.keys().len(),
        ensures
            r.0@ == self.keys()[i as int],
    {
        self.entries[i].0
    }

    /// Replaces the value at position `i`, returning the one it held.
    pub fn replace_at(&mut self, i: usize, value: V) -> (r: V)
        requires
            old(self).wf(),
            i < old(self).keys().len(),
        ensures
            final(self).wf(),
            final(self).keys() == old(self).keys(),
            final(self).values() == old(self).values().update(i as int, value),
            r == old(self).values()[i as int],
            old(self).get_spec(old(self).keys()[i as int]) == Some(r),
            forall|name: Seq<char>|
                #[trigger] final(self).get_spec(name) == if name == old(self).keys()[i as int] {
                    Some(value)
                } else {
                    old(self).get_spec(name)
                },
    {
        proof {
            old(self).lemma_wf();
        }
        let (action, old_value) = self.entries.remove(i);
        self.entries.insert(i, (action, value));
        proof {
            assert(self.entries@ =~= old(self).entries@.update(i as int, (action, value)));
            assert forall|a: int, b: int| 0 <= a < b < self.entries@.len() implies name_lt(
                #[trigger] self.entries@[a].0.0@,
                #[trigger] self.entries@[b].0.0@,
            ) by {
                assert(self.entries@[a].0 == old(self).entries@[a].0);
                assert(self.entries@[b].0 == old(self).entries@[b].0);
                assert(name_lt(old(self).entries@[a].0.0@, old(self).entries@[b].0.0@));
            }
            assert(self.keys() =~= old(self).keys());
            assert(self.values() =~= old(self).values().update(i as int, value));
            self.lemma_wf();
            assert forall|name: Seq<char>| #[trigger] self.get_spec(name) == if name == old(self).keys()[i as int] {
                Some(value)
            } else {
                old(self).get_spec(name)
            } by {
                if self.keys().contains(name) {
                    let j = choose|j: int| 0 <= j < self.keys().len() && self.keys()[j] == name;
                    assert(self.get_spec(self.keys()[j]) == Some(self.values()[j]));
                    assert(old(self).get_spec(old(self).keys()[j]) == Some(old(self).values()[j]));
                }
            }
        }
        old_value
    }

    /// Sets the value for `action`: replaced where the name is a key,
    /// otherwise inserted where the order puts it.
    pub fn set(&mut self, action: Action, value: V)
        requires
            old(self).wf(),
        ensures
            final(self).wf(),
            old(self).keys().contains(action.0@) ==> exists|i: int|
                0 <= i < old(self).keys().len() && old(self).keys()[i] == action.0@ && final(self).keys() == old(self).keys() && final(self).values() == old(self).values().update(
                    i,
                    value,
                ),
            !old(self).keys().contains(action.0@) ==> exists|p: int|
                0 <= p <= old(self).keys().len() && final(self).keys() == old(self).keys().insert(
                    p,
                    action.0@,
                ) && final(self).values() == old(self).values().insert(p, value),
            forall|name: Seq<char>|
                #[trigger] final(self).get_spec(name) == if name == action.0@ {
                    Some(value)
                } else {
                    old(self).get_spec(name)
                },
            forall|name: Seq<char>|
                #[trigger] final(self).keys().contains(name) <==> (old(self).keys().contains(name)
                    || name == action.0@),
    {
        proof {
            old(self).lemma_wf();
        }
        let (i, found) = self.locate(action);
        if found {
            self.replace_at(i, value);
            proof {
                self.lemma_wf();
                assert forall|name: Seq<char>| #[trigger] self.get_spec(name) == if name == action.0@ {
                    Some(value)
                } else {
                    old(self).get_spec(name)
                } by {
                    if self.keys().contains(name) {
                        let j = choose|j: int| 0 <= j < self.keys().len() && self.keys()[j] == name;
                        assert(self.get_spec(self.keys()[j]) == Some(self.values()[j]));
                        assert(old(self).get_spec(old(self).keys()[j]) == Some(old(self).values()[j]));
                        if name == action.0@ {
                            assert(j == i as int);
                        }
                    }
                }
            }
        } else {
            proof {
                if self.keys().contains(action.0@) {
                    let k = choose|k: int| 0 <= k < self.keys().len() && self.keys()[k] == action.0@;
                    lemma_name_order_total(action.0@, action.0@);
                    if k < i {
                        assert(name_lt(self.keys()[k], action.0@));
                    } else {
                        assert(name_lt(action.0@, self.keys()[k]));
                    }
                }
            }
            let ghost before = self.entries@;
            self.entries.insert(i, (action, value));
            proof {
                assert(self.keys() =~= old(self).keys().insert(i as int, action.0@));
                assert(self.values() =~= old(self).values().insert(i as int, value));
                assert forall|a: int, b: int| 0 <= a < b < self.entries@.len() implies name_lt(
                    #[trigger] self.entries@[a].0.0@,
                    #[trigger] self.entries@[b].0.0@,
                ) by {
                    if b < i {
                        assert(name_lt(before[a].0.0@, before[b].0.0@));
                    } else if b == i {
                        assert(self.keys()[a] == old(self).keys()[a]);
                    } else if a == i {
                        assert(self.keys()[b] == old(self).keys()[b - 1]);
                    } else if a < i {
                        assert(name_lt(before[a].0.0@, before[b - 1].0.0@));
                    } else {
                        assert(name_lt(before[a - 1].0.0@, before[b - 1].0.0@));
                    }
                }
                self.lemma_wf();
                assert forall|name: Seq<char>| #[trigger] self.keys().contains(name) <==> (old(self).keys().contains(name) || name == action.0@) by {
                    if self.keys().contains(name) {
                        let j = choose|j: int| 0 <= j < self.keys().len() && self.keys()[j] == name;
                        if j < i {
                            assert(old(self).keys()[j] == name);
                            assert(old(self).keys().contains(name));
                        } else if j > i {
                            assert(old(self).keys()[j - 1] == name);
                            assert(old(self).keys().contains(name));
                        } else {
                            assert(self.keys()[j] == action.0@);
                        }
                    }
                    if old(self).keys().contains(name) {
                        let j = choose|j: int| 0 <= j < old(self).keys().len() && old(self).keys()[j] == name;
                        if j < i {
                            assert(self.keys()[j] == name);
                        } else {
                            assert(self.keys()[j + 1] == name);
                        }
                        assert(self.keys().contains(name));
                    }
                    if name == action.0@ {
                        assert(self.keys()[i as int] == name);
                    }
                }
                assert forall|name: Seq<char>| #[trigger] self.get_spec(name) == if name == action.0@ {
                    Some(value)
                } else {
                    old(self).get_spec(name)
                } by {
                    if self.keys().contains(name) {
                        let j = choose|j: int| 0 <= j < self.keys().len() && self.keys()[j] == name;
                        assert(self.get_spec(self.keys()[j]) == Some(self.values()[j]));
                        if j < i {
                            assert(old(self).get_spec(old(self).keys()[j]) == Some(old(self).values()[j]));
                        } else if j > i {
                            assert(old(self).get_spec(old(self).keys()[j - 1]) == Some(old(self).values()[j - 1]));
                        }
                    }
                }
            }
        }
    }

    /// Removes the entry for `action`, returning its value.
    pub fn remove(&mut self, action: Action) -> (r: Option<V>)
        requires
            old(self).wf(),
        ensures
            final(self).wf(),
            old(self).keys().contains(action.0@) ==> exists|i: int|
                0 <= i < old(self).keys().len() && old(self).keys()[i] == action.0@ && r == Some(
                    old(self).values()[i],
                ) && final(self).keys() == old(self).keys().remove(i) && final(self).values()
                    == old(self).values().remove(i),
            !old(self).keys().contains(action.0@) ==> r is None && final(self).keys() == old(self).keys() && final(self).values() == old(self).values(),
            forall|name: Seq<char>|
                #[trigger] final(self).get_spec(name) == if name == action.0@ {
                    None
                } else {
                    old(self).get_spec(name)
                },
            forall|name: Seq<char>|
                #[trigger] final(self).keys().contains(name) <==> (old(self).keys().contains(name)
                    && name != action.0@),
    {
        proof {
            old(self).lemma_wf();
        }
        match self.position(action) {
            Some(i) => {
                let ghost before = self.entries@;
                let (_, value) = self.entries.remove(i);
                proof {
                    assert(self.keys() =~= old(self).keys().remove(i as int));
                    assert(self.values() =~= old(self).values().remove(i as int));
                    assert forall|a: int, b: int| 0 <= a < b < self.entries@.len() implies name_lt(
                        #[trigger] self.entries@[a].0.0@,
                        #[trigger] self.entries@[b].0.0@,
                    ) by {
                        if b < i {
                            assert(name_lt(before[a].0.0@, before[b].0.0@));
                        } else if a < i {
                            assert(name_lt(before[a].0.0@, before[b + 1].0.0@));
                        } else {
                            assert(name_lt(before[a + 1].0.0@, before[b + 1].0.0@));
                        }
                    }
                    self.lemma_wf();
                    assert forall|name: Seq<char>| #[trigger] self.keys().contains(name) <==> (old(self).keys().contains(name)
                        && name != action.0@) by {
                        if self.keys().contains(name) {
                            let j = choose|j: int| 0 <= j < self.keys().len() && self.keys()[j] == name;
                            if j < i {
                                assert(old(self).keys()[j] == name);
                            } else {
                                assert(old(self).keys()[j + 1] == name);
                            }
                        }
                        if old(self).keys().contains(name) && name != action.0@ {
                            let j = choose|j: int| 0 <= j < old(self).keys().len() && old(self).keys()[j] == name;
                            if j < i {
                                assert(self.keys()[j] == name);
                            } else {
                                assert(j != i);
                                assert(self.keys()[j - 1] == name);
                            }
                        }
                    }
                    assert forall|name: Seq<char>| #[trigger] self.get_spec(name) == if name == action.0@ {
                        None
                    } else {
                        old(self).get_spec(name)
                    } by {
                        if self.keys().contains(name) {
                            let j = choose|j: int| 0 <= j < self.keys().len() && self.keys()[j] == name;
                            assert(self.get_spec(self.keys()[j]) == Some(self.values()[j]));
                            if j < i {
                                assert(old(self).get_spec(old(self).keys()[j]) == Some(old(self).values()[j]));
                            } else {
                                assert(old(self).get_spec(old(self).keys()[j + 1]) == Some(old(self).values()[j + 1]));
                            }
                        }
                    }
                }
                Some(value)
            },
            None => None,
        }
    }

    /// Every action, in ascending order of name.
    pub fn actions(&self) -> (r: Vec<Action>)
        ensures
            r@.map_values(|a: Action| a.0@) == self.keys(),
    {
        let mut out: Vec<Action> = Vec::new();
        let mut i: usize = 0;
        while i < self.entries.len()
            invariant
                i <= self.entries@.len(),
                out@.map_values(|a: Action| a.0@) == self.keys().take(i as int),
            decreases self.entries@.len() - i,
        {
            out.push(self.entries[i].0);
            proof {
                assert(self.keys()[i as int] == self.entries@[i as int].0.0@);
                assert(self.keys().take(i + 1) =~= self.keys().take(i as int).push(self.keys()[i as int]));
                assert(out@.map_values(|a: Action| a.0@) =~= self.keys().take(i + 1));
            }
            i = i + 1;
        }
        assert(self.keys().take(i as int) =~= self.keys());
        out
    }
}

} // verus!
