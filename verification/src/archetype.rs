//! Archetype bookkeeping: which component sets exist, which entities hold
//! each set, and the cached transitions between sets.
//!
//! An archetype is identified by its signature, the strictly ascending list of
//! its component ids, so every distinct component set has exactly one
//! archetype however it was reached.
use crate::component::{ComponentId, Tick};
use crate::entity::Entity;
use vstd::prelude::*;

verus! {

/// One component's values for every row of an archetype, with their ticks.
pub struct TypedColumn<T> {
    pub data: Vec<T>,
    pub added: Vec<Tick>,
    pub changed: Vec<Tick>,
}

impl<T> TypedColumn<T> {
    /// The values, in row order.
    pub closed spec fn data_view(&self) -> Seq<T> {
        self.data@
    }

    /// The added ticks, in row order.
    pub closed spec fn added_view(&self) -> Seq<Tick> {
        self.added@
    }

    /// The changed ticks, in row order.
    pub closed spec fn changed_view(&self) -> Seq<Tick> {
        self.changed@
    }

    /// The three vectors have one entry per row.
    pub closed spec fn wf(&self) -> bool {
        self.data@.len() == self.added@.len() && self.data@.len() == self.changed@.len()
    }

    /// An empty column.
    pub fn new() -> (r: TypedColumn<T>)
        ensures
            r.wf(),
            r.data_view().len() == 0,
    {
        TypedColumn { data: Vec::new(), added: Vec::new(), changed: Vec::new() }
    }

    /// Appends a row written at `tick`.
    pub fn push(&mut self, value: T, tick: Tick)
        requires
            old(self).wf(),
        ensures
            final(self).wf(),
            final(self).data_view() == old(self).data_view().push(value),
            final(self).added_view() == old(self).added_view().push(tick),
            final(self).changed_view() == old(self).changed_view().push(tick),
    {
        self.data.push(value);
        self.added.push(tick);
        self.changed.push(tick);
    }

    /// Overwrites the value of `row`, stamping it changed at `tick`; its
    /// added tick stays.
    pub fn replace(&mut self, row: usize, value: T, tick: Tick)
        requires
            old(self).wf(),
            row < old(self).data_view().len(),
        ensures
            final(self).wf(),
            final(self).data_view() == old(self).data_view().update(row as int, value),
            final(self).added_view() == old(self).added_view(),
            final(self).changed_view() == old(self).changed_view().update(row as int, tick),
    {
        self.data.set(row, value);
        self.changed.set(row, tick);
    }

    /// The value of `row` for writing, stamped changed at `tick` first; the
    /// value written through the borrow is what the row then holds.
    pub fn write(&mut self, row: usize, tick: Tick) -> (r: &mut T)
        requires
            old(self).wf(),
            row < old(self).data_view().len(),
        ensures
            *r == old(self).data_view()[row as int],
            final(self).wf(),
            final(self).data_view() == old(self).data_view().update(row as int, *final(r)),
            final(self).added_view() == old(self).added_view(),
            final(self).changed_view() == old(self).changed_view().update(row as int, tick),
    {
        self.changed.set(row, tick);
        &mut self.data[row]
    }

    /// Number of rows.
    pub fn len(&self) -> (r: usize)
        requires
            self.wf(),
        ensures
            r == self.data_view().len(),
    {
        self.data.len()
    }

    /// True when the column has no rows.
    pub fn is_empty(&self) -> (r: bool)
        requires
            self.wf(),
        ensures
            r == (self.data_view().len() == 0),
    {
        self.data.len() == 0
    }

    /// Removes a row by moving the last row into its place, keeping values and
    /// ticks aligned.
    pub fn swap_remove(&mut self, row: usize)
        requires
            old(self).wf(),
            row < old(self).data_view().len(),
        ensures
            final(self).wf(),
            final(self).data_view() == old(self).data_view().update(
                row as int,
                old(self).data_view().last(),
            ).drop_last(),
            final(self).added_view() == old(self).added_view().update(
                row as int,
                old(self).added_view().last(),
            ).drop_last(),
            final(self).changed_view() == old(self).changed_view().update(
                row as int,
                old(self).changed_view().last(),
            ).drop_last(),
    {
        self.data.swap_remove(row);
        self.added.swap_remove(row);
        self.changed.swap_remove(row);
    }

    /// Removes a row like [`TypedColumn::swap_remove`], handing back its
    /// value.
    pub fn take_row(&mut self, row: usize) -> (r: T)
        requires
            old(self).wf(),
            row < old(self).data_view().len(),
        ensures
            final(self).wf(),
            r == old(self).data_view()[row as int],
            final(self).data_view() == old(self).data_view().update(
                row as int,
                old(self).data_view().last(),
            ).drop_last(),
            final(self).added_view() == old(self).added_view().update(
                row as int,
                old(self).added_view().last(),
            ).drop_last(),
            final(self).changed_view() == old(self).changed_view().update(
                row as int,
                old(self).changed_view().last(),
            ).drop_last(),
    {
        let value = self.data.swap_remove(row);
        self.added.swap_remove(row);
        self.changed.swap_remove(row);
        value
    }

    /// Moves one row, value and both ticks, to the end of `destination`,
    /// swap-removing it here.
    pub fn migrate_row(&mut self, row: usize, destination: &mut TypedColumn<T>)
        requires
            old(self).wf(),
            old(destination).wf(),
            row < old(self).data_view().len(),
        ensures
            final(self).wf(),
            final(destination).wf(),
            final(destination).data_view() == old(destination).data_view().push(
                old(self).data_view()[row as int],
            ),
            final(destination).added_view() == old(destination).added_view().push(
                old(self).added_view()[row as int],
            ),
            final(destination).changed_view() == old(destination).changed_view().push(
                old(self).changed_view()[row as int],
            ),
            final(self).data_view() == old(self).data_view().update(
                row as int,
                old(self).data_view().last(),
            ).drop_last(),
            final(self).added_view() == old(self).added_view().update(
                row as int,
                old(self).added_view().last(),
            ).drop_last(),
            final(self).changed_view() == old(self).changed_view().update(
                row as int,
                old(self).changed_view().last(),
            ).drop_last(),
    {
        let value = self.data.swap_remove(row);
        let added = self.added.swap_remove(row);
        let changed = self.changed.swap_remove(row);
        destination.data.push(value);
        destination.added.push(added);
        destination.changed.push(changed);
    }
}

/// The raw ids of a signature.
pub open spec fn ids(s: Seq<ComponentId>) -> Seq<u32> {
    s.map_values(|c: ComponentId| c.0)
}

/// Strictly ascending ids, so each component appears once.
pub open spec fn strictly_sorted(s: Seq<ComponentId>) -> bool {
    forall|i: int, j: int| 0 <= i < j < s.len() ==> (#[trigger] s[i]).0 < (#[trigger] s[j]).0
}

/// The set of components in a signature.
pub open spec fn sig_set(s: Seq<ComponentId>) -> Set<ComponentId> {
    s.to_set()
}

/// One archetype: its signature and the entities in it, in row order.
pub struct Archetype {
    /// The components of this archetype, strictly ascending.
    pub components: Vec<ComponentId>,
    /// The entity in each row.
    pub entities: Vec<Entity>,
}

impl Archetype {
    /// Number of entities (rows).
    pub fn len(&self) -> (r: usize)
        ensures
            r == self.entities@.len(),
    {
        self.entities.len()
    }

    /// The column position of a component, if the archetype has it.
    pub fn column_index(&self, component: ComponentId) -> (r: Option<usize>)
        ensures
            r matches Some(i) ==> i < self.components@.len() && self.components@[i as int]
                == component,
            r is None ==> !self.components@.contains(component),
    {
        let mut i: usize = 0;
        while i < self.components.len()
            invariant
                i <= self.components@.len(),
                forall|j: int| 0 <= j < i ==> self.components@[j] != component,
            decreases self.components@.len() - i,
        {
            if self.components[i].0 == component.0 {
                return Some(i);
            }
            i = i + 1;
        }
        None
    }

    /// True when the archetype has every listed component.
    pub fn has_all(&self, required: &[ComponentId]) -> (r: bool)
        ensures
            r == (forall|k: int| 0 <= k < required@.len() ==> self.components@.contains(required@[k])),
    {
        let mut k: usize = 0;
        while k < required.len()
            invariant
                k <= required@.len(),
                forall|j: int| 0 <= j < k ==> self.components@.contains(required@[j]),
            decreases required@.len() - k,
        {
            if self.column_index(required[k]).is_none() {
                return false;
            }
            k = k + 1;
        }
        true
    }

    /// True when the archetype has none of the listed components.
    pub fn has_none(&self, excluded: &[ComponentId]) -> (r: bool)
        ensures
            r == (forall|k: int| 0 <= k < excluded@.len() ==> !self.components@.contains(excluded@[k])),
    {
        let mut k: usize = 0;
        while k < excluded.len()
            invariant
                k <= excluded@.len(),
                forall|j: int| 0 <= j < k ==> !self.components@.contains(excluded@[j]),
            decreases excluded@.len() - k,
        {
            if self.column_index(excluded[k]).is_some() {
                return false;
            }
            k = k + 1;
        }
        true
    }
}

/// A cached transition: adding or removing `component` at `from` leads to `to`.
#[derive(Clone, Copy, PartialEq, Eq, Structural, Debug)]
pub struct Edge {
    pub from: u32,
    pub component: ComponentId,
    pub to: u32,
}

/// All archetypes of a world, with the add/remove transition caches.
pub struct Archetypes {
    list: Vec<Archetype>,
    add_edges: Vec<Edge>,
    remove_edges: Vec<Edge>,
}

/// The archetype a query selects: non-empty, with every required component
/// and none of the excluded ones.
pub open spec fn archetype_matches(
    sig: Seq<ComponentId>,
    population: nat,
    required: Seq<ComponentId>,
    excluded: Seq<ComponentId>,
) -> bool {
    &&& population > 0
    &&& forall|k: int| 0 <= k < required.len() ==> sig.contains(required[k])
    &&& forall|k: int| 0 <= k < excluded.len() ==> !sig.contains(excluded[k])
}

/// Two strictly ascending signatures with the same components are equal.
pub proof fn lemma_sorted_unique(a: Seq<ComponentId>, b: Seq<ComponentId>)
    requires
        strictly_sorted(a),
        strictly_sorted(b),
        sig_set(a) == sig_set(b),
    ensures
        a == b,
    decreases a.len() + b.len(),
{
    if a.len() == 0 || b.len() == 0 {
        if a.len() > 0 {
            assert(sig_set(a).contains(a[0]));
            assert(!sig_set(b).contains(a[0]));
        }
        if b.len() > 0 {
            assert(sig_set(b).contains(b[0]));
            assert(!sig_set(a).contains(b[0]));
        }
        assert(a =~= b);
    } else {
        // The largest elements agree: each bounds every element of the other.
        let la = a.last();
        let lb = b.last();
        assert(sig_set(b).contains(la));
        assert(sig_set(a).contains(lb));
        let ia = choose|i: int| 0 <= i < b.len() && b[i] == la;
        let ib = choose|i: int| 0 <= i < a.len() && a[i] == lb;
        assert(la.0 <= lb.0) by {
            if ia < b.len() - 1 {
                assert(b[ia].0 < b[b.len() - 1].0);
            }
        }
        assert(lb.0 <= la.0) by {
            if ib < a.len() - 1 {
                assert(a[ib].0 < a[a.len() - 1].0);
            }
        }
        assert(la == lb);
        let a2 = a.drop_last();
        let b2 = b.drop_last();
        assert(sig_set(a2) =~= sig_set(b2)) by {
            assert forall|c: ComponentId| sig_set(a2).contains(c) implies sig_set(b2).contains(c) by {
                let i = choose|i: int| 0 <= i < a2.len() && a2[i] == c;
                assert(a[i] == c);
                assert(sig_set(b).contains(c));
                let j = choose|j: int| 0 <= j < b.len() && b[j] == c;
                if j == b.len() - 1 {
                    assert(a[i].0 < a[a.len() - 1].0);
                }
                assert(b2[j] == c);
            }
            assert forall|c: ComponentId| sig_set(b2).contains(c) implies sig_set(a2).contains(c) by {
                let i = choose|i: int| 0 <= i < b2.len() && b2[i] == c;
                assert(b[i] == c);
                assert(sig_set(a).contains(c));
                let j = choose|j: int| 0 <= j < a.len() && a[j] == c;
                if j == a.len() - 1 {
                    assert(b[i].0 < b[b.len() - 1].0);
                }
                assert(a2[j] == c);
            }
        }
        lemma_sorted_unique(a2, b2);
        assert(a =~= a2.push(la));
        assert(b =~= b2.push(lb));
    }
}

impl Archetypes {
    /// The signature of each archetype, by index.
    pub closed spec fn signatures(&self) -> Seq<Seq<ComponentId>> {
        self.list@.map_values(|a: Archetype| a.components@)
    }

    /// The entities of each archetype, by index.
    pub closed spec fn populations(&self) -> Seq<Seq<Entity>> {
        self.list@.map_values(|a: Archetype| a.entities@)
    }

    /// The archetype with index `i` adds `c` to the archetype with index `j`.
    pub open spec fn adds(&self, from: int, c: ComponentId, to: int) -> bool {
        &&& 0 <= from < self.signatures().len()
        &&& 0 <= to < self.signatures().len()
        &&& sig_set(self.signatures()[to]) == sig_set(self.signatures()[from]).insert(c)
    }

    /// The archetype with index `i` removes `c` from the one with index `j`.
    pub open spec fn removes(&self, from: int, c: ComponentId, to: int) -> bool {
        &&& 0 <= from < self.signatures().len()
        &&& 0 <= to < self.signatures().len()
        &&& sig_set(self.signatures()[to]) == sig_set(self.signatures()[from]).remove(c)
    }

    /// The root is the empty archetype, signatures are sorted and distinct,
    /// and every cached transition is correct.
    pub closed spec fn wf(&self) -> bool {
        &&& self.list@.len() >= 1
        &&& self.list@.len() <= u32::MAX
        &&& self.list@[0].components@.len() == 0
        &&& forall|i: int|
            0 <= i < self.list@.len() ==> strictly_sorted(#[trigger] self.list@[i].components@)
        &&& forall|i: int, j: int|
            0 <= i < self.list@.len() && 0 <= j < self.list@.len() && i != j ==> (
            #[trigger] self.list@[i].components@) != (#[trigger] self.list@[j].components@)
        &&& forall|k: int|
            0 <= k < self.add_edges@.len() ==> self.adds(
                (#[trigger] self.add_edges@[k]).from as int,
                self.add_edges@[k].component,
                self.add_edges@[k].to as int,
            )
        &&& forall|k: int|
            0 <= k < self.remove_edges@.len() ==> self.removes(
                (#[trigger] self.remove_edges@[k]).from as int,
                self.remove_edges@[k].component,
                self.remove_edges@[k].to as int,
            )
    }

    /// Two archetypes with the same component set are the same archetype.
    pub proof fn lemma_one_archetype_per_set(&self, i: int, j: int)
        requires
            self.wf(),
            0 <= i < self.signatures().len(),
            0 <= j < self.signatures().len(),
            sig_set(self.signatures()[i]) == sig_set(self.signatures()[j]),
        ensures
            i == j,
    {
        assert(self.signatures()[i] == self.list@[i].components@);
        assert(self.signatures()[j] == self.list@[j].components@);
        lemma_sorted_unique(self.list@[i].components@, self.list@[j].components@);
    }

    /// There is a signature and a population per archetype, at least the
    /// root, and no more than archetype ids can name.
    pub proof fn lemma_counts(&self)
        requires
            self.wf(),
        ensures
            self.signatures().len() == self.populations().len(),
            1 <= self.signatures().len() <= u32::MAX,
            self.signatures()[0].len() == 0,
    {
    }

    /// Just the empty root archetype.
    pub fn new() -> (r: Archetypes)
        ensures
            r.wf(),
            r.signatures() == seq![Seq::<ComponentId>::empty()],
            r.populations() == seq![Seq::<Entity>::empty()],
    {
        let mut list: Vec<Archetype> = Vec::new();
        list.push(Archetype { components: Vec::new(), entities: Vec::new() });
        let r = Archetypes { list, add_edges: Vec::new(), remove_edges: Vec::new() };
        proof {
            assert(r.signatures() =~= seq![Seq::<ComponentId>::empty()]);
            assert(r.populations() =~= seq![Seq::<Entity>::empty()]);
        }
        r
    }

    /// The archetype at `index`. The index must be in range.
    pub fn get(&self, index: u32) -> (r: &Archetype)
        requires
            index < self.signatures().len(),
        ensures
            r.components@ == self.signatures()[index as int],
            r.entities@ == self.populations()[index as int],
    {
        &self.list[index as usize]
    }

    /// Number of archetypes.
    pub fn len(&self) -> (r: usize)
        ensures
            r == self.signatures().len(),
            r == self.populations().len(),
    {
        self.list.len()
    }

    /// Indices of the non-empty archetypes with every required component and
    /// none of the excluded ones, in ascending order.
    pub fn matching(&self, required: &[ComponentId], excluded: &[ComponentId]) -> (r: Vec<u32>)
        requires
            self.wf(),
        ensures
            forall|a: u32|
                r@.contains(a) <==> (a < self.signatures().len() && archetype_matches(
                    self.signatures()[a as int],
                    self.populations()[a as int].len(),
                    required@,
                    excluded@,
                )),
            forall|i: int, j: int| 0 <= i < j < r@.len() ==> r@[i] < r@[j],
    {
        let mut matches: Vec<u32> = Vec::new();
        let mut index: usize = 0;
        while index < self.list.len()
            invariant
                index <= self.list@.len() <= u32::MAX,
                forall|a: u32|
                    matches@.contains(a) <==> (a < index && archetype_matches(
                        self.signatures()[a as int],
                        self.populations()[a as int].len(),
                        required@,
                        excluded@,
                    )),
                forall|i: int, j: int| 0 <= i < j < matches@.len() ==> matches@[i] < matches@[j],
                forall|i: int| 0 <= i < matches@.len() ==> matches@[i] < index,
            decreases self.list@.len() - index,
        {
            let archetype = &self.list[index];
            let ghost before = matches@;
            let selected = archetype.entities.len() > 0 && archetype.has_all(required)
                && archetype.has_none(excluded);
            if selected {
                matches.push(index as u32);
            }
            proof {
                assert(self.signatures()[index as int] == self.list@[index as int].components@);
                assert(self.populations()[index as int] == self.list@[index as int].entities@);
                assert(selected == archetype_matches(
                    self.signatures()[index as int],
                    self.populations()[index as int].len(),
                    required@,
                    excluded@,
                ));
                if selected {
                    assert(matches@ == before.push(index as u32));
                    assert(matches@[before.len() as int] == index as u32);
                } else {
                    assert(matches@ == before);
                }
                assert forall|a: u32| matches@.contains(a) <==> (a < index + 1 && archetype_matches(
                    self.signatures()[a as int],
                    self.populations()[a as int].len(),
                    required@,
                    excluded@,
                )) by {
                    if matches@.contains(a) {
                        let j = choose|j: int| 0 <= j < matches@.len() && matches@[j] == a;
                        if j < before.len() {
                            assert(before[j] == a);
                            assert(before.contains(a));
                        } else {
                            assert(a == index as u32);
                        }
                    }
                    if a < index + 1 && archetype_matches(
                        self.signatures()[a as int],
                        self.populations()[a as int].len(),
                        required@,
                        excluded@,
                    ) {
                        if (a as int) < index as int {
                            assert(before.contains(a));
                            let j = choose|j: int| 0 <= j < before.len() && before[j] == a;
                            assert(matches@[j] == a);
                        } else {
                            assert(a == index as u32);
                            assert(selected);
                        }
                    }
                }
            }
            index = index + 1;
        }
        matches
    }

    /// The index of the archetype with exactly this signature, creating it
    /// (empty) when it does not exist yet. Archetype ids must
    /// not run out.
    fn get_or_insert(&mut self, signature: Vec<ComponentId>) -> (r: u32)
        requires
            old(self).wf(),
            strictly_sorted(signature@),
            old(self).signatures().len() < u32::MAX,
        ensures
            final(self).wf(),
            r < final(self).signatures().len(),
            final(self).signatures()[r as int] == signature@,
            old(self).signatures().contains(signature@) ==> final(self).signatures() == old(self).signatures() && final(self).populations() == old(self).populations(),
            !old(self).signatures().contains(signature@) ==> final(self).signatures() == old(self).signatures().push(signature@) && final(self).populations() == old(self).populations().push(Seq::<Entity>::empty()) && r == old(self).signatures().len(),
            final(self).add_edges@ == old(self).add_edges@,
            final(self).remove_edges@ == old(self).remove_edges@,
    {
        let mut index: usize = 0;
        while index < self.list.len()
            invariant
                self.wf(),
                self.list@ == old(self).list@,
                self.add_edges@ == old(self).add_edges@,
                self.remove_edges@ == old(self).remove_edges@,
                strictly_sorted(signature@),
                old(self).signatures().len() < u32::MAX,
                index <= self.list@.len(),
                forall|j: int| 0 <= j < index ==> self.list@[j].components@ != signature@,
            decreases self.list@.len() - index,
        {
            if same_signature(&self.list[index].components, &signature) {
                proof {
                    assert(self.signatures()[index as int] == signature@);
                }
                return index as u32;
            }
            index = index + 1;
        }
        let ghost old_sigs = self.signatures();
        let ghost old_pops = self.populations();
        proof {
            assert forall|j: int| 0 <= j < old_sigs.len() implies old_sigs[j] != signature@ by {
                assert(old_sigs[j] == self.list@[j].components@);
            }
        }
        let index = self.list.len() as u32;
        self.list.push(Archetype { components: signature, entities: Vec::new() });
        proof {
            assert(self.signatures() =~= old_sigs.push(signature@));
            assert(self.populations() =~= old_pops.push(Seq::<Entity>::empty()));
            assert forall|k: int| 0 <= k < self.add_edges@.len() implies self.adds(
                (#[trigger] self.add_edges@[k]).from as int,
                self.add_edges@[k].component,
                self.add_edges@[k].to as int,
            ) by {
                assert(old(self).adds(
                    self.add_edges@[k].from as int,
                    self.add_edges@[k].component,
                    self.add_edges@[k].to as int,
                ));
            }
            assert forall|k: int| 0 <= k < self.remove_edges@.len() implies self.removes(
                (#[trigger] self.remove_edges@[k]).from as int,
                self.remove_edges@[k].component,
                self.remove_edges@[k].to as int,
            ) by {
                assert(old(self).removes(
                    self.remove_edges@[k].from as int,
                    self.remove_edges@[k].component,
                    self.remove_edges@[k].to as int,
                ));
            }
        }
        index
    }

    /// The archetype reached by adding `component` to archetype `from`; the
    /// transition is cached, and adding a component the archetype already has
    /// leads back to it. The index must be in range and
    /// archetype ids must not run out.
    pub fn archetype_with(&mut self, from: u32, component: ComponentId) -> (r: u32)
        requires
            old(self).wf(),
            from < old(self).signatures().len(),
            old(self).signatures().len() < u32::MAX,
        ensures
            final(self).wf(),
            final(self).adds(from as int, component, r as int),
            final(self).signatures().len() <= old(self).signatures().len() + 1,
            final(self).signatures().len() >= old(self).signatures().len(),
            forall|i: int|
                0 <= i < old(self).signatures().len() ==> final(self).signatures()[i] == old(self).signatures()[i] && final(self).populations()[i] == old(self).populations()[i],
            final(self).signatures().len() == old(self).signatures().len() + 1 ==> final(self).populations().last().len() == 0,
            final(self).signatures().len() == old(self).signatures().len() + 1 ==> r == old(self).signatures().len(),
    {
        let mut k: usize = 0;
        while k < self.add_edges.len()
            invariant
                self.wf(),
                k <= self.add_edges@.len(),
            decreases self.add_edges@.len() - k,
        {
            let edge = self.add_edges[k];
            if edge.from == from && edge.component.0 == component.0 {
                proof {
                    assert(self.adds(edge.from as int, edge.component, edge.to as int));
                }
                return edge.to;
            }
            k = k + 1;
        }
        let mut signature = copy_signature(&self.list[from as usize].components);
        let ghost source = signature@;
        proof {
            assert(self.signatures()[from as int] == source);
        }
        let mut insert_at: usize = 0;
        while insert_at < signature.len() && signature[insert_at].0 < component.0
            invariant
                signature@ == source,
                strictly_sorted(source),
                insert_at <= source.len(),
                forall|j: int| 0 <= j < insert_at ==> source[j].0 < component.0,
            decreases source.len() - insert_at,
        {
            insert_at = insert_at + 1;
        }
        let destination = if insert_at < signature.len() && signature[insert_at].0 == component.0 {
            proof {
                assert(source[insert_at as int] == component);
                assert(sig_set(source).insert(component) =~= sig_set(source));
            }
            from
        } else {
            signature.insert(insert_at, component);
            proof {
                let s = signature@;
                assert forall|i: int, j: int| 0 <= i < j < s.len() implies (#[trigger] s[i]).0 < (
                #[trigger] s[j]).0 by {
                    if j < insert_at {
                    } else if i < insert_at && j == insert_at {
                    } else if i < insert_at {
                        assert(s[j] == source[j - 1]);
                    } else if i == insert_at {
                        assert(s[j] == source[j - 1]);
                        assert(source[insert_at as int].0 > component.0);
                        if j - 1 > insert_at {
                            assert(source[insert_at as int].0 < source[j - 1].0);
                        }
                    } else {
                        assert(s[i] == source[i - 1]);
                        assert(s[j] == source[j - 1]);
                    }
                }
                assert(sig_set(s) =~= sig_set(source).insert(component)) by {
                    assert forall|c: ComponentId| sig_set(s).contains(c) implies sig_set(
                        source,
                    ).insert(component).contains(c) by {
                        let i = choose|i: int| 0 <= i < s.len() && s[i] == c;
                        if i < insert_at {
                            assert(source[i] == c);
                        } else if i > insert_at {
                            assert(source[i - 1] == c);
                        }
                    }
                    assert forall|c: ComponentId| sig_set(source).insert(component).contains(
                        c,
                    ) implies sig_set(s).contains(c) by {
                        if c == component {
                            assert(s[insert_at as int] == c);
                        } else {
                            let i = choose|i: int| 0 <= i < source.len() && source[i] == c;
                            if i < insert_at {
                                assert(s[i] == c);
                            } else {
                                assert(s[i + 1] == c);
                            }
                        }
                    }
                }
            }
            self.get_or_insert(signature)
        };
        let ghost mid = self.signatures();
        self.add_edges.push(Edge { from, component, to: destination });
        proof {
            assert(self.signatures() == mid);
            assert forall|k: int| 0 <= k < self.add_edges@.len() implies self.adds(
                (#[trigger] self.add_edges@[k]).from as int,
                self.add_edges@[k].component,
                self.add_edges@[k].to as int,
            ) by {}
        }
        destination
    }

    /// The archetype reached by removing `component` from archetype `from`;
    /// the transition is cached, and removing a component the archetype lacks
    /// leads back to it. The index must be in range and
    /// archetype ids must not run out.
    pub fn archetype_without(&mut self, from: u32, component: ComponentId) -> (r: u32)
        requires
            old(self).wf(),
            from < old(self).signatures().len(),
            old(self).signatures().len() < u32::MAX,
        ensures
            final(self).wf(),
            final(self).removes(from as int, component, r as int),
            final(self).signatures().len() <= old(self).signatures().len() + 1,
            final(self).signatures().len() >= old(self).signatures().len(),
            forall|i: int|
                0 <= i < old(self).signatures().len() ==> final(self).signatures()[i] == old(self).signatures()[i] && final(self).populations()[i] == old(self).populations()[i],
            final(self).signatures().len() == old(self).signatures().len() + 1 ==> final(self).populations().last().len() == 0,
            final(self).signatures().len() == old(self).signatures().len() + 1 ==> r == old(self).signatures().len(),
    {
        let mut k: usize = 0;
        while k < self.remove_edges.len()
            invariant
                self.wf(),
                k <= self.remove_edges@.len(),
            decreases self.remove_edges@.len() - k,
        {
            let edge = self.remove_edges[k];
            if edge.from == from && edge.component.0 == component.0 {
                proof {
                    assert(self.removes(edge.from as int, edge.component, edge.to as int));
                }
                return edge.to;
            }
            k = k + 1;
        }
        let mut signature = copy_signature(&self.list[from as usize].components);
        let ghost source = signature@;
        proof {
            assert(self.signatures()[from as int] == source);
        }
        let mut remove_at: usize = 0;
        while remove_at < signature.len() && signature[remove_at].0 != component.0
            invariant
                signature@ == source,
                remove_at <= source.len(),
                forall|j: int| 0 <= j < remove_at ==> source[j] != component,
            decreases source.len() - remove_at,
        {
            remove_at = remove_at + 1;
        }
        let destination = if remove_at == signature.len() {
            proof {
                assert(sig_set(source).remove(component) =~= sig_set(source));
            }
            from
        } else {
            signature.remove(remove_at);
            proof {
                let s = signature@;
                assert(source[remove_at as int] == component);
                assert forall|i: int, j: int| 0 <= i < j < s.len() implies (#[trigger] s[i]).0 < (
                #[trigger] s[j]).0 by {
                    if j < remove_at {
                    } else if i < remove_at {
                        assert(s[j] == source[j + 1]);
                    } else {
                        assert(s[i] == source[i + 1]);
                        assert(s[j] == source[j + 1]);
                    }
                }
                assert(sig_set(s) =~= sig_set(source).remove(component)) by {
                    assert forall|c: ComponentId| sig_set(s).contains(c) implies sig_set(
                        source,
                    ).remove(component).contains(c) by {
                        let i = choose|i: int| 0 <= i < s.len() && s[i] == c;
                        if i < remove_at {
                            assert(source[i] == c);
                            assert(source[i].0 < source[remove_at as int].0);
                        } else {
                            assert(source[i + 1] == c);
                            assert(source[remove_at as int].0 < source[i + 1].0);
                        }
                    }
                    assert forall|c: ComponentId| sig_set(source).remove(component).contains(
                        c,
                    ) implies sig_set(s).contains(c) by {
                        let i = choose|i: int| 0 <= i < source.len() && source[i] == c;
                        if i < remove_at {
                            assert(s[i] == c);
                        } else {
                            assert(i != remove_at);
                            assert(s[i - 1] == c);
                        }
                    }
                }
            }
            self.get_or_insert(signature)
        };
        let ghost mid = self.signatures();
        self.remove_edges.push(Edge { from, component, to: destination });
        proof {
            assert(self.signatures() == mid);
            assert forall|k: int| 0 <= k < self.remove_edges@.len() implies self.removes(
                (#[trigger] self.remove_edges@[k]).from as int,
                self.remove_edges@[k].component,
                self.remove_edges@[k].to as int,
            ) by {}
        }
        destination
    }

    /// Appends an entity to an archetype, returning its row. The index
    /// must be in range.
    pub fn push_entity(&mut self, archetype: u32, entity: Entity) -> (r: usize)
        requires
            old(self).wf(),
            archetype < old(self).signatures().len(),
        ensures
            final(self).wf(),
            final(self).signatures() == old(self).signatures(),
            final(self).populations() == old(self).populations().update(
                archetype as int,
                old(self).populations()[archetype as int].push(entity),
            ),
            r == old(self).populations()[archetype as int].len(),
    {
        let ghost old_sigs = self.signatures();
        let ghost old_pops = self.populations();
        let mut slot = Archetype { components: Vec::new(), entities: Vec::new() };
        std::mem::swap(&mut slot, &mut self.list[archetype as usize]);
        slot.entities.push(entity);
        let row = slot.entities.len() - 1;
        std::mem::swap(&mut slot, &mut self.list[archetype as usize]);
        proof {
            assert(self.signatures() =~= old_sigs);
            assert(self.populations() =~= old_pops.update(
                archetype as int,
                old_pops[archetype as int].push(entity),
            ));
            assert(self.list@[0].components@ == old(self).list@[0].components@);
            assert forall|i: int| 0 <= i < self.list@.len() implies self.list@[i].components@
                == old(self).list@[i].components@ by {
                assert(self.signatures()[i] == old_sigs[i]);
            }
        }
        row
    }

    /// Removes a row from an archetype by moving the last row into it, and
    /// returns the entity now in that row, if any. The index and
    /// row must be in range.
    pub fn swap_remove(&mut self, archetype: u32, row: usize) -> (r: Option<Entity>)
        requires
            old(self).wf(),
            archetype < old(self).signatures().len(),
            row < old(self).populations()[archetype as int].len(),
        ensures
            final(self).wf(),
            final(self).signatures() == old(self).signatures(),
            final(self).populations() == old(self).populations().update(
                archetype as int,
                old(self).populations()[archetype as int].update(
                    row as int,
                    old(self).populations()[archetype as int].last(),
                ).drop_last(),
            ),
            r == (if row < final(self).populations()[archetype as int].len() {
                Some(final(self).populations()[archetype as int][row as int])
            } else {
                None
            }),
    {
        let ghost old_sigs = self.signatures();
        let ghost old_pops = self.populations();
        let mut slot = Archetype { components: Vec::new(), entities: Vec::new() };
        std::mem::swap(&mut slot, &mut self.list[archetype as usize]);
        proof {
            assert(slot.entities@ == old_pops[archetype as int]);
        }
        slot.entities.swap_remove(row);
        let displaced = if row < slot.entities.len() {
            Some(slot.entities[row])
        } else {
            None
        };
        std::mem::swap(&mut slot, &mut self.list[archetype as usize]);
        proof {
            assert(self.signatures() =~= old_sigs);
            assert(self.populations() =~= old_pops.update(
                archetype as int,
                old_pops[archetype as int].update(
                    row as int,
                    old_pops[archetype as int].last(),
                ).drop_last(),
            ));
            assert forall|i: int| 0 <= i < self.list@.len() implies self.list@[i].components@
                == old(self).list@[i].components@ by {
                assert(self.signatures()[i] == old_sigs[i]);
            }
        }
        displaced
    }

    /// Moves an entity's row from one archetype to another: it is
    /// swap-removed from `from` and appended to `to`. Returns the new row and
    /// the entity that was moved into the vacated row, if any. The archetypes
    /// must differ and the indices and the row must be in range.
    pub fn migrate(&mut self, from: u32, row: usize, to: u32, entity: Entity) -> (r: (
        usize,
        Option<Entity>,
    ))
        requires
            old(self).wf(),
            from < old(self).signatures().len(),
            to < old(self).signatures().len(),
            from != to,
            row < old(self).populations()[from as int].len(),
        ensures
            final(self).wf(),
            final(self).signatures() == old(self).signatures(),
            final(self).populations() == old(self).populations().update(
                from as int,
                old(self).populations()[from as int].update(
                    row as int,
                    old(self).populations()[from as int].last(),
                ).drop_last(),
            ).update(to as int, old(self).populations()[to as int].push(entity)),
            r.0 == old(self).populations()[to as int].len(),
            r.1 == (if row < final(self).populations()[from as int].len() {
                Some(final(self).populations()[from as int][row as int])
            } else {
                None
            }),
    {
        let displaced = self.swap_remove(from, row);
        let new_row = self.push_entity(to, entity);
        (new_row, displaced)
    }

    /// Back to just the empty root archetype.
    pub fn clear(&mut self)
        ensures
            final(self).wf(),
            final(self).signatures() == seq![Seq::<ComponentId>::empty()],
            final(self).populations() == seq![Seq::<Entity>::empty()],
    {
        *self = Archetypes::new();
    }
}

/// A copy of a signature.
fn copy_signature(s: &Vec<ComponentId>) -> (r: Vec<ComponentId>)
    ensures
        r@ == s@,
{
    let mut r: Vec<ComponentId> = Vec::new();
    let mut i: usize = 0;
    while i < s.len()
        invariant
            i <= s@.len(),
            r@ == s@.take(i as int),
        decreases s@.len() - i,
    {
        r.push(s[i]);
        i = i + 1;
        proof {
            assert(r@ =~= s@.take(i as int));
        }
    }
    proof {
        assert(s@.take(i as int) =~= s@);
    }
    r
}

/// True when two signatures are identical.
fn same_signature(a: &Vec<ComponentId>, b: &Vec<ComponentId>) -> (r: bool)
    ensures
        r == (a@ == b@),
{
    if a.len() != b.len() {
        return false;
    }
    let mut i: usize = 0;
    while i < a.len()
        invariant
            a@.len() == b@.len(),
            i <= a@.len(),
            forall|j: int| 0 <= j < i ==> a@[j] == b@[j],
        decreases a@.len() - i,
    {
        if a[i].0 != b[i].0 {
            return false;
        }
        i = i + 1;
    }
    proof {
        assert(a@ =~= b@);
    }
    true
}

} // verus!
