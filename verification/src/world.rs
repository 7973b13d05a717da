//! The world's structure: which entities live, which archetype row holds
//! each one, and the logical clock.
//!
//! Every live entity's record points at the archetype row that holds it, and
//! every archetype row holds a live entity whose record points back: the two
//! tables are kept in step by every operation here. Component values
//! themselves are kept in typed columns laid out in the same rows; the
//! operations that move an entity between archetypes say which rows moved,
//! so the columns can follow.
use crate::archetype::{sig_set, Archetypes};
use crate::component::{Component, ComponentId, ComponentInfo, ComponentRegistry, StorageKind, Tick};
use crate::entity::{is_live, Entity, EntityAllocator, EntityLocation, Slot};
use crate::rng::lemma_swap_preserves_multiset;
use vstd::prelude::*;

verus! {

/// The rows of archetype `to`, or none for the archetype about to be made
/// at the end of the list.
pub open spec fn old_rows_of(pops: Seq<Seq<Entity>>, to: int) -> Seq<Entity> {
    if to < pops.len() {
        pops[to]
    } else {
        Seq::empty()
    }
}

/// The row lists with an empty one added when `to` is the next new
/// archetype.
pub open spec fn padded_rows(pops: Seq<Seq<Entity>>, to: int) -> Seq<Seq<Entity>> {
    if to < pops.len() {
        pops
    } else {
        pops.push(Seq::empty())
    }
}

/// The row lists after `entity` moves from row `row` of archetype `from` to
/// the end of archetype `to`: the last entity of `from` fills the hole it
/// leaves, and every other archetype keeps its rows.
pub open spec fn moved_rows(
    pops: Seq<Seq<Entity>>,
    from: int,
    row: int,
    to: int,
    entity: Entity,
) -> Seq<Seq<Entity>> {
    let padded = padded_rows(pops, to);
    padded.update(from, padded[from].update(row, padded[from].last()).drop_last()).update(
        to,
        padded[to].push(entity),
    )
}


/// Slot `i`'s record, if live, points at a row that holds its entity.
pub open spec fn located(slots: Seq<Slot>, pops: Seq<Seq<Entity>>, i: int) -> bool {
    match slots[i] {
        Slot::Live { generation, location } => {
            &&& (location.archetype as int) < pops.len()
            &&& (location.row as int) < pops[location.archetype as int].len()
            &&& pops[location.archetype as int][location.row as int] == (Entity {
                index: i as u32,
                generation,
            })
        },
        Slot::Free { .. } => true,
    }
}

/// Entity `e`, found in row `r` of archetype `a`, is live and its record
/// points at that row.
pub open spec fn placed(slots: Seq<Slot>, e: Entity, a: int, r: int) -> bool {
    &&& (e.index as int) < slots.len()
    &&& slots[e.index as int] == (Slot::Live {
        generation: e.generation,
        location: EntityLocation { archetype: a as u32, row: r as u32 },
    })
}

/// The entity records and the archetype rows describe each other.
pub open spec fn agree(slots: Seq<Slot>, pops: Seq<Seq<Entity>>) -> bool {
    &&& forall|i: int| 0 <= i < slots.len() ==> #[trigger] located(slots, pops, i)
    &&& forall|a: int, r: int|
        0 <= a < pops.len() && 0 <= r < pops[a].len() ==> placed(slots, #[trigger] pops[a][r], a, r)
}

/// The number of rows across all archetypes.
pub open spec fn total_rows(pops: Seq<Seq<Entity>>) -> nat
    decreases pops.len(),
{
    if pops.len() == 0 {
        0
    } else {
        total_rows(pops.drop_last()) + pops.last().len()
    }
}

/// Replacing one archetype's rows changes the total by the difference.
pub proof fn lemma_total_rows_update(pops: Seq<Seq<Entity>>, a: int, rows: Seq<Entity>)
    requires
        0 <= a < pops.len(),
    ensures
        total_rows(pops.update(a, rows)) == total_rows(pops) - pops[a].len() + rows.len(),
    decreases pops.len(),
{
    let updated = pops.update(a, rows);
    if a == pops.len() - 1 {
        assert(updated.drop_last() =~= pops.drop_last());
    } else {
        assert(updated.drop_last() =~= pops.drop_last().update(a, rows));
        lemma_total_rows_update(pops.drop_last(), a, rows);
    }
}

/// One archetype holds no more rows than all of them together.
pub proof fn lemma_rows_within_total(pops: Seq<Seq<Entity>>, a: int)
    requires
        0 <= a < pops.len(),
    ensures
        pops[a].len() <= total_rows(pops),
    decreases pops.len(),
{
    if a < pops.len() - 1 {
        lemma_rows_within_total(pops.drop_last(), a);
    }
}

/// Every archetype's row count is within the total.
proof fn proof_rows_fit(pops: Seq<Seq<Entity>>, a: int)
    requires
        0 <= a < pops.len(),
    ensures
        pops[a].len() <= total_rows(pops),
{
    lemma_rows_within_total(pops, a);
}

/// A new empty archetype adds no rows.
pub proof fn lemma_total_rows_push_empty(pops: Seq<Seq<Entity>>)
    ensures
        total_rows(pops.push(Seq::<Entity>::empty())) == total_rows(pops),
{
    assert(pops.push(Seq::<Entity>::empty()).drop_last() =~= pops);
}

/// A new empty archetype keeps the records and rows in step.
proof fn lemma_agree_push_empty(slots: Seq<Slot>, pops: Seq<Seq<Entity>>)
    requires
        agree(slots, pops),
    ensures
        agree(slots, pops.push(Seq::<Entity>::empty())),
{
    let grown = pops.push(Seq::<Entity>::empty());
    assert forall|i: int| 0 <= i < slots.len() implies #[trigger] located(slots, grown, i) by {
        assert(located(slots, pops, i));
        match slots[i] {
            Slot::Live { generation, location } => {
                assert(grown[location.archetype as int] == pops[location.archetype as int]);
            },
            Slot::Free { .. } => {},
        }
    }
    assert forall|a: int, r: int| 0 <= a < grown.len() && 0 <= r < grown[a].len() implies placed(
        slots,
        #[trigger] grown[a][r],
        a,
        r,
    ) by {
        assert(grown[a] == pops[a]);
        assert(placed(slots, pops[a][r], a, r));
    }
}

/// A fresh live record for `e`, pointing at a new last row of archetype
/// `a`, keeps the records and rows in step.
proof fn lemma_agree_add(
    slots0: Seq<Slot>,
    slots1: Seq<Slot>,
    pops: Seq<Seq<Entity>>,
    a: int,
    e: Entity,
)
    requires
        agree(slots0, pops),
        slots0.len() <= 0x1_0000_0000,
        pops.len() <= u32::MAX,
        total_rows(pops) <= u32::MAX,
        0 <= a < pops.len(),
        e.index >= slots0.len() || slots0[e.index as int] is Free,
        slots1.len() >= slots0.len(),
        (e.index as int) < slots1.len(),
        forall|i: int| 0 <= i < slots0.len() && i != e.index ==> slots1[i] == slots0[i],
        forall|i: int|
            slots0.len() <= i < slots1.len() && i != e.index ==> (#[trigger] slots1[i]) is Free,
        slots1[e.index as int] == (Slot::Live {
            generation: e.generation,
            location: EntityLocation { archetype: a as u32, row: pops[a].len() as u32 },
        }),
    ensures
        agree(slots1, pops.update(a, pops[a].push(e))),
{
    let pops1 = pops.update(a, pops[a].push(e));
    lemma_rows_within_total(pops, a);
    assert forall|i: int| 0 <= i < slots1.len() implies #[trigger] located(slots1, pops1, i) by {
        if i == e.index {
            assert(pops1[a][pops[a].len() as int] == e);
        } else if i < slots0.len() {
            assert(located(slots0, pops, i));
            match slots0[i] {
                Slot::Live { generation, location } => {
                    let b = location.archetype as int;
                    if b == a {
                        assert(pops1[b][location.row as int] == pops[b][location.row as int]);
                    } else {
                        assert(pops1[b] == pops[b]);
                    }
                },
                Slot::Free { .. } => {},
            }
        } else {
            assert(slots1[i] is Free);
        }
    }
    assert forall|b: int, r: int| 0 <= b < pops1.len() && 0 <= r < pops1[b].len() implies placed(
        slots1,
        #[trigger] pops1[b][r],
        b,
        r,
    ) by {
        if b == a && r == pops[a].len() {
            assert(pops1[b][r] == e);
        } else {
            assert(pops1[b][r] == pops[b][r]);
            let p = pops[b][r];
            assert(placed(slots0, p, b, r));
            proof_rows_fit(pops, b);
            if p.index == e.index {
                assert(slots0[e.index as int] is Live);
            }
            assert(slots1[p.index as int] == slots0[p.index as int]);
        }
    }
}

/// Removing the row of `e` by swapping the last row into it, freeing `e`'s
/// record and pointing the moved entity's record at its new row, keeps the
/// records and rows in step.
proof fn lemma_agree_remove(
    slots0: Seq<Slot>,
    slots2: Seq<Slot>,
    pops: Seq<Seq<Entity>>,
    e: Entity,
    a: int,
    r: int,
    next: u32,
)
    requires
        agree(slots0, pops),
        slots0.len() <= 0x1_0000_0000,
        pops.len() <= u32::MAX,
        total_rows(pops) <= u32::MAX,
        0 <= a < pops.len(),
        0 <= r < pops[a].len(),
        (e.index as int) < slots0.len(),
        slots0[e.index as int] == (Slot::Live {
            generation: e.generation,
            location: EntityLocation { archetype: a as u32, row: r as u32 },
        }),
        ({
            let rows = pops[a].update(r, pops[a].last()).drop_last();
            let slots1 = slots0.update(e.index as int, Slot::Free { generation: next });
            slots2 == if r < rows.len() && (rows[r].index as int) < slots1.len()
                && slots1[rows[r].index as int] is Live {
                slots1.update(
                    rows[r].index as int,
                    Slot::Live {
                        generation: slots1[rows[r].index as int].gen(),
                        location: EntityLocation { archetype: a as u32, row: r as u32 },
                    },
                )
            } else {
                slots1
            }
        }),
    ensures
        agree(slots2, pops.update(a, pops[a].update(r, pops[a].last()).drop_last())),
{
    let rows = pops[a].update(r, pops[a].last()).drop_last();
    let pops1 = pops.update(a, rows);
    let last = pops[a].len() - 1;
    lemma_rows_within_total(pops, a);
    assert(pops[a][r] == e) by {
        assert(located(slots0, pops, e.index as int));
    }
    if r < rows.len() {
        let d = pops[a][last];
        assert(rows[r] == d);
        assert(placed(slots0, d, a, last));
        assert(d.index != e.index);
    }
    assert forall|i: int| 0 <= i < slots2.len() implies #[trigger] located(slots2, pops1, i) by {
        if i == e.index {
        } else if r < rows.len() && i == pops[a][last].index {
            assert(rows[r] == pops[a][last]);
        } else {
            assert(slots2[i] == slots0[i]);
            assert(located(slots0, pops, i));
            match slots0[i] {
                Slot::Live { generation, location } => {
                    let b = location.archetype as int;
                    let row = location.row as int;
                    assert(placed(slots0, pops[b][row], b, row));
                    if b == a {
                        assert(row != r);
                        if r < rows.len() {
                            assert(row != last);
                        }
                        assert(pops1[b][row] == pops[b][row]);
                    } else {
                        assert(pops1[b] == pops[b]);
                    }
                },
                Slot::Free { .. } => {},
            }
        }
    }
    assert forall|b: int, row: int| 0 <= b < pops1.len() && 0 <= row < pops1[b].len() implies placed(
        slots2,
        #[trigger] pops1[b][row],
        b,
        row,
    ) by {
        if b == a && row == r {
            let d = pops[a][last];
            assert(pops1[b][row] == d);
        } else {
            assert(pops1[b][row] == pops[b][row]);
            let p = pops[b][row];
            assert(placed(slots0, p, b, row));
            proof_rows_fit(pops, b);
            proof_rows_fit(pops, a);
            if p.index == e.index {
                assert(b == a && row == r);
            }
            if r < rows.len() && p.index == pops[a][last].index {
                assert(placed(slots0, pops[a][last], a, last));
                assert(b == a && row == last);
            }
            assert(slots2[p.index as int] == slots0[p.index as int]);
        }
    }
}

/// Moving `e` from row `r` of archetype `from` to a new last row of
/// archetype `to`, swapping the last row of `from` into the hole, keeps the
/// records and rows in step.
proof fn lemma_agree_move(
    slots0: Seq<Slot>,
    slots2: Seq<Slot>,
    pops: Seq<Seq<Entity>>,
    e: Entity,
    from: int,
    r: int,
    to: int,
)
    requires
        agree(slots0, pops),
        slots0.len() <= 0x1_0000_0000,
        pops.len() <= u32::MAX,
        total_rows(pops) <= u32::MAX,
        0 <= from < pops.len(),
        0 <= to < pops.len(),
        from != to,
        0 <= r < pops[from].len(),
        (e.index as int) < slots0.len(),
        slots0[e.index as int] == (Slot::Live {
            generation: e.generation,
            location: EntityLocation { archetype: from as u32, row: r as u32 },
        }),
        ({
            let rows = pops[from].update(r, pops[from].last()).drop_last();
            let slots1 = if r < rows.len() && (rows[r].index as int) < slots0.len()
                && slots0[rows[r].index as int] is Live {
                slots0.update(
                    rows[r].index as int,
                    Slot::Live {
                        generation: slots0[rows[r].index as int].gen(),
                        location: EntityLocation { archetype: from as u32, row: r as u32 },
                    },
                )
            } else {
                slots0
            };
            slots2 == slots1.update(
                e.index as int,
                Slot::Live {
                    generation: e.generation,
                    location: EntityLocation { archetype: to as u32, row: pops[to].len() as u32 },
                },
            )
        }),
    ensures
        agree(
            slots2,
            pops.update(from, pops[from].update(r, pops[from].last()).drop_last()).update(
                to,
                pops[to].push(e),
            ),
        ),
{
    let rows = pops[from].update(r, pops[from].last()).drop_last();
    let pops1 = pops.update(from, rows).update(to, pops[to].push(e));
    let last = pops[from].len() - 1;
    lemma_rows_within_total(pops, from);
    lemma_rows_within_total(pops, to);
    assert(pops[from][r] == e) by {
        assert(located(slots0, pops, e.index as int));
    }
    if r < rows.len() {
        let d = pops[from][last];
        assert(rows[r] == d);
        assert(placed(slots0, d, from, last));
        assert(d.index != e.index);
    }
    assert forall|i: int| 0 <= i < slots2.len() implies #[trigger] located(slots2, pops1, i) by {
        if i == e.index {
            assert(pops1[to][pops[to].len() as int] == e);
        } else if r < rows.len() && i == pops[from][last].index {
            assert(rows[r] == pops[from][last]);
            assert(pops1[from] == rows);
        } else {
            assert(slots2[i] == slots0[i]);
            assert(located(slots0, pops, i));
            match slots0[i] {
                Slot::Live { generation, location } => {
                    let b = location.archetype as int;
                    let row = location.row as int;
                    assert(placed(slots0, pops[b][row], b, row));
                    if b == from {
                        assert(row != r);
                        if r < rows.len() {
                            assert(row != last);
                        }
                        assert(pops1[b][row] == pops[b][row]);
                    } else if b == to {
                        assert(pops1[b][row] == pops[b][row]);
                    } else {
                        assert(pops1[b] == pops[b]);
                    }
                },
                Slot::Free { .. } => {},
            }
        }
    }
    assert forall|b: int, row: int| 0 <= b < pops1.len() && 0 <= row < pops1[b].len() implies placed(
        slots2,
        #[trigger] pops1[b][row],
        b,
        row,
    ) by {
        if b == to && row == pops[to].len() {
            assert(pops1[b][row] == e);
        } else if b == from && row == r {
            let d = pops[from][last];
            assert(pops1[b][row] == d);
        } else {
            let p = pops[b][row];
            if b == to {
                assert(pops1[b][row] == p);
            } else if b == from {
                assert(pops1[b][row] == p);
            } else {
                assert(pops1[b] == pops[b]);
            }
            assert(placed(slots0, p, b, row));
            proof_rows_fit(pops, b);
            proof_rows_fit(pops, from);
            if p.index == e.index {
                assert(b == from && row == r);
            }
            if r < rows.len() && p.index == pops[from][last].index {
                assert(placed(slots0, pops[from][last], from, last));
                assert(b == from && row == last);
            }
            assert(slots2[p.index as int] == slots0[p.index as int]);
        }
    }
}

/// What attaching or detaching a table component did to an entity's row.
#[derive(Clone, Copy, PartialEq, Eq, Structural, Debug)]
pub enum Placement {
    /// The entity stayed in its row: it already had the component.
    Kept { archetype: u32, row: u32 },
    /// The entity moved from `row` of archetype `from` to the new last row
    /// `new_row` of archetype `to`; the last row of `from` took its place.
    Moved { from: u32, row: u32, to: u32, new_row: u32 },
}

/// The structure of one simulation state: its entities, the archetype row
/// of each, the component registry and the logical clock.
pub struct World {
    entities: EntityAllocator,
    archetypes: Archetypes,
    registry: ComponentRegistry,
    tick: Tick,
}

impl World {
    /// The entity slot table.
    pub closed spec fn slots(&self) -> Seq<Slot> {
        self.entities.slots()
    }

    /// How many freed indices wait to be recycled.
    pub closed spec fn free_count(&self) -> nat {
        self.entities.free_list().len()
    }

    /// The number of live entities.
    pub closed spec fn live_count(&self) -> nat {
        self.entities.live()
    }

    /// The signature of each archetype.
    pub closed spec fn signatures(&self) -> Seq<Seq<ComponentId>> {
        self.archetypes.signatures()
    }

    /// The entities in each archetype, row by row.
    pub closed spec fn populations(&self) -> Seq<Seq<Entity>> {
        self.archetypes.populations()
    }

    /// The logical clock.
    pub closed spec fn tick_spec(&self) -> Tick {
        self.tick
    }

    /// The component registry.
    pub closed spec fn registry_spec(&self) -> ComponentRegistry {
        self.registry
    }

    /// The world's invariant: each live entity's record and the archetype
    /// rows describe each other, and there are as many rows as live
    /// entities.
    pub closed spec fn wf(&self) -> bool {
        &&& self.entities.wf()
        &&& self.archetypes.wf()
        &&& agree(self.entities.slots(), self.archetypes.populations())
        &&& total_rows(self.archetypes.populations()) == self.entities.live()
    }

    /// Where a live entity's components are.
    pub open spec fn location_of(&self, e: Entity) -> Option<EntityLocation> {
        if is_live(self.slots(), e) {
            match self.slots()[e.index as int] {
                Slot::Live { location, .. } => Some(location),
                Slot::Free { .. } => None,
            }
        } else {
            None
        }
    }

    /// The table components a live entity carries; none for a dead handle.
    pub open spec fn components_of(&self, e: Entity) -> Set<ComponentId> {
        match self.location_of(e) {
            Some(l) => sig_set(self.signatures()[l.archetype as int]),
            None => Set::empty(),
        }
    }

    /// There is room for one more entity.
    pub open spec fn can_spawn(&self) -> bool {
        &&& self.live_count() < u32::MAX
        &&& (self.free_count() > 0 || self.slots().len() < 0x1_0000_0000)
    }

    /// Facts of the invariant that callers' proofs use.
    pub proof fn lemma_wf(&self)
        requires
            self.wf(),
        ensures
            self.signatures().len() == self.populations().len(),
            1 <= self.signatures().len() <= u32::MAX,
            self.slots().len() <= 0x1_0000_0000,
            total_rows(self.populations()) == self.live_count(),
            self.live_count() <= u32::MAX,
            agree(self.slots(), self.populations()),
    {
        self.archetypes.lemma_counts();
        self.entities.lemma_slots_fit();
    }

    /// The null handle is never live in a world.
    pub proof fn lemma_null_never_live(&self)
        requires
            self.wf(),
        ensures
            !is_live(self.slots(), Entity { index: u32::MAX, generation: u32::MAX }),
    {
        self.entities.lemma_null_never_live();
    }

    /// A live entity's record points at a row that holds it.
    pub proof fn lemma_live_entities_have_rows(&self, e: Entity)
        requires
            self.wf(),
        ensures
            self.location_of(e) matches Some(l) ==> {
                &&& (l.archetype as int) < self.populations().len()
                &&& (l.row as int) < self.populations()[l.archetype as int].len()
                &&& self.populations()[l.archetype as int][l.row as int] == e
            },
    {
        if self.location_of(e) is Some {
            assert(located(self.slots(), self.populations(), e.index as int));
        }
    }

    /// Every row holds a live entity whose record points back at it; so no
    /// entity holds two rows.
    pub proof fn lemma_rows_hold_live_entities(&self, a: int, r: int)
        requires
            self.wf(),
            0 <= a < self.populations().len(),
            0 <= r < self.populations()[a].len(),
        ensures
            is_live(self.slots(), self.populations()[a][r]),
            self.location_of(self.populations()[a][r]) == Some(
                EntityLocation { archetype: a as u32, row: r as u32 },
            ),
    {
        self.lemma_wf();
        lemma_rows_within_total(self.populations(), a);
        assert(placed(self.slots(), self.populations()[a][r], a, r));
    }

    /// An empty world at tick one.
    pub fn new() -> (r: World)
        ensures
            r.wf(),
            r.slots() == Seq::<Slot>::empty(),
            r.live_count() == 0,
            r.signatures() == seq![Seq::<ComponentId>::empty()],
            r.populations() == seq![Seq::<Entity>::empty()],
            r.tick_spec() == Tick(1),
            r.registry_spec().wf(),
            r.registry_spec().keys().len() == 0,
    {
        let r = World {
            entities: EntityAllocator::new(),
            archetypes: Archetypes::new(),
            registry: ComponentRegistry::new(),
            tick: Tick(1),
        };
        proof {
            let pops = r.archetypes.populations();
            assert(pops.drop_last() =~= Seq::<Seq<Entity>>::empty());
            assert(total_rows(pops.drop_last()) == 0);
            assert(pops.last().len() == 0);
            assert(total_rows(pops) == 0);
        }
        r
    }

    /// The current logical tick.
    pub fn tick(&self) -> (r: Tick)
        ensures
            r == self.tick_spec(),
    {
        self.tick
    }

    /// Advances the logical clock, once per simulation step.
    pub fn advance_tick(&mut self)
        ensures
            final(self).tick_spec().0 == vstd::wrapping::u32_specs::wrapping_add(
                old(self).tick_spec().0,
                1,
            ),
            final(self).wf() == old(self).wf(),
            final(self).slots() == old(self).slots(),
            final(self).signatures() == old(self).signatures(),
            final(self).populations() == old(self).populations(),
            final(self).live_count() == old(self).live_count(),
            final(self).free_count() == old(self).free_count(),
            final(self).registry_spec() == old(self).registry_spec(),
    {
        self.tick.advance();
    }

    /// Overwrites the logical clock, as a restore does.
    pub fn set_tick(&mut self, tick: u32)
        ensures
            final(self).tick_spec() == Tick(tick),
            final(self).wf() == old(self).wf(),
            final(self).slots() == old(self).slots(),
            final(self).signatures() == old(self).signatures(),
            final(self).populations() == old(self).populations(),
            final(self).live_count() == old(self).live_count(),
            final(self).free_count() == old(self).free_count(),
            final(self).registry_spec() == old(self).registry_spec(),
    {
        self.tick = Tick(tick);
    }

    /// Creates an entity with no components, in a new last row of the root
    /// archetype. Every other entity keeps its location.
    pub fn spawn_empty(&mut self) -> (e: Entity)
        requires
            old(self).wf(),
            old(self).can_spawn(),
        ensures
            final(self).wf(),
            !is_live(old(self).slots(), e),
            final(self).location_of(e) == Some(
                EntityLocation { archetype: 0, row: old(self).populations()[0].len() as u32 },
            ),
            forall|other: Entity| other != e ==> #[trigger] final(self).location_of(other)
                == old(self).location_of(other),
            final(self).signatures() == old(self).signatures(),
            final(self).populations() == old(self).populations().update(
                0,
                old(self).populations()[0].push(e),
            ),
            final(self).live_count() == old(self).live_count() + 1,
            final(self).tick_spec() == old(self).tick_spec(),
            final(self).registry_spec() == old(self).registry_spec(),
    {
        let ghost slots0 = self.entities.slots();
        let ghost pops0 = self.archetypes.populations();
        proof {
            self.lemma_wf();
            lemma_rows_within_total(pops0, 0);
        }
        let entity = self.entities.allocate();
        let row = self.archetypes.push_entity(0, entity);
        self.entities.set_location(entity, EntityLocation { archetype: 0, row: row as u32 });
        proof {
            let slots1 = self.entities.slots();
            if slots1.len() > slots0.len() {
                assert(entity.index == slots0.len());
            }
            lemma_agree_add(slots0, slots1, pops0, 0, entity);
            lemma_total_rows_update(pops0, 0, pops0[0].push(entity));
            assert forall|other: Entity| other != entity implies #[trigger] self.location_of(other)
                == old(self).location_of(other) by {
                if other.index != entity.index && other.index < slots0.len() {
                    assert(slots1[other.index as int] == slots0[other.index as int]);
                }
            }
        }
        entity
    }

    /// Recreates an entity under a specific handle, as a restore does, in a
    /// new last row of the root archetype. Refused (`false`, nothing changed)
    /// for the null handle and when the slot holds a live entity of another
    /// generation. When the handle is already live, it is given a second row
    /// as well: restores only call this on a cleared world.
    pub fn spawn_at(&mut self, entity: Entity) -> (r: bool)
        requires
            old(self).wf(),
            old(self).live_count() < u32::MAX,
        ensures
            r == (!(entity.index == u32::MAX && entity.generation == u32::MAX) && (entity.index
                >= old(self).slots().len() || old(self).slots()[entity.index as int] is Free
                || is_live(old(self).slots(), entity))),
            !r ==> final(self).slots() == old(self).slots() && final(self).populations()
                == old(self).populations() && final(self).wf(),
            r ==> final(self).location_of(entity) == Some(
                EntityLocation { archetype: 0, row: old(self).populations()[0].len() as u32 },
            ),
            r ==> final(self).populations() == old(self).populations().update(
                0,
                old(self).populations()[0].push(entity),
            ),
            r && !is_live(old(self).slots(), entity) ==> final(self).wf()
                && final(self).live_count() == old(self).live_count() + 1,
            forall|other: Entity| other != entity ==> #[trigger] final(self).location_of(other)
                == old(self).location_of(other),
            final(self).signatures() == old(self).signatures(),
            final(self).tick_spec() == old(self).tick_spec(),
            final(self).registry_spec() == old(self).registry_spec(),
    {
        let ghost slots0 = self.entities.slots();
        let ghost pops0 = self.archetypes.populations();
        let ghost was_live = is_live(slots0, entity);
        proof {
            self.lemma_wf();
            lemma_rows_within_total(pops0, 0);
        }
        if !self.entities.allocate_at(entity) {
            proof {
                assert forall|other: Entity| other != entity implies #[trigger] self.location_of(other)
                    == old(self).location_of(other) by {}
            }
            return false;
        }
        let row = self.archetypes.push_entity(0, entity);
        self.entities.set_location(entity, EntityLocation { archetype: 0, row: row as u32 });
        proof {
            let slots1 = self.entities.slots();
            if !was_live {
                lemma_agree_add(slots0, slots1, pops0, 0, entity);
                lemma_total_rows_update(pops0, 0, pops0[0].push(entity));
            }
            assert forall|other: Entity| other != entity implies #[trigger] self.location_of(other)
                == old(self).location_of(other) by {
                if other.index != entity.index && other.index < slots0.len() {
                    assert(slots1[other.index as int] == slots0[other.index as int]);
                }
            }
        }
        true
    }

    /// Removes an entity and its row: the last row of its archetype moves
    /// into the hole. Returns whether the handle was live, so despawning
    /// twice is harmless. Every other entity keeps its components.
    pub fn despawn(&mut self, entity: Entity) -> (r: bool)
        requires
            old(self).wf(),
        ensures
            final(self).wf(),
            r == is_live(old(self).slots(), entity),
            final(self).location_of(entity) is None,
            !r ==> final(self).slots() == old(self).slots() && final(self).populations()
                == old(self).populations(),
            r ==> ({
                let l = old(self).location_of(entity)->0;
                let rows = old(self).populations()[l.archetype as int];
                final(self).populations() == old(self).populations().update(
                    l.archetype as int,
                    rows.update(l.row as int, rows.last()).drop_last(),
                )
            }),
            forall|other: Entity| other != entity ==> (#[trigger] final(self).location_of(other)
                is Some <==> old(self).location_of(other) is Some),
            forall|other: Entity| other != entity ==> #[trigger] final(self).components_of(other)
                == old(self).components_of(other),
            final(self).live_count() == if r {
                old(self).live_count() - 1
            } else {
                old(self).live_count() as int
            },
            final(self).signatures() == old(self).signatures(),
            final(self).tick_spec() == old(self).tick_spec(),
            final(self).registry_spec() == old(self).registry_spec(),
    {
        let ghost slots0 = self.entities.slots();
        let ghost pops0 = self.archetypes.populations();
        proof {
            self.lemma_wf();
        }
        match self.entities.free(entity) {
            None => {
                proof {
                    assert forall|other: Entity| other != entity implies #[trigger] self.components_of(
                        other,
                    ) == old(self).components_of(other) by {}
                }
                false
            },
            Some(location) => {
                let ghost slots1 = self.entities.slots();
                proof {
                    assert(located(slots0, pops0, entity.index as int));
                }
                let moved = self.archetypes.swap_remove(location.archetype, location.row as usize);
                match moved {
                    Some(m) => {
                        self.entities.relocate_by_index(m.index, location);
                    },
                    None => {},
                }
                proof {
                    let a = location.archetype as int;
                    let row = location.row as int;
                    let rows = pops0[a].update(row, pops0[a].last()).drop_last();
                    let next = slots1[entity.index as int].gen();
                    assert(slots1 == slots0.update(entity.index as int, Slot::Free { generation: next }));
                    lemma_agree_remove(slots0, self.entities.slots(), pops0, entity, a, row, next);
                    lemma_total_rows_update(pops0, a, rows);
                    let slots2 = self.entities.slots();
                    assert forall|other: Entity| other != entity implies (#[trigger] self.location_of(
                        other,
                    ) is Some <==> old(self).location_of(other) is Some) && self.components_of(other)
                        == old(self).components_of(other) by {
                        if other.index < slots0.len() && other.index != entity.index {
                            if row < rows.len() && other.index == rows[row].index {
                                assert(placed(slots0, pops0[a][pops0[a].len() - 1], a, pops0[a].len() - 1));
                            } else {
                                assert(slots2[other.index as int] == slots0[other.index as int]);
                            }
                        }
                    }
                }
                true
            },
        }
    }

    /// Gives `entity` the table component `component`: an entity that
    /// already has it stays where it is (`Kept`); otherwise it moves to the
    /// archetype with the component added (`Moved`). `None` for a dead
    /// handle. Every other entity keeps its components.
    pub fn attach(&mut self, entity: Entity, component: ComponentId) -> (r: Option<Placement>)
        requires
            old(self).wf(),
            old(self).signatures().len() < u32::MAX,
        ensures
            final(self).wf(),
            r is Some <==> is_live(old(self).slots(), entity),
            r is None ==> final(self).slots() == old(self).slots() && final(self).populations()
                == old(self).populations() && final(self).signatures() == old(self).signatures(),
            r matches Some(Placement::Kept { archetype, row }) ==> {
                &&& old(self).components_of(entity).contains(component)
                &&& old(self).location_of(entity) == Some(EntityLocation { archetype, row })
                &&& final(self).slots() == old(self).slots()
                &&& final(self).populations() == old(self).populations()
                &&& final(self).signatures() == old(self).signatures()
            },
            r matches Some(Placement::Moved { from, row, to, new_row }) ==> {
                &&& !old(self).components_of(entity).contains(component)
                &&& old(self).location_of(entity) == Some(EntityLocation { archetype: from, row })
                &&& final(self).location_of(entity) == Some(
                    EntityLocation { archetype: to, row: new_row },
                )
                &&& from != to
                &&& (to as int) < final(self).signatures().len()
                &&& final(self).signatures().len() <= old(self).signatures().len() + 1
                &&& final(self).populations() == moved_rows(
                    old(self).populations(),
                    from as int,
                    row as int,
                    to as int,
                    entity,
                )
                &&& new_row as int == old_rows_of(old(self).populations(), to as int).len()
                &&& forall|i: int|
                    0 <= i < old(self).signatures().len() ==> final(self).signatures()[i] == old(
                        self,
                    ).signatures()[i]
            },
            is_live(old(self).slots(), entity) ==> final(self).components_of(entity) == old(
                self,
            ).components_of(entity).insert(component),
            forall|other: Entity| other != entity ==> (#[trigger] final(self).location_of(other)
                is Some <==> old(self).location_of(other) is Some),
            forall|other: Entity| other != entity ==> #[trigger] final(self).components_of(other)
                == old(self).components_of(other),
            final(self).live_count() == old(self).live_count(),
            final(self).tick_spec() == old(self).tick_spec(),
            final(self).registry_spec() == old(self).registry_spec(),
    {
        proof {
            self.lemma_wf();
        }
        let location = match self.entities.location(entity) {
            Some(l) => l,
            None => {
                return None;
            },
        };
        let ghost slots0 = self.entities.slots();
        let ghost pops_before = self.archetypes.populations();
        let ghost sigs_before = self.archetypes.signatures();
        proof {
            assert(located(slots0, pops_before, entity.index as int));
        }
        if self.archetypes.get(location.archetype).column_index(component).is_some() {
            return Some(Placement::Kept { archetype: location.archetype, row: location.row });
        }
        let destination = self.archetypes.archetype_with(location.archetype, component);
        let ghost pops0 = self.archetypes.populations();
        proof {
            self.archetypes.lemma_counts();
            if pops0.len() > pops_before.len() {
                assert(pops0.last() =~= Seq::<Entity>::empty());
                assert(pops0 =~= pops_before.push(Seq::<Entity>::empty()));
                lemma_agree_push_empty(slots0, pops_before);
                lemma_total_rows_push_empty(pops_before);
            } else {
                assert(pops0 =~= pops_before);
            }
            let from_sig = self.archetypes.signatures()[location.archetype as int];
            assert(!sig_set(from_sig).contains(component));
            assert(sig_set(self.archetypes.signatures()[destination as int]).contains(component));
            assert(destination != location.archetype);
        }
        let (new_row, displaced) = self.archetypes.migrate(
            location.archetype,
            location.row as usize,
            destination,
            entity,
        );
        let ghost slots_mid = self.entities.slots();
        match displaced {
            Some(moved) => {
                self.entities.relocate_by_index(moved.index, location);
            },
            None => {},
        }
        let ghost slots1 = self.entities.slots();
        proof {
            lemma_rows_within_total(pops0, destination as int);
        }
        self.entities.set_location(entity, EntityLocation { archetype: destination, row: new_row as u32 });
        proof {
            let a = location.archetype as int;
            let row = location.row as int;
            let to = destination as int;
            let rows = pops0[a].update(row, pops0[a].last()).drop_last();
            assert(pops0 =~= padded_rows(pops_before, to));
            lemma_agree_move(slots0, self.entities.slots(), pops0, entity, a, row, to);
            lemma_total_rows_update(pops0, a, rows);
            lemma_total_rows_update(pops0.update(a, rows), to, pops0[to].push(entity));
            let slots2 = self.entities.slots();
            assert forall|other: Entity| other != entity implies (#[trigger] self.location_of(other)
                is Some <==> old(self).location_of(other) is Some) && self.components_of(other)
                == old(self).components_of(other) by {
                if old(self).location_of(other) is Some {
                    let l = old(self).location_of(other)->0;
                    assert(located(slots0, pops_before, other.index as int));
                    assert(self.archetypes.signatures()[l.archetype as int] == sigs_before[l.archetype as int]);
                }
                if other.index < slots0.len() && other.index != entity.index {
                    if row < rows.len() && other.index == rows[row].index {
                        assert(placed(slots0, pops0[a][pops0[a].len() - 1], a, pops0[a].len() - 1));
                    } else {
                        assert(slots2[other.index as int] == slots0[other.index as int]);
                    }
                }
            }
        }
        Some(Placement::Moved { from: location.archetype, row: location.row, to: destination, new_row: new_row as u32 })
    }

    /// Takes the table component `component` from `entity`, moving it to
    /// the archetype without it. `None` for a dead handle or an entity
    /// without the component. Every other entity keeps its components.
    pub fn detach(&mut self, entity: Entity, component: ComponentId) -> (r: Option<Placement>)
        requires
            old(self).wf(),
            old(self).signatures().len() < u32::MAX,
        ensures
            final(self).wf(),
            r is Some <==> old(self).components_of(entity).contains(component),
            r is None ==> final(self).slots() == old(self).slots() && final(self).populations()
                == old(self).populations() && final(self).signatures() == old(self).signatures(),
            r matches Some(p) ==> p is Moved,
            r matches Some(Placement::Moved { from, row, to, new_row }) ==> {
                &&& old(self).location_of(entity) == Some(EntityLocation { archetype: from, row })
                &&& final(self).location_of(entity) == Some(
                    EntityLocation { archetype: to, row: new_row },
                )
                &&& from != to
                &&& (to as int) < final(self).signatures().len()
                &&& final(self).signatures().len() <= old(self).signatures().len() + 1
                &&& final(self).populations() == moved_rows(
                    old(self).populations(),
                    from as int,
                    row as int,
                    to as int,
                    entity,
                )
                &&& new_row as int == old_rows_of(old(self).populations(), to as int).len()
                &&& forall|i: int|
                    0 <= i < old(self).signatures().len() ==> final(self).signatures()[i] == old(
                        self,
                    ).signatures()[i]
            },
            final(self).components_of(entity) == old(self).components_of(entity).remove(component),
            forall|other: Entity| other != entity ==> (#[trigger] final(self).location_of(other)
                is Some <==> old(self).location_of(other) is Some),
            forall|other: Entity| other != entity ==> #[trigger] final(self).components_of(other)
                == old(self).components_of(other),
            final(self).live_count() == old(self).live_count(),
            final(self).tick_spec() == old(self).tick_spec(),
            final(self).registry_spec() == old(self).registry_spec(),
    {
        proof {
            self.lemma_wf();
        }
        let location = match self.entities.location(entity) {
            Some(l) => l,
            None => {
                proof {
                    assert(old(self).components_of(entity) =~= Set::<ComponentId>::empty());
                }
                return None;
            },
        };
        let ghost slots0 = self.entities.slots();
        let ghost pops_before = self.archetypes.populations();
        let ghost sigs_before = self.archetypes.signatures();
        proof {
            assert(located(slots0, pops_before, entity.index as int));
        }
        if self.archetypes.get(location.archetype).column_index(component).is_none() {
            proof {
                let sig = self.archetypes.signatures()[location.archetype as int];
                assert(old(self).components_of(entity).remove(component) =~= old(self).components_of(entity));
            }
            return None;
        }
        let destination = self.archetypes.archetype_without(location.archetype, component);
        let ghost pops0 = self.archetypes.populations();
        proof {
            self.archetypes.lemma_counts();
            if pops0.len() > pops_before.len() {
                assert(pops0.last() =~= Seq::<Entity>::empty());
                assert(pops0 =~= pops_before.push(Seq::<Entity>::empty()));
                lemma_agree_push_empty(slots0, pops_before);
                lemma_total_rows_push_empty(pops_before);
            } else {
                assert(pops0 =~= pops_before);
            }
            let from_sig = self.archetypes.signatures()[location.archetype as int];
            assert(sig_set(from_sig).contains(component));
            assert(!sig_set(self.archetypes.signatures()[destination as int]).contains(component));
            assert(destination != location.archetype);
        }
        let (new_row, displaced) = self.archetypes.migrate(
            location.archetype,
            location.row as usize,
            destination,
            entity,
        );
        match displaced {
            Some(moved) => {
                self.entities.relocate_by_index(moved.index, location);
            },
            None => {},
        }
        proof {
            lemma_rows_within_total(pops0, destination as int);
        }
        self.entities.set_location(entity, EntityLocation { archetype: destination, row: new_row as u32 });
        proof {
            let a = location.archetype as int;
            let row = location.row as int;
            let to = destination as int;
            let rows = pops0[a].update(row, pops0[a].last()).drop_last();
            assert(pops0 =~= padded_rows(pops_before, to));
            lemma_agree_move(slots0, self.entities.slots(), pops0, entity, a, row, to);
            lemma_total_rows_update(pops0, a, rows);
            lemma_total_rows_update(pops0.update(a, rows), to, pops0[to].push(entity));
            let slots2 = self.entities.slots();
            assert forall|other: Entity| other != entity implies (#[trigger] self.location_of(other)
                is Some <==> old(self).location_of(other) is Some) && self.components_of(other)
                == old(self).components_of(other) by {
                if old(self).location_of(other) is Some {
                    let l = old(self).location_of(other)->0;
                    assert(located(slots0, pops_before, other.index as int));
                    assert(self.archetypes.signatures()[l.archetype as int] == sigs_before[l.archetype as int]);
                }
                if other.index < slots0.len() && other.index != entity.index {
                    if row < rows.len() && other.index == rows[row].index {
                        assert(placed(slots0, pops0[a][pops0[a].len() - 1], a, pops0[a].len() - 1));
                    } else {
                        assert(slots2[other.index as int] == slots0[other.index as int]);
                    }
                }
            }
        }
        Some(Placement::Moved { from: location.archetype, row: location.row, to: destination, new_row: new_row as u32 })
    }

    /// True when there is room for one more entity: fewer than the most
    /// live entities a count can hold, and a free index or room to grow.
    pub fn has_room(&self) -> (r: bool)
        requires
            self.wf(),
        ensures
            r == self.can_spawn(),
    {
        proof {
            self.lemma_wf();
        }
        self.entities.len() < u32::MAX && (self.entities.free_len() > 0
            || (self.entities.capacity() as u64) < 0x1_0000_0000u64)
    }

    /// True when the handle names a live entity.
    pub fn contains(&self, entity: Entity) -> (r: bool)
        ensures
            r == is_live(self.slots(), entity),
    {
        self.entities.contains(entity)
    }

    /// Where a live entity's row is.
    pub fn location(&self, entity: Entity) -> (r: Option<EntityLocation>)
        ensures
            r == self.location_of(entity),
    {
        self.entities.location(entity)
    }

    /// The number of live entities.
    pub fn entity_count(&self) -> (r: u32)
        requires
            self.wf(),
        ensures
            r == self.live_count(),
    {
        self.entities.len()
    }

    /// True when no entity is live.
    pub fn is_empty(&self) -> (r: bool)
        ensures
            r == (self.live_count() == 0),
    {
        self.entities.is_empty()
    }

    /// Every live entity, in ascending index order.
    pub fn entities(&self) -> (r: Vec<Entity>)
        requires
            self.wf(),
        ensures
            forall|e: Entity| r@.contains(e) <==> is_live(self.slots(), e),
            forall|i: int, j: int| 0 <= i < j < r@.len() ==> r@[i].index < r@[j].index,
    {
        self.entities.iter()
    }

    /// Removes every entity and every archetype but the root, keeping the
    /// registry and the clock.
    pub fn clear_entities(&mut self)
        ensures
            final(self).wf(),
            final(self).slots() == Seq::<Slot>::empty(),
            final(self).live_count() == 0,
            final(self).signatures() == seq![Seq::<ComponentId>::empty()],
            final(self).populations() == seq![Seq::<Entity>::empty()],
            final(self).tick_spec() == old(self).tick_spec(),
            final(self).registry_spec() == old(self).registry_spec(),
    {
        self.entities.clear();
        self.archetypes.clear();
        proof {
            let pops = self.archetypes.populations();
            assert(pops.drop_last() =~= Seq::<Seq<Entity>>::empty());
            assert(total_rows(pops.drop_last()) == 0);
            assert(pops.last().len() == 0);
        }
    }

    /// The component registry.
    pub fn registry(&self) -> (r: &ComponentRegistry)
        ensures
            *r == self.registry_spec(),
    {
        &self.registry
    }

    /// The component registry, to register types ahead of first use.
    pub fn registry_mut(&mut self) -> (r: &mut ComponentRegistry)
        ensures
            *r == old(self).registry_spec(),
            final(self).registry_spec() == *final(r),
            final(self).wf() == old(self).wf(),
            final(self).slots() == old(self).slots(),
            final(self).signatures() == old(self).signatures(),
            final(self).populations() == old(self).populations(),
            final(self).live_count() == old(self).live_count(),
            final(self).tick_spec() == old(self).tick_spec(),
    {
        &mut self.registry
    }

    /// Registers `T`, so that identifiers are handed out in a stable order;
    /// registering twice gives the same id.
    pub fn register_component<T: Component>(&mut self) -> (r: ComponentId)
        requires
            old(self).registry_spec().wf(),
            old(self).registry_spec().keys().len() < 0x1_0000_0000,
        ensures
            final(self).registry_spec().wf(),
            r.0 < final(self).registry_spec().keys().len(),
            final(self).wf() == old(self).wf(),
            final(self).slots() == old(self).slots(),
            final(self).signatures() == old(self).signatures(),
            final(self).populations() == old(self).populations(),
            final(self).live_count() == old(self).live_count(),
            final(self).tick_spec() == old(self).tick_spec(),
    {
        self.registry.register::<T>()
    }

    /// How many archetypes exist, the empty root included.
    pub fn archetype_count(&self) -> (r: usize)
        ensures
            r == self.signatures().len(),
    {
        self.archetypes.len()
    }

    /// The archetypes, for laying out component columns and matching
    /// queries.
    pub fn archetypes(&self) -> (r: &Archetypes)
        ensures
            r.wf() == self.wf() || !self.wf(),
            self.wf() ==> r.wf(),
            r.signatures() == self.signatures(),
            r.populations() == self.populations(),
    {
        &self.archetypes
    }

    /// True when a live `entity` carries the table component `component`.
    pub fn has_table(&self, entity: Entity, component: ComponentId) -> (r: bool)
        requires
            self.wf(),
        ensures
            r == self.components_of(entity).contains(component),
    {
        proof {
            self.lemma_wf();
        }
        match self.entities.location(entity) {
            Some(location) => {
                proof {
                    assert(located(self.slots(), self.populations(), entity.index as int));
                }
                self.archetypes.get(location.archetype).column_index(component).is_some()
            },
            None => false,
        }
    }

    /// How many live entities carry the table component `component`.
    pub fn table_count(&self, component: ComponentId) -> (r: usize)
        requires
            self.wf(),
        ensures
            r == rows_with(self.signatures(), self.populations(), component, self.signatures().len() as int),
    {
        proof {
            self.lemma_wf();
        }
        let n = self.archetypes.len();
        let mut total: usize = 0;
        let mut a: usize = 0;
        while a < n
            invariant
                n == self.signatures().len(),
                n == self.populations().len(),
                n <= u32::MAX,
                a <= n,
                total == rows_with(self.signatures(), self.populations(), component, a as int),
                rows_with(self.signatures(), self.populations(), component, a as int) <= total_rows(self.populations().take(a as int)),
                total_rows(self.populations()) <= u32::MAX,
            decreases n - a,
        {
            let archetype = self.archetypes.get(a as u32);
            proof {
                let pops = self.populations();
                assert(pops.take(a + 1).drop_last() =~= pops.take(a as int));
                assert(pops.take(a + 1).last() == pops[a as int]);
                assert(total_rows(pops.take(a + 1)) == total_rows(pops.take(a as int)) + pops[a as int].len());
                lemma_total_rows_prefix(pops, a + 1);
                assert(archetype.components@ == self.signatures()[a as int]);
            }
            if archetype.column_index(component).is_some() {
                total = total + archetype.len();
            }
            a = a + 1;
        }
        total
    }
}

impl World {
    /// The identifiers of every component a live `entity` carries, each
    /// once, in strictly ascending order: its table components and
    /// `sparse_held`, the sparse components stored for it. None for a dead
    /// handle.
    pub fn component_ids(&self, entity: Entity, sparse_held: &[ComponentId]) -> (r: Vec<ComponentId>)
        requires
            self.wf(),
        ensures
            self.location_of(entity) is None ==> r@ == Seq::<ComponentId>::empty(),
            self.location_of(entity) matches Some(l) ==> forall|c: ComponentId|
                #[trigger] r@.contains(c) <==> (self.signatures()[l.archetype as int].contains(c)
                    || sparse_held@.contains(c)),
            forall|i: int, j: int| 0 <= i < j < r@.len() ==> r@[i].0 < r@[j].0,
    {
        proof {
            self.lemma_wf();
        }
        let location = match self.entities.location(entity) {
            Some(l) => l,
            None => {
                return Vec::new();
            },
        };
        proof {
            assert(located(self.slots(), self.populations(), entity.index as int));
        }
        let archetype = self.archetypes.get(location.archetype);
        let mut ids: Vec<ComponentId> = Vec::new();
        let mut i: usize = 0;
        while i < archetype.components.len()
            invariant
                i <= archetype.components@.len(),
                ids@ == archetype.components@.take(i as int),
            decreases archetype.components@.len() - i,
        {
            ids.push(archetype.components[i]);
            i = i + 1;
            proof {
                assert(ids@ =~= archetype.components@.take(i as int));
            }
        }
        let mut k: usize = 0;
        while k < sparse_held.len()
            invariant
                k <= sparse_held@.len(),
                ids@ == archetype.components@ + sparse_held@.take(k as int),
            decreases sparse_held@.len() - k,
        {
            ids.push(sparse_held[k]);
            k = k + 1;
            proof {
                assert(ids@ =~= archetype.components@ + sparse_held@.take(k as int));
            }
        }
        proof {
            assert(archetype.components@.take(archetype.components@.len() as int) =~= archetype.components@);
            assert(sparse_held@.take(sparse_held@.len() as int) =~= sparse_held@);
        }
        let ghost all = archetype.components@ + sparse_held@;
        sort_ids(&mut ids);
        proof {
            assert forall|c: ComponentId| ids@.contains(c) <==> all.contains(c) by {
                ids@.to_multiset_ensures();
                all.to_multiset_ensures();
                if ids@.contains(c) {
                    assert(ids@.to_multiset().count(c) > 0);
                }
                if all.contains(c) {
                    assert(all.to_multiset().count(c) > 0);
                }
            }
            assert forall|c: ComponentId| all.contains(c) <==> (archetype.components@.contains(c)
                || sparse_held@.contains(c)) by {
                if archetype.components@.contains(c) {
                    let k = choose|k: int| 0 <= k < archetype.components@.len() && archetype.components@[k] == c;
                    assert(all[k] == c);
                }
                if sparse_held@.contains(c) {
                    let k = choose|k: int| 0 <= k < sparse_held@.len() && sparse_held@[k] == c;
                    assert(all[archetype.components@.len() + k] == c);
                }
                if all.contains(c) {
                    let k = choose|k: int| 0 <= k < all.len() && all[k] == c;
                    if k < archetype.components@.len() {
                        assert(archetype.components@[k] == c);
                    } else {
                        assert(sparse_held@[k - archetype.components@.len()] == c);
                    }
                }
            }
        }
        let mut out: Vec<ComponentId> = Vec::new();
        let mut i: usize = 0;
        while i < ids.len()
            invariant
                i <= ids@.len(),
                forall|a: int, b: int| 0 <= a < b < ids@.len() ==> ids@[a].0 <= ids@[b].0,
                forall|a: int, b: int| 0 <= a < b < out@.len() ==> out@[a].0 < out@[b].0,
                forall|c: ComponentId| #[trigger] out@.contains(c) <==> ids@.take(i as int).contains(c),
                i > 0 ==> out@.len() > 0 && out@.last() == ids@[i - 1],
                i == 0 ==> out@.len() == 0,
            decreases ids@.len() - i,
        {
            let id = ids[i];
            let ghost before = out@;
            if out.len() == 0 || out[out.len() - 1].0 != id.0 {
                out.push(id);
                proof {
                    assert forall|a: int, b: int| 0 <= a < b < out@.len() implies out@[a].0 < out@[b].0 by {
                        if b == out@.len() - 1 && a < before.len() {
                            if i > 0 {
                                assert(before.last() == ids@[i - 1]);
                                assert(ids@[i - 1].0 <= ids@[i as int].0);
                                if a < before.len() - 1 {
                                    assert(before[a].0 < before.last().0);
                                }
                            }
                        }
                    }
                }
            } else {
                proof {
                    assert(out@.last() == ids@[i as int]);
                }
            }
            proof {
                assert(ids@.take(i + 1) =~= ids@.take(i as int).push(id));
                assert forall|c: ComponentId| #[trigger] out@.contains(c) <==> ids@.take(i + 1).contains(c) by {
                    vstd::seq_lib::lemma_seq_contains_after_push(ids@.take(i as int), id, c);
                    if out@.len() > before.len() {
                        vstd::seq_lib::lemma_seq_contains_after_push(before, id, c);
                    } else if c == id {
                        assert(out@[out@.len() - 1] == id);
                    }
                }
            }
            i = i + 1;
        }
        proof {
            assert(ids@.take(ids@.len() as int) =~= ids@);
            assert(archetype.components@ == self.signatures()[location.archetype as int]);
            assert(self.location_of(entity) == Some(location));
            assert forall|c: ComponentId| #[trigger] out@.contains(c) <==> (self.signatures()[
                location.archetype as int].contains(c) || sparse_held@.contains(c)) by {
                assert(out@.contains(c) <==> ids@.contains(c));
                assert(ids@.contains(c) <==> all.contains(c));
            }
        }
        out
    }
}

/// A component is kept in table storage unless registered as sparse; an
/// unregistered id counts as a table component.
pub open spec fn stored_in_table(infos: Seq<ComponentInfo>, id: ComponentId) -> bool {
    id.0 >= infos.len() || infos[id.0 as int].storage == StorageKind::Table
}

impl World {
    /// True when `id` names a table component, or no registered one.
    pub fn is_table_component(&self, id: ComponentId) -> (r: bool)
        ensures
            r == stored_in_table(self.registry_spec().infos(), id),
    {
        match self.registry.info(id) {
            Some(info) => match info.storage {
                StorageKind::Table => true,
                StorageKind::Sparse => false,
            },
            None => true,
        }
    }

    /// Splits a query filter's ids into those that narrow which archetypes
    /// match (table components) and those checked entity by entity (sparse
    /// components), each in the given order.
    pub fn split_by_storage(&self, ids: &[ComponentId]) -> (r: (Vec<ComponentId>, Vec<ComponentId>))
        ensures
            r.0@ == ids@.filter(|id: ComponentId| stored_in_table(self.registry_spec().infos(), id)),
            r.1@ == ids@.filter(|id: ComponentId| !stored_in_table(self.registry_spec().infos(), id)),
    {
        let ghost infos = self.registry_spec().infos();
        let ghost table = |id: ComponentId| stored_in_table(infos, id);
        let ghost sparse = |id: ComponentId| !stored_in_table(infos, id);
        let mut in_table: Vec<ComponentId> = Vec::new();
        let mut in_sparse: Vec<ComponentId> = Vec::new();
        let mut i: usize = 0;
        while i < ids.len()
            invariant
                i <= ids@.len(),
                infos == self.registry_spec().infos(),
                table == (|id: ComponentId| stored_in_table(infos, id)),
                sparse == (|id: ComponentId| !stored_in_table(infos, id)),
                in_table@ == ids@.take(i as int).filter(table),
                in_sparse@ == ids@.take(i as int).filter(sparse),
            decreases ids@.len() - i,
        {
            proof {
                reveal(Seq::filter);
                assert(ids@.take(i + 1).drop_last() =~= ids@.take(i as int));
                assert(ids@.take(i + 1).last() == ids@[i as int]);
            }
            if self.is_table_component(ids[i]) {
                in_table.push(ids[i]);
            } else {
                in_sparse.push(ids[i]);
            }
            i = i + 1;
        }
        proof {
            assert(ids@.take(ids@.len() as int) =~= ids@);
        }
        (in_table, in_sparse)
    }
}

/// Sorts component ids into ascending order.
fn sort_ids(items: &mut Vec<ComponentId>)
    ensures
        forall|a: int, b: int| 0 <= a < b < final(items)@.len() ==> final(items)@[a].0 <= final(items)@[b].0,
        final(items)@.to_multiset() == old(items)@.to_multiset(),
{
    let n = items.len();
    let mut i: usize = 0;
    while i < n
        invariant
            n == items@.len(),
            i <= n,
            items@.to_multiset() == old(items)@.to_multiset(),
            forall|a: int, b: int| 0 <= a < b < i ==> items@[a].0 <= items@[b].0,
            forall|a: int, b: int| 0 <= a < i <= b < n ==> items@[a].0 <= items@[b].0,
        decreases n - i,
    {
        let mut best: usize = i;
        let mut j: usize = i + 1;
        while j < n
            invariant
                n == items@.len(),
                i < n,
                i <= best < n,
                i < j <= n,
                forall|b: int| i <= b < j ==> items@[best as int].0 <= items@[b].0,
            decreases n - j,
        {
            if items[j].0 < items[best].0 {
                best = j;
            }
            j = j + 1;
        }
        let ghost before = items@;
        let a = items[i];
        let b = items[best];
        items.set(i, b);
        items.set(best, a);
        proof {
            lemma_swap_preserves_multiset(before, i as int, best as int);
        }
        i = i + 1;
    }
}

/// The rows of the first `n` archetypes whose signature has `c`.
pub open spec fn rows_with(
    sigs: Seq<Seq<ComponentId>>,
    pops: Seq<Seq<Entity>>,
    c: ComponentId,
    n: int,
) -> nat
    decreases n,
{
    if n <= 0 {
        0
    } else if sigs[n - 1].contains(c) {
        rows_with(sigs, pops, c, n - 1) + pops[n - 1].len()
    } else {
        rows_with(sigs, pops, c, n - 1)
    }
}

/// A prefix of the archetypes holds no more rows than all of them.
proof fn lemma_total_rows_prefix(pops: Seq<Seq<Entity>>, n: int)
    requires
        0 <= n <= pops.len(),
    ensures
        total_rows(pops.take(n)) <= total_rows(pops),
    decreases pops.len() - n,
{
    if n < pops.len() {
        lemma_total_rows_prefix(pops, n + 1);
        assert(pops.take(n + 1).drop_last() =~= pops.take(n));
    } else {
        assert(pops.take(n) =~= pops);
    }
}

} // verus!
