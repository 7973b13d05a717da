//! Entity identity and allocation.
//!
//! An [`Entity`] is an index paired with a generation. When an entity is
//! freed its index goes back on the free list, but the slot's generation is
//! bumped, so a stale handle compares unequal to whatever now lives at that
//! index and stops resolving instead of silently addressing an unrelated
//! entity.
use vstd::prelude::*;

verus! {

/// A handle to an entity: an index paired with a generation counter.
#[derive(Clone, Copy, PartialEq, Eq, Structural, Hash, PartialOrd, Ord, Debug)]
pub struct Entity {
    pub index: u32,
    pub generation: u32,
}

impl Entity {
    /// A handle that is never valid in any world.
    pub fn null() -> (r: Entity)
        ensures
            r == (Entity { index: u32::MAX, generation: u32::MAX }),
    {
        Entity { index: u32::MAX, generation: u32::MAX }
    }

    /// Builds a handle from its parts.
    pub fn from_parts(index: u32, generation: u32) -> (r: Entity)
        ensures
            r == (Entity { index, generation }),
    {
        Entity { index, generation }
    }

    /// The entity's slot index.
    pub fn index(self) -> (r: u32)
        ensures
            r == self.index,
    {
        self.index
    }

    /// The generation this handle was minted at.
    pub fn generation(self) -> (r: u32)
        ensures
            r == self.generation,
    {
        self.generation
    }

    /// True for the null handle.
    pub fn is_null(self) -> (r: bool)
        ensures
            r == (self.index == u32::MAX && self.generation == u32::MAX),
    {
        self.index == u32::MAX && self.generation == u32::MAX
    }

    /// Packs the handle into one `u64`: generation high, index low.
    pub fn to_bits(self) -> (r: u64)
        ensures
            r == self.generation * 0x1_0000_0000 + self.index,
    {
        proof {
            let g = self.generation as u64;
            let i = self.index as u64;
            assert((g << 32u64) | i == g * 0x1_0000_0000 + i) by (bit_vector)
                requires
                    g < 0x1_0000_0000,
                    i < 0x1_0000_0000,
            ;
        }
        ((self.generation as u64) << 32) | (self.index as u64)
    }

    /// Unpacks a handle produced by [`Entity::to_bits`].
    pub fn from_bits(bits: u64) -> (r: Entity)
        ensures
            r.index == bits % 0x1_0000_0000,
            r.generation == bits / 0x1_0000_0000,
    {
        proof {
            assert(bits as u32 == bits % 0x1_0000_0000) by (bit_vector);
            assert((bits >> 32u64) as u32 == bits / 0x1_0000_0000) by (bit_vector);
        }
        Entity { index: bits as u32, generation: (bits >> 32) as u32 }
    }
}

/// Packing a handle into bits and back gives the same handle.
pub proof fn lemma_bits_round_trip(e: Entity)
    ensures
        ((e.generation * 0x1_0000_0000 + e.index) % 0x1_0000_0000) == e.index,
        ((e.generation * 0x1_0000_0000 + e.index) / 0x1_0000_0000) == e.generation,
{
    vstd::arithmetic::div_mod::lemma_fundamental_div_mod_converse(
        e.generation * 0x1_0000_0000 + e.index,
        0x1_0000_0000,
        e.generation as int,
        e.index as int,
    );
}

/// Where an entity's component data lives: an archetype and a row in it.
#[derive(Clone, Copy, PartialEq, Eq, Structural, Debug)]
pub struct EntityLocation {
    pub archetype: u32,
    pub row: u32,
}

/// The state of one entity slot.
#[derive(Clone, Copy, PartialEq, Eq, Structural, Debug)]
pub enum Slot {
    /// In use, with data at this location.
    Live { generation: u32, location: EntityLocation },
    /// Free, waiting to be recycled at this generation.
    Free { generation: u32 },
}

impl Slot {
    /// The slot's current generation, live or free.
    pub open spec fn gen(self) -> u32 {
        match self {
            Slot::Live { generation, .. } => generation,
            Slot::Free { generation } => generation,
        }
    }
}

/// The indices of the live slots.
pub open spec fn live_indices(slots: Seq<Slot>) -> Set<int> {
    Set::new(|i: int| 0 <= i < slots.len() && slots[i] is Live)
}

/// The handle `e` names the live occupant of its slot.
pub open spec fn is_live(slots: Seq<Slot>, e: Entity) -> bool {
    &&& e.index < slots.len()
    &&& slots[e.index as int] is Live
    &&& slots[e.index as int].gen() == e.generation
}

/// The indices from `from` up to, not including, `to`: the slots a jump in
/// the table's length passes over.
pub open spec fn gap_indices(from: int, to: int) -> Seq<u32> {
    if to <= from {
        Seq::empty()
    } else {
        Seq::new((to - from) as nat, |k: int| (from + k) as u32)
    }
}

/// Allocates entity handles and tracks where each entity's data lives.
///
/// Freed indices are recycled last in, first out, which keeps the live set
/// densely packed at the front of the slot table.
#[derive(Debug)]
pub struct EntityAllocator {
    slots: Vec<Slot>,
    free: Vec<u32>,
    live_count: u32,
}

impl EntityAllocator {
    /// The slot table.
    pub closed spec fn slots(&self) -> Seq<Slot> {
        self.slots@
    }

    /// The free list; its last element is recycled first.
    pub closed spec fn free_list(&self) -> Seq<u32> {
        self.free@
    }

    /// The number of live entities.
    pub closed spec fn live(&self) -> nat {
        self.live_count as nat
    }

    /// The allocator's invariant: the free list holds distinct free slots
    /// that can still be recycled, the live count is the number of live
    /// slots, and the null handle is never live.
    pub closed spec fn wf(&self) -> bool {
        &&& self.slots@.len() <= 0x1_0000_0000
        &&& forall|k: int|
            0 <= k < self.free@.len() ==> {
                &&& (#[trigger] self.free@[k]) < self.slots@.len()
                &&& self.slots@[self.free@[k] as int] is Free
                &&& self.slots@[self.free@[k] as int].gen() != u32::MAX
            }
        &&& !is_live(self.slots@, Entity { index: u32::MAX, generation: u32::MAX })
        &&& forall|k1: int, k2: int|
            0 <= k1 < self.free@.len() && 0 <= k2 < self.free@.len() && k1 != k2 ==> (
            #[trigger] self.free@[k1]) != (#[trigger] self.free@[k2])
        &&& live_indices(self.slots@).finite()
        &&& live_indices(self.slots@).len() == self.live_count
    }

    /// The null handle is never live, in any allocator.
    pub proof fn lemma_null_never_live(&self)
        requires
            self.wf(),
        ensures
            !is_live(self.slots(), Entity { index: u32::MAX, generation: u32::MAX }),
    {
    }

    /// The slot table never outgrows the index space.
    pub proof fn lemma_slots_fit(&self)
        requires
            self.wf(),
        ensures
            self.slots().len() <= 0x1_0000_0000,
            self.live() <= u32::MAX,
    {
    }

    /// An empty allocator.
    pub fn new() -> (r: EntityAllocator)
        ensures
            r.wf(),
            r.slots() == Seq::<Slot>::empty(),
            r.free_list() == Seq::<u32>::empty(),
            r.live() == 0,
    {
        let r = EntityAllocator { slots: Vec::new(), free: Vec::new(), live_count: 0 };
        proof {
            assert(live_indices(r.slots@) =~= Set::<int>::empty());
        }
        r
    }

    /// Reserves a new handle: the most recently freed index at its bumped
    /// generation, or a fresh index at generation zero. The live count
    /// and the index space must not overflow `u32`.
    pub fn allocate(&mut self) -> (e: Entity)
        requires
            old(self).wf(),
            old(self).live() < u32::MAX,
            old(self).free_list().len() > 0 || old(self).slots().len() < 0x1_0000_0000,
        ensures
            final(self).wf(),
            final(self).live() == old(self).live() + 1,
            !is_live(old(self).slots(), e),
            is_live(final(self).slots(), e),
            old(self).free_list().len() > 0 ==> {
                &&& e.index == old(self).free_list().last()
                &&& e.generation == old(self).slots()[e.index as int].gen()
                &&& final(self).free_list() == old(self).free_list().drop_last()
                &&& final(self).slots().len() == old(self).slots().len()
            },
            old(self).free_list().len() == 0 ==> {
                &&& e.index == old(self).slots().len()
                &&& e.generation == 0
                &&& final(self).free_list() == old(self).free_list()
                &&& final(self).slots().len() == old(self).slots().len() + 1
            },
            final(self).slots()[e.index as int] == (Slot::Live {
                generation: e.generation,
                location: EntityLocation { archetype: 0, row: 0 },
            }),
            forall|i: int|
                0 <= i < old(self).slots().len() && i != e.index ==> final(self).slots()[i]
                    == old(self).slots()[i],
    {
        let ghost old_slots = self.slots@;
        self.live_count = self.live_count + 1;
        let location = EntityLocation { archetype: 0, row: 0 };
        if self.free.len() > 0 {
            let index = self.free.pop().unwrap();
            proof {
                assert(old(self).free@[old(self).free@.len() - 1] == index);
            }
            let generation = match self.slots[index as usize] {
                Slot::Free { generation } => generation,
                Slot::Live { generation, .. } => generation,
            };
            self.slots.set(index as usize, Slot::Live { generation, location });
            proof {
                assert(live_indices(self.slots@) =~= live_indices(old_slots).insert(index as int));
                assert forall|k: int| 0 <= k < self.free@.len() implies (#[trigger] self.free@[k])
                    != index by {
                    assert(old(self).free@[k] == self.free@[k]);
                    assert(old(self).free@[old(self).free@.len() - 1] == index);
                }
            }
            Entity { index, generation }
        } else {
            let index = self.slots.len() as u32;
            self.slots.push(Slot::Live { generation: 0, location });
            proof {
                assert(live_indices(self.slots@) =~= live_indices(old_slots).insert(index as int));
            }
            Entity { index, generation: 0 }
        }
    }

    /// Reserves a specific handle, growing the slot table as needed; used when
    /// restoring a saved world so handles survive a save and load. Slots
    /// passed over while growing go on the free list at generation zero.
    ///
    /// Returns `false` for the null handle and for a slot already live at a
    /// different generation; `true` when the handle is live afterwards.
    pub fn allocate_at(&mut self, entity: Entity) -> (r: bool)
        requires
            old(self).wf(),
            old(self).live() < u32::MAX,
        ensures
            final(self).wf(),
            r == (!(entity.index == u32::MAX && entity.generation == u32::MAX) && (
            entity.index >= old(self).slots().len() || old(self).slots()[entity.index as int] is Free
                || is_live(old(self).slots(), entity))),
            r ==> is_live(final(self).slots(), entity),
            !r ==> final(self).slots() == old(self).slots() && final(self).free_list() == old(self).free_list() && final(self).live() == old(self).live(),
            r && is_live(old(self).slots(), entity) ==> final(self).slots() == old(self).slots()
                && final(self).live() == old(self).live(),
            r && !is_live(old(self).slots(), entity) ==> final(self).live() == old(self).live() + 1,
            forall|i: int|
                0 <= i < old(self).slots().len() && i != entity.index ==> final(self).slots()[i]
                    == old(self).slots()[i],
            final(self).slots().len() >= old(self).slots().len(),
            forall|i: int|
                old(self).slots().len() <= i < final(self).slots().len() && i != entity.index ==> (
                #[trigger] final(self).slots()[i]) == (Slot::Free { generation: 0 }),
            r && !is_live(old(self).slots(), entity) ==> final(self).free_list() == (old(
                self,
            ).free_list() + gap_indices(old(self).slots().len() as int, entity.index as int)).filter(
                |q: u32| q != entity.index,
            ),
            r && !is_live(old(self).slots(), entity) ==> final(self).slots()[entity.index as int] == (
            Slot::Live { generation: entity.generation, location: EntityLocation { archetype: 0, row: 0 } }),
    {
        if entity.index == u32::MAX && entity.generation == u32::MAX {
            return false;
        }
        let index = entity.index as usize;
        if index >= self.slots.len() {
            let mut slot_index: u64 = self.slots.len() as u64;
            let target = entity.index as u64;
            while slot_index <= target
                invariant
                    slot_index == self.slots@.len(),
                    target == index,
                    old(self).slots@.len() <= slot_index <= index + 1,
                    index <= u32::MAX,
                    self.slots@.len() <= 0x1_0000_0000,
                    forall|i: int|
                        0 <= i < old(self).slots@.len() ==> self.slots@[i] == old(self).slots@[i],
                    forall|i: int|
                        old(self).slots@.len() <= i < self.slots@.len() ==> self.slots@[i] == (
                        Slot::Free { generation: 0 }),
                    live_indices(self.slots@) == live_indices(old(self).slots@),
                    self.live_count == old(self).live_count,
                    forall|k: int|
                        0 <= k < self.free@.len() ==> {
                            &&& (#[trigger] self.free@[k]) < self.slots@.len()
                            &&& self.slots@[self.free@[k] as int] is Free
                            &&& self.slots@[self.free@[k] as int].gen() != u32::MAX
                            &&& self.free@[k] != index
                        },
                    !is_live(self.slots@, Entity { index: u32::MAX, generation: u32::MAX }),
                    forall|k1: int, k2: int|
                        0 <= k1 < self.free@.len() && 0 <= k2 < self.free@.len() && k1 != k2 ==> (
                        #[trigger] self.free@[k1]) != (#[trigger] self.free@[k2]),
                    forall|k: int|
                        0 <= k < self.free@.len() ==> (#[trigger] self.free@[k]) < old(self).slots@.len() || self.free@[k] < slot_index,
                    self.free@ == old(self).free@ + gap_indices(
                        old(self).slots@.len() as int,
                        if slot_index <= target { slot_index as int } else { target as int },
                    ),
                    live_indices(self.slots@).finite(),
                decreases target + 1 - slot_index,
            {
                let ghost before = self.slots@;
                self.slots.push(Slot::Free { generation: 0 });
                proof {
                    assert(live_indices(self.slots@) =~= live_indices(before));
                }
                let ghost free_before = self.free@;
                if slot_index != target {
                    proof {
                        assert forall|k: int| 0 <= k < self.free@.len() implies (
                        #[trigger] self.free@[k]) != slot_index as u32 by {}
                    }
                    self.free.push(slot_index as u32);
                }
                proof {
                    let lo = old(self).slots@.len() as int;
                    if slot_index != target {
                        assert(gap_indices(lo, slot_index + 1) =~= gap_indices(lo, slot_index as int).push(
                            slot_index as u32,
                        ));
                    }
                }
                slot_index = slot_index + 1;
            }
            proof {
                assert(live_indices(self.slots@) =~= live_indices(old(self).slots@));
            }
        }
        proof {
            if index < old(self).slots@.len() {
                assert(old(self).free@ + gap_indices(old(self).slots@.len() as int, index as int)
                    =~= old(self).free@);
            }
        }
        let ghost queued = self.free@;
        assert(queued == old(self).free@ + gap_indices(old(self).slots@.len() as int, entity.index as int));
        match self.slots[index] {
            Slot::Live { generation, .. } => generation == entity.generation,
            Slot::Free { .. } => {
                let ghost before = self.slots@;
                let ghost free_before = self.free@;
                let ghost keep = |q: u32| q != entity.index;
                let mut kept: Vec<u32> = Vec::new();
                let mut k: usize = 0;
                while k < self.free.len()
                    invariant
                        k <= self.free@.len(),
                        keep == (|q: u32| q != entity.index),
                        kept@ == self.free@.take(k as int).filter(keep),
                        forall|j: int|
                            0 <= j < kept@.len() ==> (#[trigger] kept@[j]) != entity.index
                                && self.free@.contains(kept@[j]),
                        forall|j1: int, j2: int|
                            0 <= j1 < kept@.len() && 0 <= j2 < kept@.len() && j1 != j2 ==> (
                            #[trigger] kept@[j1]) != (#[trigger] kept@[j2]),
                        forall|j: int|
                            0 <= j < k && self.free@[j] != entity.index ==> kept@.contains(
                                #[trigger] self.free@[j],
                            ),
                        forall|j: int|
                            0 <= j < kept@.len() ==> exists|m: int|
                                0 <= m < k && self.free@[m] == #[trigger] kept@[j],
                        forall|k1: int, k2: int|
                            0 <= k1 < self.free@.len() && 0 <= k2 < self.free@.len() && k1 != k2
                                ==> (#[trigger] self.free@[k1]) != (#[trigger] self.free@[k2]),
                    decreases self.free@.len() - k,
                {
                    let ghost old_kept = kept@;
                    proof {
                        reveal(Seq::filter);
                        assert(self.free@.take(k + 1).drop_last() =~= self.free@.take(k as int));
                        assert(self.free@.take(k + 1).last() == self.free@[k as int]);
                    }
                    if self.free[k] != entity.index {
                        proof {
                            assert forall|j: int| 0 <= j < kept@.len() implies (
                            #[trigger] kept@[j]) != self.free@[k as int] by {
                                let m = choose|m: int|
                                    0 <= m < k && self.free@[m] == #[trigger] kept@[j];
                                assert(self.free@[m] == kept@[j]);
                            }
                        }
                        kept.push(self.free[k]);
                        proof {
                            assert(kept@[kept@.len() - 1] == self.free@[k as int]);
                        }
                    }
                    proof {
                        assert forall|j: int|
                            0 <= j < k + 1 && self.free@[j] != entity.index implies kept@.contains(
                            #[trigger] self.free@[j],
                        ) by {
                            if j < k {
                                let w = choose|w: int|
                                    0 <= w < old_kept.len() && old_kept[w] == self.free@[j];
                                assert(kept@[w] == self.free@[j]);
                            } else {
                                assert(kept@[kept@.len() - 1] == self.free@[j]);
                            }
                        }
                        assert forall|j: int| 0 <= j < kept@.len() implies exists|m: int|
                            0 <= m < k + 1 && self.free@[m] == #[trigger] kept@[j] by {
                            if j < old_kept.len() {
                                assert(kept@[j] == old_kept[j]);
                            } else {
                                assert(self.free@[k as int] == kept@[j]);
                            }
                        }
                    }
                    k = k + 1;
                }
                proof {
                    assert(free_before.take(free_before.len() as int) =~= free_before);
                }
                self.free = kept;
                self.slots.set(
                    index,
                    Slot::Live {
                        generation: entity.generation,
                        location: EntityLocation { archetype: 0, row: 0 },
                    },
                );
                self.live_count = self.live_count + 1;
                proof {
                    assert(live_indices(self.slots@) =~= live_indices(before).insert(index as int));
                    assert forall|j: int| 0 <= j < self.free@.len() implies {
                        &&& (#[trigger] self.free@[j]) < self.slots@.len()
                        &&& self.slots@[self.free@[j] as int] is Free
                        &&& self.slots@[self.free@[j] as int].gen() != u32::MAX
                    } by {
                        let m = choose|m: int| 0 <= m < free_before.len() && free_before[m] == #[trigger] self.free@[j];
                        assert(free_before[m] == self.free@[j]);
                    }
                }
                true
            },
        }
    }

    /// Releases a handle, bumping its slot's generation so stale copies stop
    /// resolving. Returns the location it occupied, or `None` when the handle
    /// was already dead, so a double free is a no-op. A slot whose generation
    /// reaches `u32::MAX` is retired rather than recycled.
    pub fn free(&mut self, entity: Entity) -> (r: Option<EntityLocation>)
        requires
            old(self).wf(),
        ensures
            final(self).wf(),
            !is_live(final(self).slots(), entity),
            r is Some <==> is_live(old(self).slots(), entity),
            !is_live(old(self).slots(), entity) ==> final(self).slots() == old(self).slots()
                && final(self).free_list() == old(self).free_list() && final(self).live() == old(self).live(),
            is_live(old(self).slots(), entity) ==> {
                let next = if entity.generation == u32::MAX {
                    u32::MAX
                } else {
                    (entity.generation + 1) as u32
                };
                &&& r == Some(
                    match old(self).slots()[entity.index as int] {
                        Slot::Live { location, .. } => location,
                        Slot::Free { .. } => EntityLocation { archetype: 0, row: 0 },
                    },
                )
                &&& final(self).slots() == old(self).slots().update(
                    entity.index as int,
                    Slot::Free { generation: next },
                )
                &&& final(self).free_list() == (if next != u32::MAX {
                    old(self).free_list().push(entity.index)
                } else {
                    old(self).free_list()
                })
                &&& final(self).live() + 1 == old(self).live()
            },
    {
        let index = entity.index as usize;
        if index >= self.slots.len() {
            return None;
        }
        match self.slots[index] {
            Slot::Live { generation, location } => {
                if generation != entity.generation {
                    return None;
                }
                let ghost before = self.slots@;
                let next = if generation == u32::MAX {
                    u32::MAX
                } else {
                    generation + 1
                };
                self.slots.set(index, Slot::Free { generation: next });
                proof {
                    assert(live_indices(self.slots@) =~= live_indices(before).remove(index as int));
                    assert(live_indices(before).contains(index as int));
                    assert forall|k: int| 0 <= k < self.free@.len() implies (#[trigger] self.free@[k])
                        != entity.index by {}
                }
                if next != u32::MAX {
                    self.free.push(entity.index);
                }
                self.live_count = self.live_count - 1;
                Some(location)
            },
            Slot::Free { .. } => None,
        }
    }

    /// True when the handle refers to a live entity.
    pub fn contains(&self, entity: Entity) -> (r: bool)
        ensures
            r == is_live(self.slots(), entity),
    {
        let index = entity.index as usize;
        if index >= self.slots.len() {
            return false;
        }
        match self.slots[index] {
            Slot::Live { generation, .. } => generation == entity.generation,
            Slot::Free { .. } => false,
        }
    }

    /// Where a live entity's data lives, or `None` for a dead handle.
    pub fn location(&self, entity: Entity) -> (r: Option<EntityLocation>)
        ensures
            r is Some <==> is_live(self.slots(), entity),
            r matches Some(location) ==> self.slots()[entity.index as int] == (Slot::Live {
                generation: entity.generation,
                location,
            }),
    {
        let index = entity.index as usize;
        if index >= self.slots.len() {
            return None;
        }
        match self.slots[index] {
            Slot::Live { generation, location } => {
                if generation == entity.generation {
                    Some(location)
                } else {
                    None
                }
            },
            Slot::Free { .. } => None,
        }
    }

    /// Records where a live entity's data now lives; a dead handle is ignored.
    pub fn set_location(&mut self, entity: Entity, location: EntityLocation)
        requires
            old(self).wf(),
        ensures
            final(self).wf(),
            final(self).free_list() == old(self).free_list(),
            final(self).live() == old(self).live(),
            final(self).slots() == (if is_live(old(self).slots(), entity) {
                old(self).slots().update(
                    entity.index as int,
                    Slot::Live { generation: entity.generation, location },
                )
            } else {
                old(self).slots()
            }),
    {
        let index = entity.index as usize;
        if index >= self.slots.len() {
            return;
        }
        if let Slot::Live { generation, .. } = self.slots[index] {
            if generation == entity.generation {
                let ghost before = self.slots@;
                self.slots.set(index, Slot::Live { generation, location });
                proof {
                    assert(live_indices(self.slots@) =~= live_indices(before));
                }
            }
        }
    }

    /// Rewrites the location of whatever entity occupies `index`; used when a
    /// swap-remove moves another entity into the hole a despawn left.
    pub fn relocate_by_index(&mut self, index: u32, location: EntityLocation)
        requires
            old(self).wf(),
        ensures
            final(self).wf(),
            final(self).free_list() == old(self).free_list(),
            final(self).live() == old(self).live(),
            final(self).slots() == (if index < old(self).slots().len() && old(self).slots()[index as int] is Live {
                old(self).slots().update(
                    index as int,
                    Slot::Live { generation: old(self).slots()[index as int].gen(), location },
                )
            } else {
                old(self).slots()
            }),
    {
        let i = index as usize;
        if i >= self.slots.len() {
            return;
        }
        if let Slot::Live { generation, .. } = self.slots[i] {
            let ghost before = self.slots@;
            self.slots.set(i, Slot::Live { generation, location });
            proof {
                assert(live_indices(self.slots@) =~= live_indices(before));
            }
        }
    }

    /// Number of live entities.
    pub fn len(&self) -> (r: u32)
        requires
            self.wf(),
        ensures
            r == self.live(),
            r == live_indices(self.slots()).len(),
    {
        self.live_count
    }

    /// True when no entities are alive.
    pub fn is_empty(&self) -> (r: bool)
        ensures
            r == (self.live() == 0),
    {
        self.live_count == 0
    }

    /// Total number of slots ever allocated, live or recycled.
    pub fn capacity(&self) -> (r: usize)
        ensures
            r == self.slots().len(),
    {
        self.slots.len()
    }

    /// How many freed indices wait to be recycled.
    pub fn free_len(&self) -> (r: usize)
        ensures
            r == self.free_list().len(),
    {
        self.free.len()
    }

    /// Every live entity, in ascending index order.
    pub fn iter(&self) -> (r: Vec<Entity>)
        requires
            self.wf(),
        ensures
            forall|e: Entity| r@.contains(e) <==> is_live(self.slots(), e),
            forall|i: int, j: int| 0 <= i < j < r@.len() ==> r@[i].index < r@[j].index,
    {
        let mut out: Vec<Entity> = Vec::new();
        let mut index: usize = 0;
        while index < self.slots.len()
            invariant
                index <= self.slots@.len() <= 0x1_0000_0000,
                forall|e: Entity|
                    out@.contains(e) <==> (is_live(self.slots@, e) && e.index < index),
                forall|i: int, j: int| 0 <= i < j < out@.len() ==> out@[i].index < out@[j].index,
                forall|i: int| 0 <= i < out@.len() ==> out@[i].index < index,
            decreases self.slots@.len() - index,
        {
            if let Slot::Live { generation, .. } = self.slots[index] {
                let e = Entity { index: index as u32, generation };
                let ghost before = out@;
                out.push(e);
                proof {
                    assert(out@[out@.len() - 1] == e);
                    assert forall|x: Entity| out@.contains(x) <==> (is_live(self.slots@, x)
                        && x.index < index + 1) by {
                        if out@.contains(x) {
                            let j = choose|j: int| 0 <= j < out@.len() && out@[j] == x;
                            if j < before.len() {
                                assert(before[j] == x);
                                assert(before.contains(x));
                            }
                        }
                        if is_live(self.slots@, x) && x.index < index + 1 {
                            if x.index < index {
                                assert(before.contains(x));
                                let j = choose|j: int| 0 <= j < before.len() && before[j] == x;
                                assert(out@[j] == x);
                            } else {
                                assert(x == e);
                            }
                        }
                    }
                }
            }
            index = index + 1;
        }
        out
    }

    /// Removes every entity.
    pub fn clear(&mut self)
        ensures
            final(self).wf(),
            final(self).slots() == Seq::<Slot>::empty(),
            final(self).free_list() == Seq::<u32>::empty(),
            final(self).live() == 0,
    {
        self.slots.clear();
        self.free.clear();
        self.live_count = 0;
        proof {
            assert(live_indices(self.slots@) =~= Set::<int>::empty());
        }
    }
}

impl Default for EntityAllocator {
    fn default() -> (r: EntityAllocator)
        ensures
            r.wf(),
            r.slots() == Seq::<Slot>::empty(),
            r.live() == 0,
    {
        EntityAllocator::new()
    }
}

} // verus!
