//! Sparse-set storage for one component type.
//!
//! A sparse array maps an entity index to a slot in dense, packed arrays of
//! entities, values and change ticks. Lookup compares the whole handle, so a
//! recycled index never inherits the value of the entity that used it before.
use crate::component::Tick;
use crate::entity::Entity;
use vstd::prelude::*;

verus! {

/// The sparse-array marker for "no slot".
pub const ABSENT: u32 = 0xffff_ffff;

/// A sparse set from entities to values of `T`, with added/changed ticks.
pub struct SparseSet<T> {
    sparse: Vec<u32>,
    dense_entities: Vec<Entity>,
    /// The values, in dense order.
    pub data: Vec<T>,
    /// The tick at which each value was first inserted, in dense order.
    pub added: Vec<Tick>,
    /// The tick at which each value was last written, in dense order.
    pub changed: Vec<Tick>,
}

impl<T> SparseSet<T> {
    /// The entities holding a value, in dense order.
    pub closed spec fn entities_view(&self) -> Seq<Entity> {
        self.dense_entities@
    }

    /// The values, in dense order.
    pub closed spec fn data_view(&self) -> Seq<T> {
        self.data@
    }

    /// The added ticks, in dense order.
    pub closed spec fn added_view(&self) -> Seq<Tick> {
        self.added@
    }

    /// The changed ticks, in dense order.
    pub closed spec fn changed_view(&self) -> Seq<Tick> {
        self.changed@
    }

    /// The sparse array and the dense arrays agree.
    pub closed spec fn wf(&self) -> bool {
        &&& self.data_view().len() == self.dense_entities@.len()
        &&& self.added_view().len() == self.dense_entities@.len()
        &&& self.changed_view().len() == self.dense_entities@.len()
        &&& self.dense_entities@.len() < ABSENT
        &&& forall|k: int|
            0 <= k < self.dense_entities@.len() ==> {
                &&& (#[trigger] self.dense_entities@[k]).index < self.sparse@.len()
                &&& self.sparse@[self.dense_entities@[k].index as int] == k
            }
        &&& forall|i: int|
            0 <= i < self.sparse@.len() && #[trigger] self.sparse@[i] != ABSENT ==> {
                &&& self.sparse@[i] < self.dense_entities@.len()
                &&& self.dense_entities@[self.sparse@[i] as int].index == i
            }
    }

    /// The dense position holding `entity`, if it has a value.
    pub open spec fn position_of(&self, entity: Entity) -> Option<int> {
        if exists|k: int| 0 <= k < self.entities_view().len() && self.entities_view()[k] == entity {
            Some(choose|k: int| 0 <= k < self.entities_view().len() && self.entities_view()[k] == entity)
        } else {
            None
        }
    }

    /// An empty set.
    pub fn new() -> (r: SparseSet<T>)
        ensures
            r.wf(),
            r.entities_view().len() == 0,
            r.data_view().len() == 0,
    {
        SparseSet {
            sparse: Vec::new(),
            dense_entities: Vec::new(),
            data: Vec::new(),
            added: Vec::new(),
            changed: Vec::new(),
        }
    }

    /// Dense entities are distinct.
    proof fn lemma_dense_distinct(&self, k1: int, k2: int)
        requires
            self.wf(),
            0 <= k1 < self.entities_view().len(),
            0 <= k2 < self.entities_view().len(),
            k1 != k2,
        ensures
            self.entities_view()[k1] != self.entities_view()[k2],
            self.entities_view()[k1].index != self.entities_view()[k2].index,
    {
    }

    /// The dense position of `entity`: found through the sparse array, and
    /// only if the stored handle matches in full, generation included.
    pub fn position(&self, entity: Entity) -> (r: Option<usize>)
        requires
            self.wf(),
        ensures
            r matches Some(k) ==> k < self.entities_view().len() && self.entities_view()[k as int]
                == entity,
            r is None ==> forall|k: int|
                0 <= k < self.entities_view().len() ==> self.entities_view()[k] != entity,
            r matches Some(k) ==> self.position_of(entity) == Some(k as int),
            r is None ==> self.position_of(entity) is None,
    {
        let index = entity.index as usize;
        if index >= self.sparse.len() {
            return None;
        }
        let slot = self.sparse[index];
        if slot == ABSENT {
            return None;
        }
        let stored = self.dense_entities[slot as usize];
        if stored == entity {
            proof {
                assert(self.entities_view()[slot as int] == entity);
                let c = choose|k: int|
                    0 <= k < self.entities_view().len() && self.entities_view()[k] == entity;
                if c != slot as int {
                    self.lemma_dense_distinct(c, slot as int);
                }
            }
            Some(slot as usize)
        } else {
            None
        }
    }

    /// True when `entity` has a value.
    pub fn contains(&self, entity: Entity) -> (r: bool)
        requires
            self.wf(),
        ensures
            r == self.entities_view().contains(entity),
    {
        match self.position(entity) {
            Some(k) => {
                assert(self.entities_view()[k as int] == entity);
                true
            },
            None => false,
        }
    }

    /// Stores a value for `entity`. A second insert overwrites the value and
    /// the changed tick but keeps the added tick and the set's size. The
    /// dense arrays must stay within `u32`. A handle whose
    /// index is still held by an older generation is left out: the world
    /// removes a despawned entity's values before its index is recycled.
    pub fn insert(&mut self, entity: Entity, value: T, tick: Tick)
        requires
            old(self).wf(),
            old(self).entities_view().len() + 1 < ABSENT,
            forall|k: int|
                0 <= k < old(self).entities_view().len() && (#[trigger] old(self).entities_view()[k]).index == entity.index ==> old(self).entities_view()[k]
                    == entity,
        ensures
            final(self).wf(),
            (match old(self).position_of(entity) {
                Some(k) => {
                    &&& final(self).entities_view() == old(self).entities_view()
                    &&& final(self).data_view() == old(self).data_view().update(k, value)
                    &&& final(self).added_view() == old(self).added_view()
                    &&& final(self).changed_view() == old(self).changed_view().update(k, tick)
                },
                None => {
                    &&& final(self).entities_view() == old(self).entities_view().push(entity)
                    &&& final(self).data_view() == old(self).data_view().push(value)
                    &&& final(self).added_view() == old(self).added_view().push(tick)
                    &&& final(self).changed_view() == old(self).changed_view().push(tick)
                },
            }),
    {
        if let Some(position) = self.position(entity) {
            self.data.set(position, value);
            self.changed.set(position, tick);
            return;
        }
        let index = entity.index as usize;
        let ghost old_dense = self.dense_entities@;
        proof {
            assert forall|k: int| 0 <= k < old_dense.len() implies (#[trigger] old_dense[k]).index
                != entity.index by {
                if old_dense[k].index == entity.index {
                    assert(old_dense[k] == entity);
                }
            }
        }
        while self.sparse.len() <= index
            invariant
                self.wf(),
                self.dense_entities@ == old_dense,
                self.data@ == old(self).data@,
                self.added@ == old(self).added@,
                self.changed@ == old(self).changed@,
                forall|k: int| 0 <= k < old_dense.len() ==> (#[trigger] old_dense[k]).index != entity.index,
                forall|k: int| 0 <= k < old_dense.len() ==> old_dense[k] != entity,
            decreases index + 1 - self.sparse@.len(),
        {
            self.sparse.push(ABSENT);
        }
        let slot = self.dense_entities.len() as u32;
        proof {
            // The slot at `entity.index` is free: a dense entity there would
            // share the index but differ in generation, and then the sparse
            // entry would point at it.
            if self.sparse@[index as int] != ABSENT {
                let k = self.sparse@[index as int] as int;
                assert(self.dense_entities@[k].index == entity.index);
            }
        }
        self.sparse.set(index, slot);
        self.dense_entities.push(entity);
        self.data.push(value);
        self.added.push(tick);
        self.changed.push(tick);
        proof {
            assert forall|k: int| 0 <= k < self.dense_entities@.len() implies {
                &&& (#[trigger] self.dense_entities@[k]).index < self.sparse@.len()
                &&& self.sparse@[self.dense_entities@[k].index as int] == k
            } by {
                if k < old_dense.len() {
                    assert(self.dense_entities@[k] == old_dense[k]);
                    assert(old_dense[k].index != entity.index);
                }
            }
        }
    }

    /// The value stored for `entity`, if any.
    pub fn get(&self, entity: Entity) -> (r: Option<&T>)
        requires
            self.wf(),
        ensures
            (match self.position_of(entity) {
                Some(k) => r == Some(&self.data_view()[k]),
                None => r is None,
            }),
    {
        match self.position(entity) {
            Some(position) => Some(&self.data[position]),
            None => None,
        }
    }

    /// The value for `entity` for writing, stamped changed at `tick` first,
    /// or `None` when it has none; the value written through the borrow is
    /// what the set then holds.
    pub fn write(&mut self, entity: Entity, tick: Tick) -> (r: Option<&mut T>)
        requires
            old(self).wf(),
        ensures
            final(self).wf(),
            final(self).entities_view() == old(self).entities_view(),
            final(self).added_view() == old(self).added_view(),
            match old(self).position_of(entity) {
                Some(k) => {
                    &&& r matches Some(v) && *v == old(self).data_view()[k] && final(self).data_view()
                        == old(self).data_view().update(k, *final(v))
                    &&& final(self).changed_view() == old(self).changed_view().update(k, tick)
                },
                None => {
                    &&& r is None
                    &&& final(self).data_view() == old(self).data_view()
                    &&& final(self).changed_view() == old(self).changed_view()
                },
            },
    {
        match self.position(entity) {
            Some(position) => {
                self.changed.set(position, tick);
                Some(&mut self.data[position])
            },
            None => None,
        }
    }

    /// Removes and returns the value for `entity`. The last entry is moved
    /// into the hole, and its sparse entry is repointed so it still resolves.
    pub fn remove(&mut self, entity: Entity) -> (r: Option<T>)
        requires
            old(self).wf(),
        ensures
            final(self).wf(),
            (match old(self).position_of(entity) {
                None => {
                    &&& r is None
                    &&& final(self).entities_view() == old(self).entities_view()
                    &&& final(self).data_view() == old(self).data_view()
                    &&& final(self).added_view() == old(self).added_view()
                    &&& final(self).changed_view() == old(self).changed_view()
                },
                Some(k) => {
                    &&& r == Some(old(self).data_view()[k])
                    &&& final(self).entities_view() == old(self).entities_view().update(
                        k,
                        old(self).entities_view().last(),
                    ).drop_last()
                    &&& final(self).data_view() == old(self).data_view().update(k, old(self).data_view().last()).drop_last()
                    &&& final(self).added_view() == old(self).added_view().update(k, old(self).added_view().last()).drop_last()
                    &&& final(self).changed_view() == old(self).changed_view().update(
                        k,
                        old(self).changed_view().last(),
                    ).drop_last()
                },
            }),
            !final(self).entities_view().contains(entity),
    {
        let position = match self.position(entity) {
            Some(position) => position,
            None => {
                proof {
                    assert forall|k: int| 0 <= k < self.entities_view().len() implies self.entities_view()[k] != entity by {}
                }
                return None;
            },
        };
        let ghost old_dense = self.dense_entities@;
        let ghost old_sparse = self.sparse@;
        let last = self.dense_entities.len() - 1;
        self.sparse.set(entity.index as usize, ABSENT);
        if position != last {
            let moved = self.dense_entities[last];
            proof {
                self.lemma_dense_distinct_old(old_dense, old_sparse, position as int, last as int);
            }
            self.sparse.set(moved.index as usize, position as u32);
        }
        self.dense_entities.swap_remove(position);
        self.added.swap_remove(position);
        self.changed.swap_remove(position);
        let value = self.data.swap_remove(position);
        proof {
            let nd = self.dense_entities@;
            assert forall|k: int| 0 <= k < nd.len() implies {
                &&& (#[trigger] nd[k]).index < self.sparse@.len()
                &&& self.sparse@[nd[k].index as int] == k
            } by {
                if k == position {
                    assert(nd[k] == old_dense[last as int]);
                } else {
                    assert(nd[k] == old_dense[k]);
                    assert(old_dense[k].index != old_dense[last as int].index);
                    assert(old_dense[k].index != entity.index);
                }
            }
            assert forall|i: int| 0 <= i < self.sparse@.len() && #[trigger] self.sparse@[i] != ABSENT implies {
                &&& self.sparse@[i] < nd.len()
                &&& nd[self.sparse@[i] as int].index == i
            } by {
                if i == entity.index {
                    if position != last {
                        assert(i == old_dense[last as int].index ==> false);
                    }
                } else if position != last && i == old_dense[last as int].index {
                } else {
                    let k = old_sparse[i] as int;
                    assert(old_dense[k].index == i);
                    assert(k != position);
                    assert(k != last);
                }
            }
            assert forall|k: int| 0 <= k < nd.len() implies nd[k] != entity by {
                if k == position {
                    assert(nd[k] == old_dense[last as int]);
                } else {
                    assert(nd[k] == old_dense[k]);
                }
            }
        }
        Some(value)
    }

    /// Distinct dense positions hold distinct indices, stated over a captured
    /// state.
    proof fn lemma_dense_distinct_old(&self, dense: Seq<Entity>, sparse: Seq<u32>, k1: int, k2: int)
        requires
            forall|k: int|
                0 <= k < dense.len() ==> {
                    &&& (#[trigger] dense[k]).index < sparse.len()
                    &&& sparse[dense[k].index as int] == k
                },
            0 <= k1 < dense.len(),
            0 <= k2 < dense.len(),
            k1 != k2,
        ensures
            dense[k1].index != dense[k2].index,
    {
    }

    /// The entities holding a value, in dense order.
    pub fn entities(&self) -> (r: &[Entity])
        ensures
            r@ == self.entities_view(),
    {
        self.dense_entities.as_slice()
    }

    /// Number of stored values.
    pub fn len(&self) -> (r: usize)
        requires
            self.wf(),
        ensures
            r == self.data_view().len(),
            r == self.entities_view().len(),
    {
        self.data.len()
    }

    /// Removes every value.
    pub fn clear(&mut self)
        ensures
            final(self).wf(),
            final(self).entities_view().len() == 0,
            final(self).data_view().len() == 0,
    {
        self.sparse.clear();
        self.dense_entities.clear();
        self.data.clear();
        self.added.clear();
        self.changed.clear();
    }
}

} // verus!
