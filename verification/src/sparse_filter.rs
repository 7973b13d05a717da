//! The per-entity admission test of a query that filters on sparse
//! components. Sparse storage has no archetypes to skip, so the sets of
//! entities a filter lets in and keeps out are built once, up front, and the
//! query tests each row it would yield against them.
use crate::entity::Entity;
use std::collections::HashSet;
use vstd::prelude::*;

verus! {

/// The 64-bit key of a handle: its generation above its index.
pub open spec fn key_of(e: Entity) -> u64 {
    (e.generation * 0x1_0000_0000 + e.index) as u64
}

/// Two handles with the same key are the same handle.
proof fn lemma_key_injective(a: Entity, b: Entity)
    requires
        key_of(a) == key_of(b),
    ensures
        a == b,
{
    let ka = a.generation * 0x1_0000_0000 + a.index;
    let kb = b.generation * 0x1_0000_0000 + b.index;
    assert(ka < 0x1_0000_0000_0000_0000 && kb < 0x1_0000_0000_0000_0000) by (nonlinear_arith)
        requires
            ka == a.generation * 0x1_0000_0000 + a.index,
            kb == b.generation * 0x1_0000_0000 + b.index,
            a.generation < 0x1_0000_0000,
            a.index < 0x1_0000_0000,
            b.generation < 0x1_0000_0000,
            b.index < 0x1_0000_0000,
    ;
    assert(a.generation == b.generation && a.index == b.index) by (nonlinear_arith)
        requires
            ka == kb,
            ka == a.generation * 0x1_0000_0000 + a.index,
            kb == b.generation * 0x1_0000_0000 + b.index,
            0 <= a.index < 0x1_0000_0000,
            0 <= b.index < 0x1_0000_0000,
            0 <= a.generation,
            0 <= b.generation,
    ;
}

/// The handle whose key is `b`: every 64-bit key names one.
proof fn entity_of_key(b: u64) -> (e: Entity)
    ensures
        key_of(e) == b,
{
    let e = Entity { index: (b % 0x1_0000_0000) as u32, generation: (b / 0x1_0000_0000) as u32 };
    assert(b == (b / 0x1_0000_0000) * 0x1_0000_0000 + b % 0x1_0000_0000) by (nonlinear_arith);
    assert(b / 0x1_0000_0000 < 0x1_0000_0000) by (nonlinear_arith);
    e
}

/// The key of a handle, computed.
fn key(e: Entity) -> (r: u64)
    ensures
        r == key_of(e),
{
    e.to_bits()
}

/// Which entities a query's sparse filters admit.
#[derive(Debug)]
pub struct SparseFilter {
    allowed: Option<HashSet<u64>>,
    denied: HashSet<u64>,
}

impl SparseFilter {
    /// The keys of the entities carrying every required component, or
    /// `None` when no sparse component is required.
    pub closed spec fn allowed_spec(&self) -> Option<Set<u64>> {
        match self.allowed {
            Some(s) => Some(s@),
            None => None,
        }
    }

    /// The keys of the entities carrying at least one excluded component.
    pub closed spec fn denied_spec(&self) -> Set<u64> {
        self.denied@
    }

    /// The filter lets `e` through.
    pub open spec fn admits_spec(&self, e: Entity) -> bool {
        &&& !self.denied_spec().contains(key_of(e))
        &&& match self.allowed_spec() {
            Some(allowed) => allowed.contains(key_of(e)),
            None => true,
        }
    }

    /// A filter that filters nothing.
    pub fn open() -> (r: SparseFilter)
        ensures
            r.allowed_spec() is None,
            r.denied_spec().is_empty(),
            forall|e: Entity| r.admits_spec(e),
    {
        SparseFilter { allowed: None, denied: HashSet::new() }
    }

    /// The filter of a query that requires the components whose holders are
    /// listed in `required` and excludes those listed in `excluded`: it
    /// admits an entity that every required list holds and no excluded list
    /// does. It filters nothing exactly when nothing is required and every
    /// excluded list is empty.
    pub fn build(required: &Vec<Vec<Entity>>, excluded: &Vec<Vec<Entity>>) -> (r: SparseFilter)
        ensures
            forall|e: Entity|
                #[trigger] r.admits_spec(e) == ((forall|i: int|
                    0 <= i < required@.len() ==> required@[i]@.contains(e)) && !(exists|i: int|
                    0 <= i < excluded@.len() && excluded@[i]@.contains(e))),
            r.allowed_spec() is None <==> required@.len() == 0,
            r.denied_spec().is_empty() <==> (forall|i: int|
                0 <= i < excluded@.len() ==> excluded@[i]@.len() == 0),
    {
        broadcast use vstd::std_specs::hash::group_hash_axioms;

        let mut denied: HashSet<u64> = HashSet::new();
        let mut i: usize = 0;
        while i < excluded.len()
            invariant
                i <= excluded@.len(),
                forall|e: Entity|
                    #[trigger] denied@.contains(key_of(e)) <==> exists|k: int|
                        0 <= k < i && excluded@[k]@.contains(e),
                denied@.is_empty() <==> (forall|k: int| 0 <= k < i ==> excluded@[k]@.len() == 0),
            decreases excluded@.len() - i,
        {
            let list = &excluded[i];
            let ghost before = denied@;
            let mut j: usize = 0;
            while j < list.len()
                invariant
                    j <= list@.len(),
                    list@ == excluded@[i as int]@,
                    i < excluded@.len(),
                    forall|e: Entity|
                        #[trigger] denied@.contains(key_of(e)) <==> (before.contains(key_of(e))
                            || list@.take(j as int).contains(e)),
                decreases list@.len() - j,
            {
                let e = list[j];
                denied.insert(key(e));
                proof {
                    assert(list@.take(j + 1) =~= list@.take(j as int).push(e));
                    assert forall|x: Entity| #[trigger] denied@.contains(key_of(x)) <==> (before.contains(
                        key_of(x),
                    ) || list@.take(j + 1).contains(x)) by {
                        if key_of(x) == key_of(e) {
                            lemma_key_injective(x, e);
                        }
                        vstd::seq_lib::lemma_seq_contains_after_push(list@.take(j as int), e, x);
                    }
                }
                j = j + 1;
            }
            proof {
                assert(list@.take(list@.len() as int) =~= list@);
                assert forall|e: Entity| #[trigger] denied@.contains(key_of(e)) <==> exists|k: int|
                    0 <= k < i + 1 && excluded@[k]@.contains(e) by {
                    if list@.contains(e) {
                        assert(excluded@[i as int]@.contains(e));
                    }
                }
                if forall|k: int| 0 <= k < i + 1 ==> excluded@[k]@.len() == 0 {
                    assert forall|b: u64| !denied@.contains(b) by {
                        let e = entity_of_key(b);
                        if denied@.contains(b) {
                            assert(denied@.contains(key_of(e)));
                            let k = choose|k: int| 0 <= k < i + 1 && excluded@[k]@.contains(e);
                            assert(excluded@[k]@.len() == 0);
                        }
                    }
                    assert(denied@ =~= Set::<u64>::empty());
                } else {
                    let k = choose|k: int| 0 <= k < i + 1 && excluded@[k]@.len() != 0;
                    let e = excluded@[k]@[0];
                    assert(excluded@[k]@.contains(e));
                    assert(denied@.contains(key_of(e)));
                }
            }
            i = i + 1;
        }
        if required.len() == 0 {
            return SparseFilter { allowed: None, denied };
        }
        let mut allowed: HashSet<u64> = HashSet::new();
        let first = &required[0];
        let mut j: usize = 0;
        while j < first.len()
            invariant
                j <= first@.len(),
                first@ == required@[0]@,
                forall|e: Entity| #[trigger] allowed@.contains(key_of(e)) <==> first@.take(j as int).contains(e),
            decreases first@.len() - j,
        {
            let e = first[j];
            allowed.insert(key(e));
            proof {
                assert(first@.take(j + 1) =~= first@.take(j as int).push(e));
                assert forall|x: Entity| #[trigger] allowed@.contains(key_of(x)) <==> first@.take(j + 1).contains(x) by {
                    if key_of(x) == key_of(e) {
                        lemma_key_injective(x, e);
                    }
                    vstd::seq_lib::lemma_seq_contains_after_push(first@.take(j as int), e, x);
                }
            }
            j = j + 1;
        }
        proof {
            assert(first@.take(first@.len() as int) =~= first@);
        }
        let mut k: usize = 1;
        while k < required.len()
            invariant
                1 <= k <= required@.len(),
                forall|e: Entity|
                    #[trigger] allowed@.contains(key_of(e)) <==> forall|m: int|
                        0 <= m < k ==> required@[m]@.contains(e),
            decreases required@.len() - k,
        {
            let list = &required[k];
            let mut next: HashSet<u64> = HashSet::new();
            let mut j: usize = 0;
            while j < list.len()
                invariant
                    j <= list@.len(),
                    list@ == required@[k as int]@,
                    forall|e: Entity|
                        #[trigger] next@.contains(key_of(e)) <==> (allowed@.contains(key_of(e))
                            && list@.take(j as int).contains(e)),
                decreases list@.len() - j,
            {
                let e = list[j];
                let b = key(e);
                if allowed.contains(&b) {
                    next.insert(b);
                }
                proof {
                    assert(list@.take(j + 1) =~= list@.take(j as int).push(e));
                    assert forall|x: Entity| #[trigger] next@.contains(key_of(x)) <==> (allowed@.contains(
                        key_of(x),
                    ) && list@.take(j + 1).contains(x)) by {
                        if key_of(x) == key_of(e) {
                            lemma_key_injective(x, e);
                        }
                        vstd::seq_lib::lemma_seq_contains_after_push(list@.take(j as int), e, x);
                    }
                }
                j = j + 1;
            }
            proof {
                assert(list@.take(list@.len() as int) =~= list@);
            }
            allowed = next;
            k = k + 1;
        }
        SparseFilter { allowed: Some(allowed), denied }
    }

    /// The filter filters nothing, so a query can skip the test.
    pub fn is_open(&self) -> (r: bool)
        ensures
            r == (self.allowed_spec() is None && self.denied_spec().is_empty()),
    {
        broadcast use vstd::std_specs::hash::group_hash_axioms;

        self.allowed.is_none() && self.denied.is_empty()
    }

    /// The filter lets `entity` through.
    pub fn admits(&self, entity: Entity) -> (r: bool)
        ensures
            r == self.admits_spec(entity),
    {
        broadcast use vstd::std_specs::hash::group_hash_axioms;

        let b = key(entity);
        if self.denied.contains(&b) {
            return false;
        }
        match &self.allowed {
            Some(allowed) => allowed.contains(&b),
            None => true,
        }
    }
}

} // verus!
