//! Ordered, deterministic system execution plans.
//!
//! Systems are grouped into [`Stage`]s. Stages run in the declared order;
//! within a stage, systems run in the order fixed by their `after`/`before`
//! constraints, ties broken first by stage rank and then by insertion order.
//! The plan is computed here; the closures themselves are held and called by
//! whoever drives the schedule, in the order [`Schedule::run`] hands out.
use crate::component::{Component, ComponentId, ComponentRegistry};
use vstd::prelude::*;
use vstd::set_lib::{lemma_int_range, lemma_len_subset, set_int_range};

verus! {

/// A system's position in a schedule: its registration index.
#[derive(Clone, Copy, PartialEq, Eq, Structural, Hash, Debug, PartialOrd, Ord)]
pub struct SystemId(pub usize);

impl SystemId {
    /// The system's registration index within its schedule.
    pub fn index(self) -> (r: usize)
        ensures
            r == self.0,
    {
        self.0
    }
}

/// A named phase of the frame, compared by its name.
#[derive(Clone, Copy, Debug)]
pub struct Stage(pub &'static str);

impl Stage {
    /// Reads input devices and publishes the input snapshot.
    pub fn input() -> (r: Stage)
        ensures
            r.0@ == "input"@,
    {
        Stage("input")
    }

    /// Advances the simulation.
    pub fn update() -> (r: Stage)
        ensures
            r.0@ == "update"@,
    {
        Stage("update")
    }

    /// Resolves movement and collisions.
    pub fn physics() -> (r: Stage)
        ensures
            r.0@ == "physics"@,
    {
        Stage("physics")
    }

    /// Applies deferred structural changes.
    pub fn maintain() -> (r: Stage)
        ensures
            r.0@ == "maintain"@,
    {
        Stage("maintain")
    }

    /// Extracts what the renderer needs.
    pub fn extract() -> (r: Stage)
        ensures
            r.0@ == "extract"@,
    {
        Stage("extract")
    }

    /// True when the two stages have the same name.
    pub fn same_as(&self, other: &Stage) -> (r: bool)
        ensures
            r == (self.0@ == other.0@),
    {
        let a = self.0.to_owned();
        let b = other.0.to_owned();
        a == b
    }
}

/// What a system reads and writes, for ambiguity detection.
#[derive(Debug, PartialEq, Eq)]
pub struct SystemAccess {
    /// Components the system reads.
    pub reads: Vec<ComponentId>,
    /// Components the system writes.
    pub writes: Vec<ComponentId>,
    /// True when the system did not declare its access.
    pub unrestricted: bool,
}

/// Running the two systems in either order could differ: one of them is
/// undeclared, or one writes a component the other reads or writes.
pub open spec fn access_conflict(a: SystemAccess, b: SystemAccess) -> bool {
    ||| a.unrestricted
    ||| b.unrestricted
    ||| exists|c: ComponentId| #[trigger]
        a.writes@.contains(c) && (b.writes@.contains(c) || b.reads@.contains(c))
    ||| exists|c: ComponentId| #[trigger] b.writes@.contains(c) && a.reads@.contains(c)
}

fn ids_contain(list: &Vec<ComponentId>, id: ComponentId) -> (r: bool)
    ensures
        r == list@.contains(id),
{
    let mut i: usize = 0;
    while i < list.len()
        invariant
            i <= list@.len(),
            forall|k: int| 0 <= k < i ==> list@[k] != id,
        decreases list@.len() - i,
    {
        if list[i] == id {
            return true;
        }
        i = i + 1;
    }
    false
}

/// True when some element of `ids` is in `other`.
fn any_shared(ids: &Vec<ComponentId>, other: &Vec<ComponentId>) -> (r: bool)
    ensures
        r == exists|c: ComponentId| #[trigger] ids@.contains(c) && other@.contains(c),
{
    let mut i: usize = 0;
    while i < ids.len()
        invariant
            i <= ids@.len(),
            forall|k: int| 0 <= k < i ==> !other@.contains(#[trigger] ids@[k]),
        decreases ids@.len() - i,
    {
        if ids_contain(other, ids[i]) {
            assert(ids@.contains(ids@[i as int]));
            return true;
        }
        i = i + 1;
    }
    assert forall|c: ComponentId| #[trigger] ids@.contains(c) implies !other@.contains(c) by {
        let k = choose|k: int| 0 <= k < ids@.len() && ids@[k] == c;
        assert(!other@.contains(ids@[k]));
    }
    false
}

impl SystemAccess {
    /// Access covering everything; the default for undeclared systems.
    pub fn unrestricted() -> (r: SystemAccess)
        ensures
            r.reads@ == Seq::<ComponentId>::empty(),
            r.writes@ == Seq::<ComponentId>::empty(),
            r.unrestricted,
    {
        SystemAccess { reads: Vec::new(), writes: Vec::new(), unrestricted: true }
    }

    /// An empty declaration, to be extended with reads and writes.
    pub fn none() -> (r: SystemAccess)
        ensures
            r.reads@ == Seq::<ComponentId>::empty(),
            r.writes@ == Seq::<ComponentId>::empty(),
            !r.unrestricted,
    {
        SystemAccess { reads: Vec::new(), writes: Vec::new(), unrestricted: false }
    }

    /// Declares a read of `T`, registering it when needed.
    pub fn read<T: Component>(self, registry: &mut ComponentRegistry) -> (r: SystemAccess)
        requires
            old(registry).wf(),
            old(registry).keys().len() < 0x1_0000_0000,
        ensures
            final(registry).wf(),
            r.reads@.len() == self.reads@.len() + 1,
            r.reads@.drop_last() == self.reads@,
            r.reads@.last().0 < final(registry).keys().len(),
            r.writes@ == self.writes@,
            r.unrestricted == self.unrestricted,
    {
        let mut access = self;
        let id = registry.register::<T>();
        access.reads.push(id);
        access
    }

    /// Declares a write of `T`, registering it when needed.
    pub fn write<T: Component>(self, registry: &mut ComponentRegistry) -> (r: SystemAccess)
        requires
            old(registry).wf(),
            old(registry).keys().len() < 0x1_0000_0000,
        ensures
            final(registry).wf(),
            r.writes@.len() == self.writes@.len() + 1,
            r.writes@.drop_last() == self.writes@,
            r.writes@.last().0 < final(registry).keys().len(),
            r.reads@ == self.reads@,
            r.unrestricted == self.unrestricted,
    {
        let mut access = self;
        let id = registry.register::<T>();
        access.writes.push(id);
        access
    }

    /// True when running these two systems in either order could differ.
    /// Two reads never conflict; a write conflicts with any other access to
    /// the same component.
    pub fn conflicts_with(&self, other: &SystemAccess) -> (r: bool)
        ensures
            r == access_conflict(*self, *other),
    {
        if self.unrestricted || other.unrestricted {
            return true;
        }
        let ww = any_shared(&self.writes, &other.writes);
        let wr = any_shared(&self.writes, &other.reads);
        let rw = any_shared(&other.writes, &self.reads);
        if ww || wr {
            assert(exists|c: ComponentId| #[trigger]
                self.writes@.contains(c) && (other.writes@.contains(c) || other.reads@.contains(c)));
        }
        if !ww && !wr {
            assert forall|c: ComponentId| #[trigger] self.writes@.contains(c) implies !(
            other.writes@.contains(c) || other.reads@.contains(c)) by {}
        }
        ww || wr || rw
    }
}

impl Default for SystemAccess {
    fn default() -> (r: SystemAccess)
        ensures
            r.reads@ == Seq::<ComponentId>::empty(),
            r.writes@ == Seq::<ComponentId>::empty(),
            !r.unrestricted,
    {
        SystemAccess::none()
    }
}


/// True when some entry of `list` reads as `name`.
pub open spec fn has_name(list: Seq<String>, name: Seq<char>) -> bool {
    exists|k: int| 0 <= k < list.len() && (#[trigger] list[k])@ == name
}

/// The rank of stage `s` in `order`: the last position at or before `upto`
/// that names it, or the length of `order` when none does.
pub open spec fn last_rank(order: Seq<Seq<char>>, s: Seq<char>, upto: int) -> int
    decreases upto,
{
    if upto <= 0 {
        order.len() as int
    } else if order[upto - 1] == s {
        upto - 1
    } else {
        last_rank(order, s, upto - 1)
    }
}

fn names_contain(list: &Vec<String>, name: &String) -> (r: bool)
    ensures
        r == has_name(list@, name@),
{
    let mut i: usize = 0;
    while i < list.len()
        invariant
            i <= list@.len(),
            forall|k: int| 0 <= k < i ==> (#[trigger] list@[k])@ != name@,
        decreases list@.len() - i,
    {
        if list[i] == *name {
            return true;
        }
        i = i + 1;
    }
    false
}

/// A concatenation holds what either part holds.
/// Position pair `a` comes before `b`: by first position, then by second.
pub open spec fn positions_before(a: (int, int), b: (int, int)) -> bool {
    a.0 < b.0 || (a.0 == b.0 && a.1 < b.1)
}

proof fn lemma_concat_contains<A>(a: Seq<A>, b: Seq<A>, x: A)
    ensures
        (a + b).contains(x) <==> a.contains(x) || b.contains(x),
{
    if a.contains(x) {
        let i = choose|i: int| 0 <= i < a.len() && a[i] == x;
        assert((a + b)[i] == x);
    }
    if b.contains(x) {
        let i = choose|i: int| 0 <= i < b.len() && b[i] == x;
        assert((a + b)[a.len() + i] == x);
    }
    if (a + b).contains(x) {
        let i = choose|i: int| 0 <= i < (a + b).len() && (a + b)[i] == x;
        if i < a.len() {
            assert(a[i] == x);
        } else {
            assert(b[i - a.len()] == x);
        }
    }
}

/// An ordered collection of systems and the constraints between them.
pub struct Schedule {
    names: Vec<String>,
    stages: Vec<Stage>,
    afters: Vec<Vec<String>>,
    befores: Vec<Vec<String>>,
    accesses: Vec<SystemAccess>,
    enabled: Vec<bool>,
    stage_order: Vec<Stage>,
    /// The execution order, cached until the constraints change.
    resolved: Option<Vec<usize>>,
}

impl Schedule {
    /// Number of registered systems.
    pub closed spec fn count(self) -> int {
        self.names@.len() as int
    }

    /// The name of system `i`.
    pub closed spec fn name_of(self, i: int) -> Seq<char> {
        self.names@[i]@
    }

    /// The stage name of system `i`.
    pub closed spec fn stage_of(self, i: int) -> Seq<char> {
        self.stages@[i].0@
    }

    /// The names system `i` must run after.
    pub closed spec fn after_of(self, i: int) -> Seq<String> {
        self.afters@[i]@
    }

    /// The names system `i` must run before.
    pub closed spec fn before_of(self, i: int) -> Seq<String> {
        self.befores@[i]@
    }

    /// The declared access of system `i`.
    pub closed spec fn access_of(self, i: int) -> SystemAccess {
        self.accesses@[i]
    }

    /// Whether system `i` is enabled.
    pub closed spec fn enabled_of(self, i: int) -> bool {
        self.enabled@[i]
    }

    /// The declared stage order, by name.
    pub closed spec fn stage_order(self) -> Seq<Seq<char>> {
        self.stage_order@.map_values(|s: Stage| s.0@)
    }

    /// The cached execution order, if one is cached.
    pub closed spec fn cached(self) -> Option<Seq<usize>> {
        match self.resolved {
            Some(v) => Some(v@),
            None => None,
        }
    }

    /// Two schedules hold the same systems and stage order.
    pub closed spec fn same_plan(self, other: Schedule) -> bool {
        &&& self.names@ == other.names@
        &&& self.stages@ == other.stages@
        &&& self.afters@ == other.afters@
        &&& self.befores@ == other.befores@
        &&& self.accesses@ == other.accesses@
        &&& self.enabled@ == other.enabled@
        &&& self.stage_order@ == other.stage_order@
    }

    /// System `i` must run after system `j`: they share a stage and `i`
    /// names `j` among its predecessors, or `j` names `i` among its
    /// successors.
    pub open spec fn depends(self, i: int, j: int) -> bool {
        &&& 0 <= i < self.count()
        &&& 0 <= j < self.count()
        &&& self.stage_of(i) == self.stage_of(j)
        &&& (has_name(self.after_of(i), self.name_of(j)) || has_name(
            self.before_of(j),
            self.name_of(i),
        ))
    }

    /// The rank of system `i`'s stage: the last position naming it in the
    /// stage order, or after every declared stage.
    pub open spec fn rank(self, i: int) -> int {
        last_rank(self.stage_order(), self.stage_of(i), self.stage_order().len() as int)
    }

    /// System `i` comes before system `j` when both are ready: lower stage
    /// rank first, then earlier registration.
    pub open spec fn key_lt(self, i: int, j: int) -> bool {
        self.rank(i) < self.rank(j) || (self.rank(i) == self.rank(j) && i < j)
    }

    /// System `i` is not yet placed and everything it depends on is.
    pub open spec fn ready(self, placed: Seq<usize>, i: int) -> bool {
        &&& 0 <= i < self.count()
        &&& !placed.contains(i as usize)
        &&& forall|j: int| #[trigger] self.depends(i, j) ==> placed.contains(j as usize)
    }

    /// `i` is the ready system that comes first.
    pub open spec fn greedy_pick(self, placed: Seq<usize>, i: int) -> bool {
        &&& self.ready(placed, i)
        &&& forall|j: int| #[trigger] self.ready(placed, j) && j != i ==> self.key_lt(i, j)
    }

    /// `o` places every system, each time taking the ready system that
    /// comes first.
    pub open spec fn is_greedy(self, o: Seq<usize>) -> bool {
        &&& o.len() == self.count()
        &&& forall|k: int| 0 <= k < o.len() ==> self.greedy_pick(o.take(k), #[trigger] o[k] as int)
    }

    /// `o` lists every system once, each after everything it depends on.
    pub open spec fn topological(self, o: Seq<usize>) -> bool {
        &&& o.len() == self.count()
        &&& forall|k: int| 0 <= k < o.len() ==> (#[trigger] o[k]) < self.count()
        &&& forall|i: usize| i < self.count() ==> #[trigger] o.contains(i)
        &&& forall|k: int, j: int|
            0 <= k < o.len() && #[trigger] self.depends(o[k] as int, j) ==> o.take(k).contains(
                j as usize,
            )
    }

    /// The greedy placement gets stuck at `placed`: each system in it was the
    /// ready system that came first, and now no system is ready.
    pub open spec fn stuck_at(self, placed: Seq<usize>) -> bool {
        &&& forall|k: int|
            0 <= k < placed.len() ==> self.greedy_pick(placed.take(k), #[trigger] placed[k] as int)
        &&& forall|i: int| 0 <= i < self.count() ==> !#[trigger] self.ready(placed, i)
    }

    /// `l` lists the systems that `placed` leaves out, each once, by stage
    /// rank and then registration.
    pub open spec fn lists_unplaced(self, placed: Seq<usize>, l: Seq<int>) -> bool {
        &&& forall|i: int|
            (0 <= i < self.count() && !placed.contains(i as usize)) <==> #[trigger] l.contains(i)
        &&& forall|a: int, b: int| 0 <= a < b < l.len() ==> self.key_lt(#[trigger] l[a], #[trigger] l[b])
    }

    /// The constraints admit an order: they contain no cycle.
    pub open spec fn acyclic(self) -> bool {
        exists|o: Seq<usize>| self.topological(o)
    }

    /// The execution order: the greedy order, unique when it exists.
    pub open spec fn order(self) -> Seq<usize> {
        choose|o: Seq<usize>| self.is_greedy(o)
    }

    /// System `first` and system `second` are ordered by a constraint that
    /// names one from the other.
    pub open spec fn ordered(self, first: int, second: int) -> bool {
        ||| has_name(self.after_of(first), self.name_of(second))
        ||| has_name(self.before_of(first), self.name_of(second))
        ||| has_name(self.after_of(second), self.name_of(first))
        ||| has_name(self.before_of(second), self.name_of(first))
    }

    /// Two systems of one stage whose access conflicts and that no
    /// constraint orders.
    pub open spec fn ambiguous(self, a: int, b: int) -> bool {
        &&& self.stage_of(a) == self.stage_of(b)
        &&& access_conflict(self.access_of(a), self.access_of(b))
        &&& !self.ordered(a, b)
    }

    /// The ambiguous pairs `(o[p], o[q])` with `p < q < upto`, in order.
    pub open spec fn ambiguous_row(self, o: Seq<usize>, p: int, upto: int) -> Seq<(int, int)>
        decreases upto - p,
    {
        if upto <= p + 1 {
            Seq::empty()
        } else {
            self.ambiguous_row(o, p, upto - 1) + if self.ambiguous(
                o[p] as int,
                o[upto - 1] as int,
            ) {
                seq![(o[p] as int, o[upto - 1] as int)]
            } else {
                Seq::empty()
            }
        }
    }

    /// The ambiguous pairs of `o` whose first element sits before `rows`.
    pub open spec fn ambiguous_rows(self, o: Seq<usize>, rows: int) -> Seq<(int, int)>
        decreases rows,
    {
        if rows <= 0 {
            Seq::empty()
        } else {
            self.ambiguous_rows(o, rows - 1) + self.ambiguous_row(o, rows - 1, o.len() as int)
        }
    }

    /// The enabled systems of `o`, in order.
    pub open spec fn enabled_in(self, o: Seq<usize>) -> Seq<SystemId>
        decreases o.len(),
    {
        if o.len() == 0 {
            Seq::empty()
        } else {
            self.enabled_in(o.drop_last()) + if self.enabled_of(o.last() as int) {
                seq![SystemId(o.last())]
            } else {
                Seq::empty()
            }
        }
    }

    /// A pair is in row `p` of the ambiguity list, up to position `upto`,
    /// exactly when it is `(o[p], o[q])` for some later `q` before `upto` and
    /// the two are ambiguous.
    pub proof fn lemma_ambiguous_row_members(self, o: Seq<usize>, p: int, upto: int, pair: (int, int))
        requires
            0 <= p,
            upto <= o.len(),
        ensures
            self.ambiguous_row(o, p, upto).contains(pair) <==> exists|q: int|
                p < q < upto && pair == (o[p] as int, #[trigger] o[q] as int) && self.ambiguous(
                    o[p] as int,
                    o[q] as int,
                ),
        decreases upto - p,
    {
        if upto > p + 1 {
            self.lemma_ambiguous_row_members(o, p, upto - 1, pair);
            let front = self.ambiguous_row(o, p, upto - 1);
            let last: Seq<(int, int)> = if self.ambiguous(o[p] as int, o[upto - 1] as int) {
                seq![(o[p] as int, o[upto - 1] as int)]
            } else {
                Seq::empty()
            };
            lemma_concat_contains(front, last, pair);
            if exists|q: int|
                p < q < upto && pair == (o[p] as int, #[trigger] o[q] as int) && self.ambiguous(
                    o[p] as int,
                    o[q] as int,
                ) {
                let q = choose|q: int|
                    p < q < upto && pair == (o[p] as int, #[trigger] o[q] as int) && self.ambiguous(
                        o[p] as int,
                        o[q] as int,
                    );
                if q == upto - 1 {
                    assert(last[0] == pair);
                }
            }
            if last.contains(pair) {
                assert(pair == (o[p] as int, o[upto - 1] as int));
            }
        }
    }

    /// The ambiguity list of an order holds exactly the pairs `(o[p], o[q])`
    /// with `p` before `q` whose systems share a stage, conflict in access
    /// and are ordered by no constraint between them.
    pub proof fn lemma_ambiguous_pairs(self, o: Seq<usize>, rows: int, pair: (int, int))
        requires
            rows <= o.len(),
        ensures
            self.ambiguous_rows(o, rows).contains(pair) <==> exists|p: int, q: int|
                0 <= p < rows && p < q < o.len() && pair == (#[trigger] o[p] as int, #[trigger] o[q] as int)
                    && self.ambiguous(o[p] as int, o[q] as int),
        decreases rows,
    {
        if rows > 0 {
            self.lemma_ambiguous_pairs(o, rows - 1, pair);
            self.lemma_ambiguous_row_members(o, rows - 1, o.len() as int, pair);
            lemma_concat_contains(
                self.ambiguous_rows(o, rows - 1),
                self.ambiguous_row(o, rows - 1, o.len() as int),
                pair,
            );
            if exists|p: int, q: int|
                0 <= p < rows && p < q < o.len() && pair == (#[trigger] o[p] as int, #[trigger] o[q] as int)
                    && self.ambiguous(o[p] as int, o[q] as int) {
                let (p, q) = choose|p: int, q: int|
                    0 <= p < rows && p < q < o.len() && pair == (#[trigger] o[p] as int, #[trigger] o[q] as int)
                        && self.ambiguous(o[p] as int, o[q] as int);
                if p == rows - 1 {
                    assert(p < q < o.len() && pair == (o[p] as int, o[q] as int));
                }
            }
        }
    }

    /// The positions `(p, q)` behind [`Self::ambiguous_row`]: the ambiguous
    /// pairs of row `p` with `q` before `upto`, in order of `q`.
    pub open spec fn ambiguous_row_positions(self, o: Seq<usize>, p: int, upto: int) -> Seq<(int, int)>
        decreases upto - p,
    {
        if upto <= p + 1 {
            Seq::empty()
        } else {
            self.ambiguous_row_positions(o, p, upto - 1) + if self.ambiguous(
                o[p] as int,
                o[upto - 1] as int,
            ) {
                seq![(p, upto - 1)]
            } else {
                Seq::empty()
            }
        }
    }

    /// The positions `(p, q)` behind [`Self::ambiguous_rows`].
    pub open spec fn ambiguous_positions(self, o: Seq<usize>, rows: int) -> Seq<(int, int)>
        decreases rows,
    {
        if rows <= 0 {
            Seq::empty()
        } else {
            self.ambiguous_positions(o, rows - 1) + self.ambiguous_row_positions(
                o,
                rows - 1,
                o.len() as int,
            )
        }
    }

    proof fn lemma_row_positions(self, o: Seq<usize>, p: int, upto: int)
        requires
            0 <= p,
            upto <= o.len(),
        ensures
            self.ambiguous_row(o, p, upto).len() == self.ambiguous_row_positions(o, p, upto).len(),
            forall|k: int|
                #![trigger self.ambiguous_row_positions(o, p, upto)[k]]
                0 <= k < self.ambiguous_row_positions(o, p, upto).len() ==> {
                    let pq = self.ambiguous_row_positions(o, p, upto)[k];
                    &&& pq.0 == p
                    &&& p < pq.1 < upto
                    &&& self.ambiguous_row(o, p, upto)[k] == (o[pq.0] as int, o[pq.1] as int)
                    &&& self.ambiguous(o[pq.0] as int, o[pq.1] as int)
                },
            forall|k1: int, k2: int|
                0 <= k1 < k2 < self.ambiguous_row_positions(o, p, upto).len() ==> (
                #[trigger] self.ambiguous_row_positions(o, p, upto)[k1]).1 < (
                #[trigger] self.ambiguous_row_positions(o, p, upto)[k2]).1,
            forall|q: int|
                p < q < upto && self.ambiguous(o[p] as int, o[q] as int) ==> #[trigger] self.ambiguous_row_positions(
                    o,
                    p,
                    upto,
                ).contains((p, q)),
        decreases upto - p,
    {
        if upto > p + 1 {
            self.lemma_row_positions(o, p, upto - 1);
            let front = self.ambiguous_row_positions(o, p, upto - 1);
            let pos = self.ambiguous_row_positions(o, p, upto);
            let row = self.ambiguous_row(o, p, upto);
            let front_row = self.ambiguous_row(o, p, upto - 1);
            let hit = self.ambiguous(o[p] as int, o[upto - 1] as int);
            let tail: Seq<(int, int)> = if hit {
                seq![(p, upto - 1)]
            } else {
                Seq::empty()
            };
            assert(pos == front + tail);
            assert forall|k: int| 0 <= k < pos.len() implies {
                let pq = #[trigger] pos[k];
                &&& pq.0 == p
                &&& p < pq.1 < upto
                &&& row[k] == (o[pq.0] as int, o[pq.1] as int)
                &&& self.ambiguous(o[pq.0] as int, o[pq.1] as int)
            } by {
                if k < front.len() {
                    assert(pos[k] == front[k]);
                    assert(row[k] == front_row[k]);
                } else {
                    assert(pos[k] == (p, upto - 1));
                }
            }
            assert forall|k1: int, k2: int| 0 <= k1 < k2 < pos.len() implies (#[trigger] pos[k1]).1 < (
            #[trigger] pos[k2]).1 by {
                if k2 < front.len() {
                    assert(pos[k1] == front[k1]);
                    assert(pos[k2] == front[k2]);
                } else {
                    assert(pos[k1] == front[k1]);
                }
            }
            assert forall|q: int| p < q < upto && self.ambiguous(o[p] as int, o[q] as int) implies #[trigger] pos.contains(
                (p, q),
            ) by {
                lemma_concat_contains(front, tail, (p, q));
                if q == upto - 1 {
                    assert(tail[0] == (p, q));
                }
            }
        }
    }

    /// The ambiguity list of an order holds, each once and nothing else, the
    /// pairs `(o[p], o[q])` with `p < q` whose systems share a stage, conflict
    /// in access and are ordered by no constraint between them, listed by the
    /// position `p` of the first and then by the position `q` of the second.
    /// `ambiguous_positions` gives those positions, one pair per entry.
    pub proof fn lemma_ambiguities_in_position_order(self, o: Seq<usize>, rows: int)
        requires
            0 <= rows <= o.len(),
        ensures
            self.ambiguous_rows(o, rows).len() == self.ambiguous_positions(o, rows).len(),
            forall|k: int|
                #![trigger self.ambiguous_positions(o, rows)[k]]
                0 <= k < self.ambiguous_positions(o, rows).len() ==> {
                    let pq = self.ambiguous_positions(o, rows)[k];
                    &&& 0 <= pq.0 < rows
                    &&& pq.0 < pq.1 < o.len()
                    &&& self.ambiguous_rows(o, rows)[k] == (o[pq.0] as int, o[pq.1] as int)
                    &&& self.ambiguous(o[pq.0] as int, o[pq.1] as int)
                },
            forall|k1: int, k2: int|
                0 <= k1 < k2 < self.ambiguous_positions(o, rows).len() ==> positions_before(
                    #[trigger] self.ambiguous_positions(o, rows)[k1],
                    #[trigger] self.ambiguous_positions(o, rows)[k2],
                ),
            forall|p: int, q: int|
                0 <= p < rows && p < q < o.len() && self.ambiguous(o[p] as int, o[q] as int)
                    ==> #[trigger] self.ambiguous_positions(o, rows).contains((p, q)),
        decreases rows,
    {
        if rows > 0 {
            self.lemma_ambiguities_in_position_order(o, rows - 1);
            self.lemma_row_positions(o, rows - 1, o.len() as int);
            let front = self.ambiguous_positions(o, rows - 1);
            let tail = self.ambiguous_row_positions(o, rows - 1, o.len() as int);
            let front_list = self.ambiguous_rows(o, rows - 1);
            let tail_list = self.ambiguous_row(o, rows - 1, o.len() as int);
            let pos = self.ambiguous_positions(o, rows);
            let list = self.ambiguous_rows(o, rows);
            assert(pos == front + tail);
            assert(list == front_list + tail_list);
            assert forall|k: int| 0 <= k < pos.len() implies {
                let pq = #[trigger] pos[k];
                &&& 0 <= pq.0 < rows
                &&& pq.0 < pq.1 < o.len()
                &&& list[k] == (o[pq.0] as int, o[pq.1] as int)
                &&& self.ambiguous(o[pq.0] as int, o[pq.1] as int)
            } by {
                if k < front.len() {
                    assert(pos[k] == front[k]);
                    assert(list[k] == front_list[k]);
                } else {
                    assert(pos[k] == tail[k - front.len()]);
                    assert(list[k] == tail_list[k - front.len()]);
                }
            }
            assert forall|k1: int, k2: int| 0 <= k1 < k2 < pos.len() implies positions_before(
                #[trigger] pos[k1],
                #[trigger] pos[k2],
            ) by {
                if k2 < front.len() {
                    assert(pos[k1] == front[k1]);
                    assert(pos[k2] == front[k2]);
                } else if k1 < front.len() {
                    assert(pos[k1] == front[k1]);
                    assert(pos[k2] == tail[k2 - front.len()]);
                } else {
                    assert(pos[k1] == tail[k1 - front.len()]);
                    assert(pos[k2] == tail[k2 - front.len()]);
                }
            }
            assert forall|p: int, q: int|
                0 <= p < rows && p < q < o.len() && self.ambiguous(
                    o[p] as int,
                    o[q] as int,
                ) implies #[trigger] pos.contains((p, q)) by {
                lemma_concat_contains(front, tail, (p, q));
            }
        }
    }

    /// The greedy order is unique: the execution order is a function of the
    /// constraints alone.
    pub proof fn lemma_greedy_unique(self, a: Seq<usize>, b: Seq<usize>)
        requires
            self.is_greedy(a),
            self.is_greedy(b),
        ensures
            a == b,
    {
        assert forall|k: int| 0 <= k < a.len() implies a[k] == b[k] by {
            self.lemma_greedy_prefix(a, b, k);
            assert(a.take(k + 1)[k] == a[k]);
            assert(b.take(k + 1)[k] == b[k]);
        }
        assert(a =~= b);
    }

    proof fn lemma_greedy_prefix(self, a: Seq<usize>, b: Seq<usize>, k: int)
        requires
            self.is_greedy(a),
            self.is_greedy(b),
            0 <= k < a.len(),
        ensures
            a.take(k + 1) == b.take(k + 1),
        decreases k,
    {
        if k > 0 {
            self.lemma_greedy_prefix(a, b, k - 1);
            assert(a.take(k) =~= a.take(k - 1 + 1));
            assert(b.take(k) =~= b.take(k - 1 + 1));
        } else {
            assert(a.take(0) =~= b.take(0));
        }
        let placed = a.take(k);
        assert(self.greedy_pick(placed, a[k] as int));
        assert(self.greedy_pick(b.take(k), b[k] as int));
        if a[k] != b[k] {
            assert(self.ready(placed, b[k] as int));
            assert(self.key_lt(a[k] as int, b[k] as int));
            assert(self.key_lt(b[k] as int, a[k] as int));
        }
        assert(a.take(k + 1) =~= a.take(k).push(a[k]));
        assert(b.take(k + 1) =~= b.take(k).push(b[k]));
    }

    /// Fewer than `n` distinct naturals below `n` leave one of them out.
    proof fn lemma_missing(order: Seq<usize>, n: int)
        requires
            order.len() < n <= usize::MAX,
        ensures
            exists|i: usize| i < n && !(#[trigger] order.contains(i)),
    {
        if forall|i: usize| i < n ==> #[trigger] order.contains(i) {
            let ints = order.map_values(|x: usize| x as int);
            let s = ints.to_set();
            assert(set_int_range(0, n).subset_of(s)) by {
                assert forall|i: int| #[trigger] set_int_range(0, n).contains(i) implies s.contains(
                    i,
                ) by {
                    let u = i as usize;
                    assert(order.contains(u));
                    let k = choose|k: int| 0 <= k < order.len() && order[k] == u;
                    assert(ints[k] == order[k] as int);
                    assert(ints[k] == i);
                    assert(ints.contains(i));
                }
            }
            ints.lemma_cardinality_of_set();
            lemma_int_range(0, n);
            lemma_len_subset(set_int_range(0, n), s);
        }
    }

    /// `n` distinct naturals below `n` include every one of them.
    proof fn lemma_covers(o: Seq<usize>, n: int)
        requires
            o.len() == n,
            o.no_duplicates(),
            forall|k: int| 0 <= k < o.len() ==> (#[trigger] o[k]) < n,
        ensures
            forall|i: usize| i < n ==> #[trigger] o.contains(i),
    {
        assert forall|i: usize| i < n implies #[trigger] o.contains(i) by {
            if !o.contains(i) {
                let ints = o.map_values(|x: usize| x as int);
                assert(ints.no_duplicates()) by {
                    assert forall|a: int, b: int|
                        0 <= a < ints.len() && 0 <= b < ints.len() && a != b implies ints[a]
                        != ints[b] by {
                        assert(o[a] != o[b]);
                    }
                }
                ints.unique_seq_to_set();
                let smaller = set_int_range(0, n).remove(i as int);
                assert(ints.to_set().subset_of(smaller)) by {
                    assert forall|x: int| #[trigger] ints.to_set().contains(x) implies smaller.contains(
                        x,
                    ) by {
                        let k = choose|k: int| 0 <= k < ints.len() && ints[k] == x;
                        assert(o[k] < n);
                        if x == i as int {
                            assert(o[k] == i);
                            assert(o.contains(i));
                        }
                    }
                }
                lemma_int_range(0, n);
                lemma_len_subset(ints.to_set(), smaller);
            }
        }
    }

    /// The greedy order respects every constraint.
    pub proof fn lemma_greedy_is_topological(self, o: Seq<usize>)
        requires
            self.is_greedy(o),
        ensures
            self.topological(o),
            self.acyclic(),
    {
        assert forall|k: int| 0 <= k < o.len() implies (#[trigger] o[k]) < self.count() by {
            assert(self.greedy_pick(o.take(k), o[k] as int));
        }
        assert(o.no_duplicates()) by {
            assert forall|a: int, b: int| 0 <= a < o.len() && 0 <= b < o.len() && a < b implies o[a]
                != o[b] by {
                assert(self.greedy_pick(o.take(b), o[b] as int));
                assert(o.take(b)[a] == o[a]);
            }
        }
        Self::lemma_covers(o, self.count());
        assert forall|k: int, j: int|
            0 <= k < o.len() && #[trigger] self.depends(o[k] as int, j) implies o.take(k).contains(
            j as usize,
        ) by {
            assert(self.greedy_pick(o.take(k), o[k] as int));
        }
        assert(self.topological(o));
    }

    /// A greedy order is the order.
    pub proof fn lemma_order_is(self, o: Seq<usize>)
        requires
            self.is_greedy(o),
        ensures
            self.order() == o,
    {
        let c = self.order();
        assert(self.is_greedy(c));
        self.lemma_greedy_unique(c, o);
    }

    /// Stages run in their declared order: in the execution order, no system
    /// of a lower-ranked stage comes after one of a higher-ranked stage.
    pub proof fn lemma_stages_in_order(self, o: Seq<usize>, k: int, m: int)
        requires
            self.is_greedy(o),
            self.count() <= usize::MAX,
            0 <= k < m < o.len(),
        ensures
            self.rank(o[k] as int) <= self.rank(o[m] as int),
    {
        self.lemma_greedy_is_topological(o);
        if self.rank(o[m] as int) < self.rank(o[k] as int) {
            let r = self.rank(o[m] as int);
            let placed = o.take(k);
            // The first system at or after position k whose stage has rank r.
            let z = Self::first_of_rank(self, o, r, k, m);
            assert(o.no_duplicates()) by {
                assert forall|a: int, b: int| 0 <= a < o.len() && 0 <= b < o.len() && a < b implies o[a]
                    != o[b] by {
                    assert(self.greedy_pick(o.take(b), o[b] as int));
                    assert(o.take(b)[a] == o[a]);
                }
            }
            assert(!placed.contains(o[z])) by {
                if placed.contains(o[z]) {
                    let q = choose|q: int| 0 <= q < placed.len() && placed[q] == o[z];
                    assert(o[q] == o[z]);
                }
            }
            assert forall|j: int| #[trigger] self.depends(o[z] as int, j) implies placed.contains(
                j as usize,
            ) by {
                assert(o.take(z).contains(j as usize));
                let q = choose|q: int| 0 <= q < o.take(z).len() && o.take(z)[q] == j as usize;
                assert(o[q] == j as usize);
                assert(self.stage_of(o[z] as int) == self.stage_of(j));
                assert(self.rank(j) == r);
                if q >= k {
                    assert(o[q] as int == j);
                    assert(self.rank(o[q] as int) != r);
                    assert(false);
                }
                assert(placed[q] == j as usize);
            }
            assert(self.ready(placed, o[z] as int));
            assert(self.greedy_pick(placed, o[k] as int));
            assert(o[z] != o[k]);
            assert(self.key_lt(o[k] as int, o[z] as int));
        }
    }

    proof fn first_of_rank(self, o: Seq<usize>, r: int, k: int, m: int) -> (z: int)
        requires
            0 <= k <= m < o.len(),
            self.rank(o[m] as int) == r,
        ensures
            k <= z <= m,
            self.rank(o[z] as int) == r,
            forall|q: int| k <= q < z ==> self.rank(#[trigger] o[q] as int) != r,
        decreases m - k,
    {
        if self.rank(o[k] as int) == r {
            k
        } else {
            self.first_of_rank(o, r, k + 1, m)
        }
    }

    /// A write conflicts with any other access to the same component: two
    /// systems that both write `c`, or where one writes `c` and the other
    /// reads it, conflict in either order.
    pub proof fn lemma_write_conflicts_with_any_access(a: SystemAccess, b: SystemAccess, c: ComponentId)
        requires
            a.writes@.contains(c),
            b.writes@.contains(c) || b.reads@.contains(c),
        ensures
            access_conflict(a, b),
            access_conflict(b, a),
    {
    }

    /// An undeclared system conflicts with every other.
    pub proof fn lemma_undeclared_conflicts(a: SystemAccess, b: SystemAccess)
        requires
            a.unrestricted,
        ensures
            access_conflict(a, b),
            access_conflict(b, a),
    {
    }

    /// Two declared systems conflict only through a component one of them
    /// writes and the other touches: with no such component, they do not.
    pub proof fn lemma_disjoint_writes_never_conflict(a: SystemAccess, b: SystemAccess)
        requires
            !a.unrestricted,
            !b.unrestricted,
            forall|c: ComponentId| #[trigger] a.writes@.contains(c) ==> !b.writes@.contains(c)
                && !b.reads@.contains(c),
            forall|c: ComponentId| #[trigger] b.writes@.contains(c) ==> !a.reads@.contains(c),
        ensures
            !access_conflict(a, b),
            !access_conflict(b, a),
    {
    }

    /// Two systems of one stage that write the same component and that no
    /// constraint orders are ambiguous, whichever is listed first.
    pub proof fn lemma_unordered_writers_are_ambiguous(self, i: int, j: int, c: ComponentId)
        requires
            self.stage_of(i) == self.stage_of(j),
            self.access_of(i).writes@.contains(c),
            self.access_of(j).writes@.contains(c),
            !self.ordered(i, j),
        ensures
            self.ambiguous(i, j),
            self.ambiguous(j, i),
    {
        Self::lemma_write_conflicts_with_any_access(self.access_of(i), self.access_of(j), c);
    }

    /// Conflict is symmetric, and two systems that only read never conflict.
    pub proof fn lemma_conflict_symmetric(a: SystemAccess, b: SystemAccess)
        ensures
            access_conflict(a, b) == access_conflict(b, a),
            !a.unrestricted && !b.unrestricted && a.writes@.len() == 0 && b.writes@.len() == 0
                ==> !access_conflict(a, b),
    {
        if !a.unrestricted && !b.unrestricted && a.writes@.len() == 0 && b.writes@.len() == 0 {
            assert forall|c: ComponentId| !(#[trigger] a.writes@.contains(c)) by {}
            assert forall|c: ComponentId| !(#[trigger] b.writes@.contains(c)) by {}
        }
    }

    /// When no unplaced system is ready before every system is placed, the
    /// constraints contain a cycle.
    proof fn lemma_stuck(self, placed: Seq<usize>)
        requires
            placed.len() < self.count() <= usize::MAX,
            forall|i: int| 0 <= i < self.count() ==> !#[trigger] self.ready(placed, i),
        ensures
            !self.acyclic(),
    {
        if self.acyclic() {
            let t = choose|o: Seq<usize>| self.topological(o);
            Self::lemma_missing(placed, self.count());
            let i = choose|i: usize| i < self.count() && !(#[trigger] placed.contains(i));
            assert(t.contains(i));
            let m = choose|m: int| 0 <= m < t.len() && t[m] == i;
            let k0 = Self::first_unplaced(t, placed, 0, m);
            assert(self.ready(placed, t[k0] as int)) by {
                assert forall|j: int| #[trigger] self.depends(t[k0] as int, j) implies placed.contains(
                    j as usize,
                ) by {
                    assert(t.take(k0).contains(j as usize));
                    let q = choose|q: int| 0 <= q < t.take(k0).len() && t.take(k0)[q] == j as usize;
                    assert(t[q] == j as usize);
                }
            }
        }
    }

    proof fn first_unplaced(t: Seq<usize>, placed: Seq<usize>, k: int, m: int) -> (r: int)
        requires
            0 <= k <= m < t.len(),
            !placed.contains(t[m]),
            forall|q: int| 0 <= q < k ==> placed.contains(#[trigger] t[q]),
        ensures
            k <= r <= m,
            !placed.contains(t[r]),
            forall|q: int| 0 <= q < r ==> placed.contains(#[trigger] t[q]),
        decreases m - k,
    {
        if !placed.contains(t[k]) {
            k
        } else {
            Self::first_unplaced(t, placed, k + 1, m)
        }
    }

    /// Names are unique, the parallel tables agree in length, and a cached
    /// order is the greedy order of the current constraints.
    pub closed spec fn wf(self) -> bool {
        &&& self.stages@.len() == self.names@.len()
        &&& self.afters@.len() == self.names@.len()
        &&& self.befores@.len() == self.names@.len()
        &&& self.accesses@.len() == self.names@.len()
        &&& self.enabled@.len() == self.names@.len()
        &&& forall|i: int, j: int|
            0 <= i < self.names@.len() && 0 <= j < self.names@.len() && i != j ==> (
            #[trigger] self.names@[i])@ != (#[trigger] self.names@[j])@
        &&& match self.resolved {
            Some(o) => self.is_greedy(o@),
            None => true,
        }
    }
}


impl Schedule {
    /// Every system other than `except` keeps its name, stage, constraints,
    /// access and enabled flag, and the stage order is kept.
    pub open spec fn keeps(self, old: Schedule, except: int) -> bool {
        &&& self.stage_order() == old.stage_order()
        &&& forall|i: int|
            0 <= i < old.count() && i != except ==> {
                &&& #[trigger] self.name_of(i) == old.name_of(i)
                &&& self.stage_of(i) == old.stage_of(i)
                &&& self.after_of(i) == old.after_of(i)
                &&& self.before_of(i) == old.before_of(i)
                &&& self.access_of(i) == old.access_of(i)
                &&& self.enabled_of(i) == old.enabled_of(i)
            }
    }

    /// Plans that agree on everything but the cache have the same
    /// constraints and so the same order.
    pub proof fn lemma_same_plan(a: Schedule, b: Schedule)
        requires
            a.same_plan(b),
        ensures
            a.count() == b.count(),
            a.keeps(b, -1),
            forall|i: int, j: int| a.depends(i, j) == b.depends(i, j),
            forall|i: int| a.rank(i) == b.rank(i),
            forall|o: Seq<usize>| a.is_greedy(o) == b.is_greedy(o),
            forall|o: Seq<usize>| a.topological(o) == b.topological(o),
            a.acyclic() == b.acyclic(),
            forall|o: Seq<usize>, rows: int| a.ambiguous_rows(o, rows) == b.ambiguous_rows(o, rows),
            forall|o: Seq<usize>| a.enabled_in(o) == b.enabled_in(o),
    {
        assert(a.stage_order() =~= b.stage_order());
        assert forall|i: int, j: int| a.depends(i, j) == b.depends(i, j) by {}
        assert forall|i: int| a.rank(i) == b.rank(i) by {}
        assert forall|x: int, y: int| a.ambiguous(x, y) == b.ambiguous(x, y) by {}
        assert forall|placed: Seq<usize>, i: int| a.ready(placed, i) == b.ready(placed, i) by {}
        assert forall|o: Seq<usize>| a.is_greedy(o) == b.is_greedy(o) by {
            assert forall|placed: Seq<usize>, i: int| a.greedy_pick(placed, i) == b.greedy_pick(
                placed,
                i,
            ) by {}
        }
        assert forall|o: Seq<usize>| a.topological(o) == b.topological(o) by {}
        if a.acyclic() {
            let o = choose|o: Seq<usize>| a.topological(o);
            assert(b.topological(o));
        }
        if b.acyclic() {
            let o = choose|o: Seq<usize>| b.topological(o);
            assert(a.topological(o));
        }
        assert forall|o: Seq<usize>, rows: int| a.ambiguous_rows(o, rows) == b.ambiguous_rows(
            o,
            rows,
        ) by {
            Self::lemma_same_rows(a, b, o, rows);
        }
        assert forall|o: Seq<usize>| a.enabled_in(o) == b.enabled_in(o) by {
            Self::lemma_same_enabled(a, b, o);
        }
    }

    proof fn lemma_same_row(a: Schedule, b: Schedule, o: Seq<usize>, p: int, upto: int)
        requires
            forall|x: int, y: int| a.ambiguous(x, y) == b.ambiguous(x, y),
        ensures
            a.ambiguous_row(o, p, upto) == b.ambiguous_row(o, p, upto),
        decreases upto - p,
    {
        if upto > p + 1 {
            Self::lemma_same_row(a, b, o, p, upto - 1);
        }
    }

    proof fn lemma_same_rows(a: Schedule, b: Schedule, o: Seq<usize>, rows: int)
        requires
            a.same_plan(b),
        ensures
            a.ambiguous_rows(o, rows) == b.ambiguous_rows(o, rows),
        decreases rows,
    {
        assert forall|x: int, y: int| a.ambiguous(x, y) == b.ambiguous(x, y) by {}
        if rows > 0 {
            Self::lemma_same_rows(a, b, o, rows - 1);
            Self::lemma_same_row(a, b, o, rows - 1, o.len() as int);
        }
    }

    proof fn lemma_same_enabled(a: Schedule, b: Schedule, o: Seq<usize>)
        requires
            a.same_plan(b),
        ensures
            a.enabled_in(o) == b.enabled_in(o),
        decreases o.len(),
    {
        if o.len() > 0 {
            Self::lemma_same_enabled(a, b, o.drop_last());
        }
    }

    /// A schedule with the default stage order: input, update, physics,
    /// maintain, extract.
    pub fn new() -> (r: Schedule)
        ensures
            r.wf(),
            r.count() == 0,
            r.stage_order() == seq!["input"@, "update"@, "physics"@, "maintain"@, "extract"@],
    {
        let mut stage_order: Vec<Stage> = Vec::new();
        stage_order.push(Stage::input());
        stage_order.push(Stage::update());
        stage_order.push(Stage::physics());
        stage_order.push(Stage::maintain());
        stage_order.push(Stage::extract());
        let r = Schedule {
            names: Vec::new(),
            stages: Vec::new(),
            afters: Vec::new(),
            befores: Vec::new(),
            accesses: Vec::new(),
            enabled: Vec::new(),
            stage_order,
            resolved: None,
        };
        assert(r.stage_order() =~= seq!["input"@, "update"@, "physics"@, "maintain"@, "extract"@]);
        r
    }

    /// Replaces the stage order. Systems in a stage not listed run last.
    pub fn set_stage_order(&mut self, stages: Vec<Stage>)
        requires
            old(self).wf(),
        ensures
            final(self).wf(),
            final(self).count() == old(self).count(),
            final(self).stage_order() == stages@.map_values(|s: Stage| s.0@),
            forall|i: int|
                0 <= i < old(self).count() ==> {
                    &&& #[trigger] final(self).name_of(i) == old(self).name_of(i)
                    &&& final(self).stage_of(i) == old(self).stage_of(i)
                    &&& final(self).after_of(i) == old(self).after_of(i)
                    &&& final(self).before_of(i) == old(self).before_of(i)
                    &&& final(self).access_of(i) == old(self).access_of(i)
                    &&& final(self).enabled_of(i) == old(self).enabled_of(i)
                },
    {
        self.stage_order = stages;
        self.resolved = None;
    }

    /// The system named `name`, if one is registered.
    pub fn position(&self, name: &str) -> (r: Option<SystemId>)
        requires
            self.wf(),
        ensures
            match r {
                Some(id) => id.0 < self.count() && self.name_of(id.0 as int) == name@,
                None => forall|i: int| 0 <= i < self.count() ==> self.name_of(i) != name@,
            },
    {
        let target = name.to_owned();
        let mut i: usize = 0;
        while i < self.names.len()
            invariant
                i <= self.names@.len(),
                target@ == name@,
                forall|k: int| 0 <= k < i ==> self.name_of(k) != name@,
            decreases self.names@.len() - i,
        {
            if self.names[i] == target {
                return Some(SystemId(i));
            }
            i = i + 1;
        }
        None
    }

    /// Adds a system to a stage. `name` must not already
    /// be registered.
    pub fn add_system_to_stage(&mut self, stage: Stage, name: &str) -> (r: SystemId)
        requires
            old(self).wf(),
            forall|i: int| 0 <= i < old(self).count() ==> old(self).name_of(i) != name@,
        ensures
            final(self).wf(),
            r.0 == old(self).count(),
            final(self).count() == old(self).count() + 1,
            final(self).keeps(*old(self), -1),
            final(self).name_of(r.0 as int) == name@,
            final(self).stage_of(r.0 as int) == stage.0@,
            final(self).after_of(r.0 as int) == Seq::<String>::empty(),
            final(self).before_of(r.0 as int) == Seq::<String>::empty(),
            final(self).access_of(r.0 as int).unrestricted,
            final(self).access_of(r.0 as int).reads@ == Seq::<ComponentId>::empty(),
            final(self).access_of(r.0 as int).writes@ == Seq::<ComponentId>::empty(),
            final(self).enabled_of(r.0 as int),
    {
        let id = SystemId(self.names.len());
        assert forall|i: int| 0 <= i < old(self).names@.len()
            implies (#[trigger] old(self).names@[i])@ != name@ by {
            assert(old(self).name_of(i) != name@);
        }
        self.names.push(name.to_owned());
        self.stages.push(stage);
        self.afters.push(Vec::new());
        self.befores.push(Vec::new());
        self.accesses.push(SystemAccess::unrestricted());
        self.enabled.push(true);
        self.resolved = None;
        assert(final(self).stage_order() =~= old(self).stage_order());
        id
    }

    /// Adds a system to the update stage. `name` must not
    /// already be registered.
    pub fn add_system(&mut self, name: &str) -> (r: SystemId)
        requires
            old(self).wf(),
            forall|i: int| 0 <= i < old(self).count() ==> old(self).name_of(i) != name@,
        ensures
            final(self).wf(),
            r.0 == old(self).count(),
            final(self).count() == old(self).count() + 1,
            final(self).keeps(*old(self), -1),
            final(self).name_of(r.0 as int) == name@,
            final(self).stage_of(r.0 as int) == "update"@,
            final(self).after_of(r.0 as int) == Seq::<String>::empty(),
            final(self).before_of(r.0 as int) == Seq::<String>::empty(),
            final(self).access_of(r.0 as int).unrestricted,
            final(self).enabled_of(r.0 as int),
    {
        self.add_system_to_stage(Stage::update(), name)
    }

    /// Adds a system to the update stage, constrained to run after `after`.
    /// `name` must not already be registered.
    pub fn add_system_after(&mut self, name: &str, after: &str) -> (r: SystemId)
        requires
            old(self).wf(),
            forall|i: int| 0 <= i < old(self).count() ==> old(self).name_of(i) != name@,
        ensures
            final(self).wf(),
            r.0 == old(self).count(),
            final(self).count() == old(self).count() + 1,
            final(self).keeps(*old(self), -1),
            final(self).name_of(r.0 as int) == name@,
            final(self).stage_of(r.0 as int) == "update"@,
            final(self).after_of(r.0 as int).len() == 1,
            final(self).after_of(r.0 as int)[0]@ == after@,
            final(self).before_of(r.0 as int) == Seq::<String>::empty(),
            final(self).access_of(r.0 as int).unrestricted,
            final(self).enabled_of(r.0 as int),
    {
        let id = self.add_system(name);
        self.push_after(id.0, after);
        id
    }

    fn push_after(&mut self, index: usize, after: &str)
        requires
            old(self).wf(),
            index < old(self).count(),
        ensures
            final(self).wf(),
            final(self).count() == old(self).count(),
            final(self).keeps(*old(self), index as int),
            final(self).name_of(index as int) == old(self).name_of(index as int),
            final(self).stage_of(index as int) == old(self).stage_of(index as int),
            final(self).before_of(index as int) == old(self).before_of(index as int),
            final(self).access_of(index as int) == old(self).access_of(index as int),
            final(self).enabled_of(index as int) == old(self).enabled_of(index as int),
            final(self).after_of(index as int).len() == old(self).after_of(index as int).len() + 1,
            final(self).after_of(index as int).drop_last() == old(self).after_of(index as int),
            final(self).after_of(index as int).last()@ == after@,
    {
        let mut list = self.afters.remove(index);
        list.push(after.to_owned());
        self.afters.insert(index, list);
        self.resolved = None;
        assert(final(self).stage_order() =~= old(self).stage_order());
        assert forall|i: int| 0 <= i < old(self).count() && i != index implies #[trigger]
            final(self).afters@[i] == old(self).afters@[i] by {
            if i < index {
            } else {
            }
        }
        assert(final(self).afters@[index as int]@.drop_last() =~= old(self).afters@[index as int]@);
    }

    fn push_before(&mut self, index: usize, before: &str)
        requires
            old(self).wf(),
            index < old(self).count(),
        ensures
            final(self).wf(),
            final(self).count() == old(self).count(),
            final(self).keeps(*old(self), index as int),
            final(self).name_of(index as int) == old(self).name_of(index as int),
            final(self).stage_of(index as int) == old(self).stage_of(index as int),
            final(self).after_of(index as int) == old(self).after_of(index as int),
            final(self).access_of(index as int) == old(self).access_of(index as int),
            final(self).enabled_of(index as int) == old(self).enabled_of(index as int),
            final(self).before_of(index as int).len() == old(self).before_of(index as int).len() + 1,
            final(self).before_of(index as int).drop_last() == old(self).before_of(index as int),
            final(self).before_of(index as int).last()@ == before@,
    {
        let mut list = self.befores.remove(index);
        list.push(before.to_owned());
        self.befores.insert(index, list);
        self.resolved = None;
        assert(final(self).stage_order() =~= old(self).stage_order());
        assert forall|i: int| 0 <= i < old(self).count() && i != index implies #[trigger]
            final(self).befores@[i] == old(self).befores@[i] by {
            if i < index {
            } else {
            }
        }
        assert(final(self).befores@[index as int]@.drop_last() =~= old(self).befores@[
            index as int
        ]@);
    }

    /// Constrains the system `name` to run after `after`. `name` must
    /// be registered.
    pub fn order_after(&mut self, name: &str, after: &str)
        requires
            old(self).wf(),
            exists|i: int| 0 <= i < old(self).count() && old(self).name_of(i) == name@,
        ensures
            final(self).wf(),
            final(self).count() == old(self).count(),
            exists|index: int|
                0 <= index < old(self).count() && old(self).name_of(index) == name@ && {
                    &&& final(self).keeps(*old(self), index)
                    &&& final(self).name_of(index) == old(self).name_of(index)
                    &&& final(self).stage_of(index) == old(self).stage_of(index)
                    &&& final(self).before_of(index) == old(self).before_of(index)
                    &&& final(self).access_of(index) == old(self).access_of(index)
                    &&& final(self).enabled_of(index) == old(self).enabled_of(index)
                    &&& final(self).after_of(index).len() == old(self).after_of(index).len() + 1
                    &&& final(self).after_of(index).drop_last() == old(self).after_of(index)
                    &&& final(self).after_of(index).last()@ == after@
                },
    {
        match self.position(name) {
            Some(id) => {
                self.push_after(id.0, after);
            },
            None => {},
        }
    }

    /// Constrains the system `name` to run before `before`. `name` must
    /// be registered.
    pub fn order_before(&mut self, name: &str, before: &str)
        requires
            old(self).wf(),
            exists|i: int| 0 <= i < old(self).count() && old(self).name_of(i) == name@,
        ensures
            final(self).wf(),
            final(self).count() == old(self).count(),
            exists|index: int|
                0 <= index < old(self).count() && old(self).name_of(index) == name@ && {
                    &&& final(self).keeps(*old(self), index)
                    &&& final(self).name_of(index) == old(self).name_of(index)
                    &&& final(self).stage_of(index) == old(self).stage_of(index)
                    &&& final(self).after_of(index) == old(self).after_of(index)
                    &&& final(self).access_of(index) == old(self).access_of(index)
                    &&& final(self).enabled_of(index) == old(self).enabled_of(index)
                    &&& final(self).before_of(index).len() == old(self).before_of(index).len() + 1
                    &&& final(self).before_of(index).drop_last() == old(self).before_of(index)
                    &&& final(self).before_of(index).last()@ == before@
                },
    {
        match self.position(name) {
            Some(id) => {
                self.push_before(id.0, before);
            },
            None => {},
        }
    }

    /// Declares what the system `name` touches. `name` must be
    /// registered.
    pub fn set_access(&mut self, name: &str, access: SystemAccess)
        requires
            old(self).wf(),
            exists|i: int| 0 <= i < old(self).count() && old(self).name_of(i) == name@,
        ensures
            final(self).wf(),
            final(self).count() == old(self).count(),
            exists|index: int|
                0 <= index < old(self).count() && old(self).name_of(index) == name@ && {
                    &&& final(self).keeps(*old(self), index)
                    &&& final(self).name_of(index) == old(self).name_of(index)
                    &&& final(self).stage_of(index) == old(self).stage_of(index)
                    &&& final(self).after_of(index) == old(self).after_of(index)
                    &&& final(self).before_of(index) == old(self).before_of(index)
                    &&& final(self).enabled_of(index) == old(self).enabled_of(index)
                    &&& final(self).access_of(index) == access
                },
    {
        match self.position(name) {
            Some(id) => {
                self.accesses.set(id.0, access);
                self.resolved = None;
                assert(final(self).stage_order() =~= old(self).stage_order());
            },
            None => {},
        }
    }

    /// Enables or disables the system `name` without removing it. `name`
    /// must be registered.
    pub fn set_enabled(&mut self, name: &str, enabled: bool)
        requires
            old(self).wf(),
            exists|i: int| 0 <= i < old(self).count() && old(self).name_of(i) == name@,
        ensures
            final(self).wf(),
            final(self).count() == old(self).count(),
            exists|index: int|
                0 <= index < old(self).count() && old(self).name_of(index) == name@ && {
                    &&& final(self).keeps(*old(self), index)
                    &&& final(self).name_of(index) == old(self).name_of(index)
                    &&& final(self).stage_of(index) == old(self).stage_of(index)
                    &&& final(self).after_of(index) == old(self).after_of(index)
                    &&& final(self).before_of(index) == old(self).before_of(index)
                    &&& final(self).access_of(index) == old(self).access_of(index)
                    &&& final(self).enabled_of(index) == enabled
                },
    {
        match self.position(name) {
            Some(id) => {
                self.enabled.set(id.0, enabled);
                self.resolved = None;
                assert(final(self).stage_order() =~= old(self).stage_order());
            },
            None => {},
        }
    }

    /// Number of registered systems.
    pub fn len(&self) -> (r: usize)
        requires
            self.wf(),
        ensures
            r == self.count(),
    {
        self.names.len()
    }

    /// True when no systems are registered.
    pub fn is_empty(&self) -> (r: bool)
        requires
            self.wf(),
        ensures
            r == (self.count() == 0),
    {
        self.names.len() == 0
    }
}

impl Schedule {
    fn depends_exec(&self, i: usize, j: usize) -> (r: bool)
        requires
            self.wf(),
            i < self.count(),
            j < self.count(),
        ensures
            r == self.depends(i as int, j as int),
    {
        if !self.stages[i].same_as(&self.stages[j]) {
            return false;
        }
        names_contain(&self.afters[i], &self.names[j]) || names_contain(
            &self.befores[j],
            &self.names[i],
        )
    }

    fn rank_exec(&self, i: usize) -> (r: usize)
        requires
            self.wf(),
            i < self.count(),
        ensures
            r == self.rank(i as int),
    {
        let mut k: usize = self.stage_order.len();
        while k > 0
            invariant
                k <= self.stage_order@.len(),
                i < self.stages@.len(),
                self.rank(i as int) == last_rank(
                    self.stage_order(),
                    self.stage_of(i as int),
                    k as int,
                ),
            decreases k,
        {
            if self.stage_order[k - 1].same_as(&self.stages[i]) {
                assert(self.stage_order()[k - 1] == self.stage_order@[k - 1].0@);
                return k - 1;
            }
            assert(self.stage_order()[k - 1] == self.stage_order@[k - 1].0@);
            k = k - 1;
        }
        self.stage_order.len()
    }

    /// Computes and caches the execution order. When the constraints contain
    /// a cycle it caches nothing and names the systems involved: those the
    /// placement could not reach, by stage rank and then registration.
    pub fn resolve(&mut self) -> (r: Result<(), Vec<String>>)
        requires
            old(self).wf(),
        ensures
            final(self).wf(),
            final(self).same_plan(*old(self)),
            r is Ok == old(self).acyclic(),
            r is Ok ==> old(self).is_greedy(old(self).order()),
            r is Ok ==> final(self).cached() == Some(old(self).order()),
            r matches Err(names) ==> exists|placed: Seq<usize>, l: Seq<int>|
                #![trigger old(self).stuck_at(placed), old(self).lists_unplaced(placed, l)]
                {
                    &&& old(self).stuck_at(placed)
                    &&& old(self).lists_unplaced(placed, l)
                    &&& names@.len() == l.len()
                    &&& forall|k: int| 0 <= k < l.len() ==> (#[trigger] names@[k])@ == old(self).name_of(l[k])
                },
    {
        proof {
            Self::lemma_same_plan(*old(self), *old(self));
        }
        if self.resolved.is_some() {
            proof {
                let o = self.resolved->0@;
                self.lemma_greedy_is_topological(o);
                self.lemma_order_is(o);
            }
            return Ok(());
        }
        let n = self.names.len();
        let mut ranks: Vec<usize> = Vec::new();
        let mut i: usize = 0;
        while i < n
            invariant
                *self == *old(self),
                self.wf(),
                n == self.count(),
                i <= n,
                ranks@.len() == i,
                forall|k: int| 0 <= k < i ==> ranks@[k] == self.rank(k),
            decreases n - i,
        {
            let r = self.rank_exec(i);
            ranks.push(r);
            i = i + 1;
        }
        let mut dep: Vec<Vec<bool>> = Vec::new();
        i = 0;
        while i < n
            invariant
                *self == *old(self),
                self.wf(),
                n == self.count(),
                i <= n,
                dep@.len() == i,
                forall|a: int| 0 <= a < i ==> (#[trigger] dep@[a])@.len() == n,
                forall|a: int, b: int|
                    0 <= a < i && 0 <= b < n ==> dep@[a]@[b] == self.depends(a, b),
            decreases n - i,
        {
            let mut row: Vec<bool> = Vec::new();
            let mut j: usize = 0;
            while j < n
                invariant
                    *self == *old(self),
                    self.wf(),
                    n == self.count(),
                    i < n,
                    j <= n,
                    row@.len() == j,
                    forall|b: int| 0 <= b < j ==> row@[b] == self.depends(i as int, b),
                decreases n - j,
            {
                let d = self.depends_exec(i, j);
                row.push(d);
                j = j + 1;
            }
            dep.push(row);
            i = i + 1;
        }
        let mut order: Vec<usize> = Vec::new();
        let mut placed: Vec<bool> = Vec::new();
        i = 0;
        while i < n
            invariant
                i <= n,
                placed@.len() == i,
                forall|a: int| 0 <= a < i ==> !placed@[a],
            decreases n - i,
        {
            placed.push(false);
            i = i + 1;
        }
        while order.len() < n
            invariant
                *self == *old(self),
                self.wf(),
                n == self.count(),
                ranks@.len() == n,
                forall|k: int| 0 <= k < n ==> ranks@[k] == self.rank(k),
                dep@.len() == n,
                forall|a: int| 0 <= a < n ==> (#[trigger] dep@[a])@.len() == n,
                forall|a: int, b: int| 0 <= a < n && 0 <= b < n ==> dep@[a]@[b] == self.depends(a, b),
                placed@.len() == n,
                forall|a: int| 0 <= a < n ==> placed@[a] == order@.contains(a as usize),
                order@.len() <= n,
                forall|k: int|
                    0 <= k < order@.len() ==> self.greedy_pick(
                        order@.take(k),
                        #[trigger] order@[k] as int,
                    ),
            decreases n - order@.len(),
        {
            let mut best: usize = n;
            let mut i: usize = 0;
            while i < n
                invariant
                    *self == *old(self),
                    self.wf(),
                    n == self.count(),
                    ranks@.len() == n,
                    forall|k: int| 0 <= k < n ==> ranks@[k] == self.rank(k),
                    dep@.len() == n,
                    forall|a: int| 0 <= a < n ==> (#[trigger] dep@[a])@.len() == n,
                    forall|a: int, b: int|
                        0 <= a < n && 0 <= b < n ==> dep@[a]@[b] == self.depends(a, b),
                    placed@.len() == n,
                    forall|a: int| 0 <= a < n ==> placed@[a] == order@.contains(a as usize),
                    i <= n,
                    best == n || best < i,
                    best < n ==> self.ready(order@, best as int),
                    best < n ==> forall|j: int|
                        0 <= j < i && j != best && #[trigger] self.ready(order@, j) ==> self.key_lt(
                            best as int,
                            j,
                        ),
                    best == n ==> forall|j: int| 0 <= j < i ==> !#[trigger] self.ready(order@, j),
                decreases n - i,
            {
                if !placed[i] {
                    let mut ok = true;
                    let mut j: usize = 0;
                    while j < n
                        invariant
                            *self == *old(self),
                            self.wf(),
                            n == self.count(),
                            forall|a: int, b: int|
                                0 <= a < n && 0 <= b < n ==> dep@[a]@[b] == self.depends(a, b),
                            forall|a: int| 0 <= a < n ==> placed@[a] == order@.contains(a as usize),
                            i < n,
                            j <= n,
                            dep@.len() == n,
                            forall|a: int| 0 <= a < n ==> (#[trigger] dep@[a])@.len() == n,
                            placed@.len() == n,
                            ok == forall|m: int| 0 <= m < j ==> (dep@[i as int]@[m] ==> placed@[m]),
                        decreases n - j,
                    {
                        if dep[i][j] && !placed[j] {
                            ok = false;
                        }
                        j = j + 1;
                    }
                    proof {
                        assert(ok == self.ready(order@, i as int)) by {
                            if ok {
                                assert forall|m: int| #[trigger]
                                    self.depends(i as int, m) implies order@.contains(
                                    m as usize,
                                ) by {
                                    assert(0 <= m < n);
                                    assert(dep@[i as int]@[m] == self.depends(i as int, m));
                                    assert(dep@[i as int]@[m]);
                                    assert(placed@[m]);
                                }
                            } else {
                                let m = choose|m: int|
                                    0 <= m < n && !(dep@[i as int]@[m] ==> placed@[m]);
                                assert(self.depends(i as int, m));
                            }
                        }
                    }
                    if ok && (best == n || ranks[i] < ranks[best]) {
                        best = i;
                    }
                } else {
                    assert(!self.ready(order@, i as int));
                }
                i = i + 1;
            }
            if best == n {
                proof {
                    self.lemma_stuck(order@);
                }
                proof {
                    assert(self.stuck_at(order@));
                }
                let names = self.unplaced_names(&ranks, &placed, Ghost(order@));
                proof {
                    let l = choose|l: Seq<int>|
                        #![trigger self.lists_unplaced(order@, l)]
                        {
                            &&& self.lists_unplaced(order@, l)
                            &&& names@.len() == l.len()
                            &&& forall|k: int| 0 <= k < l.len() ==> (#[trigger] names@[k])@ == self.name_of(l[k])
                        };
                    assert(old(self).stuck_at(order@) && old(self).lists_unplaced(order@, l));
                }
                return Err(names);
            }
            proof {
                let o = order@;
                let o2 = o.push(best);
                assert forall|k: int| 0 <= k < o2.len() implies self.greedy_pick(
                    o2.take(k),
                    #[trigger] o2[k] as int,
                ) by {
                    if k < o.len() {
                        assert(o2.take(k) =~= o.take(k));
                        assert(o2[k] == o[k]);
                    } else {
                        assert(o2.take(k) =~= o);
                    }
                }
            }
            let ghost before = order@;
            order.push(best);
            placed.set(best, true);
            proof {
                assert forall|a: int| 0 <= a < n implies placed@[a] == order@.contains(a as usize) by {
                    if a == best as int {
                        assert(order@[order@.len() - 1] == best);
                    } else {
                        if order@.contains(a as usize) {
                            let k = choose|k: int| 0 <= k < order@.len() && order@[k] == a as usize;
                            assert(before[k] == a as usize);
                        }
                        if before.contains(a as usize) {
                            let k = choose|k: int| 0 <= k < before.len() && before[k] == a as usize;
                            assert(order@[k] == a as usize);
                        }
                    }
                }
            }
        }
        proof {
            self.lemma_greedy_is_topological(order@);
            self.lemma_order_is(order@);
        }
        self.resolved = Some(order);
        proof {
            Self::lemma_same_plan(*self, *old(self));
        }
        Ok(())
    }

    /// The names of the systems `placed` leaves out, by stage rank and then
    /// registration.
    fn unplaced_names(&self, ranks: &Vec<usize>, placed: &Vec<bool>, Ghost(order): Ghost<Seq<usize>>)
        -> (r: Vec<String>)
        requires
            self.wf(),
            ranks@.len() == self.count(),
            forall|k: int| 0 <= k < self.count() ==> ranks@[k] == self.rank(k),
            placed@.len() == self.count(),
            forall|a: int| 0 <= a < self.count() ==> placed@[a] == order.contains(a as usize),
        ensures
            exists|l: Seq<int>|
                #![trigger self.lists_unplaced(order, l)]
                {
                    &&& self.lists_unplaced(order, l)
                    &&& r@.len() == l.len()
                    &&& forall|k: int| 0 <= k < l.len() ==> (#[trigger] r@[k])@ == self.name_of(l[k])
                },
    {
        let n = self.names.len();
        let top = self.stage_order.len();
        let mut out: Vec<String> = Vec::new();
        let ghost mut l: Seq<int> = Seq::empty();
        let bound: u128 = top as u128 + 1;
        let mut v: u128 = 0;
        while v < bound
            invariant
                bound == top + 1,
                self.wf(),
                n == self.count(),
                top == self.stage_order().len(),
                ranks@.len() == n,
                forall|k: int| 0 <= k < n ==> ranks@[k] == self.rank(k),
                placed@.len() == n,
                forall|a: int| 0 <= a < n ==> placed@[a] == order.contains(a as usize),
                v <= top + 1,
                out@.len() == l.len(),
                forall|k: int| 0 <= k < l.len() ==> (#[trigger] out@[k])@ == self.name_of(l[k]),
                forall|a: int|
                    0 <= a < l.len() ==> 0 <= #[trigger] l[a] < n && !placed@[l[a]] && self.rank(l[a]) < v,
                forall|a: int, b: int| 0 <= a < b < l.len() ==> self.key_lt(#[trigger] l[a], #[trigger] l[b]),
                forall|j: int| 0 <= j < n && !placed@[j] && self.rank(j) < v ==> #[trigger] l.contains(j),
            decreases top + 1 - v,
        {
            let mut i: usize = 0;
            while i < n
                invariant
                    self.wf(),
                    n == self.count(),
                    top == self.stage_order().len(),
                    ranks@.len() == n,
                    forall|k: int| 0 <= k < n ==> ranks@[k] == self.rank(k),
                    placed@.len() == n,
                    v <= top,
                    bound == top + 1,
                    i <= n,
                    out@.len() == l.len(),
                    forall|k: int| 0 <= k < l.len() ==> (#[trigger] out@[k])@ == self.name_of(l[k]),
                    forall|a: int|
                        0 <= a < l.len() ==> 0 <= #[trigger] l[a] < n && !placed@[l[a]] && (self.rank(l[a])
                            < v || (self.rank(l[a]) == v && l[a] < i)),
                    forall|a: int, b: int|
                        0 <= a < b < l.len() ==> self.key_lt(#[trigger] l[a], #[trigger] l[b]),
                    forall|j: int|
                        0 <= j < n && !placed@[j] && (self.rank(j) < v || (self.rank(j) == v && j < i))
                            ==> #[trigger] l.contains(j),
                decreases n - i,
            {
                if !placed[i] && ranks[i] as u128 == v {
                    out.push(self.names[i].clone());
                    proof {
                        let old_l = l;
                        l = l.push(i as int);
                        assert forall|j: int|
                            0 <= j < n && !placed@[j] && (self.rank(j) < v || (self.rank(j) == v && j
                                < i + 1)) implies #[trigger] l.contains(j) by {
                            if j == i {
                                assert(l[l.len() - 1] == j);
                            } else {
                                assert(old_l.contains(j));
                                let q = choose|q: int| 0 <= q < old_l.len() && old_l[q] == j;
                                assert(l[q] == j);
                            }
                        }
                        assert forall|a: int, b: int|
                            0 <= a < b < l.len() implies self.key_lt(#[trigger] l[a], #[trigger] l[b]) by {
                            if b == l.len() - 1 {
                                assert(l[a] == old_l[a]);
                            } else {
                                assert(l[a] == old_l[a] && l[b] == old_l[b]);
                            }
                        }
                        assert forall|a: int| 0 <= a < l.len() implies 0 <= #[trigger] l[a] < n
                            && !placed@[l[a]] && (self.rank(l[a]) < v || (self.rank(l[a]) == v && l[a]
                            < i + 1)) by {
                            if a < l.len() - 1 {
                                assert(l[a] == old_l[a]);
                            }
                        }
                        assert forall|k: int| 0 <= k < l.len() implies (#[trigger] out@[k])@ == self.name_of(l[k]) by {
                            if k < l.len() - 1 {
                                assert(l[k] == old_l[k]);
                            }
                        }
                    }
                } else {
                    proof {
                        assert forall|j: int|
                            0 <= j < n && !placed@[j] && (self.rank(j) < v || (self.rank(j) == v && j
                                < i + 1)) implies #[trigger] l.contains(j) by {
                            if j == i {
                                assert(ranks@[j] == self.rank(j));
                            }
                        }
                    }
                }
                i = i + 1;
            }
            v = v + 1;
        }
        proof {
            assert forall|j: int|
                (0 <= j < self.count() && !order.contains(j as usize)) <==> #[trigger] l.contains(j) by {
                if 0 <= j < self.count() && !order.contains(j as usize) {
                    self.lemma_rank_bound(j);
                    assert(!placed@[j]);
                }
                if l.contains(j) {
                    let q = choose|q: int| 0 <= q < l.len() && l[q] == j;
                    assert(0 <= l[q] < n && !placed@[l[q]]);
                }
            }
            assert(self.lists_unplaced(order, l));
        }
        out
    }

    /// A stage rank is at most the number of declared stages.
    proof fn lemma_rank_bound(self, i: int)
        ensures
            0 <= self.rank(i) <= self.stage_order().len(),
    {
        Self::lemma_last_rank_bound(self.stage_order(), self.stage_of(i), self.stage_order().len() as int);
    }

    proof fn lemma_last_rank_bound(order: Seq<Seq<char>>, s: Seq<char>, upto: int)
        requires
            upto <= order.len(),
        ensures
            0 <= last_rank(order, s, upto) <= order.len(),
        decreases upto,
    {
        if upto > 0 && order[upto - 1] != s {
            Self::lemma_last_rank_bound(order, s, upto - 1);
        }
    }


    /// The names of every system, in execution order. The constraints
    /// must not contain a cycle.
    pub fn execution_order(&mut self) -> (r: Vec<String>)
        requires
            old(self).wf(),
            old(self).acyclic(),
        ensures
            final(self).wf(),
            final(self).same_plan(*old(self)),
            old(self).is_greedy(old(self).order()),
            r@.len() == old(self).count(),
            forall|k: int|
                0 <= k < r@.len() ==> (#[trigger] r@[k])@ == old(self).name_of(
                    old(self).order()[k] as int,
                ),
    {
        let ok = self.resolve().is_ok();
        let mut out: Vec<String> = Vec::new();
        match &self.resolved {
            Some(order) => {
                let mut k: usize = 0;
                while k < order.len()
                    invariant
                        old(self).is_greedy(order@),
                        order@ == old(self).order(),
                        self.same_plan(*old(self)),
                        self.wf(),
                        k <= order@.len(),
                        out@.len() == k,
                        forall|m: int|
                            0 <= m < k ==> (#[trigger] out@[m])@ == old(self).name_of(
                                order@[m] as int,
                            ),
                    decreases order@.len() - k,
                {
                    assert(old(self).greedy_pick(order@.take(k as int), order@[k as int] as int));
                    let name = self.names[order[k]].clone();
                    out.push(name);
                    k = k + 1;
                }
            },
            None => {},
        }
        out
    }

    /// The enabled systems, in execution order: what a run executes, each
    /// system then gated by its run condition. The constraints
    /// must not contain a cycle.
    pub fn run(&mut self) -> (r: Vec<SystemId>)
        requires
            old(self).wf(),
            old(self).acyclic(),
        ensures
            final(self).wf(),
            final(self).same_plan(*old(self)),
            old(self).is_greedy(old(self).order()),
            r@ == old(self).enabled_in(old(self).order()),
    {
        let ok = self.resolve().is_ok();
        let mut out: Vec<SystemId> = Vec::new();
        match &self.resolved {
            Some(order) => {
                let mut k: usize = 0;
                while k < order.len()
                    invariant
                        old(self).is_greedy(order@),
                        order@ == old(self).order(),
                        self.same_plan(*old(self)),
                        self.wf(),
                        k <= order@.len(),
                        out@ == old(self).enabled_in(order@.take(k as int)),
                    decreases order@.len() - k,
                {
                    assert(old(self).greedy_pick(order@.take(k as int), order@[k as int] as int));
                    let index = order[k];
                    proof {
                        assert(order@.take(k + 1).drop_last() =~= order@.take(k as int));
                        assert(order@.take(k + 1).last() == index);
                    }
                    if self.enabled[index] {
                        out.push(SystemId(index));
                    }
                    k = k + 1;
                }
                assert(order@.take(order@.len() as int) =~= order@);
            },
            None => {},
        }
        out
    }

    fn is_ordered(&self, first: usize, second: usize) -> (r: bool)
        requires
            self.wf(),
            first < self.count(),
            second < self.count(),
        ensures
            r == self.ordered(first as int, second as int),
    {
        names_contain(&self.afters[first], &self.names[second]) || names_contain(
            &self.befores[first],
            &self.names[second],
        ) || names_contain(&self.afters[second], &self.names[first]) || names_contain(
            &self.befores[second],
            &self.names[first],
        )
    }

    /// Every pair of systems of one stage, in execution order, whose access
    /// conflicts and that no constraint orders. The constraints
    /// must not contain a cycle.
    pub fn ambiguities(&mut self) -> (r: Vec<(String, String)>)
        requires
            old(self).wf(),
            old(self).acyclic(),
        ensures
            final(self).wf(),
            final(self).same_plan(*old(self)),
            old(self).is_greedy(old(self).order()),
            r@.len() == old(self).ambiguous_rows(old(self).order(), old(self).count()).len(),
            forall|k: int|
                0 <= k < r@.len() ==> {
                    let pair = old(self).ambiguous_rows(old(self).order(), old(self).count())[k];
                    &&& (#[trigger] r@[k]).0@ == old(self).name_of(pair.0)
                    &&& r@[k].1@ == old(self).name_of(pair.1)
                },
    {
        let ok = self.resolve().is_ok();
        let mut out: Vec<(String, String)> = Vec::new();
        match &self.resolved {
            Some(order) => {
                let n = order.len();
                let mut p: usize = 0;
                while p < n
                    invariant
                        old(self).is_greedy(order@),
                        order@ == old(self).order(),
                        self.same_plan(*old(self)),
                        self.wf(),
                        n == order@.len(),
                        n == old(self).count(),
                        p <= n,
                        out@.len() == old(self).ambiguous_rows(order@, p as int).len(),
                        forall|k: int|
                            0 <= k < out@.len() ==> {
                                let pair = old(self).ambiguous_rows(order@, p as int)[k];
                                &&& (#[trigger] out@[k]).0@ == old(self).name_of(pair.0)
                                &&& out@[k].1@ == old(self).name_of(pair.1)
                            },
                    decreases n - p,
                {
                    let ghost before = old(self).ambiguous_rows(order@, p as int);
                    let mut q: usize = p + 1;
                    assert(old(self).ambiguous_row(order@, p as int, q as int) =~= Seq::empty());
                    while q < n
                        invariant
                            old(self).is_greedy(order@),
                            self.same_plan(*old(self)),
                            self.wf(),
                            n == order@.len(),
                            n == old(self).count(),
                            p < n,
                            p + 1 <= q <= n,
                            before == old(self).ambiguous_rows(order@, p as int),
                            out@.len() == before.len() + old(self).ambiguous_row(
                                order@,
                                p as int,
                                q as int,
                            ).len(),
                            forall|k: int|
                                0 <= k < out@.len() ==> {
                                    let pair = (before + old(self).ambiguous_row(
                                        order@,
                                        p as int,
                                        q as int,
                                    ))[k];
                                    &&& (#[trigger] out@[k]).0@ == old(self).name_of(pair.0)
                                    &&& out@[k].1@ == old(self).name_of(pair.1)
                                },
                        decreases n - q,
                    {
                        let a = order[p];
                        let b = order[q];
                        assert(old(self).greedy_pick(order@.take(p as int), order@[p as int] as int));
                        assert(old(self).greedy_pick(order@.take(q as int), order@[q as int] as int));
                        let ghost row = old(self).ambiguous_row(order@, p as int, q as int);
                        let ghost row2 = old(self).ambiguous_row(order@, p as int, q + 1);
                        proof {
                            Self::lemma_same_plan(*self, *old(self));
                        }
                        if self.stages[a].same_as(&self.stages[b]) && self.accesses[a].conflicts_with(
                            &self.accesses[b],
                        ) && !self.is_ordered(a, b) {
                            assert(old(self).ambiguous(a as int, b as int));
                            assert(row2 == row + seq![(a as int, b as int)]);
                            let first = self.names[a].clone();
                            let second = self.names[b].clone();
                            out.push((first, second));
                            assert forall|k: int| 0 <= k < out@.len() implies {
                                let pair = (before + row2)[k];
                                &&& (#[trigger] out@[k]).0@ == old(self).name_of(pair.0)
                                &&& out@[k].1@ == old(self).name_of(pair.1)
                            } by {
                                if k < out@.len() - 1 {
                                    assert((before + row2)[k] == (before + row)[k]);
                                }
                            }
                        } else {
                            assert(!old(self).ambiguous(a as int, b as int));
                            assert(row2 =~= row);
                        }
                        q = q + 1;
                    }
                    assert(old(self).ambiguous_rows(order@, p + 1) == before
                        + old(self).ambiguous_row(order@, p as int, n as int));
                    p = p + 1;
                }
            },
            None => {},
        }
        out
    }

    /// Runs the schedule after first rejecting any ambiguous pair: the
    /// pairs when there is one, otherwise what [`Schedule::run`] hands out.
    /// The constraints must not contain a cycle.
    pub fn run_strict(&mut self) -> (r: Result<Vec<SystemId>, Vec<(String, String)>>)
        requires
            old(self).wf(),
            old(self).acyclic(),
        ensures
            final(self).wf(),
            final(self).same_plan(*old(self)),
            match r {
                Ok(ids) => {
                    &&& old(self).ambiguous_rows(old(self).order(), old(self).count()).len() == 0
                    &&& ids@ == old(self).enabled_in(old(self).order())
                },
                Err(pairs) => {
                    &&& old(self).ambiguous_rows(old(self).order(), old(self).count()).len() > 0
                    &&& pairs@.len() == old(self).ambiguous_rows(
                        old(self).order(),
                        old(self).count(),
                    ).len()
                    &&& forall|k: int|
                        0 <= k < pairs@.len() ==> {
                            let pair = old(self).ambiguous_rows(
                                old(self).order(),
                                old(self).count(),
                            )[k];
                            &&& (#[trigger] pairs@[k]).0@ == old(self).name_of(pair.0)
                            &&& pairs@[k].1@ == old(self).name_of(pair.1)
                        }
                },
            },
    {
        let pairs = self.ambiguities();
        if pairs.len() > 0 {
            return Err(pairs);
        }
        proof {
            Self::lemma_same_plan(*self, *old(self));
            self.lemma_order_is(old(self).order());
        }
        let ids = self.run();
        Ok(ids)
    }
}

} // verus!
