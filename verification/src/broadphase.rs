//! A uniform spatial hash: the broadphase that narrows "what could this body
//! touch" to the bodies sharing a grid cell with it.
use crate::entity::Entity;
use crate::fixed::{fx_div, fx_floor_int, Fx};
use crate::geometry::{rect_bottom, rect_intersects, rect_right, Rect};
use crate::rng::lemma_swap_preserves_multiset;
use crate::vec2::IVec2;
use std::collections::HashMap;
use vstd::prelude::*;

verus! {

/// One body registered in the broadphase.
#[derive(Clone, Copy, Debug, PartialEq, Eq, Structural)]
pub struct BroadphaseEntry {
    /// The entity this body belongs to.
    pub entity: Entity,
    /// Its world-space bounds at insertion time.
    pub bounds: Rect,
    /// The layer bits it occupies.
    pub layer: u32,
}

/// The bucket key of a cell: its two coordinates, as unsigned 32-bit
/// patterns, side by side.
pub open spec fn key_of(cell: IVec2) -> u64 {
    ((cell.x as u32) as u64 * 0x1_0000_0000 + (cell.y as u32) as u64) as u64
}

/// Cell `cell` lies in the range of cells that `r` covers: from the cell of
/// its top-left corner to that of its bottom-right corner, inclusive.
pub open spec fn covers(r: Rect, cell_size: Fx, cell: IVec2) -> bool {
    &&& fx_floor_int(fx_div(r.min.x, cell_size)) <= cell.x
    &&& cell.x <= fx_floor_int(fx_div(rect_right(r), cell_size))
    &&& fx_floor_int(fx_div(r.min.y, cell_size)) <= cell.y
    &&& cell.y <= fx_floor_int(fx_div(rect_bottom(r), cell_size))
}

/// What a query over `area` on `mask` reports of an entry: its layer
/// matches, it overlaps the area, and it shares a cell with it.
pub open spec fn hash_hit(e: BroadphaseEntry, area: Rect, mask: u32, cell_size: Fx) -> bool {
    &&& (e.layer & mask) != 0
    &&& rect_intersects(e.bounds, area)
    &&& exists|c: IVec2| covers(e.bounds, cell_size, c) && #[trigger] covers(area, cell_size, c)
}

/// The sort key of an entry: its entity's packed bits.
pub open spec fn entry_key(e: BroadphaseEntry) -> int {
    e.entity.generation * 0x1_0000_0000 + e.entity.index
}

/// The entries are in ascending order of entity bits.
pub open spec fn sorted_by_entity(s: Seq<BroadphaseEntry>) -> bool {
    forall|i: int, j: int| 0 <= i < j < s.len() ==> entry_key(s[i]) <= entry_key(s[j])
}

/// A uniform spatial hash over world space.
#[derive(Debug)]
pub struct SpatialHash {
    cell_size: Fx,
    /// Bucket key to the indices of the entries covering that cell.
    cells: HashMap<u64, Vec<usize>>,
    entries: Vec<BroadphaseEntry>,
}

fn cell_key(cell: IVec2) -> (r: u64)
    ensures
        r == key_of(cell),
{
    let hi = (cell.x as u32) as u64;
    let lo = (cell.y as u32) as u64;
    assert(hi * 0x1_0000_0000 <= 0xffff_ffff_0000_0000) by (nonlinear_arith)
        requires
            hi <= 0xffff_ffff,
    ;
    hi * 0x1_0000_0000 + lo
}

impl SpatialHash {
    /// The registered bodies, in insertion order.
    pub closed spec fn entries(&self) -> Seq<BroadphaseEntry> {
        self.entries@
    }

    /// The side of one cell.
    pub closed spec fn cell_size_spec(&self) -> Fx {
        self.cell_size
    }

    /// The cell size is positive and each body is in the bucket of every
    /// cell it covers.
    pub closed spec fn wf(&self) -> bool {
        &&& self.cell_size.0 > 0
        &&& forall|i: int, c: IVec2|
            0 <= i < self.entries@.len() && #[trigger] covers(
                self.entries@[i].bounds,
                self.cell_size,
                c,
            ) ==> {
                &&& self.cells@.contains_key(key_of(c))
                &&& self.cells@[key_of(c)]@.contains(i as usize)
            }
    }

    /// An empty hash. `cell_size` must be positive.
    pub fn new(cell_size: Fx) -> (r: SpatialHash)
        requires
            cell_size.0 > 0,
        ensures
            r.wf(),
            r.entries() == Seq::<BroadphaseEntry>::empty(),
            r.cell_size_spec() == cell_size,
    {
        SpatialHash { cell_size, cells: HashMap::new(), entries: Vec::new() }
    }

    /// Removes every body.
    pub fn clear(&mut self)
        requires
            old(self).wf(),
        ensures
            final(self).wf(),
            final(self).entries() == Seq::<BroadphaseEntry>::empty(),
            final(self).cell_size_spec() == old(self).cell_size_spec(),
    {
        self.cells.clear();
        self.entries.clear();
    }

    fn cell_range(&self, bounds: Rect) -> (r: (i32, i32, i32, i32))
        requires
            self.cell_size.0 > 0,
        ensures
            r.0 == fx_floor_int(fx_div(bounds.min.x, self.cell_size)),
            r.1 == fx_floor_int(fx_div(bounds.min.y, self.cell_size)),
            r.2 == fx_floor_int(fx_div(rect_right(bounds), self.cell_size)),
            r.3 == fx_floor_int(fx_div(rect_bottom(bounds), self.cell_size)),
    {
        (
            (bounds.left() / self.cell_size).floor_int(),
            (bounds.top() / self.cell_size).floor_int(),
            (bounds.right() / self.cell_size).floor_int(),
            (bounds.bottom() / self.cell_size).floor_int(),
        )
    }

    fn add_to_bucket(&mut self, key: u64, index: usize)
        ensures
            final(self).cell_size == old(self).cell_size,
            final(self).entries@ == old(self).entries@,
            final(self).cells@.contains_key(key),
            final(self).cells@[key]@.contains(index),
            forall|k: u64, i: usize|
                old(self).cells@.contains_key(k) && #[trigger] old(self).cells@[k]@.contains(i)
                    ==> {
                    &&& final(self).cells@.contains_key(k)
                    &&& final(self).cells@[k]@.contains(i)
                },
    {
        broadcast use vstd::std_specs::hash::group_hash_axioms;

        let mut bucket = match self.cells.remove(&key) {
            Some(b) => b,
            None => Vec::new(),
        };
        let ghost before = bucket@;
        bucket.push(index);
        assert(bucket@[bucket@.len() - 1] == index);
        assert forall|i: usize| before.contains(i) implies bucket@.contains(i) by {
            let k = choose|k: int| 0 <= k < before.len() && before[k] == i;
            assert(bucket@[k] == i);
        }
        self.cells.insert(key, bucket);
    }

    /// Registers a body in the bucket of every cell its bounds cover.
    pub fn insert(&mut self, entity: Entity, bounds: Rect, layer: u32)
        requires
            old(self).wf(),
        ensures
            final(self).wf(),
            final(self).entries() == old(self).entries().push(
                BroadphaseEntry { entity, bounds, layer },
            ),
            final(self).cell_size_spec() == old(self).cell_size_spec(),
    {
        let index = self.entries.len();
        self.entries.push(BroadphaseEntry { entity, bounds, layer });
        let (min_x, min_y, max_x, max_y) = self.cell_range(bounds);
        let mut y: i64 = min_y as i64;
        while y <= max_y as i64
            invariant
                self.cell_size.0 > 0,
                index == self.entries@.len() - 1,
                self.entries@ == old(self).entries@.push(BroadphaseEntry { entity, bounds, layer }),
                self.cell_size == old(self).cell_size,
                min_x == fx_floor_int(fx_div(bounds.min.x, self.cell_size)),
                min_y == fx_floor_int(fx_div(bounds.min.y, self.cell_size)),
                max_x == fx_floor_int(fx_div(rect_right(bounds), self.cell_size)),
                max_y == fx_floor_int(fx_div(rect_bottom(bounds), self.cell_size)),
                min_y <= y,
                y <= max_y as i64 + 1 || y == min_y as i64,
                forall|i: int, c: IVec2|
                    0 <= i < index && #[trigger] covers(self.entries@[i].bounds, self.cell_size, c)
                        ==> {
                        &&& self.cells@.contains_key(key_of(c))
                        &&& self.cells@[key_of(c)]@.contains(i as usize)
                    },
                forall|c: IVec2|
                    covers(bounds, self.cell_size, c) && c.y < y ==> {
                        &&& #[trigger] self.cells@.contains_key(key_of(c))
                        &&& self.cells@[key_of(c)]@.contains(index)
                    },
            decreases max_y as i64 + 1 - y,
        {
            let mut x: i64 = min_x as i64;
            while x <= max_x as i64
                invariant
                    self.cell_size.0 > 0,
                    index == self.entries@.len() - 1,
                    self.entries@ == old(self).entries@.push(
                        BroadphaseEntry { entity, bounds, layer },
                    ),
                    self.cell_size == old(self).cell_size,
                    min_x == fx_floor_int(fx_div(bounds.min.x, self.cell_size)),
                    max_x == fx_floor_int(fx_div(rect_right(bounds), self.cell_size)),
                    min_y <= y <= max_y,
                    min_x <= x,
                    x <= max_x as i64 + 1 || x == min_x as i64,
                    forall|i: int, c: IVec2|
                        0 <= i < index && #[trigger] covers(
                            self.entries@[i].bounds,
                            self.cell_size,
                            c,
                        ) ==> {
                            &&& self.cells@.contains_key(key_of(c))
                            &&& self.cells@[key_of(c)]@.contains(i as usize)
                        },
                    forall|c: IVec2|
                        covers(bounds, self.cell_size, c) && (c.y < y || (c.y == y && c.x < x))
                            ==> {
                            &&& #[trigger] self.cells@.contains_key(key_of(c))
                            &&& self.cells@[key_of(c)]@.contains(index)
                        },
                decreases max_x as i64 + 1 - x,
            {
                let cell = IVec2::new(x as i32, y as i32);
                let key = cell_key(cell);
                let ghost old_cells = self.cells@;
                self.add_to_bucket(key, index);
                proof {
                    assert forall|c: IVec2|
                        covers(bounds, self.cell_size, c) && (c.y < y || (c.y == y && c.x < x + 1))
                        implies #[trigger] self.cells@.contains_key(key_of(c))
                        && self.cells@[key_of(c)]@.contains(index) by {
                        if c.y == y && c.x == x {
                            assert(c == cell);
                        } else {
                            assert(old_cells.contains_key(key_of(c)));
                            assert(old_cells[key_of(c)]@.contains(index));
                        }
                    }
                    assert forall|i: int, c: IVec2|
                        0 <= i < index && #[trigger] covers(self.entries@[i].bounds, self.cell_size, c)
                        implies self.cells@.contains_key(key_of(c))
                        && self.cells@[key_of(c)]@.contains(i as usize) by {
                        assert(old_cells.contains_key(key_of(c)));
                        assert(old_cells[key_of(c)]@.contains(i as usize));
                    }
                }
                x = x + 1;
            }
            y = y + 1;
        }
        proof {
            assert forall|i: int, c: IVec2|
                0 <= i < self.entries@.len() && #[trigger] covers(
                    self.entries@[i].bounds,
                    self.cell_size,
                    c,
                ) implies self.cells@.contains_key(key_of(c)) && self.cells@[key_of(
                c,
            )]@.contains(i as usize) by {
                if i == index {
                    assert(self.entries@[i].bounds == bounds);
                    assert(c.y < y);
                    assert(covers(bounds, self.cell_size, c) && c.y < y);
                    assert(self.cells@.contains_key(key_of(c)));
                }
            }
        }
    }

    /// Every body that shares a cell with `area`, overlaps it, and is on a
    /// layer in `mask`, sorted by entity so that the order depends on the
    /// world's contents alone.
    pub fn query(&self, area: Rect, mask: u32) -> (r: Vec<BroadphaseEntry>)
        requires
            self.wf(),
        ensures
            sorted_by_entity(r@),
            r@.to_multiset() == self.entries().filter(
                |e: BroadphaseEntry| hash_hit(e, area, mask, self.cell_size_spec()),
            ).to_multiset(),
    {
        broadcast use vstd::std_specs::hash::group_hash_axioms;

        let n = self.entries.len();
        let ghost pred = |e: BroadphaseEntry| hash_hit(e, area, mask, self.cell_size);
        let mut hit: Vec<bool> = Vec::new();
        let mut i: usize = 0;
        while i < n
            invariant
                i <= n,
                hit@.len() == i,
                forall|a: int| 0 <= a < i ==> !hit@[a],
            decreases n - i,
        {
            hit.push(false);
            i = i + 1;
        }
        let (min_x, min_y, max_x, max_y) = self.cell_range(area);
        let mut y: i64 = min_y as i64;
        while y <= max_y as i64
            invariant
                self.wf(),
                n == self.entries@.len(),
                hit@.len() == n,
                min_x == fx_floor_int(fx_div(area.min.x, self.cell_size)),
                min_y == fx_floor_int(fx_div(area.min.y, self.cell_size)),
                max_x == fx_floor_int(fx_div(rect_right(area), self.cell_size)),
                max_y == fx_floor_int(fx_div(rect_bottom(area), self.cell_size)),
                min_y <= y,
                y <= max_y as i64 + 1 || y == min_y as i64,
                pred == (|e: BroadphaseEntry| hash_hit(e, area, mask, self.cell_size)),
                forall|a: int| 0 <= a < n && #[trigger] hit@[a] ==> pred(self.entries@[a]),
                forall|a: int, c: IVec2|
                    0 <= a < n && (self.entries@[a].layer & mask) != 0 && rect_intersects(
                        self.entries@[a].bounds,
                        area,
                    ) && #[trigger] covers(self.entries@[a].bounds, self.cell_size, c) && covers(
                        area,
                        self.cell_size,
                        c,
                    ) && c.y < y ==> hit@[a],
            decreases max_y as i64 + 1 - y,
        {
            let mut x: i64 = min_x as i64;
            while x <= max_x as i64
                invariant
                    self.wf(),
                    n == self.entries@.len(),
                    hit@.len() == n,
                    min_x == fx_floor_int(fx_div(area.min.x, self.cell_size)),
                    min_y == fx_floor_int(fx_div(area.min.y, self.cell_size)),
                    max_x == fx_floor_int(fx_div(rect_right(area), self.cell_size)),
                    max_y == fx_floor_int(fx_div(rect_bottom(area), self.cell_size)),
                    min_y <= y <= max_y,
                    min_x <= x,
                    x <= max_x as i64 + 1 || x == min_x as i64,
                    pred == (|e: BroadphaseEntry| hash_hit(e, area, mask, self.cell_size)),
                    forall|a: int| 0 <= a < n && #[trigger] hit@[a] ==> pred(self.entries@[a]),
                    forall|a: int, c: IVec2|
                        0 <= a < n && (self.entries@[a].layer & mask) != 0 && rect_intersects(
                            self.entries@[a].bounds,
                            area,
                        ) && #[trigger] covers(self.entries@[a].bounds, self.cell_size, c) && covers(
                            area,
                            self.cell_size,
                            c,
                        ) && (c.y < y || (c.y == y && c.x < x)) ==> hit@[a],
                decreases max_x as i64 + 1 - x,
            {
                let cell = IVec2::new(x as i32, y as i32);
                let key = cell_key(cell);
                match self.cells.get(&key) {
                    Some(bucket) => {
                        let mut k: usize = 0;
                        while k < bucket.len()
                            invariant
                                self.wf(),
                                n == self.entries@.len(),
                                hit@.len() == n,
                                min_y <= y <= max_y,
                                min_x <= x <= max_x,
                                cell == (IVec2 { x: x as i32, y: y as i32 }),
                                covers(area, self.cell_size, cell),
                                self.cells@.contains_key(key_of(cell)),
                                *bucket == self.cells@[key_of(cell)],
                                k <= bucket@.len(),
                                pred == (|e: BroadphaseEntry| hash_hit(
                                    e,
                                    area,
                                    mask,
                                    self.cell_size,
                                )),
                                forall|a: int| 0 <= a < n && #[trigger] hit@[a] ==> pred(
                                    self.entries@[a],
                                ),
                                forall|a: int, c: IVec2|
                                    0 <= a < n && (self.entries@[a].layer & mask) != 0
                                        && rect_intersects(self.entries@[a].bounds, area) && #[trigger] covers(self.entries@[a].bounds,
                                        self.cell_size,
                                        c,
                                    ) && covers(area, self.cell_size, c) && (c.y < y || (
                                    c.y == y && c.x < x)) ==> hit@[a],
                                forall|m: int|
                                    0 <= m < k && #[trigger] bucket@[m] < n && (self.entries@[
                                        bucket@[m] as int
                                    ].layer & mask) != 0 && rect_intersects(
                                        self.entries@[bucket@[m] as int].bounds,
                                        area,
                                    ) && covers(
                                        self.entries@[bucket@[m] as int].bounds,
                                        self.cell_size,
                                        cell,
                                    ) ==> hit@[bucket@[m] as int],
                            decreases bucket@.len() - k,
                        {
                            let index = bucket[k];
                            if index < n {
                                let entry = self.entries[index];
                                let (ex0, ey0, ex1, ey1) = self.cell_range(entry.bounds);
                                let covered = ex0 <= cell.x && cell.x <= ex1 && ey0 <= cell.y
                                    && cell.y <= ey1;
                                if (entry.layer & mask) != 0 && entry.bounds.intersects(area)
                                    && covered {
                                    assert(covers(entry.bounds, self.cell_size, cell));
                                    assert(covers(area, self.cell_size, cell));
                                    assert(hash_hit(entry, area, mask, self.cell_size));
                                    assert(pred(entry));
                                    hit.set(index, true);
                                }
                            }
                            k = k + 1;
                        }
                        proof {
                            assert forall|a: int, c: IVec2|
                                0 <= a < n && (self.entries@[a].layer & mask) != 0
                                    && rect_intersects(self.entries@[a].bounds, area) && #[trigger] covers(self.entries@[a].bounds,
                                    self.cell_size,
                                    c,
                                ) && covers(area, self.cell_size, c) && (c.y < y || (
                                c.y == y && c.x < x + 1)) implies hit@[a] by {
                                if c.y == y && c.x == x {
                                    assert(c == cell);
                                    assert(self.cells@[key_of(c)]@.contains(a as usize));
                                    let m = choose|m: int|
                                        0 <= m < bucket@.len() && bucket@[m] == a as usize;
                                    assert(bucket@[m] < n);
                                }
                            }
                        }
                    },
                    None => {
                        proof {
                            assert forall|a: int, c: IVec2|
                                0 <= a < n && (self.entries@[a].layer & mask) != 0
                                    && rect_intersects(self.entries@[a].bounds, area) && #[trigger] covers(self.entries@[a].bounds,
                                    self.cell_size,
                                    c,
                                ) && covers(area, self.cell_size, c) && (c.y < y || (
                                c.y == y && c.x < x + 1)) implies hit@[a] by {
                                if c.y == y && c.x == x {
                                    assert(c == cell);
                                    assert(self.cells@.contains_key(key_of(c)));
                                }
                            }
                        }
                    },
                }
                x = x + 1;
            }
            y = y + 1;
        }
        proof {
            assert forall|a: int| 0 <= a < n && pred(self.entries@[a]) implies hit@[a] by {
                let c = choose|c: IVec2|
                    covers(self.entries@[a].bounds, self.cell_size, c) && covers(
                        area,
                        self.cell_size,
                        c,
                    );
            }
        }
        let mut results: Vec<BroadphaseEntry> = Vec::new();
        i = 0;
        while i < n
            invariant
                n == self.entries@.len(),
                hit@.len() == n,
                i <= n,
                pred == (|e: BroadphaseEntry| hash_hit(e, area, mask, self.cell_size)),
                forall|a: int| 0 <= a < n ==> hit@[a] == pred(self.entries@[a]),
                results@ == self.entries@.take(i as int).filter(pred),
            decreases n - i,
        {
            proof {
                reveal(Seq::filter);
                assert(self.entries@.take(i + 1).drop_last() =~= self.entries@.take(i as int));
                assert(self.entries@.take(i + 1).last() == self.entries@[i as int]);
                assert(self.entries@.take(i + 1).filter(pred) == if pred(self.entries@[i as int]) {
                    self.entries@.take(i as int).filter(pred).push(self.entries@[i as int])
                } else {
                    self.entries@.take(i as int).filter(pred)
                });
            }
            if hit[i] {
                results.push(self.entries[i]);
            }
            i = i + 1;
        }
        proof {
            assert(self.entries@.take(n as int) =~= self.entries@);
        }
        sort_by_entity(&mut results);
        results
    }

    /// The bounds of every body a query reports, except those of `exclude`:
    /// the blocker list the solver wants for one body.
    pub fn blockers_for(&self, area: Rect, mask: u32, exclude: Entity) -> (r: Vec<Rect>)
        requires
            self.wf(),
        ensures
            exists|found: Seq<BroadphaseEntry>|
                {
                    &&& sorted_by_entity(found)
                    &&& found.to_multiset() == self.entries().filter(
                        |e: BroadphaseEntry| hash_hit(e, area, mask, self.cell_size_spec()),
                    ).to_multiset()
                    &&& r@ == found.filter(|e: BroadphaseEntry| e.entity != exclude).map_values(
                        |e: BroadphaseEntry| e.bounds,
                    )
                },
    {
        let found = self.query(area, mask);
        let mut out: Vec<Rect> = Vec::new();
        let mut i: usize = 0;
        let ghost keep = |e: BroadphaseEntry| e.entity != exclude;
        while i < found.len()
            invariant
                i <= found@.len(),
                keep == (|e: BroadphaseEntry| e.entity != exclude),
                out@ == found@.take(i as int).filter(keep).map_values(|e: BroadphaseEntry| e.bounds),
            decreases found@.len() - i,
        {
            proof {
                reveal(Seq::filter);
                assert(found@.take(i + 1).drop_last() =~= found@.take(i as int));
                assert(found@.take(i + 1).last() == found@[i as int]);
                assert(found@.take(i + 1).filter(keep) == if keep(found@[i as int]) {
                    found@.take(i as int).filter(keep).push(found@[i as int])
                } else {
                    found@.take(i as int).filter(keep)
                });
            }
            let entry = found[i];
            assert(keep(entry) == (entry.entity != exclude));
            if entry.entity != exclude {
                proof {
                    let f = found@.take(i as int).filter(keep);
                    assert(f.push(entry).map_values(|e: BroadphaseEntry| e.bounds) =~= f.map_values(
                        |e: BroadphaseEntry| e.bounds,
                    ).push(entry.bounds));
                }
                out.push(entry.bounds);
            }
            i = i + 1;
        }
        proof {
            assert(found@.take(found@.len() as int) =~= found@);
        }
        out
    }

    /// Number of registered bodies.
    pub fn len(&self) -> (r: usize)
        ensures
            r == self.entries().len(),
    {
        self.entries.len()
    }

    /// True when no bodies are registered.
    pub fn is_empty(&self) -> (r: bool)
        ensures
            r == (self.entries().len() == 0),
    {
        self.entries.len() == 0
    }

    /// The configured cell size.
    pub fn cell_size(&self) -> (r: Fx)
        ensures
            r == self.cell_size_spec(),
    {
        self.cell_size
    }
}

/// Sorts entries by entity bits, in place: selection of the smallest
/// remaining entry, one position at a time.
fn sort_by_entity(items: &mut Vec<BroadphaseEntry>)
    ensures
        sorted_by_entity(final(items)@),
        final(items)@.to_multiset() == old(items)@.to_multiset(),
{
    let n = items.len();
    let mut i: usize = 0;
    while i < n
        invariant
            n == items@.len(),
            i <= n,
            items@.to_multiset() == old(items)@.to_multiset(),
            forall|a: int, b: int| 0 <= a < b < i ==> entry_key(items@[a]) <= entry_key(items@[b]),
            forall|a: int, b: int| 0 <= a < i <= b < n ==> entry_key(items@[a]) <= entry_key(items@[b]),
        decreases n - i,
    {
        let mut best: usize = i;
        let mut j: usize = i + 1;
        while j < n
            invariant
                n == items@.len(),
                i < n,
                i <= best < n,
                i < j <= n,
                forall|b: int| i <= b < j ==> entry_key(items@[best as int]) <= entry_key(items@[b]),
            decreases n - j,
        {
            if items[j].entity.to_bits() < items[best].entity.to_bits() {
                best = j;
            }
            j = j + 1;
        }
        let ghost before = items@;
        let a = items[i];
        let b = items[best];
        items.set(i, b);
        items.set(best, a);
        proof {
            lemma_swap_preserves_multiset(before, i as int, best as int);
        }
        i = i + 1;
    }
}

} // verus!
