//! The interface between the solver and whatever holds the world's tiles.
use crate::fixed::Fx;
use crate::vec2::IVec2;
use vstd::prelude::*;

verus! {

/// A source of tile-based solidity: the game's tilemap, a generated cave, or
/// a test fixture.
pub trait SolidGrid {
    /// The world-space size of one tile.
    spec fn tile_size_spec(&self) -> Fx;

    /// Whether `cell` blocks movement.
    spec fn solid_spec(&self, cell: IVec2) -> bool;

    /// The world-space size of one tile. Must be positive.
    fn tile_size(&self) -> (r: Fx)
        ensures
            r == self.tile_size_spec(),
    ;

    /// True when `cell` blocks movement.
    fn is_solid(&self, cell: IVec2) -> (r: bool)
        ensures
            r == self.solid_spec(cell),
    ;
}

/// A grid where nothing is ever solid.
#[derive(Clone, Copy, Debug)]
pub struct OpenGrid {
    tile_size: Fx,
}

impl OpenGrid {
    /// An open grid with the given tile size.
    pub fn new(tile_size: Fx) -> (r: OpenGrid)
        ensures
            r.tile_size_spec() == tile_size,
            forall|cell: IVec2| !r.solid_spec(cell),
    {
        OpenGrid { tile_size }
    }
}

impl SolidGrid for OpenGrid {
    closed spec fn tile_size_spec(&self) -> Fx {
        self.tile_size
    }

    closed spec fn solid_spec(&self, cell: IVec2) -> bool {
        false
    }

    fn tile_size(&self) -> (r: Fx) {
        self.tile_size
    }

    fn is_solid(&self, cell: IVec2) -> (r: bool) {
        false
    }
}

/// A grid backed by an explicit list of solid cells.
#[derive(Clone, Debug)]
pub struct TestGrid {
    tile_size: Fx,
    solids: Vec<IVec2>,
}

impl TestGrid {
    /// The listed solid cells.
    pub closed spec fn solids(&self) -> Seq<IVec2> {
        self.solids@
    }

    /// A grid with no solid cells.
    pub fn empty(tile_size: Fx) -> (r: TestGrid)
        ensures
            r.tile_size_spec() == tile_size,
            r.solids() == Seq::<IVec2>::empty(),
            forall|cell: IVec2| r.solid_spec(cell) == r.solids().contains(cell),
    {
        TestGrid { tile_size, solids: Vec::new() }
    }

    /// A grid with the listed cells solid.
    pub fn with_solids(tile_size: Fx, solids: &[IVec2]) -> (r: TestGrid)
        ensures
            r.tile_size_spec() == tile_size,
            r.solids() == solids@,
            forall|cell: IVec2| r.solid_spec(cell) == r.solids().contains(cell),
    {
        let mut list: Vec<IVec2> = Vec::new();
        let mut i: usize = 0;
        while i < solids.len()
            invariant
                i <= solids@.len(),
                list@ == solids@.take(i as int),
            decreases solids@.len() - i,
        {
            list.push(solids[i]);
            proof {
                assert(solids@.take(i + 1) =~= solids@.take(i as int).push(solids@[i as int]));
            }
            i = i + 1;
        }
        assert(solids@.take(solids@.len() as int) =~= solids@);
        TestGrid { tile_size, solids: list }
    }

    /// Marks a cell solid; a cell already listed is not listed twice.
    pub fn set_solid(&mut self, cell: IVec2)
        ensures
            final(self).tile_size_spec() == old(self).tile_size_spec(),
            old(self).solids().contains(cell) ==> final(self).solids() == old(self).solids(),
            !old(self).solids().contains(cell) ==> final(self).solids() == old(self).solids().push(
                cell,
            ),
            forall|c: IVec2| final(self).solid_spec(c) == final(self).solids().contains(c),
    {
        if !cells_contain(&self.solids, cell) {
            self.solids.push(cell);
        }
    }
}

fn cells_contain(cells: &Vec<IVec2>, cell: IVec2) -> (r: bool)
    ensures
        r == cells@.contains(cell),
{
    let mut i: usize = 0;
    while i < cells.len()
        invariant
            i <= cells@.len(),
            forall|k: int| 0 <= k < i ==> cells@[k] != cell,
        decreases cells@.len() - i,
    {
        if cells[i] == cell {
            return true;
        }
        i = i + 1;
    }
    false
}

impl SolidGrid for TestGrid {
    closed spec fn tile_size_spec(&self) -> Fx {
        self.tile_size
    }

    closed spec fn solid_spec(&self, cell: IVec2) -> bool {
        self.solids@.contains(cell)
    }

    fn tile_size(&self) -> (r: Fx) {
        self.tile_size
    }

    fn is_solid(&self, cell: IVec2) -> (r: bool) {
        cells_contain(&self.solids, cell)
    }
}

} // verus!
