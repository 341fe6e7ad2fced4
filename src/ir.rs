//! Plain identifiers of the analysed body: blocks, locations, projection
//! elements, mutability and regions.
use vstd::prelude::*;

verus! {

/// A point in the body: a basic block and a statement index within it.
#[derive(Clone, Copy, Debug, PartialEq, Eq, Hash, Structural)]
pub struct Location {
    pub block: usize,
    pub statement_index: usize,
}

impl Location {
    pub fn new(block: usize, statement_index: usize) -> (r: Location)
        ensures
            r.block == block,
            r.statement_index == statement_index,
    {
        Location { block, statement_index }
    }
}

/// The block that every body starts in.
pub const START_BLOCK: usize = 0;

/// When a place was captured: at a location, at the join point of a block,
/// or before the body started.
#[derive(Clone, Copy, Debug, PartialEq, Eq, Hash, Structural)]
pub enum SnapshotLocation {
    Location(Location),
    Join(usize),
    Start,
}

impl SnapshotLocation {
    pub fn from_location(loc: Location) -> (r: SnapshotLocation)
        ensures
            r == SnapshotLocation::Location(loc),
    {
        SnapshotLocation::Location(loc)
    }
}

/// One step of a place's access path.
#[derive(Clone, Copy, Debug, PartialEq, Eq, Hash, Structural)]
pub enum ProjElem {
    Deref,
    Field(usize),
    Downcast(usize),
    Index(usize),
    ConstantIndex { offset: u64, min_length: u64, from_end: bool },
    Subslice { from: u64, to: u64, from_end: bool },
    OpaqueCast,
}

#[derive(Clone, Copy, Debug, PartialEq, Eq, Hash, Structural)]
pub enum Mutability {
    Not,
    Mut,
}

/// A lifetime as the type oracle reports it: an inference variable, or one
/// of the regions that carry no variable.
#[derive(Clone, Copy, Debug, PartialEq, Eq, Hash, Structural)]
pub enum RegionKind {
    Var(usize),
    Static,
    Erased,
}

/// The identity of a called function.
#[derive(Clone, Copy, Debug, PartialEq, Eq, Hash, Structural)]
pub struct DefId {
    pub krate: u32,
    pub index: u32,
}

} // verus!
