//! The capability summary of the owned-place analysis, read here only.
use vstd::prelude::*;
use crate::place::Place;

verus! {

#[derive(Clone, Copy, Debug, PartialEq, Eq, Hash, Structural)]
pub enum CapabilityKind {
    Read,
    Write,
    Exclusive,
    ShallowExclusive,
}

/// A local with no storage, or the capabilities of its allocated places.
pub enum CapabilityLocal {
    Unallocated,
    Allocated(Vec<(Place, CapabilityKind)>),
}

/// The places of an allocated local with their capabilities; none for an
/// unallocated one.
pub open spec fn allocated(l: CapabilityLocal) -> Seq<(Place, CapabilityKind)> {
    match l {
        CapabilityLocal::Allocated(ps) => ps@,
        CapabilityLocal::Unallocated => Seq::empty(),
    }
}

/// The capabilities of every local, indexed by local.
pub struct CapabilitySummary {
    pub locals: Vec<CapabilityLocal>,
}

impl CapabilitySummary {
    pub fn new(locals: Vec<CapabilityLocal>) -> (r: CapabilitySummary)
        ensures
            r.locals@ == locals@,
    {
        CapabilitySummary { locals }
    }

    /// The place `p` holds exclusive capability in the summary.
    pub open spec fn exclusive(&self, p: crate::place::PlaceView) -> bool {
        exists|i: int, j: int| 0 <= i < self.locals@.len() && 0 <= j < allocated(self.locals@[i]).len()
            && (#[trigger] allocated(self.locals@[i])[j]).0@ == p && allocated(self.locals@[i])[j].1 == CapabilityKind::Exclusive
    }
}

} // verus!
