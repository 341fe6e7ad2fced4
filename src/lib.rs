//! A flow-sensitive borrows graph: which places are borrowed, by whom,
//! through which reborrows and expansions, and under which path conditions,
//! with the operations that carry it across a dataflow fixpoint.
use vstd::prelude::*;

pub mod ir;
pub mod ty;
pub mod latest;
pub mod place;
pub mod path_condition;
pub mod domain;
pub mod deref_expansion;
pub mod edge;
pub mod graph;
pub mod unblock_graph;
pub mod capability;
pub mod state;
pub mod laws;

verus! {

} // verus!
