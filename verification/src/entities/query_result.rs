//! The bare result of a query: the matching slot indices.
use vstd::prelude::*;

verus! {

/// The slot indices a query matched, in ascending order.
pub struct QueryResult {
    pub indexes: Vec<usize>,
}

} // verus!
