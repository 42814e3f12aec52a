use vstd::prelude::*;

verus! {

use super::graph::Index;

/// The head of a stored tree and the height of the grid it covers.
#[derive(Debug, Copy, Clone, PartialEq, Eq, Structural)]
pub struct DagPointer {
    pub head: Index,
    pub height: u32,
}

impl DagPointer {
    pub fn new(head: Index, height: u32) -> (r: Self)
        ensures
            r.head == head,
            r.height == height,
    {
        Self { head, height }
    }
}

} // verus!
