use vstd::prelude::*;

verus! {

/// The head of a stored tree and the height of the grid it covers.
#[derive(Debug, Copy, Clone, PartialEq, Eq, Structural)]
pub struct DagPointer {
    pub head: u32,
    pub height: u32,
}

impl DagPointer {
    pub fn new(head: u32, height: u32) -> (r: Self)
        ensures
            r.head == head,
            r.height == height,
    {
        Self { head, height }
    }
}

} // verus!
