use vstd::prelude::*;

verus! {

/// A voxel shape: the head of its tree and the height of its grid.
pub struct Voxels {
    pub head: u32,
    pub height: u32,
}

impl Voxels {
    pub fn new(head: u32, height: u32) -> (r: Self)
        ensures
            r.head == head,
            r.height == height,
    {
        Self { head, height }
    }
}

} // verus!
