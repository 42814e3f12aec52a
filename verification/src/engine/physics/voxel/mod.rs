//! A voxel body: the tree that holds its geometry and the exposed faces of its
//! solid cells, kept up to date whenever the geometry changes.
use vstd::prelude::*;

pub mod voxel_faces;
pub mod voxel_manifolds;

verus! {

pub use crate::engine::grid::{DagPointer, Cell};
pub use voxel_faces::{Faces, Directions};

/// A grid of voxels whose local origin is the top left corner of the grid:
/// the tree that holds its geometry and, for every solid cell with a side
/// open to air or to the edge of the grid, which of its sides are open.
pub struct Voxels {
    pub geometry: DagPointer,
    pub faces: Vec<(Faces, Cell)>,
}

impl Voxels {
    /// An empty body: the tree is the air leaf at index 0, with no faces.
    pub fn new() -> (r: Self)
        ensures
            r.geometry.head == 0,
            r.geometry.height == 0,
            r.faces@.len() == 0,
    {
        Self { geometry: DagPointer::new(0, 0), faces: Vec::new() }
    }
}

} // verus!
