//! The kinds of block a cell can hold, as far as collisions are concerned.
use vstd::prelude::*;

verus! {

/// How a block takes part in collisions.
#[derive(Debug, Clone, Copy, PartialEq, Eq, Structural)]
pub enum CollisionType {
    /// Index 1 or 3.
    Solid,
    /// Index 0 or 2.
    Air,
    /// No block at all.
    Void,
}

#[derive(Debug, Clone, Copy)]
struct Block {
    collision_type: CollisionType,
}

/// The four blocks a leaf index can name, by their collision type (their
/// colours are drawn by the program, not kept here).
pub struct BlockPalette([Block; 4]);

impl BlockPalette {
    /// The collision type of block `index`.
    pub closed spec fn kind(&self, index: int) -> CollisionType {
        self.0[index].collision_type
    }

    /// The collision type of block `index`.
    pub fn index_type(&self, index: usize) -> (r: CollisionType)
        requires
            index < 4,
        ensures
            r == self.kind(index as int),
    {
        self.0[index].collision_type
    }

    /// The collision type of what a cell holds: void where there is no cell.
    pub fn cell_type(&self, cell: Option<usize>) -> (r: CollisionType)
        requires
            cell matches Some(i) ==> i < 4,
        ensures
            r == (match cell {
                None => CollisionType::Void,
                Some(i) => self.kind(i as int),
            }),
    {
        match cell {
            None => CollisionType::Void,
            Some(cell) => self.index_type(cell),
        }
    }

    /// Whether a cell holds a solid block.
    pub fn is_solid_cell(&self, cell: Option<usize>) -> (r: bool)
        requires
            cell matches Some(i) ==> i < 4,
        ensures
            r == (cell matches Some(i) && self.kind(i as int) == CollisionType::Solid),
    {
        matches!(self.cell_type(cell), CollisionType::Solid)
    }

    /// Whether block `index` is solid.
    pub fn is_solid_index(&self, index: usize) -> (r: bool)
        requires
            index < 4,
        ensures
            r == (self.kind(index as int) == CollisionType::Solid),
    {
        matches!(self.index_type(index), CollisionType::Solid)
    }
}

impl Default for BlockPalette {
    /// Air, solid, air, solid.
    fn default() -> (r: Self)
        ensures
            r.kind(0) == CollisionType::Air,
            r.kind(1) == CollisionType::Solid,
            r.kind(2) == CollisionType::Air,
            r.kind(3) == CollisionType::Solid,
    {
        Self(
            [
                Block { collision_type: CollisionType::Air },
                Block { collision_type: CollisionType::Solid },
                Block { collision_type: CollisionType::Air },
                Block { collision_type: CollisionType::Solid },
            ],
        )
    }
}

} // verus!
