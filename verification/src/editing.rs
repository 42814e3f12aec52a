//! The editing choices of the player: which block kind and size a click
//! places, and which entity has the focus.
use vstd::prelude::*;

verus! {

use crate::engine::grid::DagPointer;

/// How many block kinds there are to cycle through.
pub const MOD_COLOR: u32 = 4;

/// How many block sizes there are to cycle through.
pub const MOD_HEIGHT: u32 = 4;

/// The block kind and size that a click places, and the entity in focus.
pub struct OtherData {
    pub color: u32,
    pub height: u32,
    pub entity: usize,
}

impl Default for OtherData {
    /// Air, the smallest size, and the second entity.
    fn default() -> (r: Self)
        ensures
            r.color == 0,
            r.height == 0,
            r.entity == 1,
    {
        Self { color: 0, height: 0, entity: 1 }
    }
}

impl OtherData {
    /// The next block kind, wrapping around.
    pub fn switch_color(&mut self)
        requires
            old(self).color < u32::MAX,
        ensures
            final(self).color == (old(self).color + 1) % (MOD_COLOR as int),
            final(self).height == old(self).height,
            final(self).entity == old(self).entity,
    {
        self.color = (self.color + 1) % MOD_COLOR;
    }

    /// The next block size, wrapping around.
    pub fn switch_size(&mut self)
        requires
            old(self).height < u32::MAX,
        ensures
            final(self).height == (old(self).height + 1) % (MOD_HEIGHT as int),
            final(self).color == old(self).color,
            final(self).entity == old(self).entity,
    {
        self.height = (self.height + 1) % MOD_HEIGHT;
    }

    /// The focus moves to the next of `entity_count` entities, wrapping around.
    pub fn switch_focus(&mut self, entity_count: usize)
        requires
            entity_count > 0,
            old(self).entity < usize::MAX,
        ensures
            final(self).entity == (old(self).entity + 1) % (entity_count as int),
            final(self).color == old(self).color,
            final(self).height == old(self).height,
    {
        self.entity = (self.entity + 1) % entity_count;
    }

    /// The block that a click places: the chosen kind, at the chosen size.
    pub fn block(&self) -> (r: DagPointer)
        ensures
            r.head == self.color,
            r.height == self.height,
    {
        DagPointer::new(self.color, self.height)
    }
}

} // verus!
