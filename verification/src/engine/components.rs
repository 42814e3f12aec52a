use vstd::prelude::*;

verus! {

/// Marks an entity whose geometry is being edited.
pub struct Editing;

} // verus!
