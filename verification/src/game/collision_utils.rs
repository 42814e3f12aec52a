use vstd::prelude::*;

verus! {

/// The corner of a cell that a moving point sits on.
#[derive(Clone, Copy, Debug, PartialEq, Eq, Structural)]
pub enum Configurations {
    TopLeft,
    TopRight,
    BottomLeft,
    BottomRight,
}

} // verus!
