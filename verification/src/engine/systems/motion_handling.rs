use vstd::prelude::*;

verus! {

/// The corner of a cell that a moving point sits on.
#[derive(Clone, Copy, Debug, PartialEq, Eq, Structural)]
pub enum Configurations {
    TopLeft,
    TopRight,
    BottomLeft,
    BottomRight,
}

impl Configurations {
    /// The corner with the given Z-order number.
    pub fn from_index(index: usize) -> (r: Self)
        requires
            index < 4,
        ensures
            index == 0 ==> r == Configurations::TopLeft,
            index == 1 ==> r == Configurations::TopRight,
            index == 2 ==> r == Configurations::BottomLeft,
            index == 3 ==> r == Configurations::BottomRight,
    {
        match index {
            0 => Self::TopLeft,
            1 => Self::TopRight,
            2 => Self::BottomLeft,
            _ => Self::BottomRight,
        }
    }
}

} // verus!
