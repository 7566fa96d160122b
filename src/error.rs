use vstd::prelude::*;

verus! {

/// The ways a conversion can fail. Each one aborts the whole conversion.
#[derive(Debug, Clone, Copy, PartialEq, Eq, Structural)]
pub enum ValleyError {
    /// A black pixel has no white pixel anywhere in the grid.
    NoWhitePixel,
    /// The grid holds no black pixel, so there is nothing to normalize against.
    NoBlackPixel,
    /// A squared distance does not fit in `usize`.
    Overflow,
    /// A normalized intensity fell outside `0..=255`.
    InvalidHeight,
}

impl ValleyError {
    /// The human-readable message of this error.
    pub fn description(&self) -> (r: &'static str)
        ensures
            *self == ValleyError::NoWhitePixel ==> r@ == "no white pixel"@,
            *self == ValleyError::NoBlackPixel ==> r@ == "no black pixel"@,
            *self == ValleyError::Overflow ==> r@
                == "image too big; integer overflow occurred while calculating distance."@,
            *self == ValleyError::InvalidHeight ==> r@
                == "normalized height out of range"@,
    {
        match self {
            ValleyError::NoWhitePixel => "no white pixel",
            ValleyError::NoBlackPixel => "no black pixel",
            ValleyError::Overflow => {
                "image too big; integer overflow occurred while calculating distance."
            },
            ValleyError::InvalidHeight => "normalized height out of range",
        }
    }
}

} // verus!
