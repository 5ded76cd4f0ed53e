//! Axis indices.

use vstd::prelude::*;

verus! {

/// An axis index.
///
/// An *n*-dimensional shape has *n* axes. Axis 0 is the outermost axis and
/// axis *n* - 1 the innermost.
#[derive(Copy, Clone, Debug, PartialEq, Eq, PartialOrd, Ord, Hash, Structural)]
pub struct Axis(pub usize);

impl Axis {
    /// Returns the index of the axis.
    pub fn axis(&self) -> (index: usize)
        ensures
            index == self.0,
    {
        self.0
    }
}

} // verus!
