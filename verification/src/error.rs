//! The errors that shape validation reports.

use vstd::prelude::*;

verus! {

/// The reason a shape and stride pair was rejected.
#[derive(Copy, Clone, Debug, PartialEq, Eq, Structural)]
pub enum ErrorKind {
    /// The layout would address memory beyond the buffer, or a size
    /// computation overflowed.
    OutOfBounds,
    /// A stride is not positive where it has to be, or two different indices
    /// could reach the same element.
    Unsupported,
}

/// An error about a shape or its strides.
#[derive(Copy, Clone, Debug, PartialEq, Eq, Structural)]
pub struct ShapeError {
    repr: ErrorKind,
}

impl View for ShapeError {
    type V = ErrorKind;

    /// The kind that the error carries.
    closed spec fn view(&self) -> ErrorKind {
        self.repr
    }
}

impl ShapeError {
    /// Returns the kind of this error.
    pub fn kind(&self) -> (kind: ErrorKind)
        ensures
            kind == self@,
    {
        self.repr
    }
}

/// Creates the error of the given kind.
pub fn from_kind(kind: ErrorKind) -> (error: ShapeError)
    ensures
        error@ == kind,
{
    ShapeError { repr: kind }
}

} // verus!
