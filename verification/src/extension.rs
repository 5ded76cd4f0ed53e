//! Access to single axes by [`Axis`].

use vstd::prelude::*;
use crate::axis::Axis;
use crate::dimension::Dimension;
use crate::offset::Ix;

verus! {

/// Access to the word of one axis, for shapes and for plain slices of words.
pub trait DimensionExt {
    /// The words held, in axis order.
    spec fn words(&self) -> Seq<usize>;

    /// Gets the word at `axis`.
    fn axis(&self, axis: Axis) -> (word: Ix)
        requires
            axis.0 < self.words().len(),
        ensures
            word == self.words()[axis.0 as int],
    ;

    /// Sets the word at `axis`.
    fn set_axis(&mut self, axis: Axis, value: Ix)
        requires
            axis.0 < old(self).words().len(),
        ensures
            final(self).words() == old(self).words().update(axis.0 as int, value),
    ;
}

impl<D: Dimension> DimensionExt for D {
    open spec fn words(&self) -> Seq<usize> {
        self@
    }

    fn axis(&self, axis: Axis) -> (word: Ix) {
        self.slice()[axis.axis()]
    }

    fn set_axis(&mut self, axis: Axis, value: Ix) {
        self.slice_mut()[axis.axis()] = value;
    }
}

impl DimensionExt for [Ix] {
    open spec fn words(&self) -> Seq<usize> {
        self@
    }

    fn axis(&self, axis: Axis) -> (word: Ix) {
        self[axis.axis()]
    }

    fn set_axis(&mut self, axis: Axis, value: Ix) {
        self[axis.axis()] = value;
    }
}

} // verus!
