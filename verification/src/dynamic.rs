//! Shapes whose rank is known only at run time, stored in a vector.

use vstd::prelude::*;
use crate::dim::{Dim, IxDyn};
use crate::dimension::Dimension;
use crate::offset::Ix;

verus! {

impl Dimension for IxDyn {
    type Pattern = IxDyn;

    open spec fn pattern_extents(pattern: IxDyn) -> Seq<usize> {
        pattern@
    }

    fn ndim(&self) -> (rank: usize) {
        self.ix().len()
    }

    fn slice(&self) -> (words: &[Ix]) {
        self.ix().as_slice()
    }

    fn slice_mut(&mut self) -> (words: &mut [Ix]) {
        self.ixm().as_mut_slice()
    }

    fn duplicate(&self) -> (copy: Self) {
        Dim::new(self.ix().clone())
    }

    fn into_pattern(self) -> (pattern: IxDyn) {
        self
    }
}

} // verus!
