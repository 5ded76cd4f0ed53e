//! Index representations and their linear offsets.

use vstd::prelude::*;
use crate::dim::{Ix0, Ix1, Ix2, Ix3, Ix4, Ix5, IxDyn};
use crate::dimension::Dimension;
use crate::indexing::{
    checked_offset, index_in_bounds, lemma_partial_offset_next, offset_sum, offsets_fit,
    partial_offset,
};
use crate::offset::{axis_offset, fits_signed, stride_offset, Ix};

verus! {

/// An integer, tuple, array or sequence that can be used to index an array
/// of shape type `E`.
///
/// Every shape type is an index of itself.
pub trait NdIndex<E: Dimension> {
    /// The components of the index, in axis order.
    spec fn components(&self) -> Seq<usize>;

    /// Computes the offset of the index if it lies within the shape `dim`.
    fn index_checked(&self, dim: &E, strides: &E) -> (offset: Option<isize>)
        requires
            dim@.len() == strides@.len(),
            dim@.len() == self.components().len(),
            index_in_bounds(dim@, self.components()) ==> offsets_fit(self.components(), strides@),
        ensures
            match offset {
                Some(sum) => checked_offset(dim@, strides@, self.components()) == Some(sum as int),
                None => checked_offset(dim@, strides@, self.components()) is None,
            },
    ;

    /// Computes the offset of the index without any bounds check.
    fn index_unchecked(&self, strides: &E) -> (offset: isize)
        requires
            self.components().len() == strides@.len(),
            offsets_fit(self.components(), strides@),
        ensures
            offset == offset_sum(self.components(), strides@),
    ;
}

impl<D: Dimension> NdIndex<D> for D {
    open spec fn components(&self) -> Seq<usize> {
        self@
    }

    fn index_checked(&self, dim: &D, strides: &D) -> (offset: Option<isize>) {
        dim.stride_offset_checked(strides, self)
    }

    fn index_unchecked(&self, strides: &D) -> (offset: isize) {
        D::stride_offset(self, strides)
    }
}

impl NdIndex<Ix0> for () {
    open spec fn components(&self) -> Seq<usize> {
        Seq::empty()
    }

    fn index_checked(&self, dim: &Ix0, strides: &Ix0) -> (offset: Option<isize>) {
        dim.stride_offset_checked(strides, &Ix0())
    }

    fn index_unchecked(&self, strides: &Ix0) -> (offset: isize) {
        0
    }
}

impl NdIndex<Ix1> for Ix {
    open spec fn components(&self) -> Seq<usize> {
        seq![*self]
    }

    fn index_checked(&self, dim: &Ix1, strides: &Ix1) -> (offset: Option<isize>) {
        dim.stride_offset_checked(strides, &Ix1(*self))
    }

    fn index_unchecked(&self, strides: &Ix1) -> (offset: isize) {
        proof {
            lemma_partial_offset_next(self.components(), strides@, 0);
        }
        stride_offset(*self, strides.ix()[0])
    }
}

impl NdIndex<Ix2> for (Ix, Ix) {
    open spec fn components(&self) -> Seq<usize> {
        seq![self.0, self.1]
    }

    fn index_checked(&self, dim: &Ix2, strides: &Ix2) -> (offset: Option<isize>) {
        dim.stride_offset_checked(strides, &Ix2(self.0, self.1))
    }

    fn index_unchecked(&self, strides: &Ix2) -> (offset: isize) {
        proof {
            lemma_partial_offset_next(self.components(), strides@, 0);
            lemma_partial_offset_next(self.components(), strides@, 1);
        }
        stride_offset(self.0, strides.ix()[0]) + stride_offset(self.1, strides.ix()[1])
    }
}

impl NdIndex<Ix3> for (Ix, Ix, Ix) {
    open spec fn components(&self) -> Seq<usize> {
        seq![self.0, self.1, self.2]
    }

    fn index_checked(&self, dim: &Ix3, strides: &Ix3) -> (offset: Option<isize>) {
        dim.stride_offset_checked(strides, &Ix3(self.0, self.1, self.2))
    }

    fn index_unchecked(&self, strides: &Ix3) -> (offset: isize) {
        proof {
            lemma_partial_offset_next(self.components(), strides@, 0);
            lemma_partial_offset_next(self.components(), strides@, 1);
            lemma_partial_offset_next(self.components(), strides@, 2);
        }
        stride_offset(self.0, strides.ix()[0]) + stride_offset(self.1, strides.ix()[1])
            + stride_offset(self.2, strides.ix()[2])
    }
}

impl NdIndex<Ix4> for (Ix, Ix, Ix, Ix) {
    open spec fn components(&self) -> Seq<usize> {
        seq![self.0, self.1, self.2, self.3]
    }

    fn index_checked(&self, dim: &Ix4, strides: &Ix4) -> (offset: Option<isize>) {
        dim.stride_offset_checked(strides, &Ix4(self.0, self.1, self.2, self.3))
    }

    fn index_unchecked(&self, strides: &Ix4) -> (offset: isize) {
        proof {
            lemma_partial_offset_next(self.components(), strides@, 0);
            lemma_partial_offset_next(self.components(), strides@, 1);
            lemma_partial_offset_next(self.components(), strides@, 2);
            lemma_partial_offset_next(self.components(), strides@, 3);
        }
        stride_offset(self.0, strides.ix()[0]) + stride_offset(self.1, strides.ix()[1])
            + stride_offset(self.2, strides.ix()[2]) + stride_offset(self.3, strides.ix()[3])
    }
}

impl NdIndex<Ix5> for (Ix, Ix, Ix, Ix, Ix) {
    open spec fn components(&self) -> Seq<usize> {
        seq![self.0, self.1, self.2, self.3, self.4]
    }

    fn index_checked(&self, dim: &Ix5, strides: &Ix5) -> (offset: Option<isize>) {
        dim.stride_offset_checked(strides, &Ix5(self.0, self.1, self.2, self.3, self.4))
    }

    fn index_unchecked(&self, strides: &Ix5) -> (offset: isize) {
        proof {
            lemma_partial_offset_next(self.components(), strides@, 0);
            lemma_partial_offset_next(self.components(), strides@, 1);
            lemma_partial_offset_next(self.components(), strides@, 2);
            lemma_partial_offset_next(self.components(), strides@, 3);
            lemma_partial_offset_next(self.components(), strides@, 4);
        }
        stride_offset(self.0, strides.ix()[0]) + stride_offset(self.1, strides.ix()[1])
            + stride_offset(self.2, strides.ix()[2]) + stride_offset(self.3, strides.ix()[3])
            + stride_offset(self.4, strides.ix()[4])
    }
}

impl NdIndex<Ix2> for [Ix; 2] {
    open spec fn components(&self) -> Seq<usize> {
        self@
    }

    fn index_checked(&self, dim: &Ix2, strides: &Ix2) -> (offset: Option<isize>) {
        let index = Ix2(self[0], self[1]);
        assert(index@ =~= self@);
        dim.stride_offset_checked(strides, &index)
    }

    fn index_unchecked(&self, strides: &Ix2) -> (offset: isize) {
        proof {
            lemma_partial_offset_next(self@, strides@, 0);
            lemma_partial_offset_next(self@, strides@, 1);
        }
        stride_offset(self[0], strides.ix()[0]) + stride_offset(self[1], strides.ix()[1])
    }
}

impl NdIndex<Ix3> for [Ix; 3] {
    open spec fn components(&self) -> Seq<usize> {
        self@
    }

    fn index_checked(&self, dim: &Ix3, strides: &Ix3) -> (offset: Option<isize>) {
        let index = Ix3(self[0], self[1], self[2]);
        assert(index@ =~= self@);
        dim.stride_offset_checked(strides, &index)
    }

    fn index_unchecked(&self, strides: &Ix3) -> (offset: isize) {
        proof {
            lemma_partial_offset_next(self@, strides@, 0);
            lemma_partial_offset_next(self@, strides@, 1);
            lemma_partial_offset_next(self@, strides@, 2);
        }
        stride_offset(self[0], strides.ix()[0]) + stride_offset(self[1], strides.ix()[1])
            + stride_offset(self[2], strides.ix()[2])
    }
}

impl NdIndex<Ix4> for [Ix; 4] {
    open spec fn components(&self) -> Seq<usize> {
        self@
    }

    fn index_checked(&self, dim: &Ix4, strides: &Ix4) -> (offset: Option<isize>) {
        let index = Ix4(self[0], self[1], self[2], self[3]);
        assert(index@ =~= self@);
        dim.stride_offset_checked(strides, &index)
    }

    fn index_unchecked(&self, strides: &Ix4) -> (offset: isize) {
        proof {
            lemma_partial_offset_next(self@, strides@, 0);
            lemma_partial_offset_next(self@, strides@, 1);
            lemma_partial_offset_next(self@, strides@, 2);
            lemma_partial_offset_next(self@, strides@, 3);
        }
        stride_offset(self[0], strides.ix()[0]) + stride_offset(self[1], strides.ix()[1])
            + stride_offset(self[2], strides.ix()[2]) + stride_offset(self[3], strides.ix()[3])
    }
}

impl NdIndex<Ix5> for [Ix; 5] {
    open spec fn components(&self) -> Seq<usize> {
        self@
    }

    fn index_checked(&self, dim: &Ix5, strides: &Ix5) -> (offset: Option<isize>) {
        let index = Ix5(self[0], self[1], self[2], self[3], self[4]);
        assert(index@ =~= self@);
        dim.stride_offset_checked(strides, &index)
    }

    fn index_unchecked(&self, strides: &Ix5) -> (offset: isize) {
        proof {
            lemma_partial_offset_next(self@, strides@, 0);
            lemma_partial_offset_next(self@, strides@, 1);
            lemma_partial_offset_next(self@, strides@, 2);
            lemma_partial_offset_next(self@, strides@, 3);
            lemma_partial_offset_next(self@, strides@, 4);
        }
        stride_offset(self[0], strides.ix()[0]) + stride_offset(self[1], strides.ix()[1])
            + stride_offset(self[2], strides.ix()[2]) + stride_offset(self[3], strides.ix()[3])
            + stride_offset(self[4], strides.ix()[4])
    }
}

/// Pairs the words of two sequences position by position.
///
/// Trusted: calls `itertools::zip`, which walks both sequences in lock step
/// and stops where the shorter one ends, and collects a copy of each pair.
#[verifier::external_body]
fn zip_pairs(left: &[Ix], right: &[Ix]) -> (pairs: Vec<(Ix, Ix)>)
    ensures
        pairs@.len() == if left@.len() <= right@.len() {
            left@.len()
        } else {
            right@.len()
        },
        forall|k: int| 0 <= k < pairs@.len() ==> pairs@[k] == (left@[k], right@[k]),
{
    itertools::zip(left, right).map(|(&a, &b)| (a, b)).collect()
}

/// Sums stride times component over the axes that both sequences have.
fn offset_of_sequence(strides: &[Ix], index: &[Ix]) -> (offset: isize)
    requires
        index@.len() == strides@.len(),
        offsets_fit(index@, strides@),
    ensures
        offset == offset_sum(index@, strides@),
{
    let pairs = zip_pairs(strides, index);
    let n = pairs.len();
    let mut offset: isize = 0;
    let mut k: usize = 0;
    proof {
        if n > 0 {
            lemma_partial_offset_next(index@, strides@, 0);
        }
    }
    while k < n
        invariant
            k <= n,
            n == pairs@.len(),
            n == index@.len(),
            n == strides@.len(),
            forall|j: int| 0 <= j < n ==> pairs@[j] == (strides@[j], index@[j]),
            offsets_fit(index@, strides@),
            offset == partial_offset(index@, strides@, k as int),
        decreases n - k,
    {
        let (s, i) = pairs[k];
        proof {
            lemma_partial_offset_next(index@, strides@, k as int);
            assert(fits_signed(partial_offset(index@, strides@, k + 1)));
            assert(fits_signed(axis_offset(index@[k as int], strides@[k as int])));
        }
        offset = offset + stride_offset(i, s);
        k += 1;
    }
    proof {
        if n > 0 {
            lemma_partial_offset_next(index@, strides@, 0);
        }
        assert(index@.take(n as int) =~= index@);
        assert(strides@.take(n as int) =~= strides@);
    }
    offset
}

/// Computes the offset of a sequence of components if it lies within the
/// shape.
fn checked_offset_of_sequence(extents: &[Ix], strides: &[Ix], index: &[Ix]) -> (offset: Option<
    isize,
>)
    requires
        extents@.len() == strides@.len(),
        extents@.len() == index@.len(),
        index_in_bounds(extents@, index@) ==> offsets_fit(index@, strides@),
    ensures
        match offset {
            Some(sum) => checked_offset(extents@, strides@, index@) == Some(sum as int),
            None => checked_offset(extents@, strides@, index@) is None,
        },
{
    let n = extents.len();
    let mut k: usize = 0;
    while k < n
        invariant
            k <= n,
            n == extents@.len(),
            n == index@.len(),
            forall|j: int| 0 <= j < k ==> index@[j] < extents@[j],
        decreases n - k,
    {
        if index[k] >= extents[k] {
            return None;
        }
        k += 1;
    }
    Some(offset_of_sequence(strides, index))
}

impl<'a> NdIndex<IxDyn> for &'a [Ix] {
    open spec fn components(&self) -> Seq<usize> {
        self@
    }

    fn index_checked(&self, dim: &IxDyn, strides: &IxDyn) -> (offset: Option<isize>) {
        checked_offset_of_sequence(dim.slice(), strides.slice(), *self)
    }

    fn index_unchecked(&self, strides: &IxDyn) -> (offset: isize) {
        offset_of_sequence(strides.slice(), *self)
    }
}

impl NdIndex<IxDyn> for Vec<Ix> {
    open spec fn components(&self) -> Seq<usize> {
        self@
    }

    fn index_checked(&self, dim: &IxDyn, strides: &IxDyn) -> (offset: Option<isize>) {
        checked_offset_of_sequence(dim.slice(), strides.slice(), self.as_slice())
    }

    fn index_unchecked(&self, strides: &IxDyn) -> (offset: isize) {
        offset_of_sequence(strides.slice(), self.as_slice())
    }
}

} // verus!
