//! Removing one axis from a shape.

use vstd::prelude::*;
use crate::axis::Axis;
use crate::dim::{Dim, Ix0, Ix1, Ix2, Ix3, Ix4, Ix5, IxDyn};
use crate::dimension::Dimension;
use crate::offset::Ix;
use crate::shape::{lemma_product_concat, lemma_product_rank1, product, row_major_strides};

verus! {

/// Array shape with a next smaller shape.
///
/// `RemoveAxis` defines a larger-than relation for array shapes: removing one
/// axis from `Self` gives the smaller shape `Smaller`, which keeps the other
/// extents in their order.
pub trait RemoveAxis: Dimension {
    /// The shape type with one axis less.
    type Smaller: Dimension;

    /// Returns the shape without the given axis.
    fn remove_axis(&self, axis: Axis) -> (smaller: Self::Smaller)
        requires
            axis.0 < self@.len(),
        ensures
            smaller@ == self@.remove(axis.0 as int),
    ;
}

/// Copies every word of `source` but the one at `axis` into `target`, in
/// order.
fn copy_without(source: &[Ix], target: &mut [Ix], axis: usize)
    requires
        axis < source@.len(),
        old(target)@.len() + 1 == source@.len(),
    ensures
        final(target)@ == source@.remove(axis as int),
{
    let n = source.len();
    let mut i: usize = 0;
    let mut filled: usize = 0;
    while i < n
        invariant
            i <= n,
            n == source@.len(),
            target@.len() + 1 == n,
            axis < n,
            filled == if i <= axis {
                i as int
            } else {
                i - 1
            },
            forall|j: int| 0 <= j < filled ==> target@[j] == source@.remove(axis as int)[j],
        decreases n - i,
    {
        if i != axis {
            target[filled] = source[i];
            filled += 1;
        }
        i += 1;
    }
    assert(target@ =~= source@.remove(axis as int));
}

impl RemoveAxis for Ix1 {
    type Smaller = Ix0;

    fn remove_axis(&self, axis: Axis) -> (smaller: Ix0) {
        let smaller = Ix0();
        assert(smaller@ =~= self@.remove(axis.0 as int));
        smaller
    }
}

impl RemoveAxis for Ix2 {
    type Smaller = Ix1;

    fn remove_axis(&self, axis: Axis) -> (smaller: Ix1) {
        let axis = axis.axis();
        let smaller = if axis == 0 {
            Ix1(self.ix()[1])
        } else {
            Ix1(self.ix()[0])
        };
        assert(smaller@ =~= self@.remove(axis as int));
        smaller
    }
}

impl RemoveAxis for Ix3 {
    type Smaller = Ix2;

    fn remove_axis(&self, axis: Axis) -> (smaller: Ix2) {
        let mut tup = Dim::new([0, 0]);
        copy_without(self.slice(), tup.slice_mut(), axis.axis());
        tup
    }
}

impl RemoveAxis for Ix4 {
    type Smaller = Ix3;

    fn remove_axis(&self, axis: Axis) -> (smaller: Ix3) {
        let mut tup = Dim::new([0, 0, 0]);
        copy_without(self.slice(), tup.slice_mut(), axis.axis());
        tup
    }
}

impl RemoveAxis for Ix5 {
    type Smaller = Ix4;

    fn remove_axis(&self, axis: Axis) -> (smaller: Ix4) {
        let mut tup = Dim::new([0, 0, 0, 0]);
        copy_without(self.slice(), tup.slice_mut(), axis.axis());
        tup
    }
}

impl RemoveAxis for IxDyn {
    type Smaller = IxDyn;

    fn remove_axis(&self, axis: Axis) -> (smaller: IxDyn) {
        let mut words = self.ix().clone();
        words.remove(axis.axis());
        Dim::new(words)
    }
}

/// Removing an axis undoes inserting one at the same place: a shape built by
/// inserting an extent at `axis` gives back the shape it was built from when that
/// axis is removed.
pub proof fn lemma_remove_inserted_axis(extents: Seq<usize>, axis: int, extent: usize)
    requires
        0 <= axis <= extents.len(),
    ensures
        extents.insert(axis, extent).remove(axis) == extents,
{
    assert(extents.insert(axis, extent).remove(axis) =~= extents);
}

/// The shape that is left when one axis is taken out, written out position
/// by position: the extents before the axis stay in place and those after it
/// move up by one.
pub open spec fn without_axis(extents: Seq<usize>, axis: int) -> Seq<usize> {
    Seq::new(
        (extents.len() - 1) as nat,
        |k: int|
            if k < axis {
                extents[k]
            } else {
                extents[k + 1]
            },
    )
}

/// Removing an axis gives the shape written out without it, and so the
/// row-major strides derived after the removal are those of that smaller
/// shape derived directly.
pub proof fn lemma_strides_after_removal(extents: Seq<usize>, axis: int)
    requires
        0 <= axis < extents.len(),
    ensures
        extents.remove(axis) == without_axis(extents, axis),
        row_major_strides(extents.remove(axis)) == row_major_strides(without_axis(extents, axis)),
{
    assert(extents.remove(axis) =~= without_axis(extents, axis));
}

/// Removing an axis does not change the product of the other extents.
pub proof fn lemma_product_remove(extents: Seq<usize>, axis: int)
    requires
        0 <= axis < extents.len(),
    ensures
        product(extents) == product(extents.remove(axis)) * extents[axis],
{
    let n = extents.len() as int;
    let front = extents.take(axis);
    let back = extents.subrange(axis + 1, n);
    let head = seq![extents[axis]];
    assert(extents =~= front + (head + back));
    assert(extents.remove(axis) =~= front + back);
    lemma_product_concat(front, head + back);
    lemma_product_concat(head, back);
    lemma_product_concat(front, back);
    lemma_product_rank1(head);
    let a = product(front) as int;
    let b = product(back) as int;
    let x = extents[axis] as int;
    assert(a * (x * b) == (a * b) * x) by (nonlinear_arith);
}

/// Deriving row-major strides commutes with removing an axis that no other
/// stride depends on: the outermost axis, or an axis of extent 1. The
/// row-major strides of the smaller shape are then the strides of the larger
/// one without the entry of the removed axis.
pub proof fn lemma_remove_axis_row_major(extents: Seq<usize>, axis: int)
    requires
        0 <= axis < extents.len(),
        axis == 0 || extents[axis] == 1,
    ensures
        row_major_strides(extents.remove(axis)) == row_major_strides(extents).remove(axis),
{
    let n = extents.len() as int;
    let smaller = extents.remove(axis);
    let left = row_major_strides(smaller);
    let right = row_major_strides(extents).remove(axis);
    assert forall|k: int| 0 <= k < n - 1 implies left[k] == right[k] by {
        if k < axis {
            let run = extents.subrange(k + 1, n);
            assert(smaller.subrange(k + 1, n - 1) =~= run.remove(axis - k - 1));
            lemma_product_remove(run, axis - k - 1);
            assert(run[axis - k - 1] == 1);
            assert(product(run.remove(axis - k - 1)) * 1 == product(run.remove(axis - k - 1)));
        } else {
            assert(smaller.subrange(k + 1, n - 1) =~= extents.subrange(k + 2, n));
        }
    }
    assert(left =~= right);
}

} // verus!
