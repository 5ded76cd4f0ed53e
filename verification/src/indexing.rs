//! Indices of a shape: validity, linear offsets and row-major enumeration.

use vstd::prelude::*;
use crate::offset::{axis_offset, fits_signed};

verus! {

/// Whether `index` has one component per axis of the shape, each strictly
/// below the extent of its axis.
pub open spec fn index_in_bounds(extents: Seq<usize>, index: Seq<usize>) -> bool {
    &&& index.len() == extents.len()
    &&& forall|k: int| 0 <= k < index.len() ==> index[k] < extents[k]
}

/// The linear offset of `index` under `strides`: the sum over all axes of the
/// component times the stride, both read as signed numbers.
pub open spec fn offset_sum(index: Seq<usize>, strides: Seq<usize>) -> int
    decreases index.len(),
{
    if index.len() == 0 {
        0
    } else {
        offset_sum(index.drop_last(), strides.drop_last()) + axis_offset(
            index.last(),
            strides.last(),
        )
    }
}

/// The part of the offset that the first `k` axes contribute.
pub open spec fn partial_offset(index: Seq<usize>, strides: Seq<usize>, k: int) -> int {
    offset_sum(index.take(k), strides.take(k))
}

/// Whether the offset can be summed axis by axis from the outermost one
/// without leaving the signed range: every term and every running sum fits.
pub open spec fn offsets_fit(index: Seq<usize>, strides: Seq<usize>) -> bool {
    &&& forall|k: int|
        0 <= k < index.len() ==> fits_signed(#[trigger] axis_offset(index[k], strides[k]))
    &&& forall|k: int|
        0 <= k <= index.len() ==> fits_signed(#[trigger] partial_offset(index, strides, k))
}

/// The offset of `index` if it lies within the shape.
pub open spec fn checked_offset(
    extents: Seq<usize>,
    strides: Seq<usize>,
    index: Seq<usize>,
) -> Option<int> {
    if index_in_bounds(extents, index) {
        Some(offset_sum(index, strides))
    } else {
        None
    }
}

/// Whether `k` is the axis that advances when `index` steps to its successor
/// in row-major order: the innermost axis whose component is not the last of
/// its axis.
pub open spec fn advances_at(extents: Seq<usize>, index: Seq<usize>, k: int) -> bool {
    &&& 0 <= k < index.len()
    &&& index[k] + 1 < extents[k]
    &&& forall|j: int| k < j < index.len() ==> index[j] + 1 == extents[j]
}

/// `index` after a step at axis `k`: that component grows by one and all
/// components after it restart at zero.
pub open spec fn advanced(index: Seq<usize>, k: int) -> Seq<usize> {
    Seq::new(
        index.len(),
        |j: int|
            if j < k {
                index[j]
            } else if j == k {
                (index[k] + 1) as usize
            } else {
                0usize
            },
    )
}

/// Whether `index` is the last index of the shape in row-major order.
pub open spec fn is_last_index(extents: Seq<usize>, index: Seq<usize>) -> bool {
    forall|j: int| 0 <= j < index.len() ==> index[j] + 1 == extents[j]
}

/// The index that follows `index` in row-major order, if there is one.
pub open spec fn successor(extents: Seq<usize>, index: Seq<usize>) -> Option<Seq<usize>> {
    if exists|k: int| advances_at(extents, index, k) {
        Some(advanced(index, choose|k: int| advances_at(extents, index, k)))
    } else {
        None
    }
}

/// The place of `index` in the row-major enumeration of the shape, counted
/// from 0: the innermost axis counts single steps, and every other axis counts
/// in units of the number of indices of the axes after it.
pub open spec fn position(extents: Seq<usize>, index: Seq<usize>) -> int
    decreases index.len(),
{
    if index.len() == 0 {
        0
    } else {
        position(extents.drop_last(), index.drop_last()) * extents.last() + index.last()
    }
}

/// The running offset grows by the term of the next axis.
pub proof fn lemma_partial_offset_next(index: Seq<usize>, strides: Seq<usize>, k: int)
    requires
        0 <= k < index.len(),
        index.len() == strides.len(),
    ensures
        partial_offset(index, strides, k + 1) == partial_offset(index, strides, k) + axis_offset(
            index[k],
            strides[k],
        ),
        partial_offset(index, strides, 0) == 0,
        partial_offset(index, strides, index.len() as int) == offset_sum(index, strides),
{
    assert(index.take(k + 1).drop_last() =~= index.take(k));
    assert(strides.take(k + 1).drop_last() =~= strides.take(k));
    assert(index.take(index.len() as int) =~= index);
    assert(strides.take(index.len() as int) =~= strides);
}

/// Only one axis can be the one that advances.
pub proof fn lemma_advances_at_unique(extents: Seq<usize>, index: Seq<usize>, k: int)
    requires
        advances_at(extents, index, k),
    ensures
        successor(extents, index) == Some(advanced(index, k)),
{
    let chosen = choose|k: int| advances_at(extents, index, k);
    if chosen < k {
        assert(index[k] + 1 == extents[k]);
    }
    if k < chosen {
        assert(index[chosen] + 1 == extents[chosen]);
    }
}

/// An index within the shape has no successor exactly when it is the last.
pub proof fn lemma_no_successor(extents: Seq<usize>, index: Seq<usize>)
    requires
        is_last_index(extents, index),
    ensures
        successor(extents, index) is None,
{
    if exists|k: int| advances_at(extents, index, k) {
        let k = choose|k: int| advances_at(extents, index, k);
        assert(index[k] + 1 == extents[k]);
    }
}

} // verus!
