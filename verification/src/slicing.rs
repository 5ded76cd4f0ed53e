//! Slicing one axis at a time: range descriptors and what they do to an
//! extent, to a stride and to the position of the first element.

use vstd::prelude::*;
use vstd::arithmetic::div_mod::{
    lemma_div_pos_is_pos, lemma_fundamental_div_mod, lemma_mod_pos_bound,
};
use crate::dimension::Dimension;
use crate::offset::{
    axis_offset, fits_signed, lemma_unsigned_signed, resolved_index, signed, stride_offset,
    to_signed, unsigned, Ix, Ixs,
};

verus! {

/// A range descriptor for one axis: start, optional end, and step.
///
/// A negative start or end counts from the end of the axis. A missing end
/// stands for the length of the axis. The step is not zero; a negative step
/// walks the selected range backwards.
#[derive(Copy, Clone, Debug, PartialEq, Eq, Hash)]
pub struct Si(pub Ixs, pub Option<Ixs>, pub Ixs);

/// The absolute value of a step.
pub open spec fn magnitude(step: int) -> int {
    if step < 0 {
        -step
    } else {
        step
    }
}

/// The end that a descriptor names on an axis, before it is resolved: the
/// extent of the axis where the descriptor has none.
pub open spec fn named_end(extent: usize, slice: Si) -> int {
    match slice.1 {
        Some(end) => end as int,
        None => extent as int,
    }
}

/// The first position that the descriptor selects on an axis of the given
/// extent.
pub open spec fn slice_start(extent: usize, slice: Si) -> int {
    resolved_index(extent as int, slice.0 as int)
}

/// The position after the last one that the descriptor selects: the resolved
/// end, raised to the start where it lies before it.
pub open spec fn slice_end(extent: usize, slice: Si) -> int {
    let end = resolved_index(extent as int, named_end(extent, slice));
    if end < slice_start(extent, slice) {
        slice_start(extent, slice)
    } else {
        end
    }
}

/// The extent of the axis after slicing: the length of the selected range
/// divided by the size of the step, rounded up.
pub open spec fn sliced_extent(extent: usize, slice: Si) -> int {
    let length = slice_end(extent, slice) - slice_start(extent, slice);
    let by = magnitude(slice.2 as int);
    length / by + if length % by > 0 {
        1int
    } else {
        0int
    }
}

/// The stride of the axis after slicing, as a signed number.
pub open spec fn sliced_stride(stride: usize, slice: Si) -> int {
    signed(stride) * slice.2
}

/// The part of the displacement that the start of the range contributes.
pub open spec fn start_shift(extent: usize, stride: usize, slice: Si) -> int {
    slice_start(extent, slice) * signed(stride)
}

/// The part of the displacement that re-anchors an axis walked backwards:
/// one less than the new extent, times the stride before slicing.
pub open spec fn reversal_shift(extent: usize, stride: usize, slice: Si) -> int {
    if slice.2 < 0 {
        (sliced_extent(extent, slice) - 1) * signed(stride)
    } else {
        0
    }
}

/// The displacement of the first element that slicing one axis causes.
pub open spec fn slice_shift(extent: usize, stride: usize, slice: Si) -> int {
    start_shift(extent, stride, slice) + reversal_shift(extent, stride, slice)
}

/// Whether the descriptor can be applied to an axis of the given extent and
/// stride: the step is not zero, both resolved bounds lie on the axis, and
/// the new stride and both parts of the displacement are representable.
pub open spec fn slice_applies(extent: usize, stride: usize, slice: Si) -> bool {
    &&& extent <= isize::MAX
    &&& slice.2 != 0
    &&& 0 <= resolved_index(extent as int, slice.0 as int) <= extent
    &&& 0 <= resolved_index(extent as int, named_end(extent, slice)) <= extent
    &&& fits_signed(start_shift(extent, stride, slice))
    &&& fits_signed(reversal_shift(extent, stride, slice))
    &&& fits_signed(sliced_stride(stride, slice))
}

/// The displacement that slicing every axis causes: the sum over the axes.
pub open spec fn total_shift(extents: Seq<usize>, strides: Seq<usize>, slices: Seq<Si>) -> int
    decreases slices.len(),
{
    if slices.len() == 0 {
        0
    } else {
        total_shift(extents.drop_last(), strides.drop_last(), slices.drop_last()) + slice_shift(
            extents.last(),
            strides.last(),
            slices.last(),
        )
    }
}

/// The displacement that slicing the first `k` axes causes.
pub open spec fn partial_shift(
    extents: Seq<usize>,
    strides: Seq<usize>,
    slices: Seq<Si>,
    k: int,
) -> int {
    total_shift(extents.take(k), strides.take(k), slices.take(k))
}

/// Whether one descriptor per axis is given, each applies to its axis, and
/// the displacement can be summed axis by axis without leaving the signed
/// range.
pub open spec fn slices_apply(extents: Seq<usize>, strides: Seq<usize>, slices: Seq<Si>) -> bool {
    &&& slices.len() == extents.len()
    &&& strides.len() == extents.len()
    &&& forall|k: int|
        0 <= k < slices.len() ==> {
            &&& #[trigger] slice_applies(extents[k], strides[k], slices[k])
            &&& fits_signed(
                partial_shift(extents, strides, slices, k) + start_shift(
                    extents[k],
                    strides[k],
                    slices[k],
                ),
            )
            &&& fits_signed(partial_shift(extents, strides, slices, k + 1))
        }
}

/// The extents after slicing every axis.
pub open spec fn sliced_extents(extents: Seq<usize>, slices: Seq<Si>) -> Seq<usize> {
    Seq::new(extents.len(), |k: int| sliced_extent(extents[k], slices[k]) as usize)
}

/// The stored strides after slicing every axis.
pub open spec fn sliced_strides(strides: Seq<usize>, slices: Seq<Si>) -> Seq<usize> {
    Seq::new(strides.len(), |k: int| unsigned(sliced_stride(strides[k], slices[k])) as usize)
}

/// The displacement grows by the shift of the next axis.
pub proof fn lemma_partial_shift_next(
    extents: Seq<usize>,
    strides: Seq<usize>,
    slices: Seq<Si>,
    k: int,
)
    requires
        0 <= k < slices.len(),
        slices.len() == extents.len(),
        slices.len() == strides.len(),
    ensures
        partial_shift(extents, strides, slices, k + 1) == partial_shift(extents, strides, slices, k)
            + slice_shift(extents[k], strides[k], slices[k]),
        partial_shift(extents, strides, slices, 0) == 0,
        partial_shift(extents, strides, slices, slices.len() as int) == total_shift(
            extents,
            strides,
            slices,
        ),
{
    assert(extents.take(k + 1).drop_last() =~= extents.take(k));
    assert(strides.take(k + 1).drop_last() =~= strides.take(k));
    assert(slices.take(k + 1).drop_last() =~= slices.take(k));
    assert(extents.take(slices.len() as int) =~= extents);
    assert(strides.take(slices.len() as int) =~= strides);
    assert(slices.take(slices.len() as int) =~= slices);
}

/// Computes the absolute value of a step as a word.
pub fn step_size(step: Ixs) -> (size: Ix)
    ensures
        size == magnitude(step as int),
{
    if step < 0 {
        let above: isize = -(step + 1);
        above as usize + 1
    } else {
        step as usize
    }
}

/// Stepping through a range keeps no more positions than the range has.
proof fn lemma_kept_at_most(length: int, by: int)
    requires
        length >= 0,
        by >= 1,
    ensures
        0 <= length / by + if length % by > 0 {
            1int
        } else {
            0int
        } <= length,
{
    lemma_fundamental_div_mod(length, by);
    lemma_div_pos_is_pos(length, by);
    lemma_mod_pos_bound(length, by);
    let q = length / by;
    assert(by * q >= q) by (nonlinear_arith)
        requires
            q >= 0,
            by >= 1,
    ;
}

/// Resolves a possibly negative bound against an axis of length `len`, or
/// returns `None` where the position it names does not lie on the axis.
fn bound_on_axis(len: Ixs, bound: Ixs) -> (position: Option<Ix>)
    requires
        len >= 0,
    ensures
        match position {
            Some(at) => at == resolved_index(len as int, bound as int) && at <= len,
            None => !(0 <= resolved_index(len as int, bound as int) <= len),
        },
{
    if bound < 0 {
        if len + bound >= 0 {
            Some((len + bound) as usize)
        } else {
            None
        }
    } else if bound <= len {
        Some(bound as usize)
    } else {
        None
    }
}

/// Decides whether `slices` can be applied to a shape and its strides: one
/// descriptor per axis, no step zero, every bound on its axis, and every
/// number that slicing computes representable.
pub fn slices_applicable<D: Dimension>(dim: &D, strides: &D, slices: &[Si]) -> (applicable: bool)
    ensures
        applicable == slices_apply(dim@, strides@, slices@),
{
    let extents = dim.slice();
    let steps = strides.slice();
    let n = slices.len();
    if extents.len() != n || steps.len() != n {
        return false;
    }
    let mut offset: isize = 0;
    let mut k: usize = 0;
    proof {
        if n > 0 {
            lemma_partial_shift_next(dim@, strides@, slices@, 0);
        }
    }
    while k < n
        invariant
            k <= n,
            n == slices@.len(),
            n == dim@.len(),
            n == strides@.len(),
            extents@ == dim@,
            steps@ == strides@,
            offset == partial_shift(dim@, strides@, slices@, k as int),
            forall|j: int|
                0 <= j < k ==> {
                    &&& #[trigger] slice_applies(dim@[j], strides@[j], slices@[j])
                    &&& fits_signed(
                        partial_shift(dim@, strides@, slices@, j) + start_shift(
                            dim@[j],
                            strides@[j],
                            slices@[j],
                        ),
                    )
                    &&& fits_signed(partial_shift(dim@, strides@, slices@, j + 1))
                },
        decreases n - k,
    {
        let m: usize = extents[k];
        let slice = slices[k];
        let Si(first, named, step) = slice;
        proof {
            lemma_partial_shift_next(dim@, strides@, slices@, k as int);
        }
        if m > isize::MAX as usize || step == 0 {
            assert(!slice_applies(dim@[k as int], strides@[k as int], slices@[k as int]));
            return false;
        }
        let mi: isize = m as isize;
        let last: isize = match named {
            Some(end) => end,
            None => mi,
        };
        let bounds = (bound_on_axis(mi, first), bound_on_axis(mi, last));
        let (start, end): (usize, usize) = match bounds {
            (Some(start), Some(end)) => (start, if end < start {
                start
            } else {
                end
            }),
            _ => {
                assert(!slice_applies(dim@[k as int], strides@[k as int], slices@[k as int]));
                return false;
            },
        };
        let length: usize = end - start;
        let by: usize = step_size(step);
        let kept: usize = length / by + if length % by > 0 {
            1
        } else {
            0
        };
        proof {
            lemma_kept_at_most(length as int, by as int);
        }
        let s: isize = to_signed(steps[k]);
        let reversed: isize = if step < 0 {
            kept as isize - 1
        } else {
            0
        };
        assert(reversed * s == reversal_shift(dim@[k as int], strides@[k as int], slice)) by {
            assert(0 * s == 0);
        }
        let from_start: isize = match (start as isize).checked_mul(s) {
            Some(product) => product,
            None => {
                assert(!slice_applies(dim@[k as int], strides@[k as int], slices@[k as int]));
                return false;
            },
        };
        let from_reversal: isize = match reversed.checked_mul(s) {
            Some(product) => product,
            None => {
                assert(!slice_applies(dim@[k as int], strides@[k as int], slices@[k as int]));
                return false;
            },
        };
        if s.checked_mul(step).is_none() {
            assert(!slice_applies(dim@[k as int], strides@[k as int], slices@[k as int]));
            return false;
        }
        assert(slice_applies(dim@[k as int], strides@[k as int], slices@[k as int]));
        assert(from_start == start_shift(dim@[k as int], strides@[k as int], slices@[k as int]));
        let partial: isize = match offset.checked_add(from_start) {
            Some(sum) => sum,
            None => {
                return false;
            },
        };
        assert(from_reversal == reversal_shift(
            dim@[k as int],
            strides@[k as int],
            slices@[k as int],
        ));
        offset = match partial.checked_add(from_reversal) {
            Some(sum) => sum,
            None => {
                assert(!fits_signed(partial_shift(dim@, strides@, slices@, k + 1)));
                return false;
            },
        };
        assert(fits_signed(
            partial_shift(dim@, strides@, slices@, k as int) + start_shift(
                dim@[k as int],
                strides@[k as int],
                slices@[k as int],
            ),
        ));
        assert(offset == partial_shift(dim@, strides@, slices@, k + 1));
        assert forall|j: int| 0 <= j < k + 1 implies {
            &&& #[trigger] slice_applies(dim@[j], strides@[j], slices@[j])
            &&& fits_signed(
                partial_shift(dim@, strides@, slices@, j) + start_shift(
                    dim@[j],
                    strides@[j],
                    slices@[j],
                ),
            )
            &&& fits_signed(partial_shift(dim@, strides@, slices@, j + 1))
        } by {
            if j < k {
                assert(slice_applies(dim@[j], strides@[j], slices@[j]));
            }
        }
        k += 1;
    }
    true
}

/// Collapses axis `axis` to extent 1 and returns the displacement of the
/// subarray that `index` selects along it.
pub fn do_sub<D: Dimension>(dims: &mut D, strides: &D, axis: usize, index: Ix) -> (shift: isize)
    requires
        axis < old(dims)@.len(),
        axis < strides@.len(),
        index < old(dims)@[axis as int],
        fits_signed(axis_offset(index, strides@[axis as int])),
    ensures
        final(dims)@ == old(dims)@.update(axis as int, 1),
        shift == axis_offset(index, strides@[axis as int]),
{
    let stride = strides.slice()[axis];
    dims.slice_mut()[axis] = 1;
    stride_offset(index, stride)
}

/// Whether the descriptor selects the whole of an axis of the given extent
/// in its own order: from 0 to the extent, or to no named end, by step 1.
pub open spec fn is_full_range(extent: usize, slice: Si) -> bool {
    &&& slice.0 == 0
    &&& slice.2 == 1
    &&& slice.1 matches Some(end) ==> end == extent
}

/// Slicing every axis over its full range by step 1 changes nothing: such
/// descriptors apply to any shape whose extents the signed type can hold,
/// they leave the extents and the strides as they are, and the displacement
/// is zero.
pub proof fn lemma_full_slices_change_nothing(
    extents: Seq<usize>,
    strides: Seq<usize>,
    slices: Seq<Si>,
)
    requires
        slices.len() == extents.len(),
        strides.len() == extents.len(),
        forall|k: int| 0 <= k < extents.len() ==> extents[k] <= isize::MAX,
        forall|k: int| 0 <= k < slices.len() ==> is_full_range(extents[k], #[trigger] slices[k]),
    ensures
        slices_apply(extents, strides, slices),
        sliced_extents(extents, slices) == extents,
        sliced_strides(strides, slices) == strides,
        total_shift(extents, strides, slices) == 0,
{
    assert forall|k: int| 0 <= k < slices.len() implies {
        &&& #[trigger] slice_applies(extents[k], strides[k], slices[k])
        &&& sliced_extent(extents[k], slices[k]) == extents[k]
        &&& unsigned(sliced_stride(strides[k], slices[k])) == strides[k]
        &&& slice_shift(extents[k], strides[k], slices[k]) == 0
    } by {
        lemma_full_slice(extents[k], strides[k], slices[k]);
    }
    assert forall|k: int| 0 <= k <= slices.len() implies #[trigger] partial_shift(
        extents,
        strides,
        slices,
        k,
    ) == 0 by {
        lemma_full_slices_shift(extents, strides, slices, k);
    }
    assert(extents.take(slices.len() as int) =~= extents);
    assert(strides.take(slices.len() as int) =~= strides);
    assert(slices.take(slices.len() as int) =~= slices);
    assert(partial_shift(extents, strides, slices, slices.len() as int) == 0);
    assert forall|k: int| 0 <= k < slices.len() implies {
        &&& fits_signed(
            partial_shift(extents, strides, slices, k) + start_shift(
                extents[k],
                strides[k],
                slices[k],
            ),
        )
        &&& fits_signed(partial_shift(extents, strides, slices, k + 1))
    } by {
        assert(slice_applies(extents[k], strides[k], slices[k]));
        assert(partial_shift(extents, strides, slices, k) == 0);
        assert(partial_shift(extents, strides, slices, k + 1) == 0);
    }
    assert forall|k: int| 0 <= k < extents.len() implies sliced_extents(extents, slices)[k]
        == extents[k] && sliced_strides(strides, slices)[k] == strides[k] by {
        lemma_full_slice(extents[k], strides[k], slices[k]);
    }
    assert(sliced_extents(extents, slices) =~= extents);
    assert(sliced_strides(strides, slices) =~= strides);
}

/// The full range by step 1 applies to an axis and changes neither its
/// extent nor its stride nor the position of its first element.
proof fn lemma_full_slice(extent: usize, stride: usize, slice: Si)
    requires
        extent <= isize::MAX,
        is_full_range(extent, slice),
    ensures
        slice_applies(extent, stride, slice),
        sliced_extent(extent, slice) == extent,
        unsigned(sliced_stride(stride, slice)) == stride,
        start_shift(extent, stride, slice) == 0,
        slice_shift(extent, stride, slice) == 0,
{
    lemma_unsigned_signed(stride);
    assert(slice_start(extent, slice) == 0);
    assert(slice_end(extent, slice) == extent);
    assert(0 * signed(stride) == 0);
    assert(signed(stride) * 1 == signed(stride));
    assert(extent as int / 1 == extent as int && extent as int % 1 == 0);
}

/// Full ranges by step 1 displace nothing, up to any axis.
proof fn lemma_full_slices_shift(
    extents: Seq<usize>,
    strides: Seq<usize>,
    slices: Seq<Si>,
    k: int,
)
    requires
        slices.len() == extents.len(),
        strides.len() == extents.len(),
        0 <= k <= slices.len(),
        forall|j: int| 0 <= j < extents.len() ==> extents[j] <= isize::MAX,
        forall|j: int| 0 <= j < slices.len() ==> is_full_range(extents[j], #[trigger] slices[j]),
    ensures
        partial_shift(extents, strides, slices, k) == 0,
    decreases k,
{
    if k > 0 {
        lemma_full_slices_shift(extents, strides, slices, k - 1);
        lemma_partial_shift_next(extents, strides, slices, k - 1);
        assert(is_full_range(extents[k - 1], slices[k - 1]));
        lemma_full_slice(extents[k - 1], strides[k - 1], slices[k - 1]);
    } else {
        assert(slices.take(0).len() == 0);
    }
}

} // verus!
