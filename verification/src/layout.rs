//! Properties of a shape paired with strides: contiguity, aliasing, and
//! whether the pair may address a buffer of a given length.

use vstd::prelude::*;
use crate::dimension::Dimension;
use crate::error::{from_kind, ErrorKind, ShapeError};
use crate::indexing::{
    index_in_bounds, lemma_partial_offset_next, offset_sum, offsets_fit, partial_offset,
};
use crate::offset::{axis_offset, fits_signed, signed, to_signed, to_unsigned, unsigned, Ix};
use crate::order::{is_stride_order, stride_order};
use crate::shape::{
    all_nonzero, checked_size, lemma_prefixes_fit_whole, lemma_product_zero, lemma_wrap_small,
    prefixes_fit, product, row_major_strides, wrap, wrapped_size,
};

verus! {

/// The extents picked in the given order of axes.
pub open spec fn gathered(extents: Seq<usize>, order: Seq<usize>) -> Seq<usize> {
    Seq::new(order.len(), |k: int| extents[order[k] as int])
}

/// Whether, walking the axes in `order`, the stride of every axis of extent
/// other than 1 equals the wrapped product of the extents of the axes walked
/// before it.
pub open spec fn packed_in_order(
    extents: Seq<usize>,
    strides: Seq<usize>,
    order: Seq<usize>,
) -> bool {
    forall|k: int|
        0 <= k < order.len() ==> {
            let axis = #[trigger] order[k] as int;
            extents[axis] != 1 ==> strides[axis] == wrap(product(gathered(extents, order).take(k)))
        }
}

/// Whether the strides lay the shape out without gaps: they are the
/// row-major strides, or, for a rank other than 1, they are packed along
/// their own order from fastest to slowest varying axis.
pub open spec fn contiguous(extents: Seq<usize>, strides: Seq<usize>) -> bool {
    strides == row_major_strides(extents) || (extents.len() != 1 && packed_in_order(
        extents,
        strides,
        stride_order(strides),
    ))
}

/// The memory span claimed before the `k`-th axis of `order` is reached: 1
/// for the first axis, else extent times stride of the axis before it.
pub open spec fn span_before(
    extents: Seq<usize>,
    strides: Seq<usize>,
    order: Seq<usize>,
    k: int,
) -> int {
    if k == 0 {
        1
    } else {
        axis_offset(extents[order[k - 1] as int], strides[order[k - 1] as int])
    }
}

/// Whether the `k`-th axis of `order` has an extent other than 1 and a stride
/// below the span claimed before it.
pub open spec fn overlaps_at(
    extents: Seq<usize>,
    strides: Seq<usize>,
    order: Seq<usize>,
    k: int,
) -> bool {
    &&& extents[order[k] as int] != 1
    &&& signed(strides[order[k] as int]) < span_before(extents, strides, order, k)
}

/// Whether some axis, walking the axes in `order`, overlaps what the axes
/// before it claim.
pub open spec fn overlaps_in_order(
    extents: Seq<usize>,
    strides: Seq<usize>,
    order: Seq<usize>,
) -> bool {
    exists|k: int| 0 <= k < order.len() && #[trigger] overlaps_at(extents, strides, order, k)
}

/// Whether the strides may map two indices of the shape to one element, as
/// judged along the order of the strides from fastest to slowest varying.
pub open spec fn overlapping(extents: Seq<usize>, strides: Seq<usize>) -> bool {
    overlaps_in_order(extents, strides, stride_order(strides))
}

/// The index whose every component is the last of its axis.
pub open spec fn last_index(extents: Seq<usize>) -> Seq<usize> {
    Seq::new(extents.len(), |k: int| (extents[k] - 1) as usize)
}

/// Whether a stride is refused for a shape of `size` elements: it is below 1
/// and the shape is not empty, or it is negative.
pub open spec fn stride_refused(size: nat, stride: usize) -> bool {
    signed(stride) < 1 && (size != 0 || signed(stride) < 0)
}

/// Whether some stride is refused for a shape of `size` elements.
pub open spec fn some_stride_refused(size: nat, strides: Seq<usize>) -> bool {
    exists|k: int| 0 <= k < strides.len() && stride_refused(size, #[trigger] strides[k])
}

/// Whether the offset of the last index cannot be computed in the signed
/// range or, stored as a word, does not lie within a buffer of `length`
/// elements.
pub open spec fn last_offset_outside(
    length: nat,
    extents: Seq<usize>,
    strides: Seq<usize>,
) -> bool {
    !offsets_fit(last_index(extents), strides) || unsigned(
        offset_sum(last_index(extents), strides),
    ) >= length
}

/// The verdict on addressing a buffer of `length` elements by a shape and
/// strides, with the reason where the verdict is a refusal.
pub open spec fn layout_verdict(length: nat, extents: Seq<usize>, strides: Seq<usize>) -> Result<
    (),
    ErrorKind,
> {
    if !prefixes_fit(extents) {
        Err(ErrorKind::OutOfBounds)
    } else if some_stride_refused(product(extents), strides) {
        Err(ErrorKind::Unsupported)
    } else if product(extents) == 0 {
        Ok(())
    } else if last_offset_outside(length, extents, strides) {
        Err(ErrorKind::OutOfBounds)
    } else if overlapping(extents, strides) {
        Err(ErrorKind::Unsupported)
    } else {
        Ok(())
    }
}

/// Computes extent times stride, both read as signed numbers, in a type wide
/// enough for every product of two words.
fn wide_offset(n: Ix, stride: Ix) -> (span: i128)
    ensures
        span == axis_offset(n, stride),
{
    let a: i128 = to_signed(n) as i128;
    let b: i128 = to_signed(stride) as i128;
    assert(-0x4000_0000_0000_0000_0000_0000_0000_0000 <= a * b
        <= 0x4000_0000_0000_0000_0000_0000_0000_0000) by (nonlinear_arith)
        requires
            -0x8000_0000_0000_0000 <= a <= 0x8000_0000_0000_0000,
            -0x8000_0000_0000_0000 <= b <= 0x8000_0000_0000_0000,
    ;
    a * b
}

/// Checks whether the given shape and strides may map two indices to the same
/// element.
///
/// There is overlap if, walking the axes from the fastest varying to the
/// slowest, an axis of extent other than 1 has a stride smaller than extent
/// times stride of the axis before it, or smaller than 1 for the first axis.
/// The answer is meaningful for positive strides only.
pub fn dim_stride_overlap<D: Dimension>(dim: &D, strides: &D) -> (overlap: bool)
    requires
        dim@.len() == strides@.len(),
    ensures
        overlap == overlapping(dim@, strides@),
{
    let order = strides._fastest_varying_stride_order();
    let extents = dim.slice();
    let steps = strides.slice();
    let axes = order.slice();
    let n = axes.len();
    let mut prev_offset: i128 = 1;
    let mut k: usize = 0;
    while k < n
        invariant
            k <= n,
            n == dim@.len(),
            n == strides@.len(),
            extents@ == dim@,
            steps@ == strides@,
            axes@ == order@,
            is_stride_order(strides@, order@),
            stride_order(strides@) == order@,
            prev_offset == span_before(dim@, strides@, order@, k as int),
            forall|j: int| 0 <= j < k ==> !overlaps_at(dim@, strides@, order@, j),
        decreases n - k,
    {
        let index: usize = axes[k];
        let d: usize = extents[index];
        let s: usize = steps[index];
        // any stride is ok if the extent is 1
        if d != 1 && (to_signed(s) as i128) < prev_offset {
            assert(overlaps_at(dim@, strides@, order@, k as int));
            return true;
        }
        prev_offset = wide_offset(d, s);
        k += 1;
    }
    false
}

/// Computes the offset of `index` under `strides`, or `None` if `index` lies
/// outside the shape or the calculation would leave the signed range.
pub fn stride_offset_checked_arithmetic<D: Dimension>(dim: &D, strides: &D, index: &D) -> (offset:
    Option<isize>)
    requires
        dim@.len() == strides@.len(),
        dim@.len() == index@.len(),
    ensures
        match offset {
            Some(sum) => index_in_bounds(dim@, index@) && offsets_fit(index@, strides@) && sum
                == offset_sum(index@, strides@),
            None => !index_in_bounds(dim@, index@) || !offsets_fit(index@, strides@),
        },
{
    let extents = dim.slice();
    let steps = strides.slice();
    let components = index.slice();
    let n = extents.len();
    let mut offset: isize = 0;
    let mut k: usize = 0;
    proof {
        if n > 0 {
            lemma_partial_offset_next(index@, strides@, 0);
        }
    }
    while k < n
        invariant
            k <= n,
            n == dim@.len(),
            n == strides@.len(),
            n == index@.len(),
            extents@ == dim@,
            steps@ == strides@,
            components@ == index@,
            offset == partial_offset(index@, strides@, k as int),
            forall|j: int| 0 <= j < k ==> index@[j] < dim@[j],
            forall|j: int|
                0 <= j < k ==> fits_signed(#[trigger] axis_offset(index@[j], strides@[j])),
            forall|j: int|
                0 <= j <= k ==> fits_signed(#[trigger] partial_offset(index@, strides@, j)),
        decreases n - k,
    {
        let d: usize = extents[k];
        let i: usize = components[k];
        let s: usize = steps[k];
        if i >= d {
            return None;
        }
        proof {
            lemma_partial_offset_next(index@, strides@, k as int);
        }
        match to_signed(i).checked_mul(to_signed(s)) {
            Some(term) => match term.checked_add(offset) {
                Some(sum) => {
                    offset = sum;
                },
                None => {
                    assert(!fits_signed(partial_offset(index@, strides@, k + 1)));
                    return None;
                },
            },
            None => {
                assert(!fits_signed(axis_offset(index@[k as int], strides@[k as int])));
                return None;
            },
        }
        k += 1;
    }
    proof {
        if n > 0 {
            lemma_partial_offset_next(index@, strides@, 0);
        }
        assert(index@.take(n as int) =~= index@);
        assert(strides@.take(n as int) =~= strides@);
    }
    Some(offset)
}

/// Checks whether the given shape and strides are memory safe to index the
/// provided slice.
///
/// To be safe, no stride may be negative, no stride may be zero unless the
/// shape is empty, the offset of the last element must lie within the slice,
/// and the strides must not let two indices refer to the same element.
pub fn can_index_slice<A, D: Dimension>(data: &[A], dim: &D, strides: &D) -> (verdict: Result<
    (),
    ShapeError,
>)
    requires
        dim@.len() == strides@.len(),
    ensures
        match verdict {
            Ok(_) => layout_verdict(data@.len(), dim@, strides@) is Ok,
            Err(error) => layout_verdict(data@.len(), dim@, strides@) == Err::<(), ErrorKind>(
                error@,
            ),
        },
{
    // check lengths of axes.
    let len = match dim.size_checked() {
        Some(l) => l,
        None => {
            return Err(from_kind(ErrorKind::OutOfBounds));
        },
    };
    proof {
        lemma_prefixes_fit_whole(dim@);
    }
    // check if strides are strictly positive (zero ok for len 0)
    let steps = strides.slice();
    let n = steps.len();
    let mut k: usize = 0;
    while k < n
        invariant
            k <= n,
            n == strides@.len(),
            steps@ == strides@,
            prefixes_fit(dim@),
            len == product(dim@),
            forall|j: int| 0 <= j < k ==> !stride_refused(product(dim@), #[trigger] strides@[j]),
        decreases n - k,
    {
        let s: isize = to_signed(steps[k]);
        if s < 1 && (len != 0 || s < 0) {
            assert(stride_refused(product(dim@), strides@[k as int]));
            return Err(from_kind(ErrorKind::Unsupported));
        }
        k += 1;
    }
    if len == 0 {
        return Ok(());
    }
    // check that the maximum index is in bounds
    proof {
        lemma_product_zero(dim@);
    }
    let mut last = dim.duplicate();
    let mut k: usize = 0;
    while k < n
        invariant
            k <= n,
            n == dim@.len(),
            n == last@.len(),
            all_nonzero(dim@),
            forall|j: int| 0 <= j < k ==> last@[j] == dim@[j] - 1,
            forall|j: int| k <= j < n ==> last@[j] == dim@[j],
        decreases n - k,
    {
        let extent: usize = last.slice()[k];
        last.slice_mut()[k] = extent - 1;
        k += 1;
    }
    assert(last@ =~= last_index(dim@));
    match stride_offset_checked_arithmetic(dim, strides, &last) {
        Some(offset) => {
            if to_unsigned(offset) >= data.len() {
                return Err(from_kind(ErrorKind::OutOfBounds));
            }
            if dim_stride_overlap(dim, strides) {
                return Err(from_kind(ErrorKind::Unsupported));
            }
        },
        None => {
            return Err(from_kind(ErrorKind::OutOfBounds));
        },
    }
    Ok(())
}

/// Row-major strides are contiguous: every shape is laid out without gaps by
/// its own row-major strides.
pub proof fn lemma_row_major_contiguous(extents: Seq<usize>)
    ensures
        contiguous(extents, row_major_strides(extents)),
{
}

/// A shape with an empty axis has no elements, in exact and in wrapping
/// arithmetic.
pub proof fn lemma_empty_axis_size(extents: Seq<usize>)
    requires
        !all_nonzero(extents),
    ensures
        product(extents) == 0,
        wrapped_size(extents) == 0,
        prefixes_fit(extents) ==> checked_size(extents) == Some(0usize),
{
    lemma_product_zero(extents);
    lemma_wrap_small(0);
}

/// A shape with an empty axis may address any buffer with any strides of
/// which none is negative, provided that multiplying its extents from the
/// outermost axis inwards does not overflow before the empty axis is
/// reached.
pub proof fn lemma_empty_axis_indexable(length: nat, extents: Seq<usize>, strides: Seq<usize>)
    requires
        !all_nonzero(extents),
        prefixes_fit(extents),
        forall|k: int| 0 <= k < strides.len() ==> signed(#[trigger] strides[k]) >= 0,
    ensures
        layout_verdict(length, extents, strides) is Ok,
{
    lemma_product_zero(extents);
}

/// Under strides that are all positive, the offset of an index of the shape
/// grows with every axis and stays at or below that of the last index, as far
/// as the first `k` axes go.
proof fn lemma_partial_offset_below_last(
    extents: Seq<usize>,
    strides: Seq<usize>,
    index: Seq<usize>,
    k: int,
)
    requires
        extents.len() == strides.len(),
        index_in_bounds(extents, index),
        forall|j: int| 0 <= j < extents.len() ==> extents[j] <= isize::MAX,
        forall|j: int| 0 <= j < strides.len() ==> signed(#[trigger] strides[j]) >= 1,
        0 <= k <= extents.len(),
    ensures
        0 <= partial_offset(index, strides, k) <= partial_offset(last_index(extents), strides, k),
        k > 0 ==> 0 <= axis_offset(index[k - 1], strides[k - 1]) <= axis_offset(
            last_index(extents)[k - 1],
            strides[k - 1],
        ),
    decreases k,
{
    if k == 0 {
        assert(index.take(0).len() == 0);
        assert(last_index(extents).take(0).len() == 0);
    } else {
        let last = last_index(extents);
        lemma_partial_offset_below_last(extents, strides, index, k - 1);
        lemma_partial_offset_next(index, strides, k - 1);
        lemma_partial_offset_next(last, strides, k - 1);
        let step = signed(strides[k - 1]);
        let here = index[k - 1] as int;
        let most = last[k - 1] as int;
        assert(0 <= here * step <= most * step) by (nonlinear_arith)
            requires
                0 <= here <= most,
                step >= 1,
        ;
    }
}

/// An accepted layout keeps every index within the buffer. Where a shape
/// whose extents the signed type can hold is accepted for a buffer of some
/// length together with its strides, the offset of every index of the shape
/// can be summed without overflow, is not negative, and lies below that
/// length.
pub proof fn lemma_accepted_layout_in_bounds(
    length: nat,
    extents: Seq<usize>,
    strides: Seq<usize>,
    index: Seq<usize>,
)
    requires
        extents.len() == strides.len(),
        forall|j: int| 0 <= j < extents.len() ==> extents[j] <= isize::MAX,
        layout_verdict(length, extents, strides) is Ok,
        index_in_bounds(extents, index),
    ensures
        offsets_fit(index, strides),
        0 <= offset_sum(index, strides) < length,
{
    let last = last_index(extents);
    let n = extents.len() as int;
    lemma_product_zero(extents);
    assert(all_nonzero(extents));
    assert forall|j: int| 0 <= j < strides.len() implies signed(#[trigger] strides[j]) >= 1 by {
        assert(!stride_refused(product(extents), strides[j]));
    }
    assert(offsets_fit(last, strides));
    assert forall|k: int| 0 <= k < index.len() implies fits_signed(
        #[trigger] axis_offset(index[k], strides[k]),
    ) by {
        lemma_partial_offset_below_last(extents, strides, index, k + 1);
        assert(fits_signed(axis_offset(last[k], strides[k])));
    }
    assert forall|k: int| 0 <= k <= index.len() implies fits_signed(
        #[trigger] partial_offset(index, strides, k),
    ) by {
        lemma_partial_offset_below_last(extents, strides, index, k);
        assert(fits_signed(partial_offset(last, strides, k)));
    }
    lemma_partial_offset_below_last(extents, strides, index, n);
    assert(index.take(n) =~= index);
    assert(last.take(n) =~= last);
    assert(strides.take(n) =~= strides);
}

} // verus!
