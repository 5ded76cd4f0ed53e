//! The capability set shared by shapes of every rank.

use vstd::prelude::*;
use crate::indexing::{
    advanced, advances_at, index_in_bounds, is_last_index, lemma_advances_at_unique,
    lemma_no_successor, lemma_partial_offset_next, offset_sum, offsets_fit, partial_offset,
    successor,
};
use crate::layout::{contiguous, gathered};
use crate::offset::{
    abs_index, axis_offset, fits_signed, stride_offset, to_signed, to_unsigned, Ix,
};
use crate::order::{
    is_stride_order, lemma_sorted_identity_is_stride_order, lemma_stride_order_is, number_slots,
    sort_by_stride, stride_order,
};
use crate::slicing::{
    lemma_partial_shift_next, partial_shift, slice_applies, sliced_extents, sliced_strides,
    slices_apply, step_size, total_shift, Si,
};
use crate::shape::{
    all_nonzero, checked_size, column_major_strides, lemma_product_suffix_next,
    lemma_product_take_next, lemma_wrap_mul, lemma_wrap_small, product,
    row_major_strides, wrap, wrapped_size, zero_index,
};

verus! {

/// A value that can be turned into a shape.
pub trait IntoDimension {
    /// The shape type that the value turns into.
    type Dim: Dimension;

    /// The extents that the value lists, in axis order.
    spec fn extents(&self) -> Seq<usize>;

    /// Turns the value into the shape with the same extents.
    fn into_dimension(self) -> (dim: Self::Dim)
        ensures
            dim@ == self.extents(),
    ;
}

/// Array shape and index trait.
///
/// A value of an implementing type holds one word per axis; its view is the
/// sequence of those words. The same type serves as shape, as stride vector
/// and as index.
pub trait Dimension: Sized + Clone + Eq + Send + Sync + Default + View<V = Seq<usize>> {
    /// Pattern matching friendly form of the value, usually a tuple.
    type Pattern;

    /// The words that a pattern lists, in axis order.
    spec fn pattern_extents(pattern: Self::Pattern) -> Seq<usize>;

    /// Returns the number of axes.
    fn ndim(&self) -> (rank: usize)
        ensures
            rank == self@.len(),
    ;

    /// Borrows the words as a slice.
    fn slice(&self) -> (words: &[Ix])
        ensures
            words@ == self@,
    ;

    /// Borrows the words as a slice for writing.
    fn slice_mut(&mut self) -> (words: &mut [Ix])
        ensures
            words@ == old(self)@,
            final(self)@ == final(words)@,
    ;

    /// Returns a copy that holds the same words.
    fn duplicate(&self) -> (copy: Self)
        ensures
            copy@ == self@,
    ;

    /// Converts the value into its pattern.
    fn into_pattern(self) -> (pattern: Self::Pattern)
        ensures
            Self::pattern_extents(pattern) == self@,
    ;

    /// Whether both values hold the same words.
    fn equal(&self, rhs: &Self) -> (same: bool)
        ensures
            same == (self@ == rhs@),
    {
        let a = self.slice();
        let b = rhs.slice();
        if a.len() != b.len() {
            return false;
        }
        let mut k: usize = 0;
        while k < a.len()
            invariant
                k <= a@.len(),
                a@.len() == b@.len(),
                a@ == self@,
                b@ == rhs@,
                forall|j: int| 0 <= j < k ==> a@[j] == b@[j],
            decreases a@.len() - k,
        {
            if a[k] != b[k] {
                return false;
            }
            k += 1;
        }
        assert(a@ =~= b@);
        true
    }

    /// Computes the number of elements in wrapping arithmetic.
    fn size(&self) -> (count: usize)
        ensures
            count == wrapped_size(self@),
            product(self@) <= usize::MAX ==> count == product(self@),
    {
        let extents = self.slice();
        let mut count: usize = 1;
        let mut k: usize = 0;
        proof {
            lemma_wrap_small(1);
        }
        while k < extents.len()
            invariant
                k <= extents@.len(),
                count == wrap(product(extents@.take(k as int))),
            decreases extents@.len() - k,
        {
            proof {
                lemma_product_take_next(extents@, k as int);
                lemma_wrap_mul(product(extents@.take(k as int)), extents@[k as int]);
            }
            count = count.wrapping_mul(extents[k]);
            k += 1;
        }
        proof {
            assert(extents@.take(k as int) =~= extents@);
            if product(self@) <= usize::MAX {
                lemma_wrap_small(product(self@));
            }
        }
        count
    }

    /// Computes the number of elements while checking for overflow.
    fn size_checked(&self) -> (count: Option<usize>)
        ensures
            count == checked_size(self@),
    {
        let extents = self.slice();
        let mut count: usize = 1;
        let mut k: usize = 0;
        while k < extents.len()
            invariant
                k <= extents@.len(),
                extents@ == self@,
                count == product(extents@.take(k as int)),
                forall|j: int| 0 <= j <= k ==> #[trigger] product(extents@.take(j)) <= usize::MAX,
            decreases extents@.len() - k,
        {
            proof {
                lemma_product_take_next(extents@, k as int);
            }
            match count.checked_mul(extents[k]) {
                Some(next) => {
                    count = next;
                },
                None => {
                    assert(product(extents@.take(k + 1)) > usize::MAX);
                    return None;
                },
            }
            k += 1;
        }
        assert(extents@.take(k as int) =~= extents@);
        Some(count)
    }

    /// Computes the row-major strides of this shape.
    fn default_strides(&self) -> (strides: Self)
        ensures
            strides@ == row_major_strides(self@),
    {
        let mut strides = self.duplicate();
        let n = self.ndim();
        if n == 0 {
            assert(strides@ =~= row_major_strides(self@));
            return strides;
        }
        let extents = self.slice();
        let mut k: usize = n - 1;
        let mut cum_prod: usize = 1;
        strides.slice_mut()[k] = 1;
        proof {
            lemma_wrap_small(1);
            assert(self@.subrange(k + 1, n as int) =~= Seq::<usize>::empty());
        }
        while k > 0
            invariant
                k < n,
                n == self@.len(),
                n == strides@.len(),
                extents@ == self@,
                cum_prod == wrap(product(self@.subrange(k + 1, n as int))),
                forall|j: int|
                    k <= j < n ==> strides@[j] == wrap(
                        #[trigger] product(self@.subrange(j + 1, n as int)),
                    ),
            decreases k,
        {
            proof {
                lemma_product_suffix_next(self@, k as int);
                lemma_wrap_mul(product(self@.subrange(k + 1, n as int)), self@[k as int]);
                assert(self@[k as int] * product(self@.subrange(k + 1, n as int)) == product(
                    self@.subrange(k + 1, n as int),
                ) * self@[k as int]) by (nonlinear_arith);
            }
            cum_prod = cum_prod.wrapping_mul(extents[k]);
            k -= 1;
            strides.slice_mut()[k] = cum_prod;
        }
        assert(strides@ =~= row_major_strides(self@));
        strides
    }

    /// Computes the column-major strides of this shape.
    fn fortran_strides(&self) -> (strides: Self)
        ensures
            strides@ == column_major_strides(self@),
    {
        let mut strides = self.duplicate();
        let n = self.ndim();
        if n == 0 {
            assert(strides@ =~= column_major_strides(self@));
            return strides;
        }
        let extents = self.slice();
        let mut k: usize = 0;
        let mut cum_prod: usize = 1;
        strides.slice_mut()[0] = 1;
        proof {
            lemma_wrap_small(1);
        }
        while k + 1 < n
            invariant
                k < n,
                n == self@.len(),
                n == strides@.len(),
                extents@ == self@,
                cum_prod == wrap(product(self@.take(k as int))),
                forall|j: int|
                    0 <= j <= k ==> strides@[j] == wrap(#[trigger] product(self@.take(j))),
            decreases n - k,
        {
            proof {
                lemma_product_take_next(self@, k as int);
                lemma_wrap_mul(product(self@.take(k as int)), self@[k as int]);
            }
            cum_prod = cum_prod.wrapping_mul(extents[k]);
            k += 1;
            strides.slice_mut()[k] = cum_prod;
        }
        assert(strides@ =~= column_major_strides(self@));
        strides
    }

    /// Returns the first index of the shape in row-major order: all zeros,
    /// unless the shape has no element.
    fn first_index(&self) -> (first: Option<Self>)
        ensures
            match first {
                Some(index) => all_nonzero(self@) && index@ == zero_index(self@.len()),
                None => !all_nonzero(self@),
            },
    {
        let extents = self.slice();
        let mut k: usize = 0;
        while k < extents.len()
            invariant
                k <= extents@.len(),
                extents@ == self@,
                forall|j: int| 0 <= j < k ==> extents@[j] != 0,
            decreases extents@.len() - k,
        {
            if extents[k] == 0 {
                return None;
            }
            k += 1;
        }
        let mut index = self.duplicate();
        let n = extents.len();
        let mut k: usize = 0;
        while k < n
            invariant
                k <= n,
                n == index@.len(),
                forall|j: int| 0 <= j < k ==> index@[j] == 0,
            decreases n - k,
        {
            index.slice_mut()[k] = 0;
            k += 1;
        }
        assert(index@ =~= zero_index(self@.len()));
        Some(index)
    }

    /// Returns the extent of the innermost axis, or 0 for rank 0.
    fn last_elem(&self) -> (extent: usize)
        ensures
            extent == if self@.len() == 0 {
                0
            } else {
                self@.last()
            },
    {
        let n = self.ndim();
        if n == 0 {
            0
        } else {
            self.slice()[n - 1]
        }
    }

    /// Replaces the extent of the innermost axis.
    fn set_last_elem(&mut self, i: usize)
        requires
            old(self)@.len() > 0,
        ensures
            final(self)@ == old(self)@.update(old(self)@.len() - 1, i),
    {
        let n = self.ndim();
        self.slice_mut()[n - 1] = i;
    }

    /// Returns the index after `index` in row-major order, or `None` when
    /// `index` is the last one.
    fn next_for(&self, index: Self) -> (next: Option<Self>)
        requires
            index_in_bounds(self@, index@),
        ensures
            match next {
                Some(following) => successor(self@, index@) == Some(following@),
                None => successor(self@, index@) is None && is_last_index(self@, index@),
            },
    {
        let ghost start = index@;
        let mut current = index;
        let extents = self.slice();
        let n = extents.len();
        let mut k: usize = n;
        while k > 0
            invariant
                k <= n,
                n == start.len(),
                start == index@,
                extents@ == self@,
                current@.len() == n,
                index_in_bounds(self@, start),
                forall|j: int| 0 <= j < k ==> current@[j] == start[j],
                forall|j: int| k <= j < n ==> current@[j] == 0,
                forall|j: int| k <= j < n ==> start[j] + 1 == self@[j],
            decreases k,
        {
            k -= 1;
            assert(start[k as int] < self@[k as int]);
            let stepped: usize = current.slice()[k] + 1;
            if stepped == extents[k] {
                current.slice_mut()[k] = 0;
            } else {
                current.slice_mut()[k] = stepped;
                proof {
                    assert(advances_at(self@, start, k as int));
                    lemma_advances_at_unique(self@, start, k as int);
                    assert forall|j: int| 0 <= j < n implies current@[j] == advanced(
                        start,
                        k as int,
                    )[j] by {
                        if j < k {
                            assert(current@[j] == start[j]);
                        } else if j > k {
                            assert(current@[j] == 0);
                        }
                    }
                    assert(current@ =~= advanced(start, k as int));
                }
                return Some(current);
            }
        }
        proof {
            lemma_no_successor(self@, start);
        }
        None
    }

    /// Computes the offset of `index` under `strides` without any bounds
    /// check.
    fn stride_offset(index: &Self, strides: &Self) -> (offset: isize)
        requires
            index@.len() == strides@.len(),
            offsets_fit(index@, strides@),
        ensures
            offset == offset_sum(index@, strides@),
    {
        let components = index.slice();
        let steps = strides.slice();
        let n = components.len();
        let mut offset: isize = 0;
        let mut k: usize = 0;
        proof {
            if n > 0 {
                lemma_partial_offset_next(index@, strides@, 0);
            }
        }
        while k < n
            invariant
                k <= n,
                n == index@.len(),
                n == strides@.len(),
                components@ == index@,
                steps@ == strides@,
                offsets_fit(index@, strides@),
                offset == partial_offset(index@, strides@, k as int),
            decreases n - k,
        {
            proof {
                lemma_partial_offset_next(index@, strides@, k as int);
                assert(fits_signed(partial_offset(index@, strides@, k + 1)));
                assert(fits_signed(axis_offset(index@[k as int], strides@[k as int])));
            }
            offset = offset + stride_offset(components[k], steps[k]);
            k += 1;
        }
        proof {
            if n > 0 {
                lemma_partial_offset_next(index@, strides@, 0);
            }
            assert(index@.take(n as int) =~= index@);
            assert(strides@.take(n as int) =~= strides@);
        }
        offset
    }

    /// Computes the offset of `index` under `strides` if `index` lies within
    /// this shape.
    fn stride_offset_checked(&self, strides: &Self, index: &Self) -> (offset: Option<isize>)
        requires
            self@.len() == strides@.len(),
            self@.len() == index@.len(),
            index_in_bounds(self@, index@) ==> offsets_fit(index@, strides@),
        ensures
            match offset {
                Some(sum) => index_in_bounds(self@, index@) && sum == offset_sum(
                    index@,
                    strides@,
                ),
                None => !index_in_bounds(self@, index@),
            },
    {
        let extents = self.slice();
        let components = index.slice();
        let n = extents.len();
        let mut k: usize = 0;
        while k < n
            invariant
                k <= n,
                n == self@.len(),
                n == index@.len(),
                extents@ == self@,
                components@ == index@,
                forall|j: int| 0 <= j < k ==> index@[j] < self@[j],
            decreases n - k,
        {
            if components[k] >= extents[k] {
                return None;
            }
            k += 1;
        }
        Some(Self::stride_offset(index, strides))
    }

    /// Slices every axis in place and returns the displacement of the first
    /// element.
    ///
    /// For each axis, the extent becomes the number of selected positions,
    /// the stride is multiplied by the step, and the displacement grows by
    /// start times stride, and for a negative step also by one less than the
    /// new extent times stride.
    fn do_slices(dim: &mut Self, strides: &mut Self, slices: &[Si]) -> (shift: isize)
        requires
            slices_apply(old(dim)@, old(strides)@, slices@),
        ensures
            final(dim)@ == sliced_extents(old(dim)@, slices@),
            final(strides)@ == sliced_strides(old(strides)@, slices@),
            shift == total_shift(old(dim)@, old(strides)@, slices@),
    {
        let ghost extents0 = dim@;
        let ghost strides0 = strides@;
        let n = slices.len();
        let mut offset: isize = 0;
        let mut k: usize = 0;
        proof {
            if n > 0 {
                lemma_partial_shift_next(extents0, strides0, slices@, 0);
            }
        }
        while k < n
            invariant
                k <= n,
                n == slices@.len(),
                dim@.len() == n,
                strides@.len() == n,
                slices_apply(extents0, strides0, slices@),
                offset == partial_shift(extents0, strides0, slices@, k as int),
                forall|j: int| 0 <= j < k ==> dim@[j] == sliced_extents(extents0, slices@)[j],
                forall|j: int| 0 <= j < k ==> strides@[j] == sliced_strides(strides0, slices@)[j],
                forall|j: int| k <= j < n ==> dim@[j] == extents0[j] && strides@[j] == strides0[j],
            decreases n - k,
        {
            proof {
                lemma_partial_shift_next(extents0, strides0, slices@, k as int);
                assert(slice_applies(extents0[k as int], strides0[k as int], slices@[k as int]));
            }
            let m: usize = dim.slice()[k];
            let sr: usize = strides.slice()[k];
            let mi: isize = m as isize;
            let Si(b1, opt_e1, s1) = slices[k];
            let e1: isize = match opt_e1 {
                Some(end) => end,
                None => mi,
            };
            let b1: usize = abs_index(mi, b1);
            let mut e1: usize = abs_index(mi, e1);
            if e1 < b1 {
                e1 = b1;
            }
            let length: usize = e1 - b1;
            let s: isize = to_signed(sr);
            offset = offset + stride_offset(b1, sr);
            let by: usize = step_size(s1);
            let d: usize = length / by;
            let r: usize = length % by;
            let m_prim: usize = d + if r > 0 {
                1
            } else {
                0
            };
            if s1 < 0 {
                offset = offset + stride_offset(m_prim.wrapping_sub(1), sr);
            }
            let s_prim: isize = s * s1;
            dim.slice_mut()[k] = m_prim;
            strides.slice_mut()[k] = to_unsigned(s_prim);
            k += 1;
        }
        proof {
            if n > 0 {
                lemma_partial_shift_next(extents0, strides0, slices@, 0);
            }
            assert(extents0.take(n as int) =~= extents0);
            assert(strides0.take(n as int) =~= strides0);
            assert(slices@.take(n as int) =~= slices@);
            assert(dim@ =~= sliced_extents(extents0, slices@));
            assert(strides@ =~= sliced_strides(strides0, slices@));
        }
        offset
    }

    /// Whether the strides lay the shape out without gaps.
    fn is_contiguous(dim: &Self, strides: &Self) -> (packed: bool)
        requires
            dim@.len() == strides@.len(),
        ensures
            packed == contiguous(dim@, strides@),
    {
        let defaults = dim.default_strides();
        if strides.equal(&defaults) {
            return true;
        }
        if dim.ndim() == 1 {
            return false;
        }
        let order = strides._fastest_varying_stride_order();
        let axes = order.slice();
        let steps = strides.slice();
        let extents = dim.slice();
        let n = axes.len();
        let mut cstride: usize = 1;
        let mut k: usize = 0;
        proof {
            lemma_wrap_small(1);
        }
        while k < n
            invariant
                k <= n,
                n == dim@.len(),
                n == strides@.len(),
                axes@ == order@,
                steps@ == strides@,
                extents@ == dim@,
                is_stride_order(strides@, order@),
                stride_order(strides@) == order@,
                strides@ != row_major_strides(dim@),
                dim@.len() != 1,
                cstride == wrap(product(gathered(dim@, order@).take(k as int))),
                forall|j: int|
                    0 <= j < k ==> {
                        let axis = #[trigger] order@[j] as int;
                        dim@[axis] != 1 ==> strides@[axis] == wrap(
                            product(gathered(dim@, order@).take(j)),
                        )
                    },
            decreases n - k,
        {
            let i: usize = axes[k];
            if extents[i] != 1 && steps[i] != cstride {
                return false;
            }
            proof {
                let walked = gathered(dim@, order@);
                lemma_product_take_next(walked, k as int);
                lemma_wrap_mul(product(walked.take(k as int)), walked[k as int]);
            }
            cstride = cstride.wrapping_mul(extents[i]);
            k += 1;
        }
        true
    }

    /// Returns the axes ordered by ascending stored stride, an earlier axis
    /// first among equal strides: from the fastest varying axis to the
    /// slowest, where all strides are positive.
    fn _fastest_varying_stride_order(&self) -> (order: Self)
        ensures
            is_stride_order(self@, order@),
            order@ == stride_order(self@),
    {
        let mut indices = self.duplicate();
        number_slots(indices.slice_mut());
        let strides = self.slice();
        let n = strides.len();
        sort_by_stride(indices.slice_mut(), strides);
        proof {
            assert(self@.len() == n);
            lemma_sorted_identity_is_stride_order(self@, indices@);
            lemma_stride_order_is(self@, indices@);
        }
        indices
    }
}

} // verus!
