//! Shapes of a rank fixed at compile time, stored inline.

use vstd::prelude::*;
use crate::dim::{Dim, Ix0, Ix1, Ix2, Ix3, Ix4, Ix5};
use crate::dimension::Dimension;
use crate::indexing::{
    advanced, advances_at, lemma_advances_at_unique, lemma_no_successor,
    lemma_partial_offset_next,
};
use crate::layout::gathered;
use crate::offset::{stride_offset, Ix};
use crate::order::lemma_stride_order_is;
use crate::shape::{
    column_major_strides, lemma_product_first, lemma_product_rank1, lemma_product_rank2,
    lemma_product_rank3, lemma_wrap_mul, lemma_wrap_small, product, row_major_strides,
    zero_index,
};

verus! {

impl Dimension for Ix0 {
    type Pattern = ();

    open spec fn pattern_extents(pattern: ()) -> Seq<usize> {
        Seq::empty()
    }

    fn ndim(&self) -> (rank: usize) {
        0
    }

    fn slice(&self) -> (words: &[Ix]) {
        self.ix()
    }

    fn slice_mut(&mut self) -> (words: &mut [Ix]) {
        self.ixm()
    }

    fn duplicate(&self) -> (copy: Self) {
        Dim::new(*self.ix())
    }

    fn into_pattern(self) -> (pattern: ()) {
        assert(self@ =~= Seq::<usize>::empty());
    }

    fn _fastest_varying_stride_order(&self) -> (order: Self) {
        let order = Ix0();
        proof {
            lemma_stride_order_is(self@, order@);
        }
        order
    }

    fn next_for(&self, index: Self) -> (next: Option<Self>) {
        proof {
            lemma_no_successor(self@, index@);
        }
        None
    }
}

impl Dimension for Ix1 {
    type Pattern = Ix;

    open spec fn pattern_extents(pattern: Ix) -> Seq<usize> {
        seq![pattern]
    }

    fn ndim(&self) -> (rank: usize) {
        1
    }

    fn slice(&self) -> (words: &[Ix]) {
        self.ix()
    }

    fn slice_mut(&mut self) -> (words: &mut [Ix]) {
        self.ixm()
    }

    fn duplicate(&self) -> (copy: Self) {
        Dim::new(*self.ix())
    }

    fn into_pattern(self) -> (pattern: Ix) {
        let words = self.ix();
        assert(self@ =~= seq![words[0]]);
        words[0]
    }

    fn next_for(&self, index: Self) -> (next: Option<Self>) {
        let extent = self.ix()[0];
        let stepped: usize = index.ix()[0] + 1;
        if stepped < extent {
            let following = Ix1(stepped);
            proof {
                assert(advances_at(self@, index@, 0));
                lemma_advances_at_unique(self@, index@, 0);
                assert(following@ =~= advanced(index@, 0));
            }
            Some(following)
        } else {
            proof {
                lemma_no_successor(self@, index@);
            }
            None
        }
    }

    fn equal(&self, rhs: &Self) -> (same: bool) {
        let same = self.ix()[0] == rhs.ix()[0];
        assert(same ==> self@ =~= rhs@);
        same
    }

    fn size(&self) -> (count: usize) {
        proof {
            lemma_product_rank1(self@);
            lemma_wrap_small(product(self@));
        }
        self.ix()[0]
    }

    fn size_checked(&self) -> (count: Option<usize>) {
        proof {
            lemma_product_rank1(self@);
        }
        Some(self.ix()[0])
    }

    fn default_strides(&self) -> (strides: Self) {
        let strides = Ix1(1);
        proof {
            assert(self@.subrange(1, 1) =~= Seq::<usize>::empty());
            lemma_wrap_small(1);
            assert(strides@ =~= row_major_strides(self@));
        }
        strides
    }

    fn _fastest_varying_stride_order(&self) -> (order: Self) {
        let order = Ix1(0);
        proof {
            assert(order@[0] == 0);
            assert(order@.contains(0));
            lemma_stride_order_is(self@, order@);
        }
        order
    }

    fn first_index(&self) -> (first: Option<Self>) {
        if self.ix()[0] != 0 {
            let index = Ix1(0);
            assert(index@ =~= zero_index(self@.len()));
            Some(index)
        } else {
            None
        }
    }

    fn stride_offset(index: &Self, stride: &Self) -> (offset: isize) {
        proof {
            lemma_partial_offset_next(index@, stride@, 0);
        }
        stride_offset(index.ix()[0], stride.ix()[0])
    }

    fn stride_offset_checked(&self, stride: &Self, index: &Self) -> (offset: Option<isize>) {
        if index.ix()[0] < self.ix()[0] {
            Some(Self::stride_offset(index, stride))
        } else {
            None
        }
    }
}

impl Dimension for Ix2 {
    type Pattern = (Ix, Ix);

    open spec fn pattern_extents(pattern: (Ix, Ix)) -> Seq<usize> {
        seq![pattern.0, pattern.1]
    }

    fn ndim(&self) -> (rank: usize) {
        2
    }

    fn slice(&self) -> (words: &[Ix]) {
        self.ix()
    }

    fn slice_mut(&mut self) -> (words: &mut [Ix]) {
        self.ixm()
    }

    fn duplicate(&self) -> (copy: Self) {
        Dim::new(*self.ix())
    }

    fn into_pattern(self) -> (pattern: (Ix, Ix)) {
        let words = self.ix();
        assert(self@ =~= seq![words[0], words[1]]);
        (words[0], words[1])
    }

    fn next_for(&self, index: Self) -> (next: Option<Self>) {
        let mut i: usize = index.ix()[0];
        let mut j: usize = index.ix()[1];
        let imax = self.ix()[0];
        let jmax = self.ix()[1];
        j += 1;
        if j >= jmax {
            j = 0;
            i += 1;
            if i >= imax {
                proof {
                    lemma_no_successor(self@, index@);
                }
                return None;
            }
            proof {
                assert(advances_at(self@, index@, 0));
                lemma_advances_at_unique(self@, index@, 0);
            }
        } else {
            proof {
                assert(advances_at(self@, index@, 1));
                lemma_advances_at_unique(self@, index@, 1);
            }
        }
        let following = Ix2(i, j);
        assert(following@ =~= advanced(index@, 0) || following@ =~= advanced(index@, 1));
        Some(following)
    }

    fn equal(&self, rhs: &Self) -> (same: bool) {
        let same = self.ix()[0] == rhs.ix()[0] && self.ix()[1] == rhs.ix()[1];
        assert(same ==> self@ =~= rhs@);
        same
    }

    fn size(&self) -> (count: usize) {
        proof {
            lemma_product_rank2(self@);
            if product(self@) <= usize::MAX {
                lemma_wrap_small(product(self@));
            }
        }
        self.ix()[0].wrapping_mul(self.ix()[1])
    }

    fn size_checked(&self) -> (count: Option<usize>) {
        let m = self.ix()[0];
        let n = self.ix()[1];
        proof {
            lemma_product_rank2(self@);
        }
        m.checked_mul(n)
    }

    fn last_elem(&self) -> (extent: usize) {
        self.ix()[1]
    }

    fn set_last_elem(&mut self, i: usize) {
        self.ixm()[1] = i;
    }

    fn default_strides(&self) -> (strides: Self) {
        let strides = Ix2(self.ix()[1], 1);
        proof {
            assert(self@.subrange(2, 2) =~= Seq::<usize>::empty());
            lemma_product_rank1(self@.subrange(1, 2));
            lemma_wrap_small(1);
            lemma_wrap_small(self@[1] as nat);
            assert(strides@ =~= row_major_strides(self@));
        }
        strides
    }

    fn fortran_strides(&self) -> (strides: Self) {
        let strides = Ix2(1, self.ix()[0]);
        proof {
            lemma_product_rank2(self@);
            lemma_wrap_small(1);
            lemma_wrap_small(self@[0] as nat);
            assert(strides@ =~= column_major_strides(self@));
        }
        strides
    }

    fn _fastest_varying_stride_order(&self) -> (order: Self) {
        let order = if self.ix()[0] <= self.ix()[1] {
            Ix2(0, 1)
        } else {
            Ix2(1, 0)
        };
        proof {
            assert(order@[0] + order@[1] == 1);
            assert(order@.contains(order@[0]) && order@.contains(order@[1]));
            lemma_stride_order_is(self@, order@);
        }
        order
    }

    fn is_contiguous(dim: &Self, strides: &Self) -> (packed: bool) {
        let defaults = dim.default_strides();
        if strides.equal(&defaults) {
            return true;
        }
        let order = strides._fastest_varying_stride_order();
        let fast = order.ix()[0];
        let slow = order.ix()[1];
        let extents = dim.ix();
        let steps = strides.ix();
        proof {
            let walked = gathered(dim@, order@);
            lemma_product_first(walked);
            lemma_wrap_small(1);
            lemma_wrap_small(walked[0] as nat);
        }
        if extents[fast] != 1 && steps[fast] != 1 {
            return false;
        }
        if extents[slow] != 1 && steps[slow] != extents[fast] {
            return false;
        }
        true
    }

    fn first_index(&self) -> (first: Option<Self>) {
        let m = self.ix()[0];
        let n = self.ix()[1];
        if m != 0 && n != 0 {
            let index = Ix2(0, 0);
            assert(index@ =~= zero_index(self@.len()));
            Some(index)
        } else {
            None
        }
    }

    fn stride_offset(index: &Self, strides: &Self) -> (offset: isize) {
        let i = index.ix()[0];
        let j = index.ix()[1];
        let s = strides.ix()[0];
        let t = strides.ix()[1];
        proof {
            lemma_partial_offset_next(index@, strides@, 0);
            lemma_partial_offset_next(index@, strides@, 1);
        }
        stride_offset(i, s) + stride_offset(j, t)
    }

    fn stride_offset_checked(&self, strides: &Self, index: &Self) -> (offset: Option<isize>) {
        let m = self.ix()[0];
        let n = self.ix()[1];
        let i = index.ix()[0];
        let j = index.ix()[1];
        if i < m && j < n {
            Some(Self::stride_offset(index, strides))
        } else {
            None
        }
    }
}

impl Dimension for Ix3 {
    type Pattern = (Ix, Ix, Ix);

    open spec fn pattern_extents(pattern: (Ix, Ix, Ix)) -> Seq<usize> {
        seq![pattern.0, pattern.1, pattern.2]
    }

    fn ndim(&self) -> (rank: usize) {
        3
    }

    fn slice(&self) -> (words: &[Ix]) {
        self.ix()
    }

    fn slice_mut(&mut self) -> (words: &mut [Ix]) {
        self.ixm()
    }

    fn duplicate(&self) -> (copy: Self) {
        Dim::new(*self.ix())
    }

    fn into_pattern(self) -> (pattern: (Ix, Ix, Ix)) {
        let words = self.ix();
        assert(self@ =~= seq![words[0], words[1], words[2]]);
        (words[0], words[1], words[2])
    }

    fn size(&self) -> (count: usize) {
        let m = self.ix()[0];
        let n = self.ix()[1];
        let o = self.ix()[2];
        proof {
            lemma_product_rank3(self@);
            lemma_wrap_small(m as nat);
            lemma_wrap_mul(m as nat, n);
            lemma_wrap_mul(m as nat * n as nat, o);
            if product(self@) <= usize::MAX {
                lemma_wrap_small(product(self@));
            }
        }
        m.wrapping_mul(n).wrapping_mul(o)
    }

    fn next_for(&self, index: Self) -> (next: Option<Self>) {
        let mut i: usize = index.ix()[0];
        let mut j: usize = index.ix()[1];
        let mut k: usize = index.ix()[2];
        let imax = self.ix()[0];
        let jmax = self.ix()[1];
        let kmax = self.ix()[2];
        k += 1;
        if k == kmax {
            k = 0;
            j += 1;
            if j == jmax {
                j = 0;
                i += 1;
                if i == imax {
                    proof {
                        lemma_no_successor(self@, index@);
                    }
                    return None;
                }
                proof {
                    assert(advances_at(self@, index@, 0));
                    lemma_advances_at_unique(self@, index@, 0);
                }
            } else {
                proof {
                    assert(advances_at(self@, index@, 1));
                    lemma_advances_at_unique(self@, index@, 1);
                }
            }
        } else {
            proof {
                assert(advances_at(self@, index@, 2));
                lemma_advances_at_unique(self@, index@, 2);
            }
        }
        let following = Ix3(i, j, k);
        assert(following@ =~= advanced(index@, 0) || following@ =~= advanced(index@, 1)
            || following@ =~= advanced(index@, 2));
        Some(following)
    }

    fn stride_offset(index: &Self, strides: &Self) -> (offset: isize) {
        let i = index.ix()[0];
        let j = index.ix()[1];
        let k = index.ix()[2];
        let s = strides.ix()[0];
        let t = strides.ix()[1];
        let u = strides.ix()[2];
        proof {
            lemma_partial_offset_next(index@, strides@, 0);
            lemma_partial_offset_next(index@, strides@, 1);
            lemma_partial_offset_next(index@, strides@, 2);
        }
        stride_offset(i, s) + stride_offset(j, t) + stride_offset(k, u)
    }

    fn _fastest_varying_stride_order(&self) -> (order: Self) {
        let mut s0: usize = self.ix()[0];
        let mut s1: usize = self.ix()[1];
        let mut s2: usize = self.ix()[2];
        let mut o0: usize = 0;
        let mut o1: usize = 1;
        let mut o2: usize = 2;
        // stable sorting network for 3 elements
        if s1 > s2 {
            let stride: usize = s1;
            s1 = s2;
            s2 = stride;
            let axis: usize = o1;
            o1 = o2;
            o2 = axis;
        }
        if s0 > s1 {
            let stride: usize = s0;
            s0 = s1;
            s1 = stride;
            let axis: usize = o0;
            o0 = o1;
            o1 = axis;
        }
        if s1 > s2 {
            let stride: usize = s1;
            s1 = s2;
            s2 = stride;
            let axis: usize = o1;
            o1 = o2;
            o2 = axis;
        }
        let order = Ix3(o0, o1, o2);
        proof {
            assert(order@[0] == o0 && order@[1] == o1 && order@[2] == o2);
            assert(order@.contains(o0) && order@.contains(o1) && order@.contains(o2));
            assert(s0 == self@[o0 as int] && s1 == self@[o1 as int] && s2 == self@[o2 as int]);
            lemma_stride_order_is(self@, order@);
        }
        order
    }
}

impl Dimension for Ix4 {
    type Pattern = (Ix, Ix, Ix, Ix);

    open spec fn pattern_extents(pattern: (Ix, Ix, Ix, Ix)) -> Seq<usize> {
        seq![pattern.0, pattern.1, pattern.2, pattern.3]
    }

    fn ndim(&self) -> (rank: usize) {
        4
    }

    fn slice(&self) -> (words: &[Ix]) {
        self.ix()
    }

    fn slice_mut(&mut self) -> (words: &mut [Ix]) {
        self.ixm()
    }

    fn duplicate(&self) -> (copy: Self) {
        Dim::new(*self.ix())
    }

    fn into_pattern(self) -> (pattern: (Ix, Ix, Ix, Ix)) {
        let words = self.ix();
        assert(self@ =~= seq![words[0], words[1], words[2], words[3]]);
        (words[0], words[1], words[2], words[3])
    }
}

impl Dimension for Ix5 {
    type Pattern = (Ix, Ix, Ix, Ix, Ix);

    open spec fn pattern_extents(pattern: (Ix, Ix, Ix, Ix, Ix)) -> Seq<usize> {
        seq![pattern.0, pattern.1, pattern.2, pattern.3, pattern.4]
    }

    fn ndim(&self) -> (rank: usize) {
        5
    }

    fn slice(&self) -> (words: &[Ix]) {
        self.ix()
    }

    fn slice_mut(&mut self) -> (words: &mut [Ix]) {
        self.ixm()
    }

    fn duplicate(&self) -> (copy: Self) {
        Dim::new(*self.ix())
    }

    fn into_pattern(self) -> (pattern: (Ix, Ix, Ix, Ix, Ix)) {
        let words = self.ix();
        assert(self@ =~= seq![words[0], words[1], words[2], words[3], words[4]]);
        (words[0], words[1], words[2], words[3], words[4])
    }
}

} // verus!
