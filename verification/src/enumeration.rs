//! The row-major enumeration of the indices of a shape, and what holds of
//! it: started at the all-zero index and continued by taking successors, it
//! visits every index of the shape once, in ascending order, and then ends.

use vstd::prelude::*;
use crate::indexing::{
    advanced, advances_at, checked_offset, index_in_bounds, is_last_index,
    lemma_advances_at_unique, lemma_no_successor, lemma_partial_offset_next, offset_sum,
    offsets_fit, partial_offset, position, successor,
};
use crate::offset::{axis_offset, fits_signed};
use crate::shape::{
    all_nonzero, lemma_product_concat, lemma_product_suffix_next, lemma_product_zero,
    lemma_wrap_small, product, row_major_strides, zero_index,
};

verus! {

/// The index reached from the all-zero index by taking the successor `n`
/// times. Past the last index it stays where it is.
pub open spec fn nth_index(extents: Seq<usize>, n: nat) -> Seq<usize>
    decreases n,
{
    if n == 0 {
        zero_index(extents.len())
    } else {
        let before = nth_index(extents, (n - 1) as nat);
        match successor(extents, before) {
            Some(next) => next,
            None => before,
        }
    }
}

/// Whether `a` comes before `b` in row-major order: at the first axis where
/// they differ, `a` has the smaller component.
pub open spec fn precedes(a: Seq<usize>, b: Seq<usize>) -> bool {
    exists|k: int| differ_first_at(a, b, k)
}

/// Whether `k` is the first axis at which `a` and `b` differ, and `a` has
/// the smaller component there.
pub open spec fn differ_first_at(a: Seq<usize>, b: Seq<usize>, k: int) -> bool {
    &&& 0 <= k < a.len()
    &&& a[k] < b[k]
    &&& forall|j: int| 0 <= j < k ==> a[j] == b[j]
}

/// The all-zero index has position 0.
pub proof fn lemma_zero_index_position(extents: Seq<usize>)
    ensures
        position(extents, zero_index(extents.len())) == 0,
    decreases extents.len(),
{
    if extents.len() > 0 {
        let zeros = zero_index(extents.len());
        assert(zeros.drop_last() =~= zero_index(extents.drop_last().len()));
        lemma_zero_index_position(extents.drop_last());
        assert(0 * extents.last() == 0);
    }
}

/// The position of an index of the shape is below the number of indices.
pub proof fn lemma_position_in_range(extents: Seq<usize>, index: Seq<usize>)
    requires
        index_in_bounds(extents, index),
    ensures
        0 <= position(extents, index) < product(extents),
    decreases extents.len(),
{
    if extents.len() > 0 {
        let front = position(extents.drop_last(), index.drop_last());
        let count = product(extents.drop_last()) as int;
        let width = extents.last() as int;
        let digit = index.last() as int;
        lemma_position_in_range(extents.drop_last(), index.drop_last());
        assert(0 <= front * width + digit < count * width) by (nonlinear_arith)
            requires
                0 <= front < count,
                0 <= digit < width,
        ;
    }
}

/// Two indices of the shape at the same position are the same index.
pub proof fn lemma_position_injective(extents: Seq<usize>, a: Seq<usize>, b: Seq<usize>)
    requires
        index_in_bounds(extents, a),
        index_in_bounds(extents, b),
        position(extents, a) == position(extents, b),
    ensures
        a == b,
    decreases extents.len(),
{
    if extents.len() > 0 {
        let front_a = position(extents.drop_last(), a.drop_last());
        let front_b = position(extents.drop_last(), b.drop_last());
        let width = extents.last() as int;
        let digit_a = a.last() as int;
        let digit_b = b.last() as int;
        assert(front_a == front_b && digit_a == digit_b) by (nonlinear_arith)
            requires
                front_a * width + digit_a == front_b * width + digit_b,
                0 <= digit_a < width,
                0 <= digit_b < width,
        ;
        lemma_position_injective(extents.drop_last(), a.drop_last(), b.drop_last());
        assert(a =~= a.drop_last().push(a.last()));
        assert(b =~= b.drop_last().push(b.last()));
    } else {
        assert(a =~= b);
    }
}

/// Of two indices of the shape, the one at the lower position comes first in
/// row-major order.
pub proof fn lemma_position_order(extents: Seq<usize>, a: Seq<usize>, b: Seq<usize>)
    requires
        index_in_bounds(extents, a),
        index_in_bounds(extents, b),
        position(extents, a) < position(extents, b),
    ensures
        precedes(a, b),
    decreases extents.len(),
{
    if extents.len() > 0 {
        let front_a = position(extents.drop_last(), a.drop_last());
        let front_b = position(extents.drop_last(), b.drop_last());
        let width = extents.last() as int;
        let digit_a = a.last() as int;
        let digit_b = b.last() as int;
        assert(front_a < front_b || (front_a == front_b && digit_a < digit_b))
            by (nonlinear_arith)
            requires
                front_a * width + digit_a < front_b * width + digit_b,
                0 <= digit_a < width,
                0 <= digit_b < width,
        ;
        if front_a < front_b {
            lemma_position_order(extents.drop_last(), a.drop_last(), b.drop_last());
            let k = choose|k: int| differ_first_at(a.drop_last(), b.drop_last(), k);
            assert(a.drop_last()[k] < b.drop_last()[k]);
            assert forall|j: int| 0 <= j < k implies a[j] == b[j] by {
                assert(a.drop_last()[j] == b.drop_last()[j]);
            }
            assert(differ_first_at(a, b, k));
        } else {
            lemma_position_injective(extents.drop_last(), a.drop_last(), b.drop_last());
            let k = a.len() - 1;
            assert forall|j: int| 0 <= j < k implies a[j] == b[j] by {
                assert(a.drop_last()[j] == b.drop_last()[j]);
            }
            assert(differ_first_at(a, b, k));
        }
    }
}

/// A step at axis `k` leads to an index of the shape at the next position.
proof fn lemma_advanced_position(extents: Seq<usize>, index: Seq<usize>, k: int)
    requires
        index_in_bounds(extents, index),
        advances_at(extents, index, k),
    ensures
        index_in_bounds(extents, advanced(index, k)),
        position(extents, advanced(index, k)) == position(extents, index) + 1,
    decreases extents.len(),
{
    let next = advanced(index, k);
    let last = extents.len() - 1;
    assert forall|j: int| 0 <= j < next.len() implies next[j] < extents[j] by {
        if j > k {
            assert(index[j] + 1 == extents[j]);
        }
    }
    if k == last {
        assert(next.drop_last() =~= index.drop_last());
    } else {
        let front = position(extents.drop_last(), index.drop_last());
        let width = extents.last() as int;
        assert(index[last] + 1 == extents[last]);
        assert(next.drop_last() =~= advanced(index.drop_last(), k));
        assert(advances_at(extents.drop_last(), index.drop_last(), k)) by {
            assert forall|j: int| k < j < index.drop_last().len() implies index.drop_last()[j] + 1
                == extents.drop_last()[j] by {
                assert(index[j] + 1 == extents[j]);
            }
        }
        lemma_advanced_position(extents.drop_last(), index.drop_last(), k);
        assert((front + 1) * width + 0 == front * width + (width - 1) + 1) by (nonlinear_arith);
    }
}

/// The last index of the shape is at the last position.
proof fn lemma_last_index_position(extents: Seq<usize>, index: Seq<usize>)
    requires
        index_in_bounds(extents, index),
        is_last_index(extents, index),
    ensures
        position(extents, index) + 1 == product(extents),
    decreases extents.len(),
{
    if extents.len() > 0 {
        let front = position(extents.drop_last(), index.drop_last());
        let count = product(extents.drop_last()) as int;
        let width = extents.last() as int;
        assert(is_last_index(extents.drop_last(), index.drop_last())) by {
            assert forall|j: int| 0 <= j < index.drop_last().len() implies index.drop_last()[j] + 1
                == extents.drop_last()[j] by {
                assert(index[j] + 1 == extents[j]);
            }
        }
        lemma_last_index_position(extents.drop_last(), index.drop_last());
        assert(index[extents.len() - 1] + 1 == extents[extents.len() - 1]);
        assert(front * width + (width - 1) + 1 == count * width) by (nonlinear_arith)
            requires
                front + 1 == count,
        ;
    }
}

/// An index of the shape whose axes from `from` on are at their last
/// component is the last index, or some axis before `from` advances.
proof fn lemma_last_or_advances(extents: Seq<usize>, index: Seq<usize>, from: int)
    requires
        index_in_bounds(extents, index),
        0 <= from <= index.len(),
        forall|j: int| from <= j < index.len() ==> index[j] + 1 == extents[j],
    ensures
        is_last_index(extents, index) || exists|k: int| advances_at(extents, index, k),
    decreases from,
{
    if from > 0 {
        if index[from - 1] + 1 < extents[from - 1] {
            assert(advances_at(extents, index, from - 1));
        } else {
            lemma_last_or_advances(extents, index, from - 1);
        }
    }
}

/// The successor of an index of the shape is the index of the shape at the
/// next position; there is none exactly at the last position.
pub proof fn lemma_successor_position(extents: Seq<usize>, index: Seq<usize>)
    requires
        index_in_bounds(extents, index),
    ensures
        match successor(extents, index) {
            Some(next) => index_in_bounds(extents, next) && position(extents, next) == position(
                extents,
                index,
            ) + 1,
            None => position(extents, index) + 1 == product(extents),
        },
{
    lemma_last_or_advances(extents, index, index.len() as int);
    if exists|k: int| advances_at(extents, index, k) {
        let k = choose|k: int| advances_at(extents, index, k);
        lemma_advances_at_unique(extents, index, k);
        lemma_advanced_position(extents, index, k);
    } else {
        lemma_no_successor(extents, index);
        lemma_last_index_position(extents, index);
    }
}

/// The `n`-th index of the enumeration is the index of the shape at position
/// `n`, for every `n` below the number of indices.
pub proof fn lemma_nth_index(extents: Seq<usize>, n: nat)
    requires
        n < product(extents),
    ensures
        index_in_bounds(extents, nth_index(extents, n)),
        position(extents, nth_index(extents, n)) == n,
    decreases n,
{
    if n == 0 {
        lemma_product_zero(extents);
        lemma_zero_index_position(extents);
    } else {
        lemma_nth_index(extents, (n - 1) as nat);
        lemma_successor_position(extents, nth_index(extents, (n - 1) as nat));
    }
}

/// Enumeration is complete. Starting from the first index and taking
/// successors visits exactly as many indices as the shape has: the `n`-th
/// one lies within the shape at position `n`, its successor is the next one
/// visited, and the one at the last position has no successor. Every index
/// visited has a checked offset under the row-major strides of the shape,
/// which is `n` where the signed type can hold the number of indices. The
/// indices visited are pairwise different and come in ascending row-major
/// order. A shape has a first index exactly when it has at least one index.
pub proof fn lemma_enumeration_complete(extents: Seq<usize>)
    ensures
        all_nonzero(extents) <==> product(extents) > 0,
        forall|n: nat|
            n < product(extents) ==> {
                let index = #[trigger] nth_index(extents, n);
                &&& index_in_bounds(extents, index)
                &&& position(extents, index) == n
                &&& n + 1 < product(extents) ==> successor(extents, index) == Some(
                    nth_index(extents, n + 1),
                )
                &&& n + 1 == product(extents) ==> successor(extents, index) is None
                &&& checked_offset(extents, row_major_strides(extents), index) is Some
                &&& product(extents) <= isize::MAX ==> checked_offset(
                    extents,
                    row_major_strides(extents),
                    index,
                ) == Some(n as int)
            },
        forall|a: nat, b: nat|
            a < b < product(extents) ==> {
                &&& #[trigger] nth_index(extents, a) != #[trigger] nth_index(extents, b)
                &&& precedes(nth_index(extents, a), nth_index(extents, b))
            },
{
    lemma_product_zero(extents);
    assert forall|n: nat| n < product(extents) implies {
        let index = #[trigger] nth_index(extents, n);
        &&& index_in_bounds(extents, index)
        &&& position(extents, index) == n
        &&& n + 1 < product(extents) ==> successor(extents, index) == Some(
            nth_index(extents, n + 1),
        )
        &&& n + 1 == product(extents) ==> successor(extents, index) is None
        &&& checked_offset(extents, row_major_strides(extents), index) is Some
        &&& product(extents) <= isize::MAX ==> checked_offset(
            extents,
            row_major_strides(extents),
            index,
        ) == Some(n as int)
    } by {
        let index = nth_index(extents, n);
        lemma_nth_index(extents, n);
        lemma_successor_position(extents, index);
        if product(extents) <= isize::MAX {
            lemma_row_major_offset_is_position(extents, index);
        }
        if successor(extents, index) is Some {
            lemma_position_in_range(extents, successor(extents, index)->0);
        }
    }
    assert forall|a: nat, b: nat| a < b < product(extents) implies {
        &&& #[trigger] nth_index(extents, a) != #[trigger] nth_index(extents, b)
        &&& precedes(nth_index(extents, a), nth_index(extents, b))
    } by {
        lemma_nth_index(extents, a);
        lemma_nth_index(extents, b);
        lemma_position_order(extents, nth_index(extents, a), nth_index(extents, b));
    }
}

/// The product of the extents from axis `from` on.
pub open spec fn trailing_product(extents: Seq<usize>, from: int) -> nat {
    product(extents.subrange(from, extents.len() as int))
}

/// In a shape without an empty axis, the product of a trailing run of
/// extents is at least 1 and at most the product of all.
proof fn lemma_trailing_product_bounds(extents: Seq<usize>, from: int)
    requires
        all_nonzero(extents),
        0 <= from <= extents.len(),
    ensures
        1 <= trailing_product(extents, from) <= product(extents),
    decreases extents.len() - from,
{
    let n = extents.len() as int;
    if from == n {
        assert(extents.subrange(n, n) =~= Seq::<usize>::empty());
        lemma_product_zero(extents);
    } else {
        lemma_trailing_product_bounds(extents, from + 1);
        lemma_product_suffix_next(extents, from);
        let rest = trailing_product(extents, from + 1) as int;
        let head = extents[from] as int;
        assert(rest <= head * rest) by (nonlinear_arith)
            requires
                head >= 1,
                rest >= 1,
        ;
        assert(extents.take(from) + extents.subrange(from, n) =~= extents);
        lemma_product_concat(extents.take(from), extents.subrange(from, n));
        lemma_product_zero(extents.take(from));
        let front = product(extents.take(from)) as int;
        let back = trailing_product(extents, from) as int;
        assert(back <= front * back) by (nonlinear_arith)
            requires
                front >= 1,
                back >= 1,
        ;
    }
}

/// Under row-major strides, the offset that the first `k` axes contribute is
/// the position of the index among those axes, in units of the number of
/// indices of the axes after them.
proof fn lemma_row_major_partial_offset(extents: Seq<usize>, index: Seq<usize>, k: int)
    requires
        index_in_bounds(extents, index),
        product(extents) <= isize::MAX,
        0 <= k <= extents.len(),
    ensures
        partial_offset(index, row_major_strides(extents), k) == position(
            extents.take(k),
            index.take(k),
        ) * trailing_product(extents, k),
        0 <= partial_offset(index, row_major_strides(extents), k) < product(extents),
        k > 0 ==> 0 <= axis_offset(index[k - 1], row_major_strides(extents)[k - 1]) < product(
            extents,
        ),
    decreases k,
{
    let n = extents.len() as int;
    let strides = row_major_strides(extents);
    let whole = product(extents) as int;
    assert(all_nonzero(extents));
    lemma_trailing_product_bounds(extents, k);
    lemma_position_in_range(extents.take(k), index.take(k));
    assert(extents.take(k) + extents.subrange(k, n) =~= extents);
    lemma_product_concat(extents.take(k), extents.subrange(k, n));
    let place = position(extents.take(k), index.take(k));
    let count = product(extents.take(k)) as int;
    let unit = trailing_product(extents, k) as int;
    assert(0 <= place * unit < count * unit) by (nonlinear_arith)
        requires
            0 <= place < count,
            unit >= 1,
    ;
    if k == 0 {
        assert(index.take(0).len() == 0);
    } else {
        lemma_row_major_partial_offset(extents, index, k - 1);
        lemma_partial_offset_next(index, strides, k - 1);
        lemma_product_suffix_next(extents, k - 1);
        lemma_trailing_product_bounds(extents, k - 1);
        lemma_wrap_small(trailing_product(extents, k));
        assert(extents.take(k).drop_last() =~= extents.take(k - 1));
        assert(index.take(k).drop_last() =~= index.take(k - 1));
        let before = position(extents.take(k - 1), index.take(k - 1));
        let width = extents[k - 1] as int;
        let digit = index[k - 1] as int;
        assert(strides[k - 1] == unit);
        assert(digit < width <= trailing_product(extents, k - 1)) by (nonlinear_arith)
            requires
                digit < width,
                trailing_product(extents, k - 1) == width * unit,
                unit >= 1,
        ;
        assert(axis_offset(index[k - 1], strides[k - 1]) == digit * unit);
        assert(place == before * width + digit);
        assert(before * (width * unit) + digit * unit == (before * width + digit) * unit)
            by (nonlinear_arith);
        lemma_position_in_range(extents.take(k - 1), index.take(k - 1));
        assert(0 <= before * width) by (nonlinear_arith)
            requires
                0 <= before,
                0 <= width,
        ;
        assert(0 <= digit * unit <= place * unit) by (nonlinear_arith)
            requires
                0 <= digit <= place,
                unit >= 1,
        ;
    }
}

/// Row-major strides number the indices of a shape in row-major order: for
/// a shape whose number of indices the signed type can hold, the offset of
/// every index of the shape can be summed without overflow and equals the
/// position of the index.
pub proof fn lemma_row_major_offset_is_position(extents: Seq<usize>, index: Seq<usize>)
    requires
        index_in_bounds(extents, index),
        product(extents) <= isize::MAX,
    ensures
        offsets_fit(index, row_major_strides(extents)),
        offset_sum(index, row_major_strides(extents)) == position(extents, index),
        checked_offset(extents, row_major_strides(extents), index) == Some(
            position(extents, index),
        ),
{
    let n = extents.len() as int;
    let strides = row_major_strides(extents);
    assert forall|k: int| 0 <= k < index.len() implies fits_signed(
        #[trigger] axis_offset(index[k], strides[k]),
    ) by {
        lemma_row_major_partial_offset(extents, index, k + 1);
    }
    assert forall|k: int| 0 <= k <= index.len() implies fits_signed(
        #[trigger] partial_offset(index, strides, k),
    ) by {
        lemma_row_major_partial_offset(extents, index, k);
    }
    lemma_row_major_partial_offset(extents, index, n);
    assert(extents.take(n) =~= extents);
    assert(index.take(n) =~= index);
    assert(strides.take(n) =~= strides);
    assert(extents.subrange(n, n) =~= Seq::<usize>::empty());
    assert(position(extents, index) * 1 == position(extents, index));
}

} // verus!
