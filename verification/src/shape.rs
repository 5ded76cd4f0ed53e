//! What a shape determines by itself: its size and its canonical strides.

use vstd::prelude::*;
use vstd::arithmetic::div_mod::{lemma_mul_mod_noop_general, lemma_small_mod};
use vstd::arithmetic::mul::lemma_mul_is_associative;
use crate::offset::modulus;

verus! {

/// The product of all extents; 1 for the shape of rank 0.
pub open spec fn product(extents: Seq<usize>) -> nat
    decreases extents.len(),
{
    if extents.len() == 0 {
        1
    } else {
        product(extents.drop_last()) * (extents.last() as nat)
    }
}

/// The word that is left of a natural number when it is computed in [`usize`]
/// with wrap-around.
pub open spec fn wrap(value: nat) -> usize {
    (value as int % modulus()) as usize
}

/// The number of elements of a shape as wrapping arithmetic computes it.
pub open spec fn wrapped_size(extents: Seq<usize>) -> usize {
    wrap(product(extents))
}

/// Whether the product of every leading run of extents fits a word, so that
/// multiplying the extents from the outermost axis inwards never overflows.
pub open spec fn prefixes_fit(extents: Seq<usize>) -> bool {
    forall|k: int| 0 <= k <= extents.len() ==> #[trigger] product(extents.take(k)) <= usize::MAX
}

/// The number of elements of a shape, unless a multiplication on the way
/// overflows.
pub open spec fn checked_size(extents: Seq<usize>) -> Option<usize> {
    if prefixes_fit(extents) {
        Some(product(extents) as usize)
    } else {
        None
    }
}

/// Row-major strides: the innermost axis has stride 1, and the stride of
/// every other axis is the product of the extents of all axes after it.
pub open spec fn row_major_strides(extents: Seq<usize>) -> Seq<usize> {
    Seq::new(
        extents.len(),
        |k: int| wrap(product(extents.subrange(k + 1, extents.len() as int))),
    )
}

/// Column-major strides: the outermost axis has stride 1, and the stride of
/// every other axis is the product of the extents of all axes before it.
pub open spec fn column_major_strides(extents: Seq<usize>) -> Seq<usize> {
    Seq::new(extents.len(), |k: int| wrap(product(extents.take(k))))
}

/// The index whose components are all zero.
pub open spec fn zero_index(rank: nat) -> Seq<usize> {
    Seq::new(rank, |k: int| 0usize)
}

/// Whether no axis is empty.
pub open spec fn all_nonzero(extents: Seq<usize>) -> bool {
    forall|k: int| 0 <= k < extents.len() ==> extents[k] != 0
}

/// The product of a longer leading run is that of the shorter one times the
/// extent that follows it.
pub proof fn lemma_product_take_next(extents: Seq<usize>, k: int)
    requires
        0 <= k < extents.len(),
    ensures
        product(extents.take(k + 1)) == product(extents.take(k)) * extents[k],
{
    assert(extents.take(k + 1).drop_last() =~= extents.take(k));
}

/// The product of both parts of a shape is the product of the whole.
pub proof fn lemma_product_concat(front: Seq<usize>, back: Seq<usize>)
    ensures
        product(front + back) == product(front) * product(back),
    decreases back.len(),
{
    if back.len() == 0 {
        assert(front + back =~= front);
        assert(product(back) == 1);
    } else {
        let whole = front + back;
        let shorter = back.drop_last();
        assert(whole.drop_last() =~= front + shorter);
        assert(whole.last() == back.last());
        lemma_product_concat(front, shorter);
        let a = product(front) as int;
        let b = product(shorter) as int;
        let c = back.last() as int;
        assert(product(whole) == (a * b) * c);
        assert(product(back) == b * c);
        lemma_mul_is_associative(a, b, c);
        assert(product(whole) == a * (b * c));
    }
}

/// The product of a trailing run is the extent at its head times the product
/// of the run after it.
pub proof fn lemma_product_suffix_next(extents: Seq<usize>, k: int)
    requires
        0 <= k < extents.len(),
    ensures
        product(extents.subrange(k, extents.len() as int)) == extents[k] * product(
            extents.subrange(k + 1, extents.len() as int),
        ),
{
    let n = extents.len() as int;
    let head = seq![extents[k]];
    assert(extents.subrange(k, n) =~= head + extents.subrange(k + 1, n));
    lemma_product_concat(head, extents.subrange(k + 1, n));
    assert(head.drop_last() =~= Seq::<usize>::empty());
    assert(product(head) == extents[k]) by {
        reveal_with_fuel(product, 2);
    }
}

/// The product of no extents is 1, and that of the first extent is itself.
pub proof fn lemma_product_first(extents: Seq<usize>)
    requires
        extents.len() > 0,
    ensures
        product(extents.take(0)) == 1,
        product(extents.take(1)) == extents[0],
{
    lemma_product_take_next(extents, 0);
    assert(1 * extents[0] == extents[0]);
}

/// The products of the leading runs of a shape of rank 1.
pub proof fn lemma_product_rank1(extents: Seq<usize>)
    requires
        extents.len() == 1,
    ensures
        product(extents.take(0)) == 1,
        product(extents) == extents[0],
        prefixes_fit(extents),
{
    lemma_product_first(extents);
    assert(extents.take(1) =~= extents);
    assert forall|k: int| 0 <= k <= extents.len() implies #[trigger] product(extents.take(k))
        <= usize::MAX by {
        if k == 1 {
            assert(extents.take(k) =~= extents);
        }
    }
}

/// The products of the leading runs of a shape of rank 2.
pub proof fn lemma_product_rank2(extents: Seq<usize>)
    requires
        extents.len() == 2,
    ensures
        product(extents.take(0)) == 1,
        product(extents.take(1)) == extents[0],
        product(extents) == extents[0] * extents[1],
        prefixes_fit(extents) <==> extents[0] * extents[1] <= usize::MAX,
{
    lemma_product_first(extents);
    lemma_product_take_next(extents, 1);
    assert(extents.take(2) =~= extents);
    if extents[0] * extents[1] <= usize::MAX {
        assert forall|k: int| 0 <= k <= extents.len() implies #[trigger] product(
            extents.take(k),
        ) <= usize::MAX by {
            if k == 2 {
                assert(extents.take(k) =~= extents);
            }
        }
    }
    if prefixes_fit(extents) {
        assert(product(extents.take(2)) <= usize::MAX);
    }
}

/// The product of a shape of rank 3.
pub proof fn lemma_product_rank3(extents: Seq<usize>)
    requires
        extents.len() == 3,
    ensures
        product(extents.take(2)) == extents[0] * extents[1],
        product(extents) == extents[0] * extents[1] * extents[2],
{
    lemma_product_first(extents);
    lemma_product_take_next(extents, 1);
    lemma_product_take_next(extents, 2);
    assert(extents.take(3) =~= extents);
}

/// A shape has no elements exactly when one of its axes is empty.
pub proof fn lemma_product_zero(extents: Seq<usize>)
    ensures
        product(extents) == 0 <==> !all_nonzero(extents),
    decreases extents.len(),
{
    if extents.len() > 0 {
        let front = extents.drop_last();
        lemma_product_zero(front);
        assert(product(extents) == 0 <==> (product(front) == 0 || extents.last() == 0))
            by (nonlinear_arith)
            requires
                product(extents) == product(front) * (extents.last() as nat),
        ;
        if !all_nonzero(front) {
            let k = choose|k: int| 0 <= k < front.len() && front[k] == 0;
            assert(extents[k] == 0);
        }
        if !all_nonzero(extents) {
            let k = choose|k: int| 0 <= k < extents.len() && extents[k] == 0;
            if k < front.len() {
                assert(front[k] == 0);
            }
        }
    }
}

/// Where every leading run has a product that fits a word, so has the shape.
pub proof fn lemma_prefixes_fit_whole(extents: Seq<usize>)
    requires
        prefixes_fit(extents),
    ensures
        product(extents) <= usize::MAX,
{
    assert(extents.take(extents.len() as int) =~= extents);
}

/// Wrapping a number that fits a word leaves it unchanged.
pub proof fn lemma_wrap_small(value: nat)
    requires
        value <= usize::MAX,
    ensures
        wrap(value) == value,
{
    lemma_small_mod(value, modulus() as nat);
}

/// Multiplying a wrapped number and wrapping again gives what wrapping the
/// exact product gives.
pub proof fn lemma_wrap_mul(value: nat, factor: usize)
    ensures
        wrap(wrap(value) as nat * factor as nat) == wrap(value * factor as nat),
{
    lemma_mul_mod_noop_general(value as int, factor as int, modulus());
}

} // verus!
