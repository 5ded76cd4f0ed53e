//! The order of the axes of a stride vector from fastest to slowest varying.

use vstd::prelude::*;
use crate::offset::Ix;

verus! {

/// Whether axis `a` comes before axis `b` when axes are ordered by their
/// stored stride, an earlier axis first among equal strides.
pub open spec fn stride_before(strides: Seq<usize>, a: usize, b: usize) -> bool {
    strides[a as int] < strides[b as int] || (strides[a as int] == strides[b as int] && a < b)
}

/// Whether `order` lists every axis of `strides` once, by ascending stored
/// stride, an earlier axis first among equal strides.
pub open spec fn is_stride_order(strides: Seq<usize>, order: Seq<usize>) -> bool {
    &&& order.len() == strides.len()
    &&& forall|k: int| 0 <= k < order.len() ==> #[trigger] order[k] < strides.len()
    &&& forall|axis: usize| axis < strides.len() ==> #[trigger] order.contains(axis)
    &&& forall|a: int, b: int|
        0 <= a < b < order.len() ==> stride_before(
            strides,
            #[trigger] order[a],
            #[trigger] order[b],
        )
}

/// The axes of `strides` from the fastest varying to the slowest.
pub open spec fn stride_order(strides: Seq<usize>) -> Seq<usize> {
    choose|order: Seq<usize>| is_stride_order(strides, order)
}

/// Whether `after` holds the items of `before` sorted by `keys[item]`, items
/// of equal key in the order they had in `before`. The witness `from` gives,
/// for each position of `after`, the position in `before` that its item came
/// from.
pub open spec fn sorted_stably(before: Seq<usize>, after: Seq<usize>, keys: Seq<usize>) -> bool {
    exists|from: Seq<int>| #[trigger] rearranged_by(before, after, keys, from)
}

/// Whether `from` witnesses that `after` is `before` sorted stably by key.
pub open spec fn rearranged_by(
    before: Seq<usize>,
    after: Seq<usize>,
    keys: Seq<usize>,
    from: Seq<int>,
) -> bool {
    &&& after.len() == before.len()
    &&& from.len() == before.len()
    &&& forall|k: int|
        0 <= k < after.len() ==> {
            &&& 0 <= #[trigger] from[k] < before.len()
            &&& after[k] == before[from[k]]
        }
    &&& forall|j: int| 0 <= j < before.len() ==> #[trigger] from.contains(j)
    &&& forall|a: int, b: int|
        0 <= a < b < after.len() ==> {
            let key_a = keys[after[a] as int];
            let key_b = keys[after[b] as int];
            key_a < key_b || (key_a == key_b && #[trigger] from[a] < #[trigger] from[b])
        }
}

/// Writes into each slot its own position.
///
/// Trusted: calls `itertools::enumerate`, which pairs each item of what it is
/// given with a running index that starts at 0, and stores the index of each
/// slot in that slot.
#[verifier::external_body]
pub(crate) fn number_slots(slots: &mut [Ix])
    ensures
        final(slots)@ == Seq::new(old(slots)@.len(), |k: int| k as usize),
{
    for (position, slot) in itertools::enumerate(slots) {
        *slot = position;
    }
}

/// Sorts axis numbers by the stride of the axis they name.
///
/// Trusted: calls `sort_by_key` of slices, which std documents as a stable
/// sort by the extracted key: the slice ends up holding the same items by
/// ascending key, items of equal key in their earlier order. The key function
/// indexes `strides`, hence the bound on the items.
#[verifier::external_body]
pub(crate) fn sort_by_stride(axes: &mut [Ix], strides: &[Ix])
    requires
        forall|k: int| 0 <= k < old(axes)@.len() ==> old(axes)@[k] < strides@.len(),
    ensures
        sorted_stably(old(axes)@, final(axes)@, strides@),
{
    axes.sort_by_key(|&axis| strides[axis]);
}

/// Sorting the axis numbers `0, 1, ..` stably by stride gives the stride
/// order.
pub proof fn lemma_sorted_identity_is_stride_order(strides: Seq<usize>, order: Seq<usize>)
    requires
        strides.len() <= usize::MAX,
        sorted_stably(Seq::new(strides.len(), |k: int| k as usize), order, strides),
    ensures
        is_stride_order(strides, order),
{
    let identity = Seq::new(strides.len(), |k: int| k as usize);
    let from = choose|from: Seq<int>| #[trigger] rearranged_by(identity, order, strides, from);
    assert forall|k: int| 0 <= k < order.len() implies #[trigger] order[k] == from[k] by {
        assert(order[k] == identity[from[k]]);
    }
    assert forall|axis: usize| axis < strides.len() implies #[trigger] order.contains(axis) by {
        assert(from.contains(axis as int));
        let k = choose|k: int| 0 <= k < from.len() && from[k] == axis as int;
        assert(order[k] == axis);
    }
    assert forall|a: int, b: int| 0 <= a < b < order.len() implies stride_before(
        strides,
        #[trigger] order[a],
        #[trigger] order[b],
    ) by {
        assert(order[a] == from[a]);
        assert(order[b] == from[b]);
    }
}

/// A stride vector has at most one stride order.
pub proof fn lemma_stride_order_unique(strides: Seq<usize>, first: Seq<usize>, second: Seq<usize>)
    requires
        is_stride_order(strides, first),
        is_stride_order(strides, second),
    ensures
        first == second,
{
    assert forall|k: int| 0 <= k < first.len() implies first[k] == second[k] by {
        lemma_stride_order_agree(strides, first, second, k);
    }
    assert(first =~= second);
}

/// Two stride orders of one stride vector agree at every position.
proof fn lemma_stride_order_agree(
    strides: Seq<usize>,
    first: Seq<usize>,
    second: Seq<usize>,
    k: int,
)
    requires
        is_stride_order(strides, first),
        is_stride_order(strides, second),
        0 <= k < first.len(),
    ensures
        first[k] == second[k],
    decreases k,
{
    assert forall|j: int| 0 <= j < k implies first[j] == second[j] by {
        lemma_stride_order_agree(strides, first, second, j);
    }
    let x = first[k];
    let y = second[k];
    assert(second.contains(x));
    assert(first.contains(y));
    let m = choose|m: int| 0 <= m < second.len() && second[m] == x;
    let w = choose|w: int| 0 <= w < first.len() && first[w] == y;
    if m < k {
        assert(first[m] == second[m]);
        assert(stride_before(strides, first[m], first[k]));
    }
    if w < k {
        assert(second[w] == first[w]);
        assert(stride_before(strides, second[w], second[k]));
    }
    if m > k {
        assert(stride_before(strides, second[k], second[m]));
        if w > k {
            assert(stride_before(strides, first[k], first[w]));
        }
    }
}

/// A value that satisfies the defining property is the stride order.
pub proof fn lemma_stride_order_is(strides: Seq<usize>, order: Seq<usize>)
    requires
        is_stride_order(strides, order),
    ensures
        stride_order(strides) == order,
{
    lemma_stride_order_unique(strides, stride_order(strides), order);
}

/// Where an axis of stride `key` and of a higher number than all axes of
/// `order` goes: behind the axes whose stride is at most `key`.
spec fn insertion_point(strides: Seq<usize>, order: Seq<usize>, key: usize) -> int
    decreases order.len(),
{
    if order.len() == 0 {
        0
    } else if strides[order.last() as int] <= key {
        order.len() as int
    } else {
        insertion_point(strides, order.drop_last(), key)
    }
}

/// The insertion point parts an order by ascending stride into the axes of
/// stride at most `key` and those of a larger stride.
proof fn lemma_insertion_point(strides: Seq<usize>, order: Seq<usize>, key: usize)
    requires
        forall|a: int, b: int|
            0 <= a < b < order.len() ==> strides[#[trigger] order[a] as int]
                <= strides[#[trigger] order[b] as int],
    ensures
        0 <= insertion_point(strides, order, key) <= order.len(),
        forall|j: int|
            0 <= j < insertion_point(strides, order, key) ==> strides[#[trigger] order[j] as int]
                <= key,
        forall|j: int|
            insertion_point(strides, order, key) <= j < order.len() ==> strides[#[trigger] order[
                j
            ] as int] > key,
    decreases order.len(),
{
    if order.len() > 0 {
        let last = order.len() - 1;
        if strides[order.last() as int] <= key {
            assert forall|j: int| 0 <= j < order.len() implies strides[#[trigger] order[j] as int]
                <= key by {
                if j < last {
                    assert(strides[order[j] as int] <= strides[order[last] as int]);
                }
            }
        } else {
            let front = order.drop_last();
            assert forall|a: int, b: int| 0 <= a < b < front.len() implies strides[#[trigger] front[
                a
            ] as int] <= strides[#[trigger] front[b] as int] by {
                assert(strides[order[a] as int] <= strides[order[b] as int]);
            }
            lemma_insertion_point(strides, front, key);
            let at = insertion_point(strides, front, key);
            assert forall|j: int| 0 <= j < at implies strides[#[trigger] order[j] as int]
                <= key by {
                assert(strides[front[j] as int] <= key);
            }
            assert forall|j: int| at <= j < order.len() implies strides[#[trigger] order[j] as int]
                > key by {
                if j < last {
                    assert(strides[front[j] as int] > key);
                }
            }
        }
    }
}

/// Every stride vector has a stride order, so that [`stride_order`] names
/// it.
pub proof fn lemma_stride_order_exists(strides: Seq<usize>)
    requires
        strides.len() <= usize::MAX,
    ensures
        is_stride_order(strides, stride_order(strides)),
    decreases strides.len(),
{
    if strides.len() == 0 {
        assert(is_stride_order(strides, Seq::<usize>::empty()));
    } else {
        let front = strides.drop_last();
        let axis = (strides.len() - 1) as usize;
        let key = strides.last();
        lemma_stride_order_exists(front);
        let shorter = stride_order(front);
        assert forall|a: int, b: int| 0 <= a < b < shorter.len() implies front[#[trigger] shorter[
            a
        ] as int] <= front[#[trigger] shorter[b] as int] by {
            assert(stride_before(front, shorter[a], shorter[b]));
        }
        lemma_insertion_point(front, shorter, key);
        let at = insertion_point(front, shorter, key);
        let order = shorter.insert(at, axis);
        assert forall|k: int| 0 <= k < order.len() implies #[trigger] order[k] < strides.len() by {
            if k < at {
                assert(order[k] == shorter[k]);
            } else if k > at {
                assert(order[k] == shorter[k - 1]);
            }
        }
        assert forall|other: usize| other < strides.len() implies #[trigger] order.contains(
            other,
        ) by {
            if other == axis {
                assert(order[at] == axis);
            } else {
                assert(shorter.contains(other));
                let j = choose|j: int| 0 <= j < shorter.len() && shorter[j] == other;
                if j < at {
                    assert(order[j] == other);
                } else {
                    assert(order[j + 1] == other);
                }
            }
        }
        assert forall|a: int, b: int| 0 <= a < b < order.len() implies stride_before(
            strides,
            #[trigger] order[a],
            #[trigger] order[b],
        ) by {
            let from_a = if a < at {
                a
            } else {
                a - 1
            };
            let from_b = if b < at {
                b
            } else {
                b - 1
            };
            if a != at {
                assert(order[a] == shorter[from_a]);
                assert(shorter[from_a] < front.len());
                assert(strides[order[a] as int] == front[shorter[from_a] as int]);
            }
            if b != at {
                assert(order[b] == shorter[from_b]);
                assert(shorter[from_b] < front.len());
                assert(strides[order[b] as int] == front[shorter[from_b] as int]);
            }
            if a != at && b != at {
                assert(stride_before(front, shorter[from_a], shorter[from_b]));
            }
        }
        assert(is_stride_order(strides, order));
    }
}

} // verus!
