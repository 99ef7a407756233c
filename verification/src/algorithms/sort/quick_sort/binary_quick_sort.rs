//! Quick sort with one pivot: the last element of the part that is sorted.

use vstd::prelude::*;
use vstd::seq_lib::*;
use core::cmp::Ordering;
use crate::order::{is_comparator, is_ordered, lemma_ordered, le, lt, is_le, lemma_le_refl, lemma_le_lt_exclusive, lemma_lt_le};
use crate::permutation::{swapped, lemma_swapped_multiset};
use crate::slices::{pos, subslice_mut};
use crate::sorted::sorted;
use super::parts::{all_le, all_ge, lemma_bounds_kept, lemma_joined};

verus! {

/// Sorts the slice by the order of its elements.
pub fn binary_quick_sort<T: Ord>(slice: &mut [T])
    requires
        is_ordered::<T>(),
    ensures
        final(slice)@.len() == old(slice)@.len(),
        final(slice)@.to_multiset() == old(slice)@.to_multiset(),
        sorted(T::cmp, final(slice)@, 0, pos(old(slice).len())),
{
    proof {
        lemma_ordered::<T>();
    }
    binary_quick_sort_by(slice, T::cmp)
}

/// The element at `at` parts `s`: none before it is after it, and all behind
/// it are strictly after it.
pub open spec fn parted<T, F: Fn(&T, &T) -> Ordering>(compare: F, s: Seq<T>, at: int) -> bool {
    &&& 0 <= at < s.len()
    &&& forall|k: int| 0 <= k < at ==> le(compare, #[trigger] s[k], s[at])
    &&& forall|k: int| at < k < s.len() ==> lt(compare, s[at], #[trigger] s[k])
}

/// Parts the slice by its last element, the pivot, by the order of the
/// elements, and tells where the pivot came to stand.
pub fn partition<T: Ord>(slice: &mut [T]) -> (pivot_pos: usize)
    requires
        is_ordered::<T>(),
        old(slice).len() > 0,
    ensures
        final(slice)@.len() == old(slice)@.len(),
        final(slice)@.to_multiset() == old(slice)@.to_multiset(),
        parted(T::cmp, final(slice)@, pos(pivot_pos)),
        final(slice)@[pos(pivot_pos)] == old(slice)@[old(slice).len() - 1],
{
    proof {
        lemma_ordered::<T>();
    }
    partition_by(slice, &T::cmp)
}

/// Parts the slice by its last element, the pivot, and tells where the pivot
/// came to stand.
pub fn partition_by<T, F>(slice: &mut [T], comp: &F) -> (pivot_pos: usize)
    where F: Fn(&T, &T) -> Ordering
    requires
        is_comparator(*comp),
        old(slice).len() > 0,
    ensures
        final(slice)@.len() == old(slice)@.len(),
        final(slice)@.to_multiset() == old(slice)@.to_multiset(),
        parted(*comp, final(slice)@, pos(pivot_pos)),
        final(slice)@[pos(pivot_pos)] == old(slice)@[old(slice).len() - 1],
{
    let len = slice.len();
    let pivot = len - 1;
    let mut cur_left_pos: usize = 0;
    let ghost pv = slice@[pos(pivot)];

    let mut i: usize = 0;
    while i < len
        invariant
            is_comparator(*comp),
            slice@.len() == len,
            pivot == len - 1,
            i <= len,
            cur_left_pos <= i,
            slice@.to_multiset() == old(slice)@.to_multiset(),
            i <= pivot ==> slice@[pos(pivot)] == pv,
            i <= pivot ==> forall|k: int| 0 <= k < cur_left_pos ==> le(*comp, #[trigger] slice@[k], pv),
            i <= pivot ==> forall|k: int| cur_left_pos <= k < i ==> lt(*comp, pv, #[trigger] slice@[k]),
            i > pivot ==> cur_left_pos >= 1 && slice@[cur_left_pos - 1] == pv,
            i > pivot ==> forall|k: int| 0 <= k < cur_left_pos - 1 ==> le(*comp, #[trigger] slice@[k], pv),
            i > pivot ==> forall|k: int| cur_left_pos <= k < len ==> lt(*comp, pv, #[trigger] slice@[k]),
        decreases len - i,
    {
        let ghost s = slice@;
        if is_le(comp, &slice[i], &slice[pivot]) {
            slice.swap(cur_left_pos, i);
            proof {
                lemma_swapped_multiset(s, pos(cur_left_pos), pos(i));
                assert(slice@ == swapped(s, pos(cur_left_pos), pos(i)));
            }
            cur_left_pos += 1;
        } else {
            proof {
                if i == pivot {
                    lemma_le_refl(*comp, pv);
                    lemma_le_lt_exclusive(*comp, pv, pv);
                }
            }
        }
        i += 1;
    }
    cur_left_pos - 1
}

/// The parts before and behind an element that parts the slice, each sorted
/// and holding what it held, make the slice sorted.
proof fn lemma_parts_sorted<T, F: Fn(&T, &T) -> Ordering>(
    compare: F,
    parted_seq: Seq<T>,
    left: Seq<T>,
    right: Seq<T>,
    at: int,
    n: int,
)
    requires
        n == parted_seq.len(),
        parted(compare, parted_seq, at),
        left.to_multiset() == parted_seq.subrange(0, at).to_multiset(),
        right.to_multiset() == parted_seq.subrange(at + 1, n).to_multiset(),
        left.len() == at,
        right.len() == n - at - 1,
        sorted(compare, left, 0, at),
        sorted(compare, right, 0, n - at - 1),
    ensures
        sorted(compare, left.push(parted_seq[at]) + right, 0, n),
        (left.push(parted_seq[at]) + right).to_multiset() == parted_seq.to_multiset(),
{
    let x = parted_seq[at];
    let l0 = parted_seq.subrange(0, at);
    let r0 = parted_seq.subrange(at + 1, n);
    assert(all_le(compare, l0, x)) by {
        assert forall|k: int| 0 <= k < l0.len() implies le(compare, #[trigger] l0[k], x) by {
            assert(l0[k] == parted_seq[k]);
        }
    }
    assert(all_ge(compare, r0, x)) by {
        assert forall|k: int| 0 <= k < r0.len() implies le(compare, x, #[trigger] r0[k]) by {
            assert(r0[k] == parted_seq[at + 1 + k]);
            lemma_lt_le(compare, x, parted_seq[at + 1 + k]);
        }
    }
    lemma_bounds_kept(compare, l0, left, x);
    lemma_bounds_kept(compare, r0, right, x);
    lemma_joined(compare, left, x, right, at, n - at - 1);
    assert(parted_seq =~= l0.push(x) + r0);
    lemma_multiset_commutative(l0.push(x), r0);
    to_multiset_build(l0, x);
}

/// Sorts the slice by `comp`: it is parted by its last element, and the parts
/// before and behind that element are sorted in the same way.
pub fn quick_sort_by_comp<T, F>(slice: &mut [T], comp: &F)
    where F: Fn(&T, &T) -> Ordering
    requires
        is_comparator(*comp),
    ensures
        final(slice)@.len() == old(slice)@.len(),
        final(slice)@.to_multiset() == old(slice)@.to_multiset(),
        sorted(*comp, final(slice)@, 0, pos(old(slice).len())),
    decreases old(slice)@.len(),
{
    if slice.len() <= 1 {
        return ;
    }
    // partition

    let len = slice.len();
    let pivot_pos = partition_by(slice, comp);
    let ghost parted_seq = slice@;

    // recurse two part
    let left = subslice_mut(slice, 0, pivot_pos);
    quick_sort_by_comp(left, comp);
    let ghost left_sorted = left@;
    let right = subslice_mut(slice, pivot_pos + 1, len);
    assert(right@ =~= parted_seq.subrange(pivot_pos + 1, pos(len)));
    quick_sort_by_comp(right, comp);
    let ghost right_sorted = right@;
    proof {
        lemma_parts_sorted(*comp, parted_seq, left_sorted, right_sorted, pos(pivot_pos), pos(len));
        assert(slice@ =~= left_sorted.push(parted_seq[pos(pivot_pos)]) + right_sorted);
    }
}

/// Sorts the slice by `comp`.
pub fn binary_quick_sort_by<T, F>(slice: &mut [T], comp: F)
    where F: Fn(&T, &T) -> Ordering
    requires
        is_comparator(comp),
    ensures
        final(slice)@.len() == old(slice)@.len(),
        final(slice)@.to_multiset() == old(slice)@.to_multiset(),
        sorted(comp, final(slice)@, 0, pos(old(slice).len())),
{
    quick_sort_by_comp(slice, &comp);
}

} // verus!
