//! Introspective sort: quick sort that falls back on heap sort where it goes
//! too deep, and on insertion sort for short parts.

use vstd::prelude::*;
use vstd::arithmetic::power2::pow2;
use core::cmp::Ordering;
use crate::algorithms::adapter::heap_on_slice::heap_implementation::sorted_down;
use crate::algorithms::adapter::heap_on_slice::heap_order::reversed;
use crate::algorithms::adapter::heap_on_slice::max_heap;
use crate::algorithms::sort::insertion_sort::insertion_sort_by;
use crate::algorithms::sort::quick_sort::ternary_quick_sort::{ternary_partition_by, lemma_three_parts_sorted};
use crate::order::{is_comparator, is_ordered, lemma_ordered, le, lemma_lent, lemma_lent_comparator};
use crate::slices::{pos, subslice_mut};
use crate::sorted::{sorted, lemma_lent_stably_sorted};

verus! {

/// `usize::ilog2`: the logarithm to base 2, rounded down. It panics on zero.
pub assume_specification[ usize::ilog2 ](x: usize) -> (log: u32)
    requires
        x > 0,
    ensures
        pow2(log as nat) <= x < pow2((log + 1) as nat),
        log < usize::BITS,
;

/// Sorts the slice by the order of its elements.
pub fn intro_sort<T: Ord>(slice: &mut [T])
    requires
        is_ordered::<T>(),
        2 * old(slice).len() <= usize::MAX,
    ensures
        final(slice)@.len() == old(slice)@.len(),
        final(slice)@.to_multiset() == old(slice)@.to_multiset(),
        sorted(T::cmp, final(slice)@, 0, pos(old(slice).len())),
{
    proof {
        lemma_ordered::<T>();
    }
    intro_sort_by(slice, T::cmp)
}

/// Sorts the slice by `comp`.
pub fn intro_sort_by<T, F>(slice: &mut [T], comp: F)
    where F: Fn(&T, &T) -> Ordering
    requires
        is_comparator(comp),
        2 * old(slice).len() <= usize::MAX,
    ensures
        final(slice)@.len() == old(slice)@.len(),
        final(slice)@.to_multiset() == old(slice)@.to_multiset(),
        sorted(comp, final(slice)@, 0, pos(old(slice).len())),
{
    let len = slice.len();
    if len == 0 {
        return ;
    }
    let max_depth = (usize::ilog2(len)) << 1;

    intro_recurse_sort_by(slice, &comp, max_depth);
}

/// What a lent comparator sorts downwards when turned round, the comparator sorts upwards.
proof fn lemma_heap_sorted<T, F: Fn(&T, &T) -> Ordering>(compare: &F, s: Seq<T>, n: int)
    requires
        n == s.len(),
        sorted_down(reversed(compare), s),
    ensures
        sorted(*compare, s, 0, n),
{
    broadcast use lemma_lent;

    assert forall|i: int, j: int| 0 <= i < j < n implies le(
        *compare,
        #[trigger] s[i],
        #[trigger] s[j],
    ) by {
        assert((reversed(compare).le)(s[j], s[i]));
        assert(le(compare, s[i], s[j]));
    }
}

/// Sorts the slice by `comp`, going at most `max_depth` deep: a part of less
/// than 16 elements is sorted by insertion, at depth 0 the part is sorted as
/// a heap, and else it is parted in three and each part is sorted in the same way.
pub fn intro_recurse_sort_by<T, F>(slice: &mut [T], comp: &F, max_depth: u32)
    where F: Fn(&T, &T) -> Ordering
    requires
        is_comparator(*comp),
        2 * old(slice).len() <= usize::MAX,
    ensures
        final(slice)@.len() == old(slice)@.len(),
        final(slice)@.to_multiset() == old(slice)@.to_multiset(),
        sorted(*comp, final(slice)@, 0, pos(old(slice).len())),
    decreases max_depth,
{
    let ghost before = slice@;
    proof {
        lemma_lent_comparator(comp);
    }
    if slice.len() < 16 {
        insertion_sort_by(slice, comp);
        proof {
            lemma_lent_stably_sorted(comp, before, slice@, 0, pos(slice.len()));
        }
        return ;
    } else if max_depth == 0 {
        max_heap::heapsort_by(slice, comp);
        proof {
            lemma_heap_sorted(comp, slice@, pos(slice.len()));
        }
        return ;
    }
    // quick sort
    // partition

    let len = slice.len();
    let (pivot1, pivot2) = ternary_partition_by(slice, comp);
    let ghost parted_seq = slice@;

    // recurse
    let left = subslice_mut(slice, 0, pivot1 - 1);
    intro_recurse_sort_by(left, comp, max_depth - 1);
    let ghost left_sorted = left@;
    let mid = subslice_mut(slice, pivot1, pivot2);
    assert(mid@ =~= parted_seq.subrange(pos(pivot1), pos(pivot2)));
    intro_recurse_sort_by(mid, comp, max_depth - 1);
    let ghost mid_sorted = mid@;
    let right = subslice_mut(slice, pivot2 + 1, len);
    assert(right@ =~= parted_seq.subrange(pivot2 + 1, pos(len)));
    intro_recurse_sort_by(right, comp, max_depth - 1);
    let ghost right_sorted = right@;
    proof {
        lemma_three_parts_sorted(
            *comp,
            parted_seq,
            left_sorted,
            mid_sorted,
            right_sorted,
            pivot1 - 1,
            pos(pivot2),
            pos(len),
        );
        assert(slice@ =~= (left_sorted.push(parted_seq[pivot1 - 1]) + mid_sorted).push(
            parted_seq[pos(pivot2)],
        ) + right_sorted);
    }
}

} // verus!
