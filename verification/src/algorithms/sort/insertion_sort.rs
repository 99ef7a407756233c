//! Insertion sort.

use vstd::prelude::*;
use core::cmp::Ordering;
use crate::order::{is_comparator, is_ordered, lemma_ordered, lt, is_gt};
use crate::permutation::{identity, moved};
use crate::slices::{pos, subslice_mut};
use crate::sorted::{sorted, sorts, stably_sorted, lemma_sorts_nothing, lemma_sorts_insert, lemma_stably_sorted};

verus! {

/// Sorts the slice stably by the order of its elements.
pub fn insertion_sort<T: Ord>(slice: &mut [T])
    requires
        is_ordered::<T>(),
    ensures
        stably_sorted(T::cmp, old(slice)@, final(slice)@, 0, pos(old(slice).len())),
        sorted(T::cmp, final(slice)@, 0, pos(old(slice).len())),
        final(slice)@.to_multiset() == old(slice)@.to_multiset(),
        final(slice)@.len() == old(slice)@.len(),
{
    proof {
        lemma_ordered::<T>();
    }
    insertion_sort_by(slice, T::cmp);
}

/// Sorts the slice stably by `comp`.
///
/// Each element in turn is moved down past the elements before it that are
/// strictly after it, so elements that are level keep their order.
pub fn insertion_sort_by<T, F>(slice: &mut [T], comp: F)
    where F: Fn(&T, &T) -> Ordering
    requires
        is_comparator(comp),
    ensures
        stably_sorted(comp, old(slice)@, final(slice)@, 0, pos(old(slice).len())),
        sorted(comp, final(slice)@, 0, pos(old(slice).len())),
        final(slice)@.to_multiset() == old(slice)@.to_multiset(),
        final(slice)@.len() == old(slice)@.len(),
{
    let ghost before = slice@;
    let ghost mut p = identity(slice@.len());
    proof {
        lemma_sorts_nothing(comp, before, 0, 0);
        lemma_sorts_nothing(comp, before, 0, 1);
    }
    if slice.is_empty() {
        proof {
            lemma_stably_sorted(comp, before, slice@, 0, 0);
        }
        return ;
    }
    let len = slice.len();
    let mut i: usize = 1;
    while i < len
        invariant
            is_comparator(comp),
            slice@.len() == len,
            1 <= i <= len,
            sorts(comp, before, slice@, p, 0, pos(i)),
        decreases len - i,
    {
        let ghost s = slice@;
        let mut j: usize = i;
        while j > 0 && is_gt(&comp, &slice[j - 1], &slice[i])
            invariant
                is_comparator(comp),
                slice@ == s,
                j <= i < len,
                len == s.len(),
                forall|k: int| j <= k < i ==> lt(comp, s[pos(i)], #[trigger] s[k]),
            decreases j,
        {
            j -= 1;
        }
        subslice_mut(slice, j, i + 1).rotate_right(1);
        proof {
            assert(slice@ =~= moved(s, pos(j), pos(i)));
            lemma_sorts_insert(comp, before, s, p, 0, pos(j), pos(i));
            p = moved(p, pos(j), pos(i));
        }
        i += 1;
    }
    proof {
        assert(stably_sorted(comp, before, slice@, 0, pos(len)));
        lemma_stably_sorted(comp, before, slice@, 0, pos(len));
    }
}

} // verus!
