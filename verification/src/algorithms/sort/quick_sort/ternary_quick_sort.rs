//! Quick sort with two pivots: the first and the last element of the part
//! that is sorted.

use vstd::prelude::*;
use vstd::seq_lib::*;
use core::cmp::Ordering;
use crate::order::{is_comparator, is_ordered, lemma_ordered, le, lt, is_le, is_ge, is_gt, lemma_le_refl, lemma_le_trans, lemma_lt_le};
use crate::permutation::{swapped, lemma_swapped_multiset};
use crate::slices::{pos, subslice_mut};
use crate::sorted::sorted;
use super::parts::{all_le, all_ge, lemma_bounds_kept, lemma_joined};

verus! {

/// The elements at `first` and `second` part `s` in three: none before
/// `first` is after the element there, all between the two are strictly
/// between their elements, and none behind `second` is before the element there.
pub open spec fn parted_in_three<T, F: Fn(&T, &T) -> Ordering>(
    compare: F,
    s: Seq<T>,
    first: int,
    second: int,
) -> bool {
    &&& 0 <= first < second < s.len()
    &&& le(compare, s[first], s[second])
    &&& forall|k: int| 0 <= k < first ==> le(compare, #[trigger] s[k], s[first])
    &&& forall|k: int|
        first < k < second ==> lt(compare, s[first], #[trigger] s[k]) && lt(
            compare,
            s[k],
            s[second],
        )
    &&& forall|k: int| second < k < s.len() ==> le(compare, s[second], #[trigger] s[k])
}

/// The pivots of a slice that was parted in three: `lesser` and `greater`
/// are the first and the last of its elements, the one that is not after the
/// other named first.
pub open spec fn pivots_of<T, F: Fn(&T, &T) -> Ordering>(
    compare: F,
    s: Seq<T>,
    lesser: T,
    greater: T,
) -> bool {
    s.len() >= 2 && ((lesser == s[0] && greater == s[s.len() - 1] && le(
        compare,
        s[0],
        s[s.len() - 1],
    )) || (lesser == s[s.len() - 1] && greater == s[0] && lt(compare, s[s.len() - 1], s[0])))
}

/// Parts the slice in three by its first and its last element, by the order
/// of the elements. Of the two indices that come back, the first is the one
/// behind the lesser pivot and the second that of the greater pivot.
pub fn ternary_partition<T: Ord>(slice: &mut [T]) -> (pivots: (usize, usize))
    requires
        is_ordered::<T>(),
        old(slice).len() >= 2,
    ensures
        final(slice)@.len() == old(slice)@.len(),
        final(slice)@.to_multiset() == old(slice)@.to_multiset(),
        pivots.0 >= 1,
        parted_in_three(T::cmp, final(slice)@, pivots.0 - 1, pos(pivots.1)),
        pivots_of(
            T::cmp,
            old(slice)@,
            final(slice)@[pivots.0 - 1],
            final(slice)@[pos(pivots.1)],
        ),
{
    proof {
        lemma_ordered::<T>();
    }
    ternary_partition_by(slice, &T::cmp)
}

/// Sorts the slice by the order of its elements.
pub fn ternary_quick_sort<T: Ord>(slice: &mut [T])
    requires
        is_ordered::<T>(),
    ensures
        final(slice)@.len() == old(slice)@.len(),
        final(slice)@.to_multiset() == old(slice)@.to_multiset(),
        sorted(T::cmp, final(slice)@, 0, pos(old(slice).len())),
{
    proof {
        lemma_ordered::<T>();
    }
    ternary_quick_by(slice, &T::cmp)
}

/// Parts the slice in three by its first and its last element, by `comp`. Of
/// the two indices that come back, the first is the one behind the lesser
/// pivot and the second that of the greater pivot.
pub fn ternary_partition_by<T, F>(slice: &mut [T], comp: &F) -> (pivots: (usize, usize))
    where F: Fn(&T, &T) -> Ordering
    requires
        is_comparator(*comp),
        old(slice).len() >= 2,
    ensures
        final(slice)@.len() == old(slice)@.len(),
        final(slice)@.to_multiset() == old(slice)@.to_multiset(),
        pivots.0 >= 1,
        parted_in_three(*comp, final(slice)@, pivots.0 - 1, pos(pivots.1)),
        pivots_of(
            *comp,
            old(slice)@,
            final(slice)@[pivots.0 - 1],
            final(slice)@[pos(pivots.1)],
        ),
{
    let end = slice.len() - 1;
    let ghost s0 = slice@;

    if is_gt(comp, &slice[0], &slice[end]) {
        slice.swap(0, end);
        proof {
            lemma_swapped_multiset(s0, 0, pos(end));
            lemma_lt_le(*comp, s0[pos(end)], s0[0]);
        }
    }
    let ghost p1 = slice@[0];
    let ghost p2 = slice@[pos(end)];
    assert(pivots_of(*comp, s0, p1, p2));

    // [0, i) : smaller, equal pivot 1
    // [i, j) : big than pivot 1 and smaller than pivot2
    // [j.. : big, equal pivot 2
    let mut i: usize = 1;
    let mut j: usize = 1;
    let mut k: usize = end - 1;
    while j <= k
        invariant
            is_comparator(*comp),
            slice@.len() == s0.len(),
            end == s0.len() - 1,
            slice@.to_multiset() == s0.to_multiset(),
            slice@[0] == p1,
            slice@[pos(end)] == p2,
            le(*comp, p1, p2),
            1 <= i <= j <= k + 1 <= end,
            forall|x: int| 1 <= x < i ==> le(*comp, #[trigger] slice@[x], p1),
            forall|x: int| i <= x < j ==> lt(*comp, p1, #[trigger] slice@[x]) && lt(*comp, slice@[x], p2),
            forall|x: int| k < x < end ==> le(*comp, p2, #[trigger] slice@[x]),
        decreases k + 1 - j,
    {
        let ghost s = slice@;
        if is_le(comp, &slice[j], &slice[0]) {
            // left
            slice.swap(i, j);
            proof {
                lemma_swapped_multiset(s, pos(i), pos(j));
                assert(slice@ == swapped(s, pos(i), pos(j)));
            }
            i += 1;
            j += 1;
        } else if is_ge(comp, &slice[j], &slice[end]) {
            // right
            slice.swap(j, k);
            proof {
                lemma_swapped_multiset(s, pos(j), pos(k));
                assert(slice@ == swapped(s, pos(j), pos(k)));
            }
            k -= 1;
        } else {
            // mid
            j += 1;
        }
    }
    let ghost s = slice@;
    slice.swap(0, i - 1);
    let ghost s1 = slice@;
    slice.swap(j, end);
    proof {
        lemma_swapped_multiset(s, 0, i - 1);
        lemma_swapped_multiset(s1, pos(j), pos(end));
        assert(s1 == swapped(s, 0, i - 1));
        assert(slice@ == swapped(s1, pos(j), pos(end)));
        assert(slice@[i - 1] == p1);
        assert(slice@[pos(j)] == p2);
        lemma_le_refl(*comp, p1);
        lemma_le_refl(*comp, p2);
        assert forall|x: int| i - 1 < x < j implies lt(*comp, slice@[i - 1], #[trigger] slice@[x])
            && lt(*comp, slice@[x], slice@[pos(j)]) by {
            assert(slice@[x] == s[x]);
        }
        assert forall|x: int| 0 <= x < i - 1 implies le(*comp, #[trigger] slice@[x], slice@[i - 1]) by {
            if x > 0 {
                assert(slice@[x] == s[x]);
            }
        }
        assert forall|x: int| j < x < slice@.len() implies le(*comp, slice@[pos(j)], #[trigger] slice@[x]) by {
            if x < end {
                assert(slice@[x] == s[x]);
            }
        }
    }
    (i, j)
}

/// The three parts that two pivots make, each sorted and holding what it
/// held, make the slice sorted.
pub proof fn lemma_three_parts_sorted<T, F: Fn(&T, &T) -> Ordering>(
    compare: F,
    parted_seq: Seq<T>,
    left: Seq<T>,
    mid: Seq<T>,
    right: Seq<T>,
    first: int,
    second: int,
    n: int,
)
    requires
        n == parted_seq.len(),
        parted_in_three(compare, parted_seq, first, second),
        left.to_multiset() == parted_seq.subrange(0, first).to_multiset(),
        mid.to_multiset() == parted_seq.subrange(first + 1, second).to_multiset(),
        right.to_multiset() == parted_seq.subrange(second + 1, n).to_multiset(),
        left.len() == first,
        mid.len() == second - first - 1,
        right.len() == n - second - 1,
        sorted(compare, left, 0, first),
        sorted(compare, mid, 0, second - first - 1),
        sorted(compare, right, 0, n - second - 1),
    ensures
        sorted(compare, (left.push(parted_seq[first]) + mid).push(parted_seq[second]) + right, 0, n),
        ((left.push(parted_seq[first]) + mid).push(parted_seq[second]) + right).to_multiset()
            == parted_seq.to_multiset(),
{
    let x = parted_seq[first];
    let y = parted_seq[second];
    let l0 = parted_seq.subrange(0, first);
    let m0 = parted_seq.subrange(first + 1, second);
    let r0 = parted_seq.subrange(second + 1, n);
    assert(all_le(compare, l0, x)) by {
        assert forall|k: int| 0 <= k < l0.len() implies le(compare, #[trigger] l0[k], x) by {
            assert(l0[k] == parted_seq[k]);
        }
    }
    assert(all_ge(compare, m0, x) && all_le(compare, m0, y)) by {
        assert forall|k: int| 0 <= k < m0.len() implies le(compare, x, #[trigger] m0[k]) && le(
            compare,
            m0[k],
            y,
        ) by {
            assert(m0[k] == parted_seq[first + 1 + k]);
            lemma_lt_le(compare, x, parted_seq[first + 1 + k]);
            lemma_lt_le(compare, parted_seq[first + 1 + k], y);
        }
    }
    assert(all_ge(compare, r0, y)) by {
        assert forall|k: int| 0 <= k < r0.len() implies le(compare, y, #[trigger] r0[k]) by {
            assert(r0[k] == parted_seq[second + 1 + k]);
        }
    }
    lemma_bounds_kept(compare, l0, left, x);
    lemma_bounds_kept(compare, m0, mid, x);
    lemma_bounds_kept(compare, m0, mid, y);
    lemma_bounds_kept(compare, r0, right, y);
    lemma_joined(compare, left, x, mid, first, second - first - 1);
    let front = left.push(x) + mid;
    assert(all_le(compare, front, y)) by {
        assert forall|k: int| 0 <= k < front.len() implies le(compare, #[trigger] front[k], y) by {
            if k < first {
                assert(front[k] == left[k]);
                lemma_le_trans(compare, left[k], x, y);
            } else if k == first {
                assert(front[k] == x);
            } else {
                assert(front[k] == mid[k - first - 1]);
            }
        }
    }
    lemma_joined(compare, front, y, right, second, n - second - 1);
    let front0 = l0.push(x) + m0;
    assert(parted_seq =~= front0.push(y) + r0);
    lemma_multiset_commutative(front0.push(y), r0);
    to_multiset_build(front0, y);
    lemma_multiset_commutative(l0.push(x), m0);
    to_multiset_build(l0, x);
}

/// Sorts the slice by `comp`: it is parted in three, and each part is sorted
/// in the same way.
pub fn ternary_quick_by<T, F>(slice: &mut [T], comp: &F)
    where F: Fn(&T, &T) -> Ordering
    requires
        is_comparator(*comp),
    ensures
        final(slice)@.len() == old(slice)@.len(),
        final(slice)@.to_multiset() == old(slice)@.to_multiset(),
        sorted(*comp, final(slice)@, 0, pos(old(slice).len())),
    decreases old(slice)@.len(),
{
    if slice.len() <= 1 {
        return ;
    }
    let len = slice.len();
    let (pivot1, pivot2) = ternary_partition_by(slice, comp);
    let ghost parted_seq = slice@;

    let left = subslice_mut(slice, 0, pivot1 - 1);
    ternary_quick_by(left, comp);
    let ghost left_sorted = left@;
    let mid = subslice_mut(slice, pivot1, pivot2);
    assert(mid@ =~= parted_seq.subrange(pos(pivot1), pos(pivot2)));
    ternary_quick_by(mid, comp);
    let ghost mid_sorted = mid@;
    let right = subslice_mut(slice, pivot2 + 1, len);
    assert(right@ =~= parted_seq.subrange(pivot2 + 1, pos(len)));
    ternary_quick_by(right, comp);
    let ghost right_sorted = right@;
    proof {
        lemma_three_parts_sorted(
            *comp,
            parted_seq,
            left_sorted,
            mid_sorted,
            right_sorted,
            pivot1 - 1,
            pos(pivot2),
            pos(len),
        );
        assert(slice@ =~= (left_sorted.push(parted_seq[pivot1 - 1]) + mid_sorted).push(
            parted_seq[pos(pivot2)],
        ) + right_sorted);
    }
}

/// Sorts the slice by `comp`.
pub fn ternary_quick_sort_by<T, F>(slice: &mut [T], comp: F)
    where F: Fn(&T, &T) -> Ordering
    requires
        is_comparator(comp),
    ensures
        final(slice)@.len() == old(slice)@.len(),
        final(slice)@.to_multiset() == old(slice)@.to_multiset(),
        sorted(comp, final(slice)@, 0, pos(old(slice).len())),
{
    ternary_quick_by(slice, &comp);
}

} // verus!
