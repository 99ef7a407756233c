//! A stable, adaptive merge sort: natural runs are found and lengthened by
//! binary insertion, kept on a stack whose lengths are held in proportion, and
//! merged with a search that gallops when one side keeps winning.

use vstd::prelude::*;
use core::cmp::Ordering;
use crate::order::{is_ordered, lemma_ordered, is_comparator, le, lt, is_le, is_lt, is_gt, lemma_lent_comparator, lemma_le_refl, lemma_le_trans, lemma_le_lt_trans, lemma_lt_le_trans, lemma_le_lt_exclusive};
use crate::permutation::{rearranged, within, identity, compose, moved, reversed, lifted};
use crate::runs::{Run, run_len, start_of, end_of, tiled, lemma_tiled, lemma_tiled_up};
use crate::slices::{pos, subslice, subslice_mut, partition_point, places_within, settle};
use crate::sorted::{sorted, precedes, in_order, stays_within, lemma_in_order_sorted, lemma_merged_in_order, sorts, sorts_down, stably_sorted, stably_sorted_down, lemma_sorts, lemma_sorts_len, lemma_sorts_nothing, lemma_sorts_insert, lemma_sorts_down_insert, lemma_sorts_reversed, lemma_sorts_lifted, lemma_lent_sorts, lemma_lent_stably_sorted, lemma_stably_sorted};

verus! {

/// `m` halved until it is 64 or less.
pub open spec fn halved_to_64(m: nat) -> nat
    decreases m,
{
    if m > 64 {
        halved_to_64(m / 2)
    } else {
        m
    }
}

/// The least length of a run for a slice of `n` elements: `n` itself below 64,
/// else one more than `n - 1` halved until it is 64 or less, and 32 at the least.
pub open spec fn min_run_size(n: nat) -> nat {
    if n < 64 {
        n
    } else if halved_to_64((n - 1) as nat) + 1 < 32 {
        32
    } else {
        halved_to_64((n - 1) as nat) + 1
    }
}

/// The number of runs of the least length that cover `n` elements.
pub open spec fn max_run_count(n: nat) -> nat {
    if n < 64 {
        1
    } else {
        ((n - 1) / (min_run_size(n) as int) + 1) as nat
    }
}

/// A number from 63 on, halved until it is 64 or less, is 32 at the least.
proof fn lemma_halved_bounds(m: nat)
    requires
        m >= 63,
    ensures
        32 <= halved_to_64(m) <= 64,
    decreases m,
{
    if m > 64 {
        if m / 2 >= 63 {
            lemma_halved_bounds(m / 2);
        } else {
            assert(halved_to_64(m / 2) == m / 2);
        }
    }
}

/// The least length of a run and the greatest number of runs for a slice of `n` elements.
pub fn get_min_run_size(n: usize) -> (sizes: (usize, usize))
    ensures
        sizes.0 == min_run_size(n as nat),
        sizes.1 == max_run_count(n as nat),
        n < 64 ==> sizes.0 == n,
        n >= 64 ==> 33 <= sizes.0 <= 65,
        n > 0 ==> (sizes.1 - 1) * sizes.0 < n <= sizes.1 * sizes.0,
{
    if n < 64 {
        return (n, 1);
    }
    let min_run_size: usize = {
        let mut m: usize = n - 1;
        proof {
            lemma_halved_bounds(m as nat);
        }
        while m > 64
            invariant
                halved_to_64(m as nat) == halved_to_64((n - 1) as nat),
            decreases m,
        {
            assert(m >> 1 == m / 2) by (bit_vector);
            m >>= 1;
        }
        if m + 1 > 32 {
            m + 1
        } else {
            32
        }
    };
    let max_run_cnt: usize = (n - 1) / min_run_size + 1;
    proof {
        let q = (n - 1) as int / (min_run_size as int);
        assert(q * min_run_size <= n - 1 < q * min_run_size + min_run_size) by (nonlinear_arith)
            requires
                q == (n - 1) as int / (min_run_size as int),
                min_run_size > 0,
                n >= 1,
        ;
        assert((q + 1) * min_run_size == q * min_run_size + min_run_size) by (nonlinear_arith);
    }
    (min_run_size, max_run_cnt)
}

/// The lengths of the three topmost runs are in proportion: the top one is
/// shorter than the one below it, and the two together are shorter than the third.
pub open spec fn run_stack_ok(run_stack: Seq<Run>) -> bool {
    let size = run_stack.len() as int;
    size < 3 || (run_len(run_stack[size - 1]) < run_len(run_stack[size - 2]) && run_len(
        run_stack[size - 1],
    ) + run_len(run_stack[size - 2]) < run_len(run_stack[size - 3]))
}

/// Tells whether the lengths of the three topmost runs are in proportion.
pub fn is_run_stack_ok(run_stack: &mut [Run]) -> (ok: bool)
    requires
        forall|i: int|
            0 <= i < old(run_stack)@.len() ==> (#[trigger] old(run_stack)@[i]).0 <= old(
                run_stack,
            )@[i].1,
        old(run_stack)@.len() >= 2 ==> run_len(old(run_stack)@[old(run_stack)@.len() - 1])
            + run_len(old(run_stack)@[old(run_stack)@.len() - 2]) <= usize::MAX,
    ensures
        ok == run_stack_ok(old(run_stack)@),
        final(run_stack)@ == old(run_stack)@,
{
    let size = run_stack.len();
    if size < 3 {
        return true;
    }
    let first = run_stack[size - 1];
    let second = run_stack[size - 2];
    let third = run_stack[size - 3];
    let first = first.1 - first.0;
    let second = second.1 - second.0;
    let third = third.1 - third.0;

    first < second && (first + second) < third
}

/// Tells whether the first run is longer than the second.
pub fn is_run_gt(r1: &Run, r2: &Run) -> (longer: bool)
    requires
        r1.0 <= r1.1,
        r2.0 <= r2.1,
    ensures
        longer == (run_len(*r1) > run_len(*r2)),
{
    (r1.1 - r1.0) > (r2.1 - r2.0)
}

/// Moves the threshold of the galloping mode after a gallop that took
/// `gallop_cnt` elements: up by one where it took a single element, else down
/// by one, though never below 1. A threshold of `u32::MAX` cannot go up.
pub fn update_min_gallop(min_gallop: &mut u32, gallop_cnt: usize)
    requires
        gallop_cnt == 1 ==> *old(min_gallop) < u32::MAX,
    ensures
        *final(min_gallop) == if gallop_cnt == 1 {
            *old(min_gallop) + 1
        } else if *old(min_gallop) > 1 {
            *old(min_gallop) - 1
        } else {
            *old(min_gallop) as int
        },
{
    if gallop_cnt == 1 {
        *min_gallop += 1;
    } else if *min_gallop > 1 {
        *min_gallop -= 1;
    }
}

/// Sorts the slice by insertion, the place of each element being found by
/// halving: upwards where `is_inc` holds, else downwards. Either way elements
/// that are level keep their order once the slice is read in sorted direction.
pub fn binary_insertion_sort_by<T, F>(slice: &mut [T], comp: F, is_inc: bool)
    where F: Fn(&T, &T) -> Ordering
    requires
        is_comparator(comp),
    ensures
        is_inc ==> stably_sorted(comp, old(slice)@, final(slice)@, 0, pos(old(slice).len())),
        !is_inc ==> stably_sorted_down(comp, old(slice)@, final(slice)@, 0, pos(old(slice).len())),
{
    let len = slice.len();
    let ghost before = slice@;
    let ghost mut p = identity(slice@.len());
    proof {
        lemma_sorts_nothing(comp, before, 0, 1);
        lemma_sorts_nothing(comp, before, 0, 0);
    }
    if len == 0 {
        return ;
    }
    let mut cur_pos: usize = 1;
    while cur_pos < len
        invariant
            is_comparator(comp),
            slice@.len() == len,
            1 <= cur_pos <= len,
            is_inc ==> sorts(comp, before, slice@, p, 0, pos(cur_pos)),
            !is_inc ==> sorts_down(comp, before, slice@, p, 0, pos(cur_pos)),
        decreases len - cur_pos,
    {
        let ghost s = slice@;
        let insertion_pos = {
            let target = &slice[cur_pos];
            let sorted_part = subslice(slice, 0, cur_pos);
            let compare = &comp;
            if is_inc {
                let not_after = |x: &T| -> (b: bool)
                    ensures
                        b ==> le(*compare, *x, *target),
                        !b ==> lt(*compare, *target, *x),
                {
                    is_le(compare, x, target)
                };
                partition_point(sorted_part, not_after)
            } else {
                let after = |x: &T| -> (b: bool)
                    ensures
                        b ==> lt(*compare, *target, *x),
                        !b ==> le(*compare, *x, *target),
                {
                    is_gt(compare, x, target)
                };
                partition_point(sorted_part, after)
            }
        };
        subslice_mut(slice, insertion_pos, cur_pos + 1).rotate_right(1);
        proof {
            assert(slice@ =~= moved(s, pos(insertion_pos), pos(cur_pos)));
            if insertion_pos > 0 {
                assert(s.subrange(0, pos(cur_pos))[insertion_pos - 1] == s[insertion_pos - 1]);
            }
            if insertion_pos < cur_pos {
                assert(s.subrange(0, pos(cur_pos))[pos(insertion_pos)] == s[pos(insertion_pos)]);
            }
            if is_inc {
                lemma_sorts_insert(comp, before, s, p, 0, pos(insertion_pos), pos(cur_pos));
            } else {
                lemma_sorts_down_insert(comp, before, s, p, 0, pos(insertion_pos), pos(cur_pos));
            }
            p = moved(p, pos(insertion_pos), pos(cur_pos));
        }
        cur_pos += 1;
    }
}

/// How the run from `start` up to `end` was found in `before`, where
/// `first_end` is the index up to which elements were sorted by insertion.
///
/// A single last element is a run. Else the first two elements tell the
/// direction. A run that goes up was lengthened by elements that stayed where
/// they stood, and ends where the slice ends or the next element is strictly
/// before its last one. A run that goes down was lengthened in the same way
/// and then turned over, and ends where the slice ends or the next element is
/// not before its least one.
pub open spec fn run_as_found<T, F: Fn(&T, &T) -> Ordering>(
    compare: F,
    before: Seq<T>,
    after: Seq<T>,
    start: int,
    first_end: int,
    end: int,
) -> bool {
    ||| start + 1 == before.len() && end == before.len()
    ||| {
        &&& start + 1 < before.len()
        &&& le(compare, before[start], before[start + 1])
        &&& forall|k: int| first_end <= k < end ==> #[trigger] after[k] == before[k]
        &&& end == before.len() || lt(compare, after[end], after[end - 1])
    }
    ||| {
        &&& start + 1 < before.len()
        &&& lt(compare, before[start + 1], before[start])
        &&& forall|k: int| first_end <= k < end ==> after[start + end - 1 - k] == #[trigger] before[k]
        &&& end == before.len() || le(compare, after[start], after[end])
    }
}

/// Finds the run that starts at `run_start_pos`, makes it at least
/// `min_run_size` long where the slice allows, and leaves it sorted upwards.
///
/// The first two elements decide the direction. That many elements are sorted
/// by insertion in that direction, the run is lengthened while the next
/// element goes on in it, and a run that goes down is turned over. The result
/// is the index behind the run.
pub fn get_sorted_run_from_slice<T, F>(
    slice: &mut [T],
    compare: F,
    run_start_pos: usize,
    min_run_size: usize,
) -> (run_end_pos: usize)
    where F: Fn(&T, &T) -> Ordering
    requires
        is_comparator(compare),
        run_start_pos < old(slice).len(),
        1 <= min_run_size,
        run_start_pos + min_run_size <= usize::MAX,
    ensures
        run_start_pos < run_end_pos <= old(slice).len(),
        run_end_pos >= run_start_pos + min_run_size || run_end_pos == old(slice).len(),
        stably_sorted(compare, old(slice)@, final(slice)@, pos(run_start_pos), pos(run_end_pos)),
        run_as_found(
            compare,
            old(slice)@,
            final(slice)@,
            pos(run_start_pos),
            if run_start_pos + min_run_size < old(slice).len() {
                run_start_pos + min_run_size
            } else {
                pos(old(slice).len())
            },
            pos(run_end_pos),
        ),
{
    let size = slice.len();
    let ghost before = slice@;

    // a single element is left
    if run_start_pos == size - 1 {
        proof {
            lemma_sorts_nothing(compare, before, pos(run_start_pos), pos(size));
        }
        return size;
    }
    // the first two elements decide the direction

    let is_run_increase = is_le(&compare, &slice[run_start_pos], &slice[run_start_pos + 1]);

    // sort the least run
    let mut run_end_pos = if run_start_pos + min_run_size < size {
        run_start_pos + min_run_size
    } else {
        size
    };
    let part = subslice_mut(slice, run_start_pos, run_end_pos);
    let ghost part_before = part@;
    proof {
        lemma_lent_comparator(&compare);
    }
    binary_insertion_sort_by(part, &compare, is_run_increase);
    let ghost part_after = part@;
    let ghost mut p: Seq<int>;
    proof {
        let n = run_end_pos - run_start_pos;
        assert(part_before.len() == n);
        let q = if is_run_increase {
            choose|q: Seq<int>| sorts(&compare, part_before, part_after, q, 0, n)
        } else {
            choose|q: Seq<int>| sorts_down(&compare, part_before, part_after, q, 0, n)
        };
        lemma_lent_sorts(&compare, part_before, part_after, q, 0, n);
        lemma_sorts_lifted(compare, before, part_after, q, pos(run_start_pos), pos(run_end_pos));
        p = lifted(q, pos(run_start_pos), before.len());
        lemma_sorts_len(compare, part_before, part_after, q, 0, n);
    }
    let ghost first_end = pos(run_end_pos);
    let ghost first_sorted = slice@;

    // lengthen the run
    if is_run_increase {
        while run_end_pos < size && is_le(&compare, &slice[run_end_pos - 1], &slice[run_end_pos])
            invariant
                is_comparator(compare),
                slice@.len() == size,
                run_start_pos < run_end_pos <= size,
                run_end_pos >= run_start_pos + min_run_size || run_end_pos == size,
                sorts(compare, before, slice@, p, pos(run_start_pos), pos(run_end_pos)),
                first_end <= run_end_pos,
                slice@ == first_sorted,
                forall|k: int| first_end <= k < size ==> first_sorted[k] == before[k],
            decreases size - run_end_pos,
        {
            proof {
                lemma_sorts_insert(
                    compare,
                    before,
                    slice@,
                    p,
                    pos(run_start_pos),
                    pos(run_end_pos),
                    pos(run_end_pos),
                );
            }
            run_end_pos += 1;
        }
    } else {
        while run_end_pos < size && is_gt(&compare, &slice[run_end_pos - 1], &slice[run_end_pos])
            invariant
                is_comparator(compare),
                slice@.len() == size,
                run_start_pos < run_end_pos <= size,
                run_end_pos >= run_start_pos + min_run_size || run_end_pos == size,
                sorts_down(compare, before, slice@, p, pos(run_start_pos), pos(run_end_pos)),
                first_end <= run_end_pos,
                slice@ == first_sorted,
                forall|k: int| first_end <= k < size ==> first_sorted[k] == before[k],
            decreases size - run_end_pos,
        {
            proof {
                lemma_sorts_down_insert(
                    compare,
                    before,
                    slice@,
                    p,
                    pos(run_start_pos),
                    pos(run_end_pos),
                    pos(run_end_pos),
                );
            }
            run_end_pos += 1;
        }
    }

    // turn over a run that goes down
    if !is_run_increase {
        let ghost s = slice@;
        subslice_mut(slice, run_start_pos, run_end_pos).reverse();
        proof {
            assert(slice@ =~= reversed(s, pos(run_start_pos), pos(run_end_pos)));
            lemma_sorts_reversed(compare, before, s, p, pos(run_start_pos), pos(run_end_pos));
            p = reversed(p, pos(run_start_pos), pos(run_end_pos));
        }
    }
    run_end_pos
}

/// `pred` never gives both answers for one pair.
pub open spec fn is_predicate<T, P: Fn(&T, &T) -> bool>(pred: P) -> bool {
    forall|x: T, t: T|
        !(#[trigger] call_ensures(pred, (&x, &t), true) && call_ensures(pred, (&x, &t), false))
}

/// Counts from `start_idx` the elements below `run_limit` that `pred` accepts
/// against the element at `target_idx`, looking at them in strides that
/// double and then by halving inside the last stride.
///
/// The element before the end of the count was tested and accepted, and the
/// element at its end was tested and rejected, as far as there are such
/// elements. So where the accepted elements stand before the rejected ones,
/// all of them are counted.
pub fn galloping_count<T, P>(
    slice: &mut [T],
    target_idx: usize,
    start_idx: usize,
    run_limit: usize,
    pred: P,
) -> (count: usize)
    where P: Fn(&T, &T) -> bool
    requires
        start_idx <= run_limit <= old(slice).len(),
        start_idx < run_limit ==> target_idx < old(slice).len(),
        2 * run_limit <= usize::MAX,
        forall|x: T, t: T| #[trigger] call_requires(pred, (&x, &t)),
        is_predicate(pred),
    ensures
        final(slice)@ == old(slice)@,
        start_idx + count <= run_limit,
        count > 0 ==> call_ensures(
            pred,
            (&old(slice)@[start_idx + count - 1], &old(slice)@[target_idx as int]),
            true,
        ),
        start_idx + count < run_limit ==> call_ensures(
            pred,
            (&old(slice)@[start_idx + count], &old(slice)@[target_idx as int]),
            false,
        ),
{
    let mut stride: usize = 1;
    let mut prev_idx: usize = start_idx;
    let mut cur_idx: usize = start_idx + stride;
    // galloping
    while cur_idx < run_limit && pred(&slice[cur_idx], &slice[target_idx])
        invariant
            slice@ == old(slice)@,
            start_idx <= run_limit <= slice@.len(),
            start_idx < run_limit ==> target_idx < slice@.len(),
            2 * run_limit <= usize::MAX,
            forall|x: T, t: T| #[trigger] call_requires(pred, (&x, &t)),
            is_predicate(pred),
            1 <= stride,
            cur_idx == start_idx + stride,
            start_idx <= prev_idx < cur_idx,
            prev_idx <= run_limit,
            prev_idx > start_idx ==> prev_idx < run_limit,
            prev_idx > start_idx ==> call_ensures(
                pred,
                (&slice@[prev_idx as int], &slice@[target_idx as int]),
                true,
            ),
        decreases run_limit - prev_idx,
    {
        assert(stride << 1 == (2 * stride) as usize) by (bit_vector);
        stride <<= 1;
        prev_idx = cur_idx;
        cur_idx = start_idx + stride;
    }
    let ghost stopped = cur_idx;
    cur_idx = if cur_idx < run_limit {
        cur_idx
    } else {
        run_limit
    };

    // binary search range
    let found = if prev_idx == cur_idx {
        0
    } else {
        let target = &slice[target_idx];
        let test = &pred;
        let accepts = |x: &T| -> (b: bool)
            ensures
                call_ensures(*test, (x, target), b),
        {
            test(x, target)
        };
        partition_point(subslice(slice, prev_idx, cur_idx), accepts)
    };
    proof {
        let part = slice@.subrange(prev_idx as int, cur_idx as int);
        assert(found <= part.len());
        if found > 0 {
            assert(part[found - 1] == slice@[prev_idx + found - 1]);
        }
        if found < part.len() {
            assert(part[found as int] == slice@[prev_idx + found]);
        }
    }
    cur_idx = found + prev_idx;
    cur_idx - start_idx
}

/// The state of a merge of the runs `lo .. mid` and `mid .. hi` of `s`, of
/// which the part `lo .. start` stays where it is.
///
/// The elements below `i` of the first run and below `j` of the second have
/// been given their places: `out` lists them in the order of these places,
/// which begin at `lo`, and `dest` holds the place of each. What has been
/// placed is in order and may stand before all that is left.
#[verifier::opaque]
pub open spec fn merging<T, F: Fn(&T, &T) -> Ordering>(
    compare: F,
    s: Seq<T>,
    dest: Seq<usize>,
    out: Seq<int>,
    lo: int,
    start: int,
    mid: int,
    hi: int,
    i: int,
    j: int,
) -> bool {
    &&& 0 <= lo <= start <= i <= mid <= j <= hi <= s.len()
    &&& lo < mid
    &&& hi <= dest.len()
    &&& out.len() == (i - lo) + (j - mid)
    &&& forall|t: int| 0 <= t < out.len() ==> (lo <= #[trigger] out[t] < i || mid <= out[t] < j)
    &&& forall|t: int| 0 <= t < start - lo ==> #[trigger] out[t] == lo + t
    &&& forall|t: int|
        start - lo <= t < out.len() ==> start <= #[trigger] out[t] && dest[out[t]] == lo + t
    &&& forall|a: int|
        (start <= a < i || mid <= a < j) ==> start <= #[trigger] dest[a] < lo + out.len()
            && out[dest[a] - lo] == a
    &&& forall|t: int, u: int|
        0 <= t < u < out.len() ==> precedes(
            compare,
            s[#[trigger] out[t]],
            out[t],
            s[#[trigger] out[u]],
            out[u],
        )
    &&& forall|a: int, b: int|
        lo <= a < i && j <= b < hi ==> le(compare, #[trigger] s[a], #[trigger] s[b])
    &&& forall|b: int, a: int|
        mid <= b < j && i <= a < mid ==> lt(compare, #[trigger] s[b], #[trigger] s[a])
    &&& forall|b: int| mid <= b < hi ==> lt(compare, #[trigger] s[b], s[mid - 1])
    &&& sorted(compare, s, lo, mid)
    &&& sorted(compare, s, mid, hi)
}

/// `dest` after the places from `to` on were noted for the `count` elements from `from` on.
pub open spec fn noted(
    before: Seq<usize>,
    after: Seq<usize>,
    from: int,
    count: int,
    to: int,
) -> bool {
    &&& after.len() == before.len()
    &&& forall|a: int| from <= a < from + count ==> #[trigger] after[a] == to + (a - from)
    &&& forall|a: int|
        0 <= a < after.len() && !(from <= a < from + count) ==> #[trigger] after[a] == before[a]
}

/// The numbers from `from` up to `from + count`.
pub open spec fn counting_from(from: int, count: int) -> Seq<int> {
    Seq::new(
        if count >= 0 {
            count
        } else {
            0
        } as nat,
        |t: int| from + t,
    )
}

/// A merge begins with the part of the first run that is not after the
/// second run's first element in its place.
proof fn lemma_merge_start<T, F: Fn(&T, &T) -> Ordering>(
    compare: F,
    s: Seq<T>,
    dest: Seq<usize>,
    lo: int,
    start: int,
    mid: int,
    hi: int,
    end: int,
)
    requires
        is_comparator(compare),
        0 <= lo <= start <= mid <= hi <= end <= s.len(),
        lo < mid < end,
        hi <= dest.len(),
        sorted(compare, s, lo, mid),
        sorted(compare, s, mid, end),
        start > lo ==> le(compare, s[start - 1], s[mid]),
        hi > mid ==> lt(compare, s[hi - 1], s[mid - 1]),
    ensures
        merging(compare, s, dest, counting_from(lo, start - lo), lo, start, mid, hi, start, mid),
        mid < hi ==> start < mid,
{
    reveal(merging);
    if mid < hi && start == mid {
        if mid < hi - 1 {
            assert(le(compare, s[mid], s[hi - 1]));
        } else {
            lemma_le_refl(compare, s[mid]);
        }
        lemma_le_trans(compare, s[mid - 1], s[mid], s[hi - 1]);
        lemma_le_lt_exclusive(compare, s[mid - 1], s[hi - 1]);
    }
    let out = counting_from(lo, start - lo);
    assert forall|t: int, u: int| 0 <= t < u < out.len() implies precedes(
        compare,
        s[#[trigger] out[t]],
        out[t],
        s[#[trigger] out[u]],
        out[u],
    ) by {
        assert(le(compare, s[lo + t], s[lo + u]));
    }
    assert forall|a: int, b: int| lo <= a < start && mid <= b < hi implies le(
        compare,
        #[trigger] s[a],
        #[trigger] s[b],
    ) by {
        if a < start - 1 {
            assert(le(compare, s[a], s[start - 1]));
        } else {
            lemma_le_refl(compare, s[a]);
        }
        lemma_le_trans(compare, s[a], s[start - 1], s[mid]);
        if mid < b {
            assert(le(compare, s[mid], s[b]));
            lemma_le_trans(compare, s[a], s[mid], s[b]);
        }
    }
    assert forall|b: int| mid <= b < hi implies lt(compare, #[trigger] s[b], s[mid - 1]) by {
        if b < hi - 1 {
            assert(le(compare, s[b], s[hi - 1]));
            lemma_le_lt_trans(compare, s[b], s[hi - 1], s[mid - 1]);
        }
    }
    assert(sorted(compare, s, mid, hi));
}

/// The next `count` elements of the first run may be placed where the last of
/// them is not after the next element of the second run, or none is left there.
proof fn lemma_take_left<T, F: Fn(&T, &T) -> Ordering>(
    compare: F,
    s: Seq<T>,
    dest: Seq<usize>,
    dest2: Seq<usize>,
    out: Seq<int>,
    lo: int,
    start: int,
    mid: int,
    hi: int,
    i: int,
    j: int,
    count: int,
)
    requires
        is_comparator(compare),
        merging(compare, s, dest, out, lo, start, mid, hi, i, j),
        1 <= count,
        i + count <= mid,
        j == hi || le(compare, s[i + count - 1], s[j]),
        noted(dest, dest2, i, count, i + (j - mid)),
    ensures
        merging(
            compare,
            s,
            dest2,
            out + counting_from(i, count),
            lo,
            start,
            mid,
            hi,
            i + count,
            j,
        ),
        j < hi ==> i + count < mid,
{
    reveal(merging);
    let out2 = out + counting_from(i, count);
    let n = (i - lo) + (j - mid);
    assert(out.len() == n);
    assert(lo + n == i + (j - mid));
    assert forall|t: int| 0 <= t < out2.len() implies (lo <= #[trigger] out2[t] < i + count || mid
        <= out2[t] < j) by {
        if t < n {
            assert(out2[t] == out[t]);
        }
    }
    assert forall|t: int| 0 <= t < start - lo implies #[trigger] out2[t] == lo + t by {
        assert(out2[t] == out[t]);
    }
    assert forall|t: int| start - lo <= t < out2.len() implies start <= #[trigger] out2[t]
        && dest2[out2[t]] == lo + t by {
        if t < n {
            assert(out2[t] == out[t]);
        }
    }
    assert forall|a: int| (start <= a < i + count || mid <= a < j) implies start
        <= #[trigger] dest2[a] < lo + out2.len() && out2[dest2[a] - lo] == a by {
        if a < i || a >= mid {
            assert(dest2[a] == dest[a]);
            assert(out2[dest[a] - lo] == out[dest[a] - lo]);
        } else {
            assert(out2[n + (a - i)] == a);
        }
    }
    assert forall|t: int, u: int| 0 <= t < u < out2.len() implies precedes(
        compare,
        s[#[trigger] out2[t]],
        out2[t],
        s[#[trigger] out2[u]],
        out2[u],
    ) by {
        if u < n {
            assert(out2[t] == out[t] && out2[u] == out[u]);
        } else if t < n {
            assert(out2[t] == out[t]);
            let a = out[t];
            let b = out2[u];
            if a < i {
                assert(le(compare, s[a], s[b]));
            } else {
                assert(lt(compare, s[a], s[b]));
            }
        } else {
            assert(le(compare, s[out2[t]], s[out2[u]]));
        }
    }
    assert forall|a: int, b: int| lo <= a < i + count && j <= b < hi implies le(
        compare,
        #[trigger] s[a],
        #[trigger] s[b],
    ) by {
        if a >= i {
            if a < i + count - 1 {
                assert(le(compare, s[a], s[i + count - 1]));
            } else {
                lemma_le_refl(compare, s[a]);
            }
            lemma_le_trans(compare, s[a], s[i + count - 1], s[j]);
            if j < b {
                assert(le(compare, s[j], s[b]));
                lemma_le_trans(compare, s[a], s[j], s[b]);
            }
        }
    }
    if j < hi && i + count == mid {
        assert(lt(compare, s[j], s[mid - 1]));
        lemma_le_lt_exclusive(compare, s[mid - 1], s[j]);
    }
}

/// The next `count` elements of the second run may be placed where the last of
/// them is strictly before the next element of the first run, or none is left there.
proof fn lemma_take_right<T, F: Fn(&T, &T) -> Ordering>(
    compare: F,
    s: Seq<T>,
    dest: Seq<usize>,
    dest2: Seq<usize>,
    out: Seq<int>,
    lo: int,
    start: int,
    mid: int,
    hi: int,
    i: int,
    j: int,
    count: int,
)
    requires
        is_comparator(compare),
        merging(compare, s, dest, out, lo, start, mid, hi, i, j),
        1 <= count,
        j + count <= hi,
        i == mid || lt(compare, s[j + count - 1], s[i]),
        noted(dest, dest2, j, count, i + (j - mid)),
    ensures
        merging(
            compare,
            s,
            dest2,
            out + counting_from(j, count),
            lo,
            start,
            mid,
            hi,
            i,
            j + count,
        ),
{
    reveal(merging);
    let out2 = out + counting_from(j, count);
    let n = (i - lo) + (j - mid);
    assert(out.len() == n);
    assert(lo + n == i + (j - mid));
    assert forall|t: int| 0 <= t < out2.len() implies (lo <= #[trigger] out2[t] < i || mid
        <= out2[t] < j + count) by {
        if t < n {
            assert(out2[t] == out[t]);
        }
    }
    assert forall|t: int| 0 <= t < start - lo implies #[trigger] out2[t] == lo + t by {
        assert(out2[t] == out[t]);
    }
    assert forall|t: int| start - lo <= t < out2.len() implies start <= #[trigger] out2[t]
        && dest2[out2[t]] == lo + t by {
        if t < n {
            assert(out2[t] == out[t]);
        }
    }
    assert forall|a: int| (start <= a < i || mid <= a < j + count) implies start
        <= #[trigger] dest2[a] < lo + out2.len() && out2[dest2[a] - lo] == a by {
        if a < j {
            assert(dest2[a] == dest[a]);
            assert(out2[dest[a] - lo] == out[dest[a] - lo]);
        } else {
            assert(out2[n + (a - j)] == a);
        }
    }
    assert forall|t: int, u: int| 0 <= t < u < out2.len() implies precedes(
        compare,
        s[#[trigger] out2[t]],
        out2[t],
        s[#[trigger] out2[u]],
        out2[u],
    ) by {
        if u < n {
            assert(out2[t] == out[t] && out2[u] == out[u]);
        } else if t < n {
            assert(out2[t] == out[t]);
            let a = out[t];
            let b = out2[u];
            assert(le(compare, s[a], s[b]));
        } else {
            assert(le(compare, s[out2[t]], s[out2[u]]));
        }
    }
    assert forall|b: int, a: int| mid <= b < j + count && i <= a < mid implies lt(
        compare,
        #[trigger] s[b],
        #[trigger] s[a],
    ) by {
        if b >= j {
            if b < j + count - 1 {
                assert(le(compare, s[b], s[j + count - 1]));
            } else {
                lemma_le_refl(compare, s[b]);
            }
            lemma_le_lt_trans(compare, s[b], s[j + count - 1], s[i]);
            if i < a {
                assert(le(compare, s[i], s[a]));
                lemma_lt_le_trans(compare, s[b], s[i], s[a]);
            }
        }
    }
}

/// Where each element of the merged part came from: `out` tells it from `lo` on.
pub open spec fn merged_from(out: Seq<int>, lo: int, n: nat) -> Seq<int> {
    Seq::new(
        n,
        |k: int|
            if lo <= k < lo + out.len() {
                out[k - lo]
            } else {
                k
            },
    )
}

/// Once both runs are placed, each place of the merged part is taken once.
proof fn lemma_merge_places<T, F: Fn(&T, &T) -> Ordering>(
    compare: F,
    s: Seq<T>,
    dest: Seq<usize>,
    out: Seq<int>,
    lo: int,
    start: int,
    mid: int,
    hi: int,
)
    requires
        merging(compare, s, dest, out, lo, start, mid, hi, mid, hi),
    ensures
        places_within(dest, start, hi),
{
    reveal(merging);
    assert(out.len() == hi - lo);
    assert forall|a: int, b: int| start <= a < b < hi implies #[trigger] dest[a] != #[trigger] dest[b] by {
        assert(out[dest[a] - lo] == a);
        assert(out[dest[b] - lo] == b);
    }
}

/// Once both runs are placed and each element stands at its place, the two
/// runs together are sorted stably, with what was left out at either end.
proof fn lemma_merge_finish<T, F: Fn(&T, &T) -> Ordering>(
    compare: F,
    s: Seq<T>,
    after: Seq<T>,
    dest: Seq<usize>,
    out: Seq<int>,
    lo: int,
    start: int,
    mid: int,
    hi: int,
    end: int,
)
    requires
        is_comparator(compare),
        merging(compare, s, dest, out, lo, start, mid, hi, mid, hi),
        hi <= end <= s.len(),
        sorted(compare, s, mid, end),
        hi < end ==> le(compare, s[mid - 1], s[hi]),
        after.len() == s.len(),
        forall|a: int| start <= a < hi ==> after[pos(#[trigger] dest[a])] == s[a],
        forall|k: int| 0 <= k < s.len() && !(start <= k < hi) ==> #[trigger] after[k] == s[k],
    ensures
        sorts(compare, s, after, merged_from(out, lo, s.len()), lo, end),
{
    reveal(merging);
    let p = merged_from(out, lo, s.len());
    assert(out.len() == hi - lo);
    assert forall|x: int, y: int| 0 <= x < y < p.len() implies #[trigger] p[x] != #[trigger] p[y] by {
        if lo <= x && y < hi {
            let t = x - lo;
            let u = y - lo;
            assert(p[x] == out[t] && p[y] == out[u]);
            if out[t] == out[u] {
                if t < start - lo {
                    assert(out[t] == lo + t);
                    if u >= start - lo {
                        assert(start <= out[u]);
                    }
                } else {
                    assert(dest[out[t]] == lo + t);
                    assert(dest[out[u]] == lo + u);
                }
            }
        } else if lo <= x < hi {
            assert(p[x] == out[x - lo]);
        } else if lo <= y < hi {
            assert(p[y] == out[y - lo]);
        }
    }
    assert forall|x: int| 0 <= x < p.len() implies 0 <= #[trigger] p[x] < p.len() && after[x]
        == s[p[x]] && (if lo <= x < end {
        lo <= p[x] < end
    } else {
        p[x] == x
    }) by {
        if lo <= x < hi {
            let t = x - lo;
            assert(p[x] == out[t]);
            if t >= start - lo {
                assert(dest[out[t]] == lo + t);
                assert(after[pos(dest[out[t]])] == s[out[t]]);
            } else {
                assert(out[t] == lo + t);
            }
        }
    }
    assert(rearranged(s, after, p));
    assert(within(p, lo, end));
    assert forall|x: int, y: int| lo <= x < y < end implies precedes(
        compare,
        #[trigger] after[x],
        p[x],
        #[trigger] after[y],
        p[y],
    ) by {
        assert(after[x] == s[p[x]]);
        assert(after[y] == s[p[y]]);
        if y < hi {
            assert(p[x] == out[x - lo] && p[y] == out[y - lo]);
        } else if x < hi {
            let a = out[x - lo];
            assert(p[x] == a);
            if a >= mid {
                assert(le(compare, s[a], s[y]));
            } else {
                if a < mid - 1 {
                    assert(le(compare, s[a], s[mid - 1]));
                } else {
                    lemma_le_refl(compare, s[a]);
                }
                lemma_le_trans(compare, s[a], s[mid - 1], s[hi]);
                if hi < y {
                    assert(le(compare, s[hi], s[y]));
                    lemma_le_trans(compare, s[a], s[hi], s[y]);
                }
            }
        } else {
            assert(le(compare, s[x], s[y]));
        }
    }
    assert(sorts(compare, s, after, p, lo, end)) by {
        reveal(sorts);
    }
}

/// Notes in `dest` that the `count` elements from `from` on go to the places from `to` on.
fn note_moves(dest: &mut [usize], from: usize, count: usize, to: usize)
    requires
        from + count <= old(dest)@.len(),
        to + count <= usize::MAX,
    ensures
        noted(old(dest)@, final(dest)@, from as int, count as int, to as int),
{
    let len = dest.len();
    let mut t: usize = 0;
    while t < count
        invariant
            t <= count,
            dest@.len() == len,
            from + count <= dest@.len(),
            to + count <= usize::MAX,
            noted(old(dest)@, dest@, from as int, t as int, to as int),
        decreases count - t,
    {
        dest[from + t] = to + t;
        t += 1;
    }
}

/// What the threshold of the galloping mode has cost: a threshold of `t`
/// stands for `t * (t + 1) / 2` places of the merge at least, for a gallop
/// that takes a single element comes after a streak as long as the
/// threshold, and the streak after it starts anew. So a merge that fits the
/// machine cannot bring the threshold up to `u32::MAX`.
proof fn lemma_gallop_cost(cost: int, threshold: u32, streak: u32, merged: int)
    requires
        2 * cost == threshold * (threshold + 1),
        1 <= threshold <= streak,
        cost + streak <= merged + 6,
        2 * merged <= usize::MAX,
    ensures
        threshold < u32::MAX,
        2 * (cost + threshold + 1) == (threshold + 1) * (threshold + 2),
        2 * (cost - threshold) == (threshold - 1) * threshold,
{
    assert(2 * (cost + threshold + 1) == (threshold + 1) * (threshold + 2)) by (nonlinear_arith)
        requires
            2 * cost == threshold * (threshold + 1),
    ;
    assert(2 * (cost - threshold) == (threshold - 1) * threshold) by (nonlinear_arith)
        requires
            2 * cost == threshold * (threshold + 1),
    ;
    if threshold == u32::MAX {
        assert(threshold * (threshold + 1) == 0xffff_ffff_0000_0000) by (nonlinear_arith)
            requires
                threshold == 0xffff_ffff,
        ;
    }
}

/// Merges two runs that stand side by side, each sorted, into one sorted run;
/// of elements that are level those of the first run come first.
///
/// What the first run holds that is not after the second run's first element
/// stays, and so does what the second holds that is not before the first
/// run's last element. Between them the runs are merged element by element;
/// a side that wins `min_gallop` times in a row is taken in gallops from then on.
/// `merge_buffer` is the work area: it takes the place of each element before
/// any element is moved.
///
/// A gallop doubles its stride, so the second run ends at no more than half
/// of `usize::MAX`. The threshold of the galloping mode and the counts of
/// wins are kept in 32 bits; no merge of that size can use them up.
pub fn merge_two_run<T, F>(
    slice: &mut [T],
    comp: F,
    merge_buffer: &mut [usize],
    run1: Run,
    run2: Run,
)
    where F: Fn(&T, &T) -> Ordering
    requires
        is_comparator(comp),
        run1.0 < run1.1,
        run1.1 == run2.0,
        run2.0 < run2.1 <= old(slice).len(),
        run2.1 <= old(merge_buffer).len(),
        2 * run2.1 <= usize::MAX,
        sorted(comp, old(slice)@, pos(run1.0), pos(run1.1)),
        sorted(comp, old(slice)@, pos(run2.0), pos(run2.1)),
    ensures
        stably_sorted(comp, old(slice)@, final(slice)@, pos(run1.0), pos(run2.1)),
        final(merge_buffer)@.len() == old(merge_buffer)@.len(),
{
    let ghost s = slice@;
    let compare = &comp;
    let not_after = |x: &T, target: &T| -> (b: bool)
        ensures
            b ==> le(*compare, *x, *target),
            !b ==> lt(*compare, *target, *x),
    {
        is_le(compare, x, target)
    };
    let before = |x: &T, target: &T| -> (b: bool)
        ensures
            b ==> lt(*compare, *x, *target),
            !b ==> le(*compare, *target, *x),
    {
        is_lt(compare, x, target)
    };
    proof {
        assert forall|x: T, t: T|
            !(#[trigger] call_ensures(not_after, (&x, &t), true) && call_ensures(
                not_after,
                (&x, &t),
                false,
            )) by {
            if le(comp, x, t) {
                lemma_le_lt_exclusive(comp, x, t);
            }
        }
        assert forall|x: T, t: T|
            !(#[trigger] call_ensures(before, (&x, &t), true) && call_ensures(
                before,
                (&x, &t),
                false,
            )) by {
            if le(comp, t, x) {
                lemma_le_lt_exclusive(comp, t, x);
            }
        }
    }

    // find the part that is to be merged by halving
    let start = {
        let target = &slice[run2.0];
        let not_after_target = |x: &T| -> (b: bool)
            ensures
                b ==> le(*compare, *x, *target),
                !b ==> lt(*compare, *target, *x),
        {
            is_le(compare, x, target)
        };
        partition_point(subslice(slice, run1.0, run1.1), not_after_target) + run1.0
    };
    let limit = {
        let target = &slice[run1.1 - 1];
        let before_target = |x: &T| -> (b: bool)
            ensures
                b ==> lt(*compare, *x, *target),
                !b ==> le(*compare, *target, *x),
        {
            is_lt(compare, x, target)
        };
        partition_point(subslice(slice, run2.0, run2.1), before_target) + run2.0
    };
    let ghost mut out = counting_from(pos(run1.0), start - run1.0);
    proof {
        let part1 = s.subrange(pos(run1.0), pos(run1.1));
        let part2 = s.subrange(pos(run2.0), pos(run2.1));
        if start > run1.0 {
            assert(part1[start - run1.0 - 1] == s[start - 1]);
        }
        if limit > run2.0 {
            assert(part2[limit - run2.0 - 1] == s[limit - 1]);
        }
        if limit < run2.1 {
            assert(part2[limit - run2.0] == s[pos(limit)]);
        }
        lemma_merge_start(
            comp,
            s,
            merge_buffer@,
            pos(run1.0),
            pos(start),
            pos(run1.1),
            pos(limit),
            pos(run2.1),
        );
    }

    // galloping mode
    let mut streak_cnt_1: u32 = 0;
    let mut streak_cnt_2: u32 = 0;

    // merge
    let mut i = start;
    let mut j = run2.0;
    let mut k = start;
    let mut min_gallop: u32 = 3;
    let ghost mut cost: int = 6;
    let ghost mut spent_1 = false;
    let ghost mut spent_2 = false;
    while k < limit
        invariant
            is_comparator(comp),
            *compare == comp,
            slice@ == s,
            run2.1 <= merge_buffer@.len(),
            run1.0 <= start <= i <= run1.1,
            run1.1 == run2.0,
            run2.0 <= j <= limit <= run2.1 <= s.len(),
            2 * run2.1 <= usize::MAX,
            k == i + (j - run2.0),
            j < limit ==> i < run1.1,
            j == limit ==> i == run1.1 || k < limit,
            min_gallop >= 1,
            2 * cost == min_gallop * (min_gallop + 1),
            cost <= (k - start) + 6,
            !spent_1 ==> cost + streak_cnt_1 <= (k - start) + 6,
            !spent_2 ==> cost + streak_cnt_2 <= (k - start) + 6,
            spent_1 ==> i == run1.1 || j == limit || lt(comp, s[pos(j)], s[pos(i)]),
            spent_2 ==> i == run1.1 || j == limit || le(comp, s[pos(i)], s[pos(j)]),
            merging(
                comp,
                s,
                merge_buffer@,
                out,
                pos(run1.0),
                pos(start),
                pos(run1.1),
                pos(limit),
                pos(i),
                pos(j),
            ),
            merge_buffer@.len() == old(merge_buffer)@.len(),
            forall|x: T, t: T| #[trigger] call_requires(not_after, (&x, &t)),
            forall|x: T, t: T| #[trigger] call_requires(before, (&x, &t)),
            is_predicate(not_after),
            is_predicate(before),
            forall|x: T, t: T|
                #[trigger] call_ensures(not_after, (&x, &t), true) ==> le(comp, x, t),
            forall|x: T, t: T|
                #[trigger] call_ensures(not_after, (&x, &t), false) ==> lt(comp, t, x),
            forall|x: T, t: T|
                #[trigger] call_ensures(before, (&x, &t), true) ==> lt(comp, x, t),
            forall|x: T, t: T|
                #[trigger] call_ensures(before, (&x, &t), false) ==> le(comp, t, x),
        decreases limit - k,
    {
        let ghost placed = merge_buffer@;
        let mut copy_cnt: usize = 1;
        if j == limit || is_le(compare, &slice[i], &slice[j]) {
            if j == limit {
                // the second run is used up: no need to compare
                copy_cnt = run1.1 - i;
            } else if streak_cnt_1 >= min_gallop {
                // galloping mode, not strict: elements that are level stay first
                copy_cnt = galloping_count(slice, j, i, run1.1, &not_after);
                proof {
                    lemma_le_lt_exclusive(comp, s[pos(i)], s[pos(j)]);
                    lemma_gallop_cost(cost, min_gallop, streak_cnt_1, k - start);
                    if copy_cnt == 1 {
                        cost = cost + min_gallop + 1;
                        spent_1 = true;
                    } else if min_gallop > 1 {
                        cost = cost - min_gallop;
                    }
                }
                update_min_gallop(&mut min_gallop, copy_cnt);
            } else {
                // one pair at a time
                proof {
                    lemma_le_lt_exclusive(comp, s[pos(i)], s[pos(j)]);
                }
                streak_cnt_1 += 1;
            }
            note_moves(merge_buffer, i, copy_cnt, k);
            proof {
                lemma_take_left(
                    comp,
                    s,
                    placed,
                    merge_buffer@,
                    out,
                    pos(run1.0),
                    pos(start),
                    pos(run1.1),
                    pos(limit),
                    pos(i),
                    pos(j),
                    pos(copy_cnt),
                );
                out = out + counting_from(pos(i), pos(copy_cnt));
            }
            streak_cnt_2 = 0;
            proof {
                spent_2 = false;
            }
            i += copy_cnt;
        } else {
            if i == run1.1 {
                // the first run is used up: no need to compare
                copy_cnt = limit - j;
            } else if streak_cnt_2 >= min_gallop {
                // galloping mode, strict: elements that are level stay behind
                copy_cnt = galloping_count(slice, i, j, limit, &before);
                proof {
                    if le(comp, s[pos(i)], s[pos(j)]) {
                        lemma_le_lt_exclusive(comp, s[pos(i)], s[pos(j)]);
                    }
                    lemma_gallop_cost(cost, min_gallop, streak_cnt_2, k - start);
                    if copy_cnt == 1 {
                        cost = cost + min_gallop + 1;
                        spent_2 = true;
                    } else if min_gallop > 1 {
                        cost = cost - min_gallop;
                    }
                }
                update_min_gallop(&mut min_gallop, copy_cnt);
            } else {
                // one pair at a time
                proof {
                    if le(comp, s[pos(i)], s[pos(j)]) {
                        lemma_le_lt_exclusive(comp, s[pos(i)], s[pos(j)]);
                    }
                }
                streak_cnt_2 += 1;
            }
            note_moves(merge_buffer, j, copy_cnt, k);
            proof {
                lemma_take_right(
                    comp,
                    s,
                    placed,
                    merge_buffer@,
                    out,
                    pos(run1.0),
                    pos(start),
                    pos(run1.1),
                    pos(limit),
                    pos(i),
                    pos(j),
                    pos(copy_cnt),
                );
                out = out + counting_from(pos(j), pos(copy_cnt));
            }
            streak_cnt_1 = 0;
            proof {
                spent_1 = false;
            }
            j += copy_cnt;
        }
        k += copy_cnt;
    }

    // each element to its place, at once
    let ghost placed = merge_buffer@;
    proof {
        lemma_merge_places(
            comp,
            s,
            placed,
            out,
            pos(run1.0),
            pos(start),
            pos(run1.1),
            pos(limit),
        );
    }
    settle(slice, merge_buffer, start, limit);
    proof {
        lemma_merge_finish(
            comp,
            s,
            slice@,
            placed,
            out,
            pos(run1.0),
            pos(start),
            pos(run1.1),
            pos(limit),
            pos(run2.1),
        );
    }
}

/// `p` tells where each element of the run came from: from the same part of
/// `orig`, each place once, and so that the run is in order.
pub open spec fn run_by<T, F: Fn(&T, &T) -> Ordering>(
    compare: F,
    orig: Seq<T>,
    cur: Seq<T>,
    p: Seq<int>,
    run: Run,
) -> bool {
    &&& run.0 <= run.1 <= cur.len()
    &&& cur.len() == orig.len()
    &&& p.len() == cur.len()
    &&& stays_within(p, start_of(run), end_of(run))
    &&& forall|k: int| run.0 <= k < run.1 ==> cur[k] == orig[#[trigger] p[k]]
    &&& forall|i: int, j: int| run.0 <= i < j < run.1 ==> #[trigger] p[i] != #[trigger] p[j]
    &&& in_order(compare, cur, p, start_of(run), end_of(run))
}

/// The run of `cur` holds what the same part of `orig` held, sorted stably.
#[verifier::opaque]
pub open spec fn run_from<T, F: Fn(&T, &T) -> Ordering>(
    compare: F,
    orig: Seq<T>,
    cur: Seq<T>,
    run: Run,
) -> bool {
    exists|p: Seq<int>| run_by(compare, orig, cur, p, run)
}

/// The runs of `rs` lie side by side from `lo` up to `hi` in `cur`, and each
/// holds what the same part of `orig` held, sorted stably.
#[verifier::opaque]
pub open spec fn runs_state<T, F: Fn(&T, &T) -> Ordering>(
    compare: F,
    orig: Seq<T>,
    cur: Seq<T>,
    rs: Seq<Run>,
    lo: int,
    hi: int,
) -> bool {
    &&& tiled(rs, lo, hi)
    &&& 0 <= lo <= hi <= cur.len()
    &&& cur.len() == orig.len()
    &&& forall|t: int| 0 <= t < rs.len() ==> run_from(compare, orig, cur, #[trigger] rs[t])
}

/// A run that holds what it held at first, sorted stably, is sorted.
proof fn lemma_run_sorted<T, F: Fn(&T, &T) -> Ordering>(
    compare: F,
    orig: Seq<T>,
    cur: Seq<T>,
    run: Run,
)
    requires
        run_from(compare, orig, cur, run),
    ensures
        sorted(compare, cur, start_of(run), end_of(run)),
        run.1 <= cur.len(),
        cur.len() == orig.len(),
{
    reveal(run_from);
    let p = choose|p: Seq<int>| run_by(compare, orig, cur, p, run);
    lemma_in_order_sorted(compare, cur, p, start_of(run), end_of(run));
}

/// A run stays what it is while only other parts of the slice change.
proof fn lemma_run_kept<T, F: Fn(&T, &T) -> Ordering>(
    compare: F,
    orig: Seq<T>,
    cur: Seq<T>,
    cur2: Seq<T>,
    run: Run,
)
    requires
        run_from(compare, orig, cur, run),
        cur2.len() == cur.len(),
        forall|k: int| run.0 <= k < run.1 ==> #[trigger] cur2[k] == cur[k],
    ensures
        run_from(compare, orig, cur2, run),
{
    reveal(run_from);
    let p = choose|p: Seq<int>| run_by(compare, orig, cur, p, run);
    assert forall|i: int, j: int| start_of(run) <= i < j < end_of(run) implies precedes(
        compare,
        #[trigger] cur2[i],
        p[i],
        #[trigger] cur2[j],
        p[j],
    ) by {
        assert(precedes(compare, cur[i], p[i], cur[j], p[j]));
    }
    assert forall|k: int| run.0 <= k < run.1 implies cur2[k] == orig[#[trigger] p[k]] by {
        assert(cur2[k] == cur[k]);
    }
    assert(run_by(compare, orig, cur2, p, run));
}

/// A part that nothing had moved and that was then sorted stably is a run.
proof fn lemma_run_found<T, F: Fn(&T, &T) -> Ordering>(
    compare: F,
    orig: Seq<T>,
    cur: Seq<T>,
    cur2: Seq<T>,
    run: Run,
)
    requires
        run.0 <= run.1 <= cur.len(),
        cur.len() == orig.len(),
        forall|k: int| run.0 <= k < run.1 ==> #[trigger] cur[k] == orig[k],
        stably_sorted(compare, cur, cur2, start_of(run), end_of(run)),
    ensures
        run_from(compare, orig, cur2, run),
{
    reveal(run_from);
    let q = choose|q: Seq<int>| sorts(compare, cur, cur2, q, start_of(run), end_of(run));
    lemma_sorts(compare, cur, cur2, q, start_of(run), end_of(run));
    assert forall|k: int| run.0 <= k < run.1 implies cur2[k] == orig[#[trigger] q[k]] by {
        assert(cur2[k] == cur[q[k]]);
        assert(run.0 <= q[k] < run.1);
    }
    assert(stays_within(q, start_of(run), end_of(run)));
    assert(run_by(compare, orig, cur2, q, run));
}

/// A sorted part of a slice is a run of that slice: it holds what it holds.
proof fn lemma_sorted_run<T, F: Fn(&T, &T) -> Ordering>(compare: F, cur: Seq<T>, run: Run)
    requires
        run.0 <= run.1 <= cur.len(),
        sorted(compare, cur, start_of(run), end_of(run)),
    ensures
        run_from(compare, cur, cur, run),
{
    reveal(run_from);
    let p = identity(cur.len());
    assert forall|i: int, j: int| start_of(run) <= i < j < end_of(run) implies precedes(
        compare,
        #[trigger] cur[i],
        p[i],
        #[trigger] cur[j],
        p[j],
    ) by {
        assert(le(compare, cur[i], cur[j]));
    }
    assert(run_by(compare, cur, cur, p, run));
}

/// Two runs side by side that are merged stably are one run.
proof fn lemma_run_merged<T, F: Fn(&T, &T) -> Ordering>(
    compare: F,
    orig: Seq<T>,
    cur: Seq<T>,
    cur2: Seq<T>,
    first: Run,
    second: Run,
)
    requires
        run_from(compare, orig, cur, first),
        run_from(compare, orig, cur, second),
        first.1 == second.0,
        stably_sorted(compare, cur, cur2, start_of(first), end_of(second)),
    ensures
        run_from(compare, orig, cur2, (first.0, second.1)),
{
    reveal(run_from);
    let a = start_of(first);
    let b = end_of(first);
    let c = end_of(second);
    let left = choose|p: Seq<int>| run_by(compare, orig, cur, p, first);
    let right = choose|p: Seq<int>| run_by(compare, orig, cur, p, second);
    let p = Seq::new(
        cur.len(),
        |k: int|
            if k < b {
                left[k]
            } else {
                right[k]
            },
    );
    let q = choose|q: Seq<int>| sorts(compare, cur, cur2, q, a, c);
    lemma_sorts(compare, cur, cur2, q, a, c);
    assert(stays_within(p, a, b)) by {
        assert forall|k: int| a <= k < b implies a <= #[trigger] p[k] < b by {
            assert(a <= left[k] < b);
        }
    }
    assert(stays_within(p, b, c)) by {
        assert forall|k: int| b <= k < c implies b <= #[trigger] p[k] < c by {
            assert(b <= right[k] < c);
        }
    }
    assert(in_order(compare, cur, p, a, b)) by {
        assert forall|i: int, j: int| a <= i < j < b implies precedes(
            compare,
            #[trigger] cur[i],
            p[i],
            #[trigger] cur[j],
            p[j],
        ) by {
            assert(precedes(compare, cur[i], left[i], cur[j], left[j]));
        }
    }
    assert(in_order(compare, cur, p, b, c)) by {
        assert forall|i: int, j: int| b <= i < j < c implies precedes(
            compare,
            #[trigger] cur[i],
            p[i],
            #[trigger] cur[j],
            p[j],
        ) by {
            assert(precedes(compare, cur[i], right[i], cur[j], right[j]));
        }
    }
    lemma_merged_in_order(compare, cur, cur2, p, q, a, b, c);
    let r = compose(p, q);
    let whole: Run = (first.0, second.1);
    assert forall|k: int| a <= k < c implies cur2[k] == orig[#[trigger] r[k]] by {
        assert(cur2[k] == cur[q[k]]);
        assert(a <= q[k] < c);
        if q[k] < b {
            assert(cur[q[k]] == orig[left[q[k]]]);
        } else {
            assert(cur[q[k]] == orig[right[q[k]]]);
        }
    }
    assert forall|i: int, j: int| a <= i < j < c implies #[trigger] r[i] != #[trigger] r[j] by {
        assert(q[i] != q[j]);
        assert(a <= q[i] < c && a <= q[j] < c);
        let x = if q[i] < q[j] {
            q[i]
        } else {
            q[j]
        };
        let y = if q[i] < q[j] {
            q[j]
        } else {
            q[i]
        };
        if y < b {
            assert(left[x] != left[y]);
        } else if x >= b {
            assert(right[x] != right[y]);
        } else {
            assert(a <= left[x] < b);
            assert(b <= right[y] < c);
        }
    }
    assert(run_by(compare, orig, cur2, r, whole));
}

/// A run that takes up the whole slice makes the slice sorted stably.
proof fn lemma_run_whole<T, F: Fn(&T, &T) -> Ordering>(
    compare: F,
    orig: Seq<T>,
    cur: Seq<T>,
    run: Run,
    n: int,
)
    requires
        run_from(compare, orig, cur, run),
        run.0 == 0,
        run.1 == cur.len(),
        n == cur.len(),
    ensures
        stably_sorted(compare, orig, cur, 0, n),
{
    reveal(run_from);
    let p = choose|p: Seq<int>| run_by(compare, orig, cur, p, run);
    assert(rearranged(orig, cur, p));
    assert(within(p, 0, n));
    lemma_sorts(compare, orig, cur, p, 0, n);
}

/// Before any run is found there is no run.
proof fn lemma_runs_begin<T, F: Fn(&T, &T) -> Ordering>(compare: F, orig: Seq<T>, cur: Seq<T>, at: int)
    requires
        cur.len() == orig.len(),
        0 <= at <= cur.len(),
    ensures
        runs_state(compare, orig, cur, Seq::<Run>::empty(), at, at),
{
    reveal(runs_state);
}

/// What the state of the runs tells of the run at `t`.
proof fn lemma_run<T, F: Fn(&T, &T) -> Ordering>(
    compare: F,
    orig: Seq<T>,
    cur: Seq<T>,
    rs: Seq<Run>,
    lo: int,
    hi: int,
    t: int,
)
    requires
        runs_state(compare, orig, cur, rs, lo, hi),
        0 <= t < rs.len(),
    ensures
        0 <= lo <= rs[t].0 < rs[t].1 <= hi <= cur.len(),
        cur.len() == orig.len(),
        t == 0 ==> rs[t].0 == lo,
        t == rs.len() - 1 ==> rs[t].1 == hi,
        t + 1 < rs.len() ==> rs[t].1 == rs[t + 1].0 && rs[t + 1].1 <= hi,
        run_from(compare, orig, cur, rs[t]),
        sorted(compare, cur, start_of(rs[t]), end_of(rs[t])),
{
    reveal(runs_state);
    lemma_run_sorted(compare, orig, cur, rs[t]);
    lemma_tiled(rs, lo, hi, t, t);
    if t + 1 < rs.len() {
        lemma_tiled(rs, lo, hi, t + 1, t + 1);
    }
}

/// What the state of the runs tells of the whole stack: the runs lie side
/// by side inside the slice, and each is sorted.
proof fn lemma_runs<T, F: Fn(&T, &T) -> Ordering>(
    compare: F,
    orig: Seq<T>,
    cur: Seq<T>,
    rs: Seq<Run>,
    lo: int,
    hi: int,
)
    requires
        runs_state(compare, orig, cur, rs, lo, hi),
    ensures
        tiled(rs, lo, hi),
        0 <= lo <= hi <= cur.len(),
        cur.len() == orig.len(),
        forall|t: int|
            0 <= t < rs.len() ==> sorted(compare, cur, start_of(#[trigger] rs[t]), end_of(rs[t])),
{
    reveal(runs_state);
    assert forall|t: int| 0 <= t < rs.len() implies sorted(
        compare,
        cur,
        start_of(#[trigger] rs[t]),
        end_of(rs[t]),
    ) by {
        lemma_run_sorted(compare, orig, cur, rs[t]);
    }
}

/// Runs that lie side by side in a slice, each sorted, are runs of that slice.
proof fn lemma_sorted_runs<T, F: Fn(&T, &T) -> Ordering>(
    compare: F,
    cur: Seq<T>,
    rs: Seq<Run>,
    lo: int,
    hi: int,
)
    requires
        tiled(rs, lo, hi),
        0 <= lo <= hi <= cur.len(),
        forall|t: int|
            0 <= t < rs.len() ==> sorted(compare, cur, start_of(#[trigger] rs[t]), end_of(rs[t])),
    ensures
        runs_state(compare, cur, cur, rs, lo, hi),
{
    reveal(runs_state);
    assert forall|t: int| 0 <= t < rs.len() implies run_from(compare, cur, cur, #[trigger] rs[t]) by {
        lemma_tiled(rs, lo, hi, t, t);
        lemma_sorted_run(compare, cur, rs[t]);
    }
}

/// The runs stay what they are while only other parts of the slice change.
proof fn lemma_runs_kept<T, F: Fn(&T, &T) -> Ordering>(
    compare: F,
    orig: Seq<T>,
    cur: Seq<T>,
    cur2: Seq<T>,
    rs: Seq<Run>,
    lo: int,
    hi: int,
)
    requires
        runs_state(compare, orig, cur, rs, lo, hi),
        cur2.len() == cur.len(),
        forall|k: int| lo <= k < hi ==> #[trigger] cur2[k] == cur[k],
    ensures
        runs_state(compare, orig, cur2, rs, lo, hi),
{
    reveal(runs_state);
    assert forall|t: int| 0 <= t < rs.len() implies run_from(compare, orig, cur2, #[trigger] rs[t]) by {
        lemma_tiled(rs, lo, hi, t, t);
        lemma_run_kept(compare, orig, cur, cur2, rs[t]);
    }
}

/// A run behind the runs so far is one run more.
proof fn lemma_runs_push<T, F: Fn(&T, &T) -> Ordering>(
    compare: F,
    orig: Seq<T>,
    cur: Seq<T>,
    rs: Seq<Run>,
    run: Run,
    lo: int,
)
    requires
        runs_state(compare, orig, cur, rs, lo, start_of(run)),
        run_from(compare, orig, cur, run),
        run.0 < run.1 <= cur.len(),
    ensures
        runs_state(compare, orig, cur, rs.push(run), lo, end_of(run)),
{
    reveal(runs_state);
    let rs2 = rs.push(run);
    assert(tiled(rs2, lo, end_of(run))) by {
        assert forall|t: int| 0 <= t < rs2.len() implies (#[trigger] rs2[t]).0 < rs2[t].1 by {
            if t < rs.len() {
                assert(rs2[t] == rs[t]);
            }
        }
        assert forall|t: int| 0 <= t < rs2.len() - 1 implies (#[trigger] rs2[t]).1 == rs2[t
            + 1].0 by {
            assert(rs2[t] == rs[t]);
            if t + 1 < rs.len() {
                assert(rs2[t + 1] == rs[t + 1]);
            }
        }
        if rs.len() > 0 {
            assert(rs2[0] == rs[0]);
        }
    }
    assert forall|t: int| 0 <= t < rs2.len() implies run_from(compare, orig, cur, #[trigger] rs2[t]) by {
        if t < rs.len() {
            assert(rs2[t] == rs[t]);
        }
    }
}

/// The runs behind the first one are runs by themselves.
proof fn lemma_runs_rest<T, F: Fn(&T, &T) -> Ordering>(
    compare: F,
    orig: Seq<T>,
    cur: Seq<T>,
    rs: Seq<Run>,
    lo: int,
    hi: int,
)
    requires
        runs_state(compare, orig, cur, rs, lo, hi),
        rs.len() > 0,
    ensures
        rs[0].0 == lo,
        rs[0].0 < rs[0].1 <= hi,
        run_from(compare, orig, cur, rs[0]),
        runs_state(compare, orig, cur, rs.drop_first(), end_of(rs[0]), hi),
{
    reveal(runs_state);
    let rest = rs.drop_first();
    lemma_tiled(rs, lo, hi, 0, 0);
    assert(tiled(rest, end_of(rs[0]), hi)) by {
        assert forall|t: int| 0 <= t < rest.len() implies (#[trigger] rest[t]).0 < rest[t].1 by {
            assert(rest[t] == rs[t + 1]);
        }
        assert forall|t: int| 0 <= t < rest.len() - 1 implies (#[trigger] rest[t]).1 == rest[t
            + 1].0 by {
            assert(rest[t] == rs[t + 1]);
            assert(rest[t + 1] == rs[t + 2]);
        }
        if rest.len() > 0 {
            assert(rest[0] == rs[1]);
            assert(rest[rest.len() - 1] == rs[rs.len() - 1]);
        }
    }
    assert forall|t: int| 0 <= t < rest.len() implies run_from(compare, orig, cur, #[trigger] rest[t]) by {
        assert(rest[t] == rs[t + 1]);
    }
}

/// The runs of `rs` with the run at `t` and the one behind it made one.
pub open spec fn merged_runs(rs: Seq<Run>, t: int) -> Seq<Run> {
    Seq::new(
        (rs.len() - 1) as nat,
        |u: int|
            if u < t {
                rs[u]
            } else if u == t {
                (rs[t].0, rs[t + 1].1)
            } else {
                rs[u + 1]
            },
    )
}

/// The runs stay side by side where two of them are made one.
proof fn lemma_merged_runs(rs: Seq<Run>, t: int, lo: int, hi: int)
    requires
        tiled(rs, lo, hi),
        0 <= t < rs.len() - 1,
    ensures
        tiled(merged_runs(rs, t), lo, hi),
        merged_runs(rs, t).len() == rs.len() - 1,
        forall|u: int|
            0 <= u < rs.len() - 1 ==> #[trigger] merged_runs(rs, t)[u] == (if u < t {
                rs[u]
            } else if u == t {
                (rs[t].0, rs[t + 1].1)
            } else {
                rs[u + 1]
            }),
{
    let rs2 = merged_runs(rs, t);
    assert forall|u: int| 0 <= u < rs2.len() implies (#[trigger] rs2[u]).0 < rs2[u].1 by {
        if u < t {
            assert(rs[u].0 < rs[u].1);
        } else if u > t {
            assert(rs[u + 1].0 < rs[u + 1].1);
        } else {
            assert(rs[t].0 < rs[t].1);
            assert(rs[t].1 == rs[t + 1].0);
            assert(rs[t + 1].0 < rs[t + 1].1);
        }
    }
    assert forall|u: int| 0 <= u < rs2.len() - 1 implies (#[trigger] rs2[u]).1 == rs2[u + 1].0 by {
        if u < t {
            assert(rs[u].1 == rs[u + 1].0);
        } else {
            assert(rs[u + 1].1 == rs[u + 2].0);
        }
    }
}

/// Two runs that stand side by side and were merged stably are one run; the
/// other runs stay what they are.
proof fn lemma_runs_merged<T, F: Fn(&T, &T) -> Ordering>(
    compare: F,
    orig: Seq<T>,
    cur: Seq<T>,
    cur2: Seq<T>,
    rs: Seq<Run>,
    t: int,
    lo: int,
    hi: int,
)
    requires
        runs_state(compare, orig, cur, rs, lo, hi),
        0 <= t < rs.len() - 1,
        stably_sorted(compare, cur, cur2, start_of(rs[t]), end_of(rs[t + 1])),
    ensures
        runs_state(compare, orig, cur2, merged_runs(rs, t), lo, hi),
        cur2.len() == cur.len(),
        cur2.to_multiset() == cur.to_multiset(),
        forall|k: int| 0 <= k < cur.len() && !(lo <= k < hi) ==> #[trigger] cur2[k] == cur[k],
{
    reveal(runs_state);
    let rs2 = merged_runs(rs, t);
    lemma_tiled(rs, lo, hi, t, t + 1);
    lemma_merged_runs(rs, t, lo, hi);
    lemma_stably_sorted(compare, cur, cur2, start_of(rs[t]), end_of(rs[t + 1]));
    assert forall|u: int| 0 <= u < rs2.len() implies run_from(compare, orig, cur2, #[trigger] rs2[u]) by {
        if u != t {
            let v = if u < t {
                u
            } else {
                u + 1
            };
            assert(rs2[u] == rs[v]);
            if u < t {
                lemma_tiled(rs, lo, hi, u, t);
                lemma_tiled_up(rs, lo, hi, u + 1, t);
            } else {
                lemma_tiled(rs, lo, hi, t + 1, u + 1);
                lemma_tiled_up(rs, lo, hi, t + 2, u + 1);
            }
            lemma_run_kept(compare, orig, cur, cur2, rs[v]);
        } else {
            lemma_run_merged(compare, orig, cur, cur2, rs[t], rs[t + 1]);
        }
    }
}

/// Where a single run is left that takes up the whole, the whole is sorted stably.
proof fn lemma_runs_done<T, F: Fn(&T, &T) -> Ordering>(
    compare: F,
    orig: Seq<T>,
    cur: Seq<T>,
    rs: Seq<Run>,
    n: int,
)
    requires
        rs.len() <= 1,
        n == cur.len(),
        runs_state(compare, orig, cur, rs, 0, n),
    ensures
        stably_sorted(compare, orig, cur, 0, n),
{
    reveal(runs_state);
    if rs.len() == 1 {
        lemma_run_whole(compare, orig, cur, rs[0], n);
    } else {
        assert(cur =~= orig);
        lemma_sorts_nothing(compare, cur, 0, 0);
    }
}

/// The stack after one step towards proportion: of the three topmost runs
/// the middle one is merged with the top one where the third is longer than
/// the top one, else with the third.
pub open spec fn merge_step(stack: Seq<Run>) -> Seq<Run> {
    let size = stack.len() as int;
    let below = stack.subrange(0, size - 3);
    if run_len(stack[size - 3]) > run_len(stack[size - 1]) {
        below.push(stack[size - 3]).push((stack[size - 2].0, stack[size - 1].1))
    } else {
        below.push((stack[size - 3].0, stack[size - 2].1)).push(stack[size - 1])
    }
}

/// The stack after steps towards proportion were taken until the lengths of
/// its three topmost runs were in proportion.
pub open spec fn settled_stack(stack: Seq<Run>) -> Seq<Run>
    decreases stack.len(),
{
    if run_stack_ok(stack) {
        stack
    } else {
        settled_stack(merge_step(stack))
    }
}

/// A step towards proportion merges two of the three topmost runs of the stack.
proof fn lemma_merge_step(stack: Seq<Run>)
    requires
        !run_stack_ok(stack),
    ensures
        stack.len() >= 3,
        merge_step(stack).len() == stack.len() - 1,
        run_len(stack[stack.len() - 3]) > run_len(stack[stack.len() - 1]) ==> merge_step(stack)
            == merged_runs(stack, stack.len() - 2),
        run_len(stack[stack.len() - 3]) <= run_len(stack[stack.len() - 1]) ==> merge_step(stack)
            == merged_runs(stack, stack.len() - 3),
{
    let n = stack.len() as int;
    if run_len(stack[n - 3]) > run_len(stack[n - 1]) {
        assert(merge_step(stack) =~= merged_runs(stack, n - 2));
    } else {
        assert(merge_step(stack) =~= merged_runs(stack, n - 3));
    }
}

/// Merges runs at the top of the stack until the lengths of the three
/// topmost runs are in proportion.
///
/// While they are not, the middle one of the three is merged with the
/// shorter of its neighbours: with the top run where the third is longer
/// than the top run, else with the third. The runs of the stack lie side by
/// side from `lo` up to `hi`, each of them sorted. Afterwards each run holds
/// what the same part of the slice held before, sorted stably; and where
/// each held what the same part of `orig` held, sorted stably, the runs
/// afterwards do so too. The limit on `hi` is that of the merges.
fn keep_run_stack_invariant<T, F>(
    slice: &mut [T],
    compare: &F,
    merge_buffer: &mut [usize],
    run_stack: &mut Vec<Run>,
    Ghost(orig): Ghost<Seq<T>>,
    Ghost(lo): Ghost<int>,
    Ghost(hi): Ghost<int>,
)
    where F: Fn(&T, &T) -> Ordering
    requires
        is_comparator(*compare),
        tiled(old(run_stack)@, lo, hi),
        0 <= lo,
        hi <= old(slice)@.len(),
        forall|t: int|
            0 <= t < old(run_stack)@.len() ==> sorted(
                *compare,
                old(slice)@,
                start_of(#[trigger] old(run_stack)@[t]),
                end_of(old(run_stack)@[t]),
            ),
        hi <= old(merge_buffer).len(),
        2 * hi <= usize::MAX,
    ensures
        final(run_stack)@ == settled_stack(old(run_stack)@),
        run_stack_ok(final(run_stack)@),
        final(run_stack)@.len() <= old(run_stack)@.len(),
        old(run_stack)@.len() >= 1 ==> final(run_stack)@.len() >= 1,
        old(run_stack)@.len() >= 2 ==> final(run_stack)@.len() >= 2,
        run_stack_ok(old(run_stack)@) ==> final(run_stack)@ == old(run_stack)@ && final(slice)@
            == old(slice)@,
        runs_state(*compare, old(slice)@, final(slice)@, final(run_stack)@, lo, hi),
        runs_state(*compare, orig, old(slice)@, old(run_stack)@, lo, hi) ==> runs_state(
            *compare,
            orig,
            final(slice)@,
            final(run_stack)@,
            lo,
            hi,
        ),
        tiled(final(run_stack)@, lo, hi),
        forall|t: int|
            0 <= t < final(run_stack)@.len() ==> sorted(
                *compare,
                final(slice)@,
                start_of(#[trigger] final(run_stack)@[t]),
                end_of(final(run_stack)@[t]),
            ),
        final(slice)@.len() == old(slice)@.len(),
        final(slice)@.to_multiset() == old(slice)@.to_multiset(),
        forall|k: int|
            0 <= k < old(slice)@.len() && !(lo <= k < hi) ==> #[trigger] final(slice)@[k] == old(slice)@[k],
        final(merge_buffer)@.len() == old(merge_buffer)@.len(),
{
    let ghost first = slice@;
    let ghost given = runs_state(*compare, orig, slice@, run_stack@, lo, hi);
    proof {
        if run_stack@.len() > 0 {
            lemma_tiled(run_stack@, lo, hi, 0, 0);
        }
        lemma_sorted_runs(*compare, first, run_stack@, lo, hi);
    }
    loop
        invariant
            is_comparator(*compare),
            runs_state(*compare, first, slice@, run_stack@, lo, hi),
            given ==> runs_state(*compare, orig, slice@, run_stack@, lo, hi),
            hi <= merge_buffer@.len(),
            merge_buffer@.len() == old(merge_buffer)@.len(),
            2 * hi <= usize::MAX,
            settled_stack(run_stack@) == settled_stack(old(run_stack)@),
            run_stack@.len() <= old(run_stack)@.len(),
            old(run_stack)@.len() >= 1 ==> run_stack@.len() >= 1,
            old(run_stack)@.len() >= 2 ==> run_stack@.len() >= 2,
            run_stack_ok(old(run_stack)@) ==> run_stack@ == old(run_stack)@ && slice@ == old(slice)@,
            slice@.len() == old(slice)@.len(),
            slice@.to_multiset() == old(slice)@.to_multiset(),
            forall|k: int|
                0 <= k < slice@.len() && !(lo <= k < hi) ==> #[trigger] slice@[k] == old(slice)@[k],
        ensures
            run_stack_ok(run_stack@),
        decreases run_stack@.len(),
    {
        let ghost rs = run_stack@;
        let ghost n = pos(run_stack.len());
        proof {
            assert forall|t: int| 0 <= t < n implies (#[trigger] run_stack@[t]).0
                <= run_stack@[t].1 by {
                lemma_run(*compare, first, slice@, rs, lo, hi, t);
            }
            if n >= 2 {
                lemma_run(*compare, first, slice@, rs, lo, hi, n - 1);
                lemma_run(*compare, first, slice@, rs, lo, hi, n - 2);
            }
        }
        if is_run_stack_ok(run_stack.as_mut_slice()) {
            break ;
        }
        let ghost cur = slice@;
        let first_from_top = run_stack.pop().unwrap();
        let second_from_top = run_stack.pop().unwrap();
        let third_from_top = run_stack.pop().unwrap();
        let ghost below = run_stack@;
        proof {
            assert(rs.subrange(0, n - 3) =~= below);
            lemma_run(*compare, first, cur, rs, lo, hi, n - 3);
            lemma_lent_comparator(compare);
            lemma_merge_step(rs);
        }

        if is_run_gt(&third_from_top, &first_from_top) {
            proof {
                lemma_lent_stably_sorted(
                    compare,
                    cur,
                    cur,
                    start_of(second_from_top),
                    end_of(second_from_top),
                );
                lemma_lent_stably_sorted(
                    compare,
                    cur,
                    cur,
                    start_of(first_from_top),
                    end_of(first_from_top),
                );
            }
            merge_two_run(slice, compare, merge_buffer, second_from_top, first_from_top);
            run_stack.push(third_from_top);
            run_stack.push((second_from_top.0, first_from_top.1));
            proof {
                lemma_lent_stably_sorted(
                    compare,
                    cur,
                    slice@,
                    start_of(second_from_top),
                    end_of(first_from_top),
                );
                lemma_runs_merged(*compare, first, cur, slice@, rs, n - 2, lo, hi);
                if given {
                    lemma_runs_merged(*compare, orig, cur, slice@, rs, n - 2, lo, hi);
                }
                assert(run_stack@ =~= merge_step(rs));
            }
        } else {
            proof {
                lemma_lent_stably_sorted(
                    compare,
                    cur,
                    cur,
                    start_of(third_from_top),
                    end_of(third_from_top),
                );
                lemma_lent_stably_sorted(
                    compare,
                    cur,
                    cur,
                    start_of(second_from_top),
                    end_of(second_from_top),
                );
            }
            merge_two_run(slice, compare, merge_buffer, third_from_top, second_from_top);
            run_stack.push((third_from_top.0, second_from_top.1));
            run_stack.push(first_from_top);
            proof {
                lemma_lent_stably_sorted(
                    compare,
                    cur,
                    slice@,
                    start_of(third_from_top),
                    end_of(second_from_top),
                );
                lemma_runs_merged(*compare, first, cur, slice@, rs, n - 3, lo, hi);
                if given {
                    lemma_runs_merged(*compare, orig, cur, slice@, rs, n - 3, lo, hi);
                }
                assert(run_stack@ =~= merge_step(rs));
            }
        }
    }
    proof {
        lemma_runs(*compare, first, slice@, run_stack@, lo, hi);
    }
}

/// Sorts the slice stably by `compare`.
///
/// Afterwards no element is after one that follows it, and of two elements
/// that are level the one that stood first still stands first. The slice
/// holds the elements it held, each as often as before.
///
/// A gallop doubles its stride, so the length is at most half of `usize::MAX`.
pub fn tim_sort_by<T, F>(slice: &mut [T], compare: F)
    where F: Fn(&T, &T) -> Ordering
    requires
        is_comparator(compare),
        2 * old(slice).len() <= usize::MAX,
    ensures
        stably_sorted(compare, old(slice)@, final(slice)@, 0, pos(old(slice).len())),
        sorted(compare, final(slice)@, 0, pos(old(slice).len())),
        final(slice)@.to_multiset() == old(slice)@.to_multiset(),
        final(slice)@.len() == old(slice)@.len(),
{
    // calculate min run size
    let size = slice.len();
    let ghost orig = slice@;
    let (min_run_size, max_run_cnt) = get_min_run_size(size);
    let mut runs: Vec<Run> = Vec::with_capacity(max_run_cnt);

    // split slice into runs
    // half open range
    let mut run_start_pos: usize = 0;
    proof {
        lemma_runs_begin(compare, orig, orig, 0);
        lemma_lent_comparator(&compare);
    }
    while run_start_pos < size
        invariant
            is_comparator(compare),
            is_comparator(&compare),
            size == slice@.len(),
            size == orig.len(),
            run_start_pos <= size,
            2 * size <= usize::MAX,
            size < 64 ==> min_run_size == size,
            size >= 64 ==> 33 <= min_run_size <= 65,
            runs_state(compare, orig, slice@, runs@, 0, pos(run_start_pos)),
            forall|k: int| run_start_pos <= k < size ==> #[trigger] slice@[k] == orig[k],
        decreases size - run_start_pos,
    {
        let ghost cur = slice@;
        let run_end_pos = get_sorted_run_from_slice(
            slice,
            &compare,
            run_start_pos,
            min_run_size,
        );
        proof {
            let run: Run = (run_start_pos, run_end_pos);
            lemma_lent_stably_sorted(&compare, cur, slice@, pos(run_start_pos), pos(run_end_pos));
            lemma_stably_sorted(compare, cur, slice@, pos(run_start_pos), pos(run_end_pos));
            lemma_run_found(compare, orig, cur, slice@, run);
            lemma_runs_kept(compare, orig, cur, slice@, runs@, 0, pos(run_start_pos));
            lemma_runs_push(compare, orig, slice@, runs@, run, 0);
        }

        // add new run
        runs.push((run_start_pos, run_end_pos));

        // move start pos
        run_start_pos = run_end_pos;
    }

    // no need to merge
    if runs.len() == 1 {
        proof {
            lemma_runs_done(compare, orig, slice@, runs@, pos(size));
            lemma_stably_sorted(compare, orig, slice@, 0, pos(size));
        }
        return ;
    }
    // the work area of the merges

    let mut merge_buffer: Vec<usize> = vec![0; size];

    // merge runs using a stack
    let mut run_stack: Vec<Run> = Vec::new();
    let mut next: usize = 0;
    let ghost mut stacked: int = 0;
    proof {
        assert(runs@.subrange(0, pos(runs.len())) =~= runs@);
        lemma_runs_begin(compare, orig, slice@, 0);
    }
    while next < runs.len()
        invariant
            is_comparator(compare),
            size == slice@.len(),
            merge_buffer@.len() == size,
            2 * size <= usize::MAX,
            next <= runs@.len(),
            runs_state(compare, orig, slice@, run_stack@, 0, stacked),
            runs_state(
                compare,
                orig,
                slice@,
                runs@.subrange(pos(next), pos(runs.len())),
                stacked,
                pos(size),
            ),
        decreases runs@.len() - next,
    {
        let cur_run = runs[next];
        let ghost pending = runs@.subrange(pos(next), pos(runs.len()));
        proof {
            assert(pending[0] == cur_run);
            lemma_runs_rest(compare, orig, slice@, pending, stacked, pos(size));
            lemma_runs_push(compare, orig, slice@, run_stack@, cur_run, 0);
            assert(pending.drop_first() =~= runs@.subrange(next + 1, pos(runs.len())));
        }
        run_stack.push(cur_run);
        let ghost cur = slice@;
        proof {
            lemma_runs(compare, orig, cur, run_stack@, 0, end_of(cur_run));
        }
        keep_run_stack_invariant(
            slice,
            &compare,
            merge_buffer.as_mut_slice(),
            &mut run_stack,
            Ghost(orig),
            Ghost(0),
            Ghost(end_of(cur_run)),
        );
        proof {
            lemma_runs_kept(
                compare,
                orig,
                cur,
                slice@,
                pending.drop_first(),
                end_of(cur_run),
                pos(size),
            );
            stacked = end_of(cur_run);
        }
        next += 1;
    }
    proof {
        assert(runs@.subrange(pos(next), pos(runs.len())) =~= Seq::<Run>::empty());
        lemma_runs(
            compare,
            orig,
            slice@,
            runs@.subrange(pos(next), pos(runs.len())),
            stacked,
            pos(size),
        );
    }

    // merge all runs in the stack
    while run_stack.len() > 1
        invariant
            is_comparator(compare),
            is_comparator(&compare),
            size == slice@.len(),
            merge_buffer@.len() == size,
            2 * size <= usize::MAX,
            runs_state(compare, orig, slice@, run_stack@, 0, pos(size)),
        decreases run_stack@.len(),
    {
        // merge top two runs in the stack
        let ghost cur = slice@;
        let ghost rs = run_stack@;
        let ghost n = pos(run_stack.len());
        let cur_run = run_stack.pop().unwrap();
        let top_run = run_stack.pop().unwrap();
        proof {
            lemma_run(compare, orig, cur, rs, 0, pos(size), n - 1);
            lemma_run(compare, orig, cur, rs, 0, pos(size), n - 2);
            lemma_lent_stably_sorted(&compare, cur, cur, start_of(top_run), end_of(top_run));
            lemma_lent_stably_sorted(&compare, cur, cur, start_of(cur_run), end_of(cur_run));
        }
        merge_two_run(slice, &compare, merge_buffer.as_mut_slice(), top_run, cur_run);
        run_stack.push((top_run.0, cur_run.1));
        proof {
            lemma_lent_stably_sorted(&compare, cur, slice@, start_of(top_run), end_of(cur_run));
            lemma_runs_merged(compare, orig, cur, slice@, rs, n - 2, 0, pos(size));
            assert(run_stack@ =~= merged_runs(rs, n - 2));
        }
    }
    proof {
        lemma_runs_done(compare, orig, slice@, run_stack@, pos(size));
        lemma_stably_sorted(compare, orig, slice@, 0, pos(size));
    }
}

/// Sorts the slice stably by the order of its elements.
///
/// A gallop doubles its stride, so the length is at most half of `usize::MAX`.
pub fn tim_sort<T: Ord>(slice: &mut [T])
    requires
        is_ordered::<T>(),
        2 * old(slice).len() <= usize::MAX,
    ensures
        stably_sorted(T::cmp, old(slice)@, final(slice)@, 0, pos(old(slice).len())),
        sorted(T::cmp, final(slice)@, 0, pos(old(slice).len())),
        final(slice)@.to_multiset() == old(slice)@.to_multiset(),
        final(slice)@.len() == old(slice)@.len(),
{
    proof {
        lemma_ordered::<T>();
    }
    tim_sort_by(slice, T::cmp)
}

} // verus!
