//! What it means for a part of a sequence to be sorted, and to be sorted stably.

use vstd::prelude::*;
use core::cmp::Ordering;
use crate::order::{is_comparator, le, lt, equivalent, lemma_lent, lemma_lt_le, lemma_le_trans, lemma_lt_le_trans, lemma_le_lt_exclusive};
use crate::permutation::{rearranged, within, identity, compose, moved, reversed, lifted, with_part, lemma_moved, lemma_reversed, lemma_lifted, lemma_rearranged_multiset, lemma_increasing_is_identity};

verus! {

/// The elements of `s` from `lo` up to `hi` never go down.
pub open spec fn sorted<T, F: Fn(&T, &T) -> Ordering>(
    compare: F,
    s: Seq<T>,
    lo: int,
    hi: int,
) -> bool {
    forall|i: int, j: int| lo <= i < j < hi ==> le(compare, #[trigger] s[i], #[trigger] s[j])
}

/// `x`, which came from position `from_x`, may stand before `y`, which came
/// from position `from_y`: it is not after `y`, and where it came from behind
/// `y` it is strictly before it.
pub open spec fn precedes<T, F: Fn(&T, &T) -> Ordering>(
    compare: F,
    x: T,
    from_x: int,
    y: T,
    from_y: int,
) -> bool {
    if from_x < from_y {
        le(compare, x, y)
    } else {
        lt(compare, x, y)
    }
}

/// From `lo` up to `hi`, each element of `s` may stand before all that follow
/// it, `p` telling where each came from.
pub open spec fn in_order<T, F: Fn(&T, &T) -> Ordering>(
    compare: F,
    s: Seq<T>,
    p: Seq<int>,
    lo: int,
    hi: int,
) -> bool {
    forall|i: int, j: int|
        lo <= i < j < hi ==> precedes(compare, #[trigger] s[i], p[i], #[trigger] s[j], p[j])
}

/// From `lo` up to `hi`, each element of `s` may stand before all that come
/// ahead of it: the part is in order when read backwards.
pub open spec fn in_reverse_order<T, F: Fn(&T, &T) -> Ordering>(
    compare: F,
    s: Seq<T>,
    p: Seq<int>,
    lo: int,
    hi: int,
) -> bool {
    forall|i: int, j: int|
        lo <= i < j < hi ==> precedes(compare, #[trigger] s[j], p[j], #[trigger] s[i], p[i])
}

/// `p` tells how `before` was rearranged to `after`: only inside `lo .. hi`,
/// and so that the part is in order when read backwards.
#[verifier::opaque]
pub open spec fn sorts_down<T, F: Fn(&T, &T) -> Ordering>(
    compare: F,
    before: Seq<T>,
    after: Seq<T>,
    p: Seq<int>,
    lo: int,
    hi: int,
) -> bool {
    rearranged(before, after, p) && within(p, lo, hi) && in_reverse_order(compare, after, p, lo, hi)
}

/// `after` is `before` with the part from `lo` up to `hi` rearranged so that,
/// read backwards, it is sorted with level elements in the order they had in
/// `before`; the rest is as it was.
pub open spec fn stably_sorted_down<T, F: Fn(&T, &T) -> Ordering>(
    compare: F,
    before: Seq<T>,
    after: Seq<T>,
    lo: int,
    hi: int,
) -> bool {
    exists|p: Seq<int>| sorts_down(compare, before, after, p, lo, hi)
}

/// `p` tells how `before` was rearranged to `after`: only inside `lo .. hi`,
/// and so that the part is in order.
#[verifier::opaque]
pub open spec fn sorts<T, F: Fn(&T, &T) -> Ordering>(
    compare: F,
    before: Seq<T>,
    after: Seq<T>,
    p: Seq<int>,
    lo: int,
    hi: int,
) -> bool {
    rearranged(before, after, p) && within(p, lo, hi) && in_order(compare, after, p, lo, hi)
}

/// `after` is `before` with the part from `lo` up to `hi` sorted, elements
/// that are level keeping the order they had in `before`; the rest is as it was.
pub open spec fn stably_sorted<T, F: Fn(&T, &T) -> Ordering>(
    compare: F,
    before: Seq<T>,
    after: Seq<T>,
    lo: int,
    hi: int,
) -> bool {
    exists|p: Seq<int>| sorts(compare, before, after, p, lo, hi)
}

/// An element that may stand before another is not after it.
pub proof fn lemma_precedes_le<T, F: Fn(&T, &T) -> Ordering>(
    compare: F,
    x: T,
    from_x: int,
    y: T,
    from_y: int,
)
    requires
        precedes(compare, x, from_x, y, from_y),
    ensures
        le(compare, x, y),
{
    if from_x >= from_y {
        lemma_lt_le(compare, x, y);
    }
}
/// A part that is in order is sorted.
pub proof fn lemma_in_order_sorted<T, F: Fn(&T, &T) -> Ordering>(
    compare: F,
    s: Seq<T>,
    p: Seq<int>,
    lo: int,
    hi: int,
)
    requires
        in_order(compare, s, p, lo, hi),
    ensures
        sorted(compare, s, lo, hi),
{
    assert forall|i: int, j: int| lo <= i < j < hi implies le(
        compare,
        #[trigger] s[i],
        #[trigger] s[j],
    ) by {
        lemma_precedes_le(compare, s[i], p[i], s[j], p[j]);
    }
}

/// What is sorted stably is sorted, and holds the same elements as before.
pub proof fn lemma_stably_sorted<T, F: Fn(&T, &T) -> Ordering>(
    compare: F,
    before: Seq<T>,
    after: Seq<T>,
    lo: int,
    hi: int,
)
    requires
        stably_sorted(compare, before, after, lo, hi),
    ensures
        sorted(compare, after, lo, hi),
        after.to_multiset() == before.to_multiset(),
        after.len() == before.len(),
        forall|k: int| 0 <= k < after.len() && !(lo <= k < hi) ==> after[k] == before[k],
{
    reveal(sorts);
    let p = choose|p: Seq<int>| sorts(compare, before, after, p, lo, hi);
    lemma_in_order_sorted(compare, after, p, lo, hi);
    lemma_rearranged_multiset(before, after, p);
    assert forall|k: int| 0 <= k < after.len() && !(lo <= k < hi) implies after[k] == before[k] by {
        assert(p[k] == k);
    }
}

/// Sorting stably what is sorted already changes nothing.
pub proof fn lemma_sorted_stays<T, F: Fn(&T, &T) -> Ordering>(
    compare: F,
    before: Seq<T>,
    after: Seq<T>,
    lo: int,
    hi: int,
)
    requires
        is_comparator(compare),
        0 <= lo <= hi <= before.len(),
        sorted(compare, before, lo, hi),
        stably_sorted(compare, before, after, lo, hi),
    ensures
        after == before,
{
    reveal(sorts);
    let p = choose|p: Seq<int>| sorts(compare, before, after, p, lo, hi);
    assert forall|i: int, j: int| 0 <= i < j < p.len() implies #[trigger] p[i] < #[trigger] p[j] by {
        if lo <= i && j < hi {
            if p[i] > p[j] {
                assert(precedes(compare, after[i], p[i], after[j], p[j]));
                assert(le(compare, before[p[j]], before[p[i]]));
                lemma_le_lt_exclusive(compare, before[p[j]], before[p[i]]);
            }
        }
    }
    lemma_increasing_is_identity(p);
    assert(after =~= before);
}

/// After a stable sort, of two elements that are level the one that stood
/// first still stands first.
pub proof fn lemma_level_keep_order<T, F: Fn(&T, &T) -> Ordering>(
    compare: F,
    before: Seq<T>,
    after: Seq<T>,
    p: Seq<int>,
    lo: int,
    hi: int,
    i: int,
    j: int,
)
    requires
        is_comparator(compare),
        sorts(compare, before, after, p, lo, hi),
        lo <= i < j < hi,
        0 <= lo,
        hi <= after.len(),
        equivalent(compare, after[i], after[j]),
    ensures
        p[i] < p[j],
{
    reveal(sorts);
    assert(precedes(compare, after[i], p[i], after[j], p[j]));
    if p[i] >= p[j] {
        lemma_le_lt_exclusive(compare, after[j], after[i]);
    }
}

/// Where the part from `lo` up to `from` is in order and the element at
/// `from` came from behind all of it, that element may be put in at `at` if
/// the element before `at` is not after it and the element at `at` is
/// strictly after it.
pub proof fn lemma_insert_in_order<T, F: Fn(&T, &T) -> Ordering>(
    compare: F,
    s: Seq<T>,
    p: Seq<int>,
    lo: int,
    at: int,
    from: int,
)
    requires
        s.len() == p.len(),
        0 <= lo <= at <= from < s.len(),
        in_order(compare, s, p, lo, from),
        forall|k: int| lo <= k < from ==> #[trigger] p[k] < p[from],
        at > lo ==> le(compare, s[at - 1], s[from]),
        at < from ==> lt(compare, s[from], s[at]),
    ensures
        in_order(compare, moved(s, at, from), moved(p, at, from), lo, from + 1),
{
    let t = moved(s, at, from);
    let q = moved(p, at, from);
    assert forall|i: int, j: int| lo <= i < j < from + 1 implies precedes(
        compare,
        #[trigger] t[i],
        q[i],
        #[trigger] t[j],
        q[j],
    ) by {
        let a = if i < at { i } else if i == at { from } else { i - 1 };
        let b = if j < at { j } else if j == at { from } else { j - 1 };
        assert(t[i] == s[a] && q[i] == p[a]);
        assert(t[j] == s[b] && q[j] == p[b]);
        if j == at {
            assert(p[a] < p[from]);
            if a < at - 1 {
                lemma_precedes_le(compare, s[a], p[a], s[at - 1], p[at - 1]);
                lemma_le_trans(compare, s[a], s[at - 1], s[from]);
            }
        } else if i == at {
            assert(p[b] < p[from]);
            if at < b {
                lemma_precedes_le(compare, s[at], p[at], s[b], p[b]);
                lemma_lt_le_trans(compare, s[from], s[at], s[b]);
            }
        } else {
            assert(precedes(compare, s[a], p[a], s[b], p[b]));
        }
    }
}

/// Where the part from `lo` up to `from` is in order when read backwards and
/// the element at `from` came from behind all of it, that element may be put
/// in at `at` if the element before `at` is strictly after it and the
/// element at `at` is not after it.
pub proof fn lemma_insert_in_reverse_order<T, F: Fn(&T, &T) -> Ordering>(
    compare: F,
    s: Seq<T>,
    p: Seq<int>,
    lo: int,
    at: int,
    from: int,
)
    requires
        s.len() == p.len(),
        0 <= lo <= at <= from < s.len(),
        in_reverse_order(compare, s, p, lo, from),
        forall|k: int| lo <= k < from ==> #[trigger] p[k] < p[from],
        at > lo ==> lt(compare, s[from], s[at - 1]),
        at < from ==> le(compare, s[at], s[from]),
    ensures
        in_reverse_order(compare, moved(s, at, from), moved(p, at, from), lo, from + 1),
{
    let t = moved(s, at, from);
    let q = moved(p, at, from);
    assert forall|i: int, j: int| lo <= i < j < from + 1 implies precedes(
        compare,
        #[trigger] t[j],
        q[j],
        #[trigger] t[i],
        q[i],
    ) by {
        let a = if i < at { i } else if i == at { from } else { i - 1 };
        let b = if j < at { j } else if j == at { from } else { j - 1 };
        assert(t[i] == s[a] && q[i] == p[a]);
        assert(t[j] == s[b] && q[j] == p[b]);
        if j == at {
            assert(p[a] < p[from]);
            if a < at - 1 {
                lemma_precedes_le(compare, s[at - 1], p[at - 1], s[a], p[a]);
                lemma_lt_le_trans(compare, s[from], s[at - 1], s[a]);
            }
        } else if i == at {
            assert(p[b] < p[from]);
            if at < b {
                lemma_precedes_le(compare, s[b], p[b], s[at], p[at]);
                lemma_le_trans(compare, s[b], s[at], s[from]);
            }
        } else {
            assert(precedes(compare, s[b], p[b], s[a], p[a]));
        }
    }
}

/// A part that is in order when read backwards is in order once it is reversed.
pub proof fn lemma_reverse_in_order<T, F: Fn(&T, &T) -> Ordering>(
    compare: F,
    s: Seq<T>,
    p: Seq<int>,
    lo: int,
    hi: int,
)
    requires
        s.len() == p.len(),
        0 <= lo <= hi <= s.len(),
        in_reverse_order(compare, s, p, lo, hi),
    ensures
        in_order(compare, reversed(s, lo, hi), reversed(p, lo, hi), lo, hi),
{
    let t = reversed(s, lo, hi);
    let q = reversed(p, lo, hi);
    assert forall|i: int, j: int| lo <= i < j < hi implies precedes(
        compare,
        #[trigger] t[i],
        q[i],
        #[trigger] t[j],
        q[j],
    ) by {
        let a = lo + hi - 1 - i;
        let b = lo + hi - 1 - j;
        assert(precedes(compare, s[a], p[a], s[b], p[b]));
    }
}

/// A part that is in order by itself is in order as a part of the whole.
pub proof fn lemma_lifted_in_order<T, F: Fn(&T, &T) -> Ordering>(
    compare: F,
    part: Seq<T>,
    q: Seq<int>,
    s: Seq<T>,
    lo: int,
    hi: int,
)
    requires
        part.len() == q.len(),
        0 <= lo,
        hi == lo + part.len(),
        hi <= s.len(),
        forall|k: int| 0 <= k < part.len() ==> #[trigger] s[lo + k] == part[k],
    ensures
        in_order(compare, part, q, 0, hi - lo) ==> in_order(
            compare,
            s,
            lifted(q, lo, s.len()),
            lo,
            hi,
        ),
        in_reverse_order(compare, part, q, 0, hi - lo) ==> in_reverse_order(
            compare,
            s,
            lifted(q, lo, s.len()),
            lo,
            hi,
        ),
{
    let p = lifted(q, lo, s.len());
    if in_order(compare, part, q, 0, hi - lo) {
        assert forall|i: int, j: int| lo <= i < j < hi implies precedes(
            compare,
            #[trigger] s[i],
            p[i],
            #[trigger] s[j],
            p[j],
        ) by {
            assert(s[lo + (i - lo)] == part[i - lo]);
            assert(s[lo + (j - lo)] == part[j - lo]);
            assert(precedes(compare, part[i - lo], q[i - lo], part[j - lo], q[j - lo]));
        }
    }
    if in_reverse_order(compare, part, q, 0, hi - lo) {
        assert forall|i: int, j: int| lo <= i < j < hi implies precedes(
            compare,
            #[trigger] s[j],
            p[j],
            #[trigger] s[i],
            p[i],
        ) by {
            assert(s[lo + (i - lo)] == part[i - lo]);
            assert(s[lo + (j - lo)] == part[j - lo]);
            assert(precedes(compare, part[j - lo], q[j - lo], part[i - lo], q[i - lo]));
        }
    }
}

/// What a lent comparator sorts, the comparator itself sorts.
pub proof fn lemma_lent_sorts<T, F: Fn(&T, &T) -> Ordering>(
    compare: &F,
    before: Seq<T>,
    after: Seq<T>,
    p: Seq<int>,
    lo: int,
    hi: int,
)
    ensures
        sorts(compare, before, after, p, lo, hi) == sorts(*compare, before, after, p, lo, hi),
        sorts_down(compare, before, after, p, lo, hi) == sorts_down(
            *compare,
            before,
            after,
            p,
            lo,
            hi,
        ),
        sorted(compare, after, lo, hi) == sorted(*compare, after, lo, hi),
{
    broadcast use lemma_lent;

    reveal(sorts);
    reveal(sorts_down);
    assert(in_order(compare, after, p, lo, hi) == in_order(*compare, after, p, lo, hi)) by {
        if in_order(compare, after, p, lo, hi) {
            assert forall|i: int, j: int| lo <= i < j < hi implies precedes(
                *compare,
                #[trigger] after[i],
                p[i],
                #[trigger] after[j],
                p[j],
            ) by {
                assert(precedes(compare, after[i], p[i], after[j], p[j]));
            }
        }
        if in_order(*compare, after, p, lo, hi) {
            assert forall|i: int, j: int| lo <= i < j < hi implies precedes(
                compare,
                #[trigger] after[i],
                p[i],
                #[trigger] after[j],
                p[j],
            ) by {
                assert(precedes(*compare, after[i], p[i], after[j], p[j]));
            }
        }
    }
    assert(in_reverse_order(compare, after, p, lo, hi) == in_reverse_order(
        *compare,
        after,
        p,
        lo,
        hi,
    )) by {
        if in_reverse_order(compare, after, p, lo, hi) {
            assert forall|i: int, j: int| lo <= i < j < hi implies precedes(
                *compare,
                #[trigger] after[j],
                p[j],
                #[trigger] after[i],
                p[i],
            ) by {
                assert(precedes(compare, after[j], p[j], after[i], p[i]));
            }
        }
        if in_reverse_order(*compare, after, p, lo, hi) {
            assert forall|i: int, j: int| lo <= i < j < hi implies precedes(
                compare,
                #[trigger] after[j],
                p[j],
                #[trigger] after[i],
                p[i],
            ) by {
                assert(precedes(*compare, after[j], p[j], after[i], p[i]));
            }
        }
    }
    assert(sorted(compare, after, lo, hi) == sorted(*compare, after, lo, hi)) by {
        if sorted(compare, after, lo, hi) {
            assert forall|i: int, j: int| lo <= i < j < hi implies le(
                *compare,
                #[trigger] after[i],
                #[trigger] after[j],
            ) by {
                assert(le(compare, after[i], after[j]));
            }
        }
        if sorted(*compare, after, lo, hi) {
            assert forall|i: int, j: int| lo <= i < j < hi implies le(
                compare,
                #[trigger] after[i],
                #[trigger] after[j],
            ) by {
                assert(le(*compare, after[i], after[j]));
            }
        }
    }
}

/// What `sorts` says, spelled out.
pub proof fn lemma_sorts<T, F: Fn(&T, &T) -> Ordering>(
    compare: F,
    before: Seq<T>,
    after: Seq<T>,
    p: Seq<int>,
    lo: int,
    hi: int,
)
    ensures
        sorts(compare, before, after, p, lo, hi) == (rearranged(before, after, p) && within(
            p,
            lo,
            hi,
        ) && in_order(compare, after, p, lo, hi)),
        sorts_down(compare, before, after, p, lo, hi) == (rearranged(before, after, p) && within(
            p,
            lo,
            hi,
        ) && in_reverse_order(compare, after, p, lo, hi)),
{
    reveal(sorts);
    reveal(sorts_down);
}

/// A rearrangement keeps the length.
pub proof fn lemma_sorts_len<T, F: Fn(&T, &T) -> Ordering>(
    compare: F,
    before: Seq<T>,
    after: Seq<T>,
    p: Seq<int>,
    lo: int,
    hi: int,
)
    requires
        sorts(compare, before, after, p, lo, hi) || sorts_down(compare, before, after, p, lo, hi),
    ensures
        after.len() == before.len(),
        p.len() == before.len(),
        forall|k: int| 0 <= k < after.len() && !(lo <= k < hi) ==> after[k] == before[k],
{
    reveal(sorts);
    reveal(sorts_down);
    assert forall|k: int| 0 <= k < after.len() && !(lo <= k < hi) implies after[k] == before[k] by {
        assert(p[k] == k);
    }
}

/// A part of one element, or of none, is sorted as it stands.
pub proof fn lemma_sorts_nothing<T, F: Fn(&T, &T) -> Ordering>(
    compare: F,
    s: Seq<T>,
    lo: int,
    hi: int,
)
    requires
        hi <= lo + 1,
    ensures
        sorts(compare, s, s, identity(s.len()), lo, hi),
        sorts_down(compare, s, s, identity(s.len()), lo, hi),
{
    reveal(sorts);
    reveal(sorts_down);
}

/// The element behind a sorted part may be put into it at `at` where the
/// element before `at` is not after it and the element at `at` is strictly
/// after it.
pub proof fn lemma_sorts_insert<T, F: Fn(&T, &T) -> Ordering>(
    compare: F,
    before: Seq<T>,
    s: Seq<T>,
    p: Seq<int>,
    lo: int,
    at: int,
    from: int,
)
    requires
        sorts(compare, before, s, p, lo, from),
        0 <= lo <= at <= from < s.len(),
        at > lo ==> le(compare, s[at - 1], s[from]),
        at < from ==> lt(compare, s[from], s[at]),
    ensures
        sorts(compare, before, moved(s, at, from), moved(p, at, from), lo, from + 1),
        at == from ==> moved(s, at, from) == s && moved(p, at, from) == p,
{
    reveal(sorts);
    assert(p[from] == from);
    if lo < from {
        lemma_insert_in_order(compare, s, p, lo, at, from);
        assert(within(p, lo, from + 1));
    } else {
        assert(within(p, lo, from + 1));
        assert(in_order(compare, s, p, lo, from + 1));
    }
    lemma_moved(before, s, p, lo, from + 1, at, from);
    if at == from {
        assert(moved(s, at, from) =~= s);
        assert(moved(p, at, from) =~= p);
    }
}

/// The element behind a part that is sorted downwards may be put into it at
/// `at` where the element before `at` is strictly after it and the element at
/// `at` is not after it.
pub proof fn lemma_sorts_down_insert<T, F: Fn(&T, &T) -> Ordering>(
    compare: F,
    before: Seq<T>,
    s: Seq<T>,
    p: Seq<int>,
    lo: int,
    at: int,
    from: int,
)
    requires
        sorts_down(compare, before, s, p, lo, from),
        0 <= lo <= at <= from < s.len(),
        at > lo ==> lt(compare, s[from], s[at - 1]),
        at < from ==> le(compare, s[at], s[from]),
    ensures
        sorts_down(compare, before, moved(s, at, from), moved(p, at, from), lo, from + 1),
        at == from ==> moved(s, at, from) == s && moved(p, at, from) == p,
{
    reveal(sorts_down);
    assert(p[from] == from);
    if lo < from {
        lemma_insert_in_reverse_order(compare, s, p, lo, at, from);
        assert(within(p, lo, from + 1));
    } else {
        assert(within(p, lo, from + 1));
        assert(in_reverse_order(compare, s, p, lo, from + 1));
    }
    lemma_moved(before, s, p, lo, from + 1, at, from);
    if at == from {
        assert(moved(s, at, from) =~= s);
        assert(moved(p, at, from) =~= p);
    }
}

/// A part that is sorted downwards is sorted once it is turned over.
pub proof fn lemma_sorts_reversed<T, F: Fn(&T, &T) -> Ordering>(
    compare: F,
    before: Seq<T>,
    s: Seq<T>,
    p: Seq<int>,
    lo: int,
    hi: int,
)
    requires
        sorts_down(compare, before, s, p, lo, hi),
        0 <= lo <= hi <= s.len(),
    ensures
        sorts(compare, before, reversed(s, lo, hi), reversed(p, lo, hi), lo, hi),
{
    reveal(sorts);
    reveal(sorts_down);
    lemma_reversed(before, s, p, lo, hi, lo, hi);
    lemma_reverse_in_order(compare, s, p, lo, hi);
}

/// What sorts a part taken by itself sorts that part of the whole.
pub proof fn lemma_sorts_lifted<T, F: Fn(&T, &T) -> Ordering>(
    compare: F,
    before: Seq<T>,
    part: Seq<T>,
    q: Seq<int>,
    lo: int,
    hi: int,
)
    requires
        0 <= lo <= hi <= before.len(),
    ensures
        sorts(compare, before.subrange(lo, hi), part, q, 0, hi - lo) ==> sorts(
            compare,
            before,
            with_part(before, lo, hi, part),
            lifted(q, lo, before.len()),
            lo,
            hi,
        ),
        sorts_down(compare, before.subrange(lo, hi), part, q, 0, hi - lo) ==> sorts_down(
            compare,
            before,
            with_part(before, lo, hi, part),
            lifted(q, lo, before.len()),
            lo,
            hi,
        ),
{
    reveal(sorts);
    reveal(sorts_down);
    let whole = with_part(before, lo, hi, part);
    if rearranged(before.subrange(lo, hi), part, q) {
        lemma_lifted(before, part, q, lo, hi);
        lemma_lifted_in_order(compare, part, q, whole, lo, hi);
    }
}

/// From `lo` up to `hi`, `p` holds indices of that part only.
pub open spec fn stays_within(p: Seq<int>, lo: int, hi: int) -> bool {
    forall|k: int| lo <= k < hi ==> lo <= #[trigger] p[k] < hi
}

/// Two parts side by side, each in order and holding what it held at first,
/// are in order as one part once they are merged stably.
pub proof fn lemma_merged_in_order<T, F: Fn(&T, &T) -> Ordering>(
    compare: F,
    cur: Seq<T>,
    cur2: Seq<T>,
    p: Seq<int>,
    q: Seq<int>,
    a: int,
    b: int,
    c: int,
)
    requires
        rearranged(cur, cur2, q),
        p.len() == q.len(),
        0 <= a <= b <= c <= cur.len(),
        within(q, a, c),
        in_order(compare, cur2, q, a, c),
        in_order(compare, cur, p, a, b),
        in_order(compare, cur, p, b, c),
        stays_within(p, a, b),
        stays_within(p, b, c),
    ensures
        in_order(compare, cur2, compose(p, q), a, c),
        stays_within(compose(p, q), a, c),
{
    let p2 = compose(p, q);
    assert forall|k: int| a <= k < c implies a <= #[trigger] p2[k] < c by {
        assert(a <= q[k] < c);
        if q[k] < b {
            assert(a <= p[q[k]] < b);
        } else {
            assert(b <= p[q[k]] < c);
        }
    }
    assert forall|x: int, y: int| a <= x < y < c implies precedes(
        compare,
        #[trigger] cur2[x],
        p2[x],
        #[trigger] cur2[y],
        p2[y],
    ) by {
        let qx = q[x];
        let qy = q[y];
        assert(a <= qx < c && a <= qy < c);
        assert(p2[x] == p[qx] && p2[y] == p[qy]);
        assert(cur2[x] == cur[qx] && cur2[y] == cur[qy]);
        assert(precedes(compare, cur2[x], qx, cur2[y], qy));
        assert(qx != qy);
        if qx < b {
            assert(a <= p[qx] < b);
        } else {
            assert(b <= p[qx] < c);
        }
        if qy < b {
            assert(a <= p[qy] < b);
        } else {
            assert(b <= p[qy] < c);
        }
        if qx < qy && (qy < b || qx >= b) {
            assert(precedes(compare, cur[qx], p[qx], cur[qy], p[qy]));
        } else {
            lemma_precedes_le(compare, cur2[x], qx, cur2[y], qy);
        }
    }
}

/// What a lent comparator sorts stably, the comparator itself sorts stably.
pub proof fn lemma_lent_stably_sorted<T, F: Fn(&T, &T) -> Ordering>(
    compare: &F,
    before: Seq<T>,
    after: Seq<T>,
    lo: int,
    hi: int,
)
    ensures
        stably_sorted(compare, before, after, lo, hi) == stably_sorted(
            *compare,
            before,
            after,
            lo,
            hi,
        ),
        stably_sorted_down(compare, before, after, lo, hi) == stably_sorted_down(
            *compare,
            before,
            after,
            lo,
            hi,
        ),
        sorted(compare, after, lo, hi) == sorted(*compare, after, lo, hi),
{
    assert forall|p: Seq<int>|
        #![trigger sorts(compare, before, after, p, lo, hi)]
        #![trigger sorts(*compare, before, after, p, lo, hi)]
        #![trigger sorts_down(compare, before, after, p, lo, hi)]
        #![trigger sorts_down(*compare, before, after, p, lo, hi)]
        sorts(compare, before, after, p, lo, hi) == sorts(*compare, before, after, p, lo, hi)
            && sorts_down(compare, before, after, p, lo, hi) == sorts_down(
            *compare,
            before,
            after,
            p,
            lo,
            hi,
        ) by {
        lemma_lent_sorts(compare, before, after, p, lo, hi);
    }
    lemma_lent_sorts(compare, before, after, Seq::empty(), lo, hi);
}

} // verus!
