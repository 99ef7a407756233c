//! Rearrangements of a sequence, told by where each element came from.

use vstd::prelude::*;
use vstd::seq_lib::*;

verus! {

/// `p` holds each of the indices `0 .. p.len()` once.
pub open spec fn is_permutation(p: Seq<int>) -> bool {
    &&& forall|i: int| 0 <= i < p.len() ==> 0 <= #[trigger] p[i] < p.len()
    &&& forall|i: int, j: int| 0 <= i < j < p.len() ==> #[trigger] p[i] != #[trigger] p[j]
}

/// `after` holds the elements of `before`; the one at `k` came from `p[k]`.
pub open spec fn rearranged<T>(before: Seq<T>, after: Seq<T>, p: Seq<int>) -> bool {
    &&& is_permutation(p)
    &&& before.len() == p.len()
    &&& after.len() == p.len()
    &&& forall|k: int| 0 <= k < p.len() ==> #[trigger] after[k] == before[p[k]]
}

/// `p` moves indices only inside `lo .. hi`.
pub open spec fn within(p: Seq<int>, lo: int, hi: int) -> bool {
    forall|k: int|
        0 <= k < p.len() ==> if lo <= k < hi {
            lo <= #[trigger] p[k] < hi
        } else {
            p[k] == k
        }
}

/// The permutation of length `n` that moves nothing.
pub open spec fn identity(n: nat) -> Seq<int> {
    Seq::new(n, |k: int| k)
}

/// First `p`, then `q`: the element that `q` takes from `k` is the one that `p` took from `p[q[k]]`.
pub open spec fn compose(p: Seq<int>, q: Seq<int>) -> Seq<int> {
    Seq::new(q.len(), |k: int| p[q[k]])
}

/// `s` with the element at `from` taken out and put in again at `at`.
pub open spec fn moved<T>(s: Seq<T>, at: int, from: int) -> Seq<T> {
    s.remove(from).insert(at, s[from])
}

/// `s` with the part from `lo` up to `hi` in the opposite order.
pub open spec fn reversed<T>(s: Seq<T>, lo: int, hi: int) -> Seq<T> {
    Seq::new(
        s.len(),
        |k: int|
            if lo <= k < hi {
                s[lo + hi - 1 - k]
            } else {
                s[k]
            },
    )
}

/// `s` with `part` in place of what it held from `lo` up to `hi`.
pub open spec fn with_part<T>(s: Seq<T>, lo: int, hi: int, part: Seq<T>) -> Seq<T> {
    s.subrange(0, lo) + part + s.subrange(hi, s.len() as int)
}

/// The permutation of length `n` that moves the part that starts at `lo` as
/// `q` moves a sequence of its own, and nothing else.
pub open spec fn lifted(q: Seq<int>, lo: int, n: nat) -> Seq<int> {
    Seq::new(
        n,
        |k: int|
            if lo <= k < lo + q.len() {
                lo + q[k - lo]
            } else {
                k
            },
    )
}

/// A rearrangement of a part is a rearrangement of the whole.
pub proof fn lemma_lifted<T>(before: Seq<T>, part: Seq<T>, q: Seq<int>, lo: int, hi: int)
    requires
        0 <= lo <= hi <= before.len(),
        rearranged(before.subrange(lo, hi), part, q),
    ensures
        rearranged(before, with_part(before, lo, hi, part), lifted(q, lo, before.len())),
        within(lifted(q, lo, before.len()), lo, hi),
{
    let after = before.subrange(0, lo) + part + before.subrange(hi, before.len() as int);
    let p = lifted(q, lo, before.len());
    assert forall|i: int, j: int| 0 <= i < j < p.len() implies #[trigger] p[i] != #[trigger] p[j] by {
        if lo <= i && j < hi {
            assert(q[i - lo] != q[j - lo]);
        }
    }
    assert forall|k: int| 0 <= k < p.len() implies #[trigger] after[k] == before[p[k]] by {
        if lo <= k < hi {
            assert(part[k - lo] == before.subrange(lo, hi)[q[k - lo]]);
        }
    }
}

/// A rearrangement stays one when an element is taken out and put in again, and its origin with it.
pub proof fn lemma_moved<T>(before: Seq<T>, s: Seq<T>, p: Seq<int>, lo: int, hi: int, at: int, from: int)
    requires
        rearranged(before, s, p),
        within(p, lo, hi),
        0 <= lo <= at <= from < hi <= s.len(),
    ensures
        rearranged(before, moved(s, at, from), moved(p, at, from)),
        within(moved(p, at, from), lo, hi),
{
    let q = moved(p, at, from);
    let t = moved(s, at, from);
    assert forall|i: int, j: int| 0 <= i < j < q.len() implies #[trigger] q[i] != #[trigger] q[j] by {
        let a = if i < at { i } else if i == at { from } else if i <= from { i - 1 } else { i };
        let b = if j < at { j } else if j == at { from } else if j <= from { j - 1 } else { j };
        assert(q[i] == p[a]);
        assert(q[j] == p[b]);
        if a < b {
            assert(p[a] != p[b]);
        } else {
            assert(p[b] != p[a]);
        }
    }
    assert forall|k: int| 0 <= k < q.len() implies #[trigger] t[k] == before[q[k]] && 0 <= q[k] < q.len() && (if lo <= k < hi { lo <= q[k] < hi } else { q[k] == k }) by {
        let a = if k < at { k } else if k == at { from } else if k <= from { k - 1 } else { k };
        assert(q[k] == p[a]);
        assert(t[k] == s[a]);
    }
}

/// A rearrangement stays one when a part is turned over, and the origins with it.
pub proof fn lemma_reversed<T>(before: Seq<T>, s: Seq<T>, p: Seq<int>, lo: int, hi: int, a: int, b: int)
    requires
        rearranged(before, s, p),
        within(p, lo, hi),
        0 <= lo <= a <= b <= hi <= s.len(),
    ensures
        rearranged(before, reversed(s, a, b), reversed(p, a, b)),
        within(reversed(p, a, b), lo, hi),
{
    let q = reversed(p, a, b);
    let t = reversed(s, a, b);
    assert forall|i: int, j: int| 0 <= i < j < q.len() implies #[trigger] q[i] != #[trigger] q[j] by {
        let x = if a <= i < b { a + b - 1 - i } else { i };
        let y = if a <= j < b { a + b - 1 - j } else { j };
        assert(q[i] == p[x]);
        assert(q[j] == p[y]);
        if x < y {
            assert(p[x] != p[y]);
        } else {
            assert(p[y] != p[x]);
        }
    }
    assert forall|k: int| 0 <= k < q.len() implies #[trigger] t[k] == before[q[k]] && 0 <= q[k] < q.len() && (if lo <= k < hi { lo <= q[k] < hi } else { q[k] == k }) by {
        let x = if a <= k < b { a + b - 1 - k } else { k };
        assert(q[k] == p[x]);
        assert(t[k] == s[x]);
    }
}

/// A sequence is a rearrangement of itself in which nothing is moved.
pub proof fn lemma_identity<T>(s: Seq<T>)
    ensures
        rearranged(s, s, identity(s.len())),
        forall|lo: int, hi: int| within(identity(s.len()), lo, hi),
{
}

/// A rearrangement keeps every element, as often as it occurred.
pub proof fn lemma_rearranged_multiset<T>(before: Seq<T>, after: Seq<T>, p: Seq<int>)
    requires
        rearranged(before, after, p),
    ensures
        before.to_multiset() == after.to_multiset(),
    decreases p.len(),
{
    broadcast use {to_multiset_build, to_multiset_remove};

    if p.len() == 0 {
        assert(before =~= after);
    } else {
        let last = p.len() - 1;
        let from = p[last];
        let before1 = before.remove(from);
        let after1 = after.drop_last();
        let p1 = Seq::new(
            last as nat,
            |k: int|
                if p[k] < from {
                    p[k]
                } else {
                    p[k] - 1
                },
        );
        assert forall|i: int| 0 <= i < p1.len() implies 0 <= #[trigger] p1[i] < p1.len() by {
            assert(p[i] != p[last]);
        }
        assert forall|i: int, j: int| 0 <= i < j < p1.len() implies #[trigger] p1[i]
            != #[trigger] p1[j] by {
            assert(p[i] != p[j]);
            assert(p[i] != p[last]);
            assert(p[j] != p[last]);
        }
        assert forall|k: int| 0 <= k < p1.len() implies #[trigger] after1[k] == before1[p1[k]] by {
            assert(after[k] == before[p[k]]);
            assert(p[k] != p[last]);
        }
        lemma_rearranged_multiset(before1, after1, p1);
        assert(after =~= after1.push(after[last]));
        assert(after[last] == before[from]);
        before.to_multiset_ensures();
        assert(before.to_multiset().count(before[from]) > 0);
        assert(before.to_multiset() =~= before1.to_multiset().insert(before[from]));
    }
}

/// A permutation that never puts a later index before an earlier one moves nothing.
pub proof fn lemma_increasing_is_identity(p: Seq<int>)
    requires
        is_permutation(p),
        forall|i: int, j: int| 0 <= i < j < p.len() ==> #[trigger] p[i] < #[trigger] p[j],
    ensures
        p == identity(p.len()),
{
    let n = p.len() as int;
    assert forall|k: int| 0 <= k < n implies p[k] == k by {
        lemma_increasing_bounds(p, k);
    }
    assert(p =~= identity(p.len()));
}

/// A permutation that goes up holds each index at itself.
proof fn lemma_increasing_bounds(p: Seq<int>, k: int)
    requires
        is_permutation(p),
        forall|i: int, j: int| 0 <= i < j < p.len() ==> #[trigger] p[i] < #[trigger] p[j],
        0 <= k < p.len(),
    ensures
        p[k] == k,
{
    lemma_increasing_low(p, k);
    lemma_increasing_high(p, k);
}

/// A permutation that goes up holds at no index less than the index.
proof fn lemma_increasing_low(p: Seq<int>, k: int)
    requires
        is_permutation(p),
        forall|i: int, j: int| 0 <= i < j < p.len() ==> #[trigger] p[i] < #[trigger] p[j],
        0 <= k < p.len(),
    ensures
        p[k] >= k,
    decreases k,
{
    if k > 0 {
        lemma_increasing_low(p, k - 1);
        assert(p[k - 1] < p[k]);
    }
}

/// A permutation that goes up holds at no index more than the index.
proof fn lemma_increasing_high(p: Seq<int>, k: int)
    requires
        is_permutation(p),
        forall|i: int, j: int| 0 <= i < j < p.len() ==> #[trigger] p[i] < #[trigger] p[j],
        0 <= k < p.len(),
    ensures
        p[k] <= k,
    decreases p.len() - k,
{
    if k < p.len() - 1 {
        lemma_increasing_high(p, k + 1);
        assert(p[k] < p[k + 1]);
    }
}

/// `s` with the elements at `i` and `j` in each other's place.
pub open spec fn swapped<T>(s: Seq<T>, i: int, j: int) -> Seq<T> {
    s.update(i, s[j]).update(j, s[i])
}

/// An exchange of two elements keeps every element, as often as it occurred.
pub proof fn lemma_swapped_multiset<T>(s: Seq<T>, i: int, j: int)
    requires
        0 <= i < s.len(),
        0 <= j < s.len(),
    ensures
        swapped(s, i, j).to_multiset() == s.to_multiset(),
        swapped(s, i, j).len() == s.len(),
{
    let p = swapped(identity(s.len()), i, j);
    assert(rearranged(s, swapped(s, i, j), p));
    lemma_rearranged_multiset(s, swapped(s, i, j), p);
}

} // verus!
