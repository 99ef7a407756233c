//! Merge sort from the bottom up: parts of one element are merged in pairs
//! to parts of two, these to parts of four, and so on.

use vstd::prelude::*;
use core::cmp::Ordering;
use crate::order::{is_comparator, is_ordered, lemma_ordered, le, is_lt, lemma_le_trans, lemma_lt_le};
use crate::permutation::{rearranged, lemma_rearranged_multiset};
use crate::runs::{Run, run_len, start_of, end_of, len_of, tiled, lemma_tiled};
use crate::slices::{pos, doubled, places_within, settle};
use crate::sorted::sorted;

verus! {

/// The runs of `rs` take up `s`, each is sorted, and each but the last is
/// `seg` long; the last is not longer.
#[verifier::opaque]
pub open spec fn segmented<T, F: Fn(&T, &T) -> Ordering>(
    compare: F,
    s: Seq<T>,
    rs: Seq<Run>,
    seg: int,
) -> bool {
    &&& tiled(rs, 0, len_of(s))
    &&& forall|u: int|
        0 <= u < rs.len() ==> sorted(compare, s, start_of(#[trigger] rs[u]), end_of(rs[u]))
    &&& forall|u: int| 0 <= u < rs.len() - 1 ==> run_len(#[trigger] rs[u]) == seg
    &&& rs.len() > 0 ==> run_len(rs[rs.len() - 1]) <= seg
}

/// What a pass has done up to `done`: `dest` holds the place of each element
/// and `src` tells for each place where its element stands in `s`; places
/// and elements of one merged part, which `head` tells by its start, stay in
/// that part, and within one part the places go by the order of the elements.
#[verifier::opaque]
pub open spec fn pass_state<T, F: Fn(&T, &T) -> Ordering>(
    compare: F,
    s: Seq<T>,
    dest: Seq<usize>,
    src: Seq<int>,
    head: Seq<int>,
    done: int,
) -> bool {
    &&& 0 <= done <= s.len()
    &&& dest.len() == s.len()
    &&& src.len() == s.len()
    &&& head.len() == s.len()
    &&& forall|a: int| 0 <= a < done ==> 0 <= #[trigger] dest[a] < done && src[pos(dest[a])] == a
    &&& forall|x: int|
        0 <= x < done ==> 0 <= #[trigger] src[x] < done && dest[src[x]] == x && 0 <= head[x] <= x
    &&& forall|x: int, y: int|
        0 <= x < y < done && head[x] == head[y] ==> le(
            compare,
            s[#[trigger] src[x]],
            s[#[trigger] src[y]],
        )
}

/// The state of the merge of the runs `begin .. mid` and `mid .. end` of `s`
/// in a pass that has come up to `begin`.
///
/// The elements below `l` of the first run and below `r` of the second have
/// been given their places, which begin at `begin`. What has been placed is
/// sorted, and none of it is after an element that is left.
#[verifier::opaque]
pub open spec fn pair_merging<T, F: Fn(&T, &T) -> Ordering>(
    compare: F,
    s: Seq<T>,
    dest: Seq<usize>,
    src: Seq<int>,
    head: Seq<int>,
    begin: int,
    mid: int,
    end: int,
    l: int,
    r: int,
) -> bool {
    let i = l + (r - mid);
    &&& 0 <= begin <= l <= mid <= r <= end <= s.len()
    &&& begin < mid < end
    &&& pass_state(compare, s, dest, src, head, begin)
    &&& forall|a: int|
        (begin <= a < l || mid <= a < r) ==> begin <= #[trigger] dest[a] < i && src[pos(dest[a])]
            == a
    &&& forall|x: int|
        begin <= x < i ==> (begin <= #[trigger] src[x] < l || mid <= src[x] < r) && dest[src[x]]
            == x
    &&& forall|x: int, y: int|
        begin <= x < y < i ==> le(compare, s[#[trigger] src[x]], s[#[trigger] src[y]])
    &&& forall|x: int, b: int|
        begin <= x < i && (l <= b < mid || r <= b < end) ==> le(
            compare,
            s[#[trigger] src[x]],
            #[trigger] s[b],
        )
    &&& sorted(compare, s, begin, mid)
    &&& sorted(compare, s, mid, end)
}

/// The merge of the next two runs begins where the pass has come to.
proof fn lemma_pair_start<T, F: Fn(&T, &T) -> Ordering>(
    compare: F,
    s: Seq<T>,
    dest: Seq<usize>,
    src: Seq<int>,
    head: Seq<int>,
    begin: int,
    mid: int,
    end: int,
)
    requires
        pass_state(compare, s, dest, src, head, begin),
        begin < mid < end <= s.len(),
        sorted(compare, s, begin, mid),
        sorted(compare, s, mid, end),
    ensures
        pair_merging(compare, s, dest, src, head, begin, mid, end, begin, mid),
{
    reveal(pair_merging);
    reveal(pass_state);
}

/// The next element of the first run (`left`) or of the second may be placed
/// where it is not after the next element of the other run, or none is left there.
proof fn lemma_pair_step<T, F: Fn(&T, &T) -> Ordering>(
    compare: F,
    s: Seq<T>,
    dest: Seq<usize>,
    src: Seq<int>,
    head: Seq<int>,
    begin: int,
    mid: int,
    end: int,
    l: int,
    r: int,
    left: bool,
    place: usize,
)
    requires
        pair_merging(compare, s, dest, src, head, begin, mid, end, l, r),
        place == l + (r - mid),
        left ==> l < mid && (r == end || le(compare, s[l], s[r])),
        !left ==> r < end && (l == mid || le(compare, s[r], s[l])),
    ensures
        left ==> pair_merging(
            compare,
            s,
            dest.update(l, place),
            src.update(pos(place), l),
            head,
            begin,
            mid,
            end,
            l + 1,
            r,
        ),
        !left ==> pair_merging(
            compare,
            s,
            dest.update(r, place),
            src.update(pos(place), r),
            head,
            begin,
            mid,
            end,
            l,
            r + 1,
        ),
{
    reveal(pair_merging);
    reveal(pass_state);
    let i = l + (r - mid);
    let a = if left {
        l
    } else {
        r
    };
    let dest2 = dest.update(a, place);
    let src2 = src.update(i, a);
    let l2 = if left {
        l + 1
    } else {
        l
    };
    let r2 = if left {
        r
    } else {
        r + 1
    };
    assert forall|c: int| 0 <= c < begin implies 0 <= #[trigger] dest2[c] < begin && src2[pos(
        dest2[c],
    )] == c by {
        assert(dest2[c] == dest[c]);
    }
    assert forall|x: int| 0 <= x < begin implies 0 <= #[trigger] src2[x] < begin
        && dest2[src2[x]] == x && 0 <= head[x] <= x by {
        assert(src2[x] == src[x]);
    }
    assert forall|x: int, y: int| 0 <= x < y < begin && head[x] == head[y] implies le(
        compare,
        s[#[trigger] src2[x]],
        s[#[trigger] src2[y]],
    ) by {
        assert(src2[x] == src[x] && src2[y] == src[y]);
    }
    assert(pass_state(compare, s, dest2, src2, head, begin));
    assert forall|c: int| (begin <= c < l2 || mid <= c < r2) implies begin <= #[trigger] dest2[c]
        < i + 1 && src2[pos(dest2[c])] == c by {
        if c != a {
            assert(dest2[c] == dest[c]);
        }
    }
    assert forall|x: int| begin <= x < i + 1 implies (begin <= #[trigger] src2[x] < l2 || mid
        <= src2[x] < r2) && dest2[src2[x]] == x by {
        if x != i {
            assert(src2[x] == src[x]);
        }
    }
    assert forall|b: int| (l2 <= b < mid || r2 <= b < end) implies le(
        compare,
        s[a],
        #[trigger] s[b],
    ) by {
        if left {
            if b < mid {
                assert(le(compare, s[l], s[b]));
            } else if r < b {
                assert(le(compare, s[r], s[b]));
                lemma_le_trans(compare, s[l], s[r], s[b]);
            }
        } else {
            if b >= mid {
                assert(le(compare, s[r], s[b]));
            } else if l < b {
                assert(le(compare, s[l], s[b]));
                lemma_le_trans(compare, s[r], s[l], s[b]);
            }
        }
    }
    assert forall|x: int, y: int| begin <= x < y < i + 1 implies le(
        compare,
        s[#[trigger] src2[x]],
        s[#[trigger] src2[y]],
    ) by {
        assert(src2[x] == src[x]);
        if y == i {
            assert(le(compare, s[src[x]], s[a]));
        } else {
            assert(src2[y] == src[y]);
        }
    }
    assert forall|x: int, b: int|
        begin <= x < i + 1 && (l2 <= b < mid || r2 <= b < end) implies le(
        compare,
        s[#[trigger] src2[x]],
        #[trigger] s[b],
    ) by {
        if x != i {
            assert(src2[x] == src[x]);
        }
    }
}

/// `head` with the places from `begin` up to `end` told to be one part.
pub open spec fn headed(head: Seq<int>, begin: int, end: int) -> Seq<int> {
    Seq::new(
        head.len(),
        |x: int|
            if begin <= x < end {
                begin
            } else {
                head[x]
            },
    )
}

/// Once both runs are placed, the pass has come up to their end.
proof fn lemma_pair_done<T, F: Fn(&T, &T) -> Ordering>(
    compare: F,
    s: Seq<T>,
    dest: Seq<usize>,
    src: Seq<int>,
    head: Seq<int>,
    begin: int,
    mid: int,
    end: int,
)
    requires
        pair_merging(compare, s, dest, src, head, begin, mid, end, mid, end),
    ensures
        pass_state(compare, s, dest, src, headed(head, begin, end), end),
{
    reveal(pair_merging);
    reveal(pass_state);
    let head2 = headed(head, begin, end);
    assert forall|x: int, y: int| 0 <= x < y < end && head2[x] == head2[y] implies le(
        compare,
        s[#[trigger] src[x]],
        s[#[trigger] src[y]],
    ) by {
        if y < begin {
            assert(head2[x] == head[x] && head2[y] == head[y]);
        } else if x < begin {
            assert(head2[x] == head[x]);
            assert(0 <= src[x] < begin);
            assert(head[x] <= x);
        }
    }
}

/// The places that a pass has given are each taken once.
proof fn lemma_pass_places<T, F: Fn(&T, &T) -> Ordering>(
    compare: F,
    s: Seq<T>,
    dest: Seq<usize>,
    src: Seq<int>,
    head: Seq<int>,
    done: int,
)
    requires
        pass_state(compare, s, dest, src, head, done),
    ensures
        places_within(dest, 0, done),
{
    reveal(pass_state);
    assert forall|a: int, b: int| 0 <= a < b < done implies #[trigger] dest[a]
        != #[trigger] dest[b] by {
        assert(src[pos(dest[a])] == a);
        assert(src[pos(dest[b])] == b);
    }
}

/// Sorts the slice by the order of its elements.
pub fn merge_sort<T: Ord>(slice: &mut [T])
    requires
        is_ordered::<T>(),
        4 * old(slice).len() <= usize::MAX,
    ensures
        final(slice)@.len() == old(slice)@.len(),
        final(slice)@.to_multiset() == old(slice)@.to_multiset(),
        sorted(T::cmp, final(slice)@, 0, pos(old(slice).len())),
{
    proof {
        lemma_ordered::<T>();
    }
    merge_sort_by(slice, T::cmp)
}

/// The runs of one element each that take up a sequence of length `n`.
pub open spec fn single_runs(n: nat) -> Seq<Run> {
    Seq::new(n, |u: int| (u as usize, (u + 1) as usize))
}

/// Runs of one element each are sorted.
proof fn lemma_single_runs<T, F: Fn(&T, &T) -> Ordering>(compare: F, s: Seq<T>)
    requires
        s.len() <= usize::MAX,
    ensures
        segmented(compare, s, single_runs(s.len()), 1),
        single_runs(s.len()).len() == s.len(),
{
    reveal(segmented);
}

/// With parts as long as the whole or longer, the whole is one part.
proof fn lemma_segmented_whole<T, F: Fn(&T, &T) -> Ordering>(
    compare: F,
    s: Seq<T>,
    rs: Seq<Run>,
    seg: int,
    n: int,
)
    requires
        n == s.len(),
        segmented(compare, s, rs, seg),
        seg >= n,
    ensures
        sorted(compare, s, 0, n),
{
    reveal(segmented);
    if rs.len() > 1 {
        lemma_tiled(rs, 0, n, 0, 1);
    } else if rs.len() == 1 {
        assert(sorted(compare, s, start_of(rs[0]), end_of(rs[0])));
    }
}

/// A sequence that is not empty has a run.
proof fn lemma_runs_exist<T, F: Fn(&T, &T) -> Ordering>(compare: F, s: Seq<T>, rs: Seq<Run>, seg: int)
    requires
        segmented(compare, s, rs, seg),
        s.len() > 0,
    ensures
        rs.len() > 0,
        rs[0].0 == 0,
{
    reveal(segmented);
}

/// What the state of the runs tells of the run at `u` and the one behind it.
proof fn lemma_segment<T, F: Fn(&T, &T) -> Ordering>(
    compare: F,
    s: Seq<T>,
    rs: Seq<Run>,
    seg: int,
    u: int,
)
    requires
        segmented(compare, s, rs, seg),
        0 <= u < rs.len(),
    ensures
        0 <= rs[u].0 < rs[u].1 <= s.len(),
        rs[u].1 <= rs[u].0 + seg,
        sorted(compare, s, start_of(rs[u]), end_of(rs[u])),
        u == rs.len() - 1 ==> rs[u].1 == s.len(),
        u < rs.len() - 1 ==> rs[u].1 == rs[u].0 + seg && rs[u + 1].0 == rs[u].1 && rs[u].1
            < s.len(),
{
    reveal(segmented);
    lemma_tiled(rs, 0, len_of(s), u, u);
    if u < rs.len() - 1 {
        lemma_tiled(rs, 0, len_of(s), u + 1, u + 1);
    }
}

/// Where each place up to `done` holds the element that `src` names, the
/// pass has made the merged runs, and what stands behind them is a run as before.
proof fn lemma_pass_done<T, F: Fn(&T, &T) -> Ordering>(
    compare: F,
    s: Seq<T>,
    after: Seq<T>,
    dest: Seq<usize>,
    src: Seq<int>,
    head: Seq<int>,
    rs: Seq<Run>,
    merged: Seq<Run>,
    u: int,
    done: int,
    seg: int,
)
    requires
        segmented(compare, s, rs, seg),
        pass_state(compare, s, dest, src, head, done),
        pass_runs(merged, head, done, seg, u < rs.len()),
        0 < seg,
        0 <= u <= rs.len(),
        u < rs.len() ==> done == start_of(rs[u]) && u == rs.len() - 1,
        u == rs.len() ==> done == s.len(),
        after.len() == s.len(),
        forall|a: int| 0 <= a < done ==> after[pos(#[trigger] dest[a])] == s[a],
        forall|k: int| done <= k < s.len() ==> #[trigger] after[k] == s[k],
    ensures
        segmented(
            compare,
            after,
            if u < rs.len() {
                merged.push(rs[u])
            } else {
                merged
            },
            2 * seg,
        ),
        after.to_multiset() == s.to_multiset(),
{
    reveal(segmented);
    reveal(pass_state);
    reveal(pass_runs);
    let n = len_of(s);
    let rs2 = if u < rs.len() {
        merged.push(rs[u])
    } else {
        merged
    };
    assert forall|x: int| 0 <= x < done implies after[x] == s[src[x]] by {
        assert(dest[src[x]] == x);
        assert(after[pos(dest[src[x]])] == s[src[x]]);
    }
    if u < rs.len() {
        lemma_segment(compare, s, rs, seg, u);
    }
    assert(tiled(rs2, 0, n)) by {
        assert forall|v: int| 0 <= v < rs2.len() implies (#[trigger] rs2[v]).0 < rs2[v].1 by {
            if v < merged.len() {
                assert(rs2[v] == merged[v]);
            }
        }
        assert forall|v: int| 0 <= v < rs2.len() - 1 implies (#[trigger] rs2[v]).1 == rs2[v
            + 1].0 by {
            assert(rs2[v] == merged[v]);
            if v + 1 < merged.len() {
                assert(rs2[v + 1] == merged[v + 1]);
            }
        }
        if merged.len() > 0 {
            assert(rs2[0] == merged[0]);
        }
    }
    assert forall|v: int| 0 <= v < rs2.len() implies sorted(
        compare,
        after,
        start_of(#[trigger] rs2[v]),
        end_of(rs2[v]),
    ) by {
        if v < merged.len() {
            assert(rs2[v] == merged[v]);
            lemma_tiled(merged, 0, done, v, v);
            assert forall|x: int, y: int|
                start_of(rs2[v]) <= x < y < end_of(rs2[v]) implies le(
                compare,
                #[trigger] after[x],
                #[trigger] after[y],
            ) by {
                assert(head[x] == start_of(merged[v]));
                assert(head[y] == start_of(merged[v]));
                assert(le(compare, s[src[x]], s[src[y]]));
            }
        } else {
            assert forall|x: int, y: int|
                start_of(rs2[v]) <= x < y < end_of(rs2[v]) implies le(
                compare,
                #[trigger] after[x],
                #[trigger] after[y],
            ) by {
                assert(after[x] == s[x] && after[y] == s[y]);
            }
        }
    }
    assert forall|v: int| 0 <= v < rs2.len() - 1 implies run_len(#[trigger] rs2[v]) == 2
        * seg by {
        assert(rs2[v] == merged[v]);
    }
    let p = Seq::new(
        s.len(),
        |x: int|
            if x < done {
                src[x]
            } else {
                x
            },
    );
    assert(rearranged(s, after, p)) by {
        assert forall|x: int, y: int| 0 <= x < y < p.len() implies #[trigger] p[x]
            != #[trigger] p[y] by {
            if y < done {
                assert(dest[src[x]] == x);
                assert(dest[src[y]] == y);
            } else if x < done {
                assert(0 <= src[x] < done);
            }
        }
    }
    lemma_rearranged_multiset(s, after, p);
}

/// The runs that a pass has merged take up the slice up to `done`, `head`
/// tells each by its start, each but the last is twice `seg` long and the last
/// is not longer; where `full` holds the last is as long as the others.
#[verifier::opaque]
pub open spec fn pass_runs(merged: Seq<Run>, head: Seq<int>, done: int, seg: int, full: bool) -> bool {
    &&& tiled(merged, 0, done)
    &&& done <= head.len()
    &&& forall|v: int, x: int|
        0 <= v < merged.len() && start_of(merged[v]) <= x < end_of(merged[v])
            ==> #[trigger] head[x] == start_of(#[trigger] merged[v])
    &&& forall|v: int| 0 <= v < merged.len() - 1 ==> run_len(#[trigger] merged[v]) == 2 * seg
    &&& merged.len() > 0 ==> run_len(merged[merged.len() - 1]) <= 2 * seg
    &&& full ==> forall|v: int| 0 <= v < merged.len() ==> run_len(#[trigger] merged[v]) == 2 * seg
}

/// The merged runs with one more, which `head` tells by its start.
proof fn lemma_run_merged(merged: Seq<Run>, head: Seq<int>, run: Run, seg: int)
    requires
        pass_runs(merged, head, start_of(run), seg, true),
        run.0 < run.1 <= head.len(),
        run_len(run) <= 2 * seg,
    ensures
        pass_runs(
            merged.push(run),
            headed(head, start_of(run), end_of(run)),
            end_of(run),
            seg,
            run_len(run) == 2 * seg,
        ),
        pass_runs(
            merged.push(run),
            headed(head, start_of(run), end_of(run)),
            end_of(run),
            seg,
            false,
        ),
{
    reveal(pass_runs);
    let merged2 = merged.push(run);
    let head2 = headed(head, start_of(run), end_of(run));
    if merged.len() > 0 {
        lemma_tiled(merged, 0, start_of(run), merged.len() - 1, merged.len() - 1);
        assert(merged2[0] == merged[0]);
    }
    assert forall|v: int| 0 <= v < merged2.len() implies (#[trigger] merged2[v]).0
        < merged2[v].1 by {
        if v < merged.len() {
            assert(merged2[v] == merged[v]);
        }
    }
    assert forall|v: int| 0 <= v < merged2.len() - 1 implies (#[trigger] merged2[v]).1
        == merged2[v + 1].0 by {
        assert(merged2[v] == merged[v]);
        if v + 1 < merged.len() {
            assert(merged2[v + 1] == merged[v + 1]);
        }
    }
    assert forall|v: int, x: int|
        0 <= v < merged2.len() && start_of(merged2[v]) <= x < end_of(
            merged2[v],
        ) implies #[trigger] head2[x] == start_of(#[trigger] merged2[v]) by {
        if v < merged.len() {
            assert(merged2[v] == merged[v]);
            lemma_tiled(merged, 0, start_of(run), v, v);
            assert(head[x] == start_of(merged[v]));
        }
    }
    assert forall|v: int| 0 <= v < merged2.len() - 1 implies run_len(#[trigger] merged2[v]) == 2
        * seg by {
        assert(merged2[v] == merged[v]);
    }
}

/// Sorts the slice by `comp`.
///
/// In each pass the parts of the length reached are merged in pairs, of two
/// elements the one from the first part being taken where it is strictly
/// before the other. The places of all elements are found first, and the
/// elements are moved to them at the end of the pass.
pub fn merge_sort_by<T, F>(slice: &mut [T], comp: F)
    where F: Fn(&T, &T) -> Ordering
    requires
        is_comparator(comp),
        4 * old(slice).len() <= usize::MAX,
    ensures
        final(slice)@.len() == old(slice)@.len(),
        final(slice)@.to_multiset() == old(slice)@.to_multiset(),
        sorted(comp, final(slice)@, 0, pos(old(slice).len())),
{
    // slice size check
    let len = slice.len();
    if len <= 1 {
        // already sorted
        return ;
    }
    // the work area: the place of each element

    let mut merge_buffer: Vec<usize> = vec![0; len];
    let ghost mut rs = single_runs(slice@.len());
    proof {
        lemma_single_runs(comp, slice@);
    }

    // merge sort, non-recursive
    let mut seg_size: usize = 1;
    while seg_size < len
        invariant
            is_comparator(comp),
            len == slice@.len(),
            len > 1,
            merge_buffer@.len() == len,
            4 * len <= usize::MAX,
            1 <= seg_size < 2 * len,
            slice@.to_multiset() == old(slice)@.to_multiset(),
            segmented(comp, slice@, rs, pos(seg_size)),
        decreases 2 * len - seg_size,
    {
        let ghost s = slice@;
        let ghost mut src: Seq<int> = Seq::new(s.len(), |x: int| x);
        let ghost mut head: Seq<int> = Seq::new(s.len(), |x: int| x);
        let ghost mut merged: Seq<Run> = Seq::empty();
        let ghost mut u: int = 0;
        let mut merge_start_pos: usize = 0;
        proof {
            assert(pass_state(comp, s, merge_buffer@, src, head, 0)) by {
                reveal(pass_state);
            }
            assert(pass_runs(merged, head, 0, pos(seg_size), true)) by {
                reveal(pass_runs);
            }
            lemma_runs_exist(comp, s, rs, pos(seg_size));
        }
        // sort each seg
        loop
            invariant
                is_comparator(comp),
                slice@ == s,
                len == s.len(),
                len > 1,
                merge_buffer@.len() == len,
                head.len() == len,
                src.len() == len,
                4 * len <= usize::MAX,
                1 <= seg_size < len,
                segmented(comp, s, rs, pos(seg_size)),
                0 <= u <= rs.len(),
                u < rs.len() ==> merge_start_pos == start_of(rs[u]),
                u == rs.len() ==> len <= merge_start_pos < len + seg_size,
                pass_runs(
                    merged,
                    head,
                    if merge_start_pos < len {
                        pos(merge_start_pos)
                    } else {
                        pos(len)
                    },
                    pos(seg_size),
                    u < rs.len(),
                ),
                pass_state(
                    comp,
                    s,
                    merge_buffer@,
                    src,
                    head,
                    if merge_start_pos < len {
                        pos(merge_start_pos)
                    } else {
                        pos(len)
                    },
                ),
            ensures
                u < rs.len() ==> merge_start_pos == start_of(rs[u]) && u == rs.len() - 1,
                u == rs.len() ==> merge_start_pos >= len,
            decreases rs.len() - u,
        {
            proof {
                if u < rs.len() {
                    lemma_segment(comp, s, rs, pos(seg_size), u);
                    if u + 1 < rs.len() {
                        lemma_segment(comp, s, rs, pos(seg_size), u + 1);
                    }
                }
            }
            let begin = merge_start_pos;
            let mid = begin + seg_size;
            let end = if mid + seg_size < len {
                mid + seg_size
            } else {
                len
            };
            if mid >= len {
                // already sorted
                break ;
            }
            // merge two seg

            let mut l = begin;
            let mut r = mid;
            proof {
                lemma_pair_start(
                    comp,
                    s,
                    merge_buffer@,
                    src,
                    head,
                    pos(begin),
                    pos(mid),
                    pos(end),
                );
            }
            // merge left and right: note the place of each element
            let mut i = begin;
            while i < end
                invariant
                    is_comparator(comp),
                    slice@ == s,
                    len == s.len(),
                    merge_buffer@.len() == len,
                    src.len() == len,
                    begin <= l <= mid <= r <= end <= len,
                    i == l + (r - mid),
                    pair_merging(
                        comp,
                        s,
                        merge_buffer@,
                        src,
                        head,
                        pos(begin),
                        pos(mid),
                        pos(end),
                        pos(l),
                        pos(r),
                    ),
                decreases end - i,
            {
                let ghost dest = merge_buffer@;
                if r == end || (l != mid && is_lt(&comp, &slice[l], &slice[r])) {
                    proof {
                        if r != end {
                            lemma_lt_le(comp, s[pos(l)], s[pos(r)]);
                        }
                        lemma_pair_step(
                            comp,
                            s,
                            dest,
                            src,
                            head,
                            pos(begin),
                            pos(mid),
                            pos(end),
                            pos(l),
                            pos(r),
                            true,
                            i,
                        );
                        src = src.update(pos(i), pos(l));
                    }
                    merge_buffer[l] = i;
                    l += 1;
                } else {
                    proof {
                        lemma_pair_step(
                            comp,
                            s,
                            dest,
                            src,
                            head,
                            pos(begin),
                            pos(mid),
                            pos(end),
                            pos(l),
                            pos(r),
                            false,
                            i,
                        );
                        src = src.update(pos(i), pos(r));
                    }
                    merge_buffer[r] = i;
                    r += 1;
                }
                i += 1;
            }
            proof {
                let run: Run = (begin, end);
                lemma_pair_done(
                    comp,
                    s,
                    merge_buffer@,
                    src,
                    head,
                    pos(begin),
                    pos(mid),
                    pos(end),
                );
                lemma_run_merged(merged, head, run, pos(seg_size));
                head = headed(head, pos(begin), pos(end));
                merged = merged.push(run);
                u = u + 2;
            }
            merge_start_pos += doubled(seg_size);
        }

        // each element to its place
        let placed_up_to = if merge_start_pos < len {
            merge_start_pos
        } else {
            len
        };
        let ghost dest = merge_buffer@;
        proof {
            if u < rs.len() {
                lemma_segment(comp, s, rs, pos(seg_size), u);
            }
            lemma_pass_places(comp, s, dest, src, head, pos(placed_up_to));
        }
        settle(slice, merge_buffer.as_mut_slice(), 0, placed_up_to);
        proof {
            lemma_pass_done(
                comp,
                s,
                slice@,
                dest,
                src,
                head,
                rs,
                merged,
                u,
                pos(placed_up_to),
                pos(seg_size),
            );
            rs = if u < rs.len() {
                merged.push(rs[u])
            } else {
                merged
            };
        }
        seg_size = doubled(seg_size);
    }
    proof {
        lemma_segmented_whole(comp, slice@, rs, pos(seg_size), pos(len));
    }
}

} // verus!
