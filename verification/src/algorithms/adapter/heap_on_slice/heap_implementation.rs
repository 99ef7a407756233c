//! Heap operations on a slice, the least element at the root.
//!
//! In a slice of length `n` the nodes below `n / 2` are the parents and the
//! others are leaves; the children of the node at `i` stand at `2 * i + 1` and
//! `2 * i + 2`.

use vstd::prelude::*;
use vstd::seq_lib::*;
use core::cmp::Ordering;
use crate::order::is_comparator;
use crate::permutation::lemma_swapped_multiset;
use crate::slices::{pos, subslice_mut};
use super::heap_order::{sinks, rises, can_rise, on_path, lemma_rises, Relations, lemma_order, tells, direct, lemma_tells_own, went_down, went_up, lemma_step_down, lemma_settled_down, lemma_step_up, lemma_settled_up, lemma_same_elements, parent, heap_from, heap_ordered, settled, heap_but_below, heap_but_above, heap_but_at, lemma_root_first};

verus! {

/// Calls `compare` and tells whether it found `a` strictly before `b`.
pub(crate) fn found_less<T, C>(compare: &C, a: &T, b: &T, Ghost(r): Ghost<Relations<T>>) -> (less:
    bool)
    where C: Fn(&T, &T) -> Ordering
    requires
        tells(*compare, r),
    ensures
        less ==> (r.lt)(*a, *b) && (r.le)(*a, *b),
        !less ==> (r.le)(*b, *a),
{
    match compare(a, b) {
        Ordering::Less => true,
        _ => false,
    }
}

/// Calls `compare` and tells whether it found `a` strictly after `b`.
pub(crate) fn found_greater<T, C>(
    compare: &C,
    a: &T,
    b: &T,
    Ghost(r): Ghost<Relations<T>>,
) -> (greater: bool)
    where C: Fn(&T, &T) -> Ordering
    requires
        tells(*compare, r),
    ensures
        greater ==> (r.lt)(*b, *a) && (r.le)(*b, *a),
        !greater ==> (r.le)(*a, *b),
{
    match compare(a, b) {
        Ordering::Greater => true,
        _ => false,
    }
}

/// Lets the node at `idx` change places with its parent where it is strictly before it.
pub(crate) fn step_up<T, C>(
    arr: &mut [T],
    idx: &mut usize,
    compare: &C,
    Ghost(r): Ghost<Relations<T>>,
) -> (moved: bool)
    where C: Fn(&T, &T) -> Ordering
    requires
        tells(*compare, r),
        *old(idx) == 0 || *old(idx) < old(arr).len(),
    ensures
        final(arr)@.len() == old(arr)@.len(),
        !moved ==> final(arr)@ == old(arr)@ && *final(idx) == *old(idx) && (*old(idx) == 0 || (
        r.le)(old(arr)@[parent(pos(*old(idx)))], old(arr)@[pos(*old(idx))])),
        moved ==> went_up(r, old(arr)@, final(arr)@, pos(*old(idx)), pos(*final(idx))),
{
    if *idx == 0 {
        return false;
    }
    let parent = (*idx - 1) / 2;
    if found_less(compare, &arr[*idx], &arr[parent], Ghost(r)) {
        // change places with the parent
        arr.swap(*idx, parent);
        *idx = parent;
        true
    } else {
        false
    }
}

/// Lets the node at `idx` change places with the least of its children where
/// that one is strictly before it.
pub(crate) fn step_down<T, C>(
    arr: &mut [T],
    idx: &mut usize,
    compare: &C,
    Ghost(r): Ghost<Relations<T>>,
) -> (moved: bool)
    where C: Fn(&T, &T) -> Ordering
    requires
        tells(*compare, r),
        2 * *old(idx) + 2 <= usize::MAX,
    ensures
        final(arr)@.len() == old(arr)@.len(),
        !moved ==> final(arr)@ == old(arr)@ && *final(idx) == *old(idx) && settled(
            r,
            old(arr)@,
            pos(*old(idx)),
        ),
        moved ==> went_down(r, old(arr)@, final(arr)@, pos(*old(idx)), pos(*final(idx))),
{
    let (left, right) = (2 * *idx + 1, 2 * *idx + 2);
    let mut smallest_idx = *idx;
    let ghost s = arr@;

    if left < arr.len() && found_less(compare, &arr[left], &arr[smallest_idx], Ghost(r)) {
        smallest_idx = left;
    }
    if right < arr.len() && found_less(compare, &arr[right], &arr[smallest_idx], Ghost(r)) {
        smallest_idx = right;
    }
    proof {
        if right < s.len() {
            lemma_order(r, s[pos(right)], s[pos(left)], s[pos(*idx)]);
            lemma_order(r, s[pos(right)], s[pos(*idx)], s[pos(left)]);
            lemma_order(r, s[pos(left)], s[pos(*idx)], s[pos(right)]);
        }
        if left < s.len() {
            lemma_order(r, s[pos(left)], s[pos(left)], s[pos(*idx)]);
        }
        assert forall|i: int| 0 < i < s.len() && parent(i) == *idx implies i == left || i
            == right by {}
    }

    if smallest_idx == *idx {
        false
    } else {
        arr.swap(*idx, smallest_idx);
        *idx = smallest_idx;
        true
    }
}

/// Lets the node at `idx` rise while it is strictly before its parent.
pub(crate) fn sift_up<T, C>(
    arr: &mut [T],
    idx: usize,
    compare: &C,
    Ghost(r): Ghost<Relations<T>>,
) -> (moved: bool)
    where C: Fn(&T, &T) -> Ordering
    requires
        tells(*compare, r),
        idx == 0 || idx < old(arr).len(),
    ensures
        final(arr)@.len() == old(arr)@.len(),
        final(arr)@.to_multiset() == old(arr)@.to_multiset(),
        !moved ==> final(arr)@ == old(arr)@ && (idx == 0 || (r.le)(
            old(arr)@[parent(pos(idx))],
            old(arr)@[pos(idx)],
        )),
        moved ==> 0 < idx < old(arr).len() && (r.lt)(
            old(arr)@[pos(idx)],
            old(arr)@[parent(pos(idx))],
        ) && final(arr)@[pos(idx)] == old(arr)@[parent(pos(idx))] && final(arr)@ != old(arr)@,
        rises(r, old(arr)@, final(arr)@, pos(idx)),
        forall|k: int|
            0 <= k < old(arr)@.len() && !on_path(k, pos(idx)) ==> #[trigger] final(arr)@[k] == old(arr)@[k],
        heap_ordered(r, old(arr)@) ==> !moved,
        heap_but_above(r, old(arr)@, pos(idx)) ==> heap_ordered(r, final(arr)@),
{
    let mut idx = idx;
    let ghost start = pos(idx);
    let ghost s = arr@;
    let moved = if step_up(arr, &mut idx, compare, Ghost(r)) {
        proof {
            lemma_swapped_multiset(s, start, pos(idx));
            if heap_but_above(r, s, start) {
                lemma_step_up(r, s, arr@, start, pos(idx));
            }
        }
        loop
            invariant
                tells(*compare, r),
                idx < arr@.len(),
                arr@.len() == s.len(),
                arr@.to_multiset() == s.to_multiset(),
                0 < start < s.len(),
                (r.lt)(s[start], s[parent(start)]),
                heap_but_above(r, s, start) ==> heap_but_above(r, arr@, pos(idx)),
                forall|after: Seq<T>|
                    #![trigger rises(r, arr@, after, pos(idx))]
                    rises(r, arr@, after, pos(idx)) ==> rises(r, s, after, start),
            ensures
                arr@.len() == s.len(),
                arr@.to_multiset() == s.to_multiset(),
                heap_but_above(r, s, start) ==> heap_ordered(r, arr@),
                rises(r, s, arr@, start),
            decreases idx,
        {
            let ghost before = arr@;
            let ghost at = pos(idx);
            if !step_up(arr, &mut idx, compare, Ghost(r)) {
                proof {
                    if heap_but_above(r, s, start) {
                        lemma_settled_up(r, before, at);
                    }
                    assert(rises(r, before, before, at));
                }
                break ;
            }
            proof {
                lemma_swapped_multiset(before, at, pos(idx));
                if heap_but_above(r, s, start) {
                    lemma_step_up(r, before, arr@, at, pos(idx));
                }
                assert forall|after: Seq<T>|
                    #![trigger rises(r, arr@, after, pos(idx))]
                    rises(r, arr@, after, pos(idx)) implies rises(r, s, after, start) by {
                    assert(rises(r, before, after, at));
                }
            }
        }
        true
    } else {
        proof {
            if heap_but_above(r, s, start) {
                lemma_settled_up(r, s, start);
            }
            assert(rises(r, s, s, start));
        }
        false
    };
    proof {
        lemma_rises(r, s, arr@, start);
        if 0 < start < s.len() {
            lemma_order(r, s[parent(start)], s[start], s[start]);
        }
    }
    moved
}

/// Lets the node at `idx` sink while one of its children is strictly before it.
pub(crate) fn sift_down<T, C>(
    arr: &mut [T],
    idx: usize,
    compare: &C,
    Ghost(r): Ghost<Relations<T>>,
    Ghost(from): Ghost<int>,
) -> (moved: bool)
    where C: Fn(&T, &T) -> Ordering
    requires
        tells(*compare, r),
        2 * idx + 2 <= usize::MAX,
        2 * old(arr).len() <= usize::MAX,
    ensures
        final(arr)@.len() == old(arr)@.len(),
        final(arr)@.to_multiset() == old(arr)@.to_multiset(),
        !moved ==> final(arr)@ == old(arr)@ && settled(r, old(arr)@, pos(idx)),
        moved ==> idx < old(arr).len() && (r.lt)(final(arr)@[pos(idx)], old(arr)@[pos(idx)])
            && final(arr)@ != old(arr)@,
        sinks(r, old(arr)@, final(arr)@, pos(idx)),
        heap_ordered(r, old(arr)@) ==> !moved,
        heap_but_below(r, old(arr)@, pos(idx), from) ==> heap_from(r, final(arr)@, from),
{
    let mut idx = idx;
    let ghost start = pos(idx);
    let ghost s = arr@;
    let moved = if step_down(arr, &mut idx, compare, Ghost(r)) {
        let ghost first = pos(idx);
        proof {
            lemma_swapped_multiset(s, start, pos(idx));
            if heap_but_below(r, s, start, from) {
                lemma_step_down(r, s, arr@, start, pos(idx), from);
            }
        }
        loop
            invariant
                tells(*compare, r),
                0 <= start < idx < arr@.len(),
                arr@.len() == s.len(),
                2 * arr@.len() <= usize::MAX,
                arr@.to_multiset() == s.to_multiset(),
                (r.lt)(arr@[start], s[start]),
                0 < first < s.len(),
                parent(first) == start,
                (r.lt)(s[first], s[start]),
                heap_but_below(r, s, start, from) ==> heap_but_below(r, arr@, pos(idx), from),
                forall|after: Seq<T>|
                    #![trigger sinks(r, arr@, after, pos(idx))]
                    sinks(r, arr@, after, pos(idx)) ==> sinks(r, s, after, start),
            ensures
                arr@.len() == s.len(),
                arr@.to_multiset() == s.to_multiset(),
                0 <= start < s.len(),
                (r.lt)(arr@[start], s[start]),
                0 < first < s.len(),
                parent(first) == start,
                (r.lt)(s[first], s[start]),
                heap_but_below(r, s, start, from) ==> heap_from(r, arr@, from),
                sinks(r, s, arr@, start),
            decreases arr@.len() - idx,
        {
            let ghost before = arr@;
            let ghost at = pos(idx);
            if !step_down(arr, &mut idx, compare, Ghost(r)) {
                proof {
                    if heap_but_below(r, s, start, from) {
                        lemma_settled_down(r, before, at, from);
                    }
                    assert(sinks(r, before, before, at));
                }
                break ;
            }
            proof {
                lemma_swapped_multiset(before, at, pos(idx));
                assert(arr@[start] == before[start]);
                if heap_but_below(r, s, start, from) {
                    lemma_step_down(r, before, arr@, at, pos(idx), from);
                }
                assert forall|after: Seq<T>|
                    #![trigger sinks(r, arr@, after, pos(idx))]
                    sinks(r, arr@, after, pos(idx)) implies sinks(r, s, after, start) by {
                    assert(sinks(r, before, after, at));
                }
            }
        }
        proof {
            lemma_order(r, s[start], s[start], s[first]);
            lemma_order(r, s[start], s[first], s[start]);
            if heap_ordered(r, s) {
                assert((r.le)(s[parent(first)], s[first]));
            }
        }
        true
    } else {
        proof {
            if heap_but_below(r, s, start, from) {
                lemma_settled_down(r, s, start, from);
            }
            assert(sinks(r, s, s, start));
        }
        false
    };
    moved
}

/// Tells whether the slice is in heap order.
pub(crate) fn check_heap<T, C>(arr: &[T], compare: &C, Ghost(r): Ghost<Relations<T>>) -> (ok:
    bool)
    where C: Fn(&T, &T) -> Ordering
    requires
        tells(*compare, r),
    ensures
        ok ==> heap_ordered(r, arr@),
        !ok ==> exists|i: int| 0 < i < arr@.len() && (r.lt)(#[trigger] arr@[i], arr@[parent(i)]),
{
    let len = arr.len();
    let mut idx: usize = 0;
    while idx < len / 2
        invariant
            tells(*compare, r),
            len == arr@.len(),
            idx <= len / 2,
            forall|i: int| 0 < i < len && parent(i) < idx ==> (r.le)(arr@[parent(i)], #[trigger] arr@[i]),
        decreases len / 2 - idx,
    {
        let (left, right) = (2 * idx + 1, 2 * idx + 2);
        if left < len && found_greater(compare, &arr[idx], &arr[left], Ghost(r)) {
            assert(parent(pos(left)) == idx);
            return false;
        }
        if right < len && found_greater(compare, &arr[idx], &arr[right], Ghost(r)) {
            assert(parent(pos(right)) == idx);
            return false;
        }
        proof {
            assert forall|i: int| 0 < i < len && parent(i) == idx implies i == left || i
                == right by {}
        }
        idx += 1;
    }
    true
}

/// Puts the slice in heap order.
pub(crate) fn build_heap<T, C>(arr: &mut [T], compare: &C, Ghost(r): Ghost<Relations<T>>)
    where C: Fn(&T, &T) -> Ordering
    requires
        tells(*compare, r),
        2 * old(arr).len() <= usize::MAX,
    ensures
        final(arr)@.len() == old(arr)@.len(),
        final(arr)@.to_multiset() == old(arr)@.to_multiset(),
        heap_ordered(r, final(arr)@),
{
    let len = arr.len();
    if len == 0 {
        return ;
    }
    // the parents stand below len / 2: let each of them sink, the last one first

    let mut idx: usize = len / 2;
    while idx > 0
        invariant
            tells(*compare, r),
            len == arr@.len(),
            2 * len <= usize::MAX,
            idx <= len / 2,
            arr@.to_multiset() == old(arr)@.to_multiset(),
            heap_from(r, arr@, pos(idx)),
        decreases idx,
    {
        idx -= 1;
        sift_down(arr, idx, compare, Ghost(r), Ghost(pos(idx)));
    }
}

/// Takes `x` into the heap and the least element out of it, in one step:
/// `x` itself where the heap is empty or `x` is not after the root, else the root.
pub(crate) fn push_pop<T, C>(arr: &mut [T], x: T, compare: &C, Ghost(r): Ghost<Relations<T>>) -> (out:
    T)
    where C: Fn(&T, &T) -> Ordering
    requires
        tells(*compare, r),
        2 * old(arr).len() <= usize::MAX,
    ensures
        final(arr)@.len() == old(arr)@.len(),
        final(arr)@.to_multiset().insert(out) == old(arr)@.to_multiset().insert(x),
        (out == x && final(arr)@ == old(arr)@ && (old(arr)@.len() > 0 ==> (r.le)(
            x,
            old(arr)@[0],
        ))) || (old(arr)@.len() > 0 && out == old(arr)@[0] && (r.lt)(old(arr)@[0], x)),
        heap_ordered(r, old(arr)@) ==> heap_ordered(r, final(arr)@) && forall|i: int|
            0 <= i < final(arr)@.len() ==> (r.le)(out, #[trigger] final(arr)@[i]),
{
    broadcast use to_multiset_update;

    let mut x = x;
    let ghost s = arr@;
    let ghost pushed = x;
    if !arr.is_empty() && found_less(compare, &arr[0], &x, Ghost(r)) {
        core::mem::swap(&mut arr[0], &mut x);
        let ghost put = arr@;
        assert(put == s.update(0, pushed));
        sift_down(arr, 0, compare, Ghost(r), Ghost(0));
        proof {
            assert(put.to_multiset() =~= s.to_multiset().insert(pushed).remove(s[0]));
            assert(s.to_multiset().count(s[0]) > 0) by {
                broadcast use to_multiset_contains;

                assert(s.contains(s[0]));
            }
            assert(arr@.to_multiset().insert(x) =~= s.to_multiset().insert(pushed));
            if heap_ordered(r, s) {
                assert(heap_but_below(r, put, 0, 0));
                assert forall|i: int| 0 <= i < arr@.len() implies (r.le)(x, #[trigger] arr@[i]) by {
                    lemma_same_elements(arr@, put, i);
                    let k = choose|k: int| 0 <= k < put.len() && #[trigger] put[k] == arr@[i];
                    if k == 0 {
                        lemma_order(r, s[0], pushed, pushed);
                    } else {
                        lemma_root_first(r, s, k);
                    }
                }
            }
        }
    } else {
        proof {
            if heap_ordered(r, s) {
                assert forall|i: int| 0 <= i < s.len() implies (r.le)(x, #[trigger] s[i]) by {
                    lemma_root_first(r, s, i);
                    lemma_order(r, x, s[0], s[i]);
                }
            }
        }
    }
    x
}

/// Takes the root out of the heap: it comes to stand behind the others, which
/// are put in heap order again and handed back.
pub(crate) fn pop_root<'a, T, C>(
    arr: &'a mut [T],
    compare: &C,
    Ghost(r): Ghost<Relations<T>>,
) -> (init: Option<&'a mut [T]>)
    where C: Fn(&T, &T) -> Ordering
    requires
        tells(*compare, r),
        2 * old(arr).len() <= usize::MAX,
    ensures
        old(arr)@.len() == 0 ==> init is None && final(arr)@ == old(arr)@,
        old(arr)@.len() > 0 ==> init is Some && init.unwrap()@.len() == old(arr)@.len() - 1
            && final(arr)@ == final(init.unwrap())@.push(old(arr)@[0])
            && init.unwrap()@.to_multiset().insert(old(arr)@[0]) == old(arr)@.to_multiset() && (
        heap_ordered(r, old(arr)@) ==> heap_ordered(r, init.unwrap()@)),
{
    broadcast use {to_multiset_update, to_multiset_build};

    let len = arr.len();
    if len == 0 {
        return None;
    }
    let ghost s = arr@;
    let (init, last) = arr.split_at_mut(len - 1);
    let ghost front = init@;
    assert(s =~= front.push(s[len - 1]));
    if !init.is_empty() {
        // with a single element there is nothing before the last
        core::mem::swap(&mut init[0], &mut last[0]);
        let ghost put = init@;
        assert(put == front.update(0, s[len - 1]));
        assert(last@ =~= seq![s[0]]);
        sift_down(init, 0, compare, Ghost(r), Ghost(0));
        proof {
            assert(put.to_multiset() =~= front.to_multiset().insert(s[len - 1]).remove(s[0]));
            assert(front.to_multiset().count(s[0]) > 0) by {
                broadcast use to_multiset_contains;

                assert(front.contains(front[0]));
            }
            assert(init@.to_multiset().insert(s[0]) =~= s.to_multiset());
            if heap_ordered(r, s) {
                assert forall|i: int|
                    0 < i < put.len() && parent(i) >= 0 && parent(i) != 0 implies (r.le)(
                    put[parent(i)],
                    #[trigger] put[i],
                ) by {
                    assert((r.le)(s[parent(i)], s[i]));
                }
                assert(heap_but_below(r, put, 0, 0));
            }
        }
    } else {
        assert(last@ =~= seq![s[0]]);
        assert(init@.to_multiset().insert(s[0]) =~= s.to_multiset());
    }
    Some(init)
}

/// No element of `s` is before one that follows it.
pub open spec fn sorted_down<T>(r: Relations<T>, s: Seq<T>) -> bool {
    forall|i: int, j: int| 0 <= i < j < s.len() ==> (r.le)(#[trigger] s[j], #[trigger] s[i])
}

/// Sorts the slice downwards: it is put in heap order, and then the root is
/// taken out of the heap until the heap is empty.
pub(crate) fn sort_down<T, C>(arr: &mut [T], compare: &C, Ghost(r): Ghost<Relations<T>>)
    where C: Fn(&T, &T) -> Ordering
    requires
        tells(*compare, r),
        2 * old(arr).len() <= usize::MAX,
    ensures
        final(arr)@.len() == old(arr)@.len(),
        final(arr)@.to_multiset() == old(arr)@.to_multiset(),
        sorted_down(r, final(arr)@),
{
    build_heap(arr, compare, Ghost(r));
    let len = arr.len();
    let mut end: usize = len;
    assert(arr@.subrange(0, pos(end)) =~= arr@);
    loop
        invariant
            tells(*compare, r),
            len == arr@.len(),
            2 * len <= usize::MAX,
            end <= len,
            arr@.to_multiset() == old(arr)@.to_multiset(),
            heap_ordered(r, arr@.subrange(0, pos(end))),
            forall|i: int, j: int|
                0 <= i < end <= j < len ==> (r.le)(#[trigger] arr@[j], #[trigger] arr@[i]),
            forall|i: int, j: int|
                end <= i < j < len ==> (r.le)(#[trigger] arr@[j], #[trigger] arr@[i]),
        ensures
            end == 0,
            len == arr@.len(),
            arr@.to_multiset() == old(arr)@.to_multiset(),
            forall|i: int, j: int|
                end <= i < j < len ==> (r.le)(#[trigger] arr@[j], #[trigger] arr@[i]),
        decreases end,
    {
        let ghost s = arr@;
        let ghost heap = s.subrange(0, pos(end));
        match pop_root(subslice_mut(arr, 0, end), compare, Ghost(r)) {
            Some(init) => {
                proof {
                    let rest = init@;
                    assert(arr@ =~= rest.push(heap[0]) + s.subrange(pos(end), pos(len)));
                    assert(s =~= heap + s.subrange(pos(end), pos(len)));
                    lemma_multiset_commutative(heap, s.subrange(pos(end), pos(len)));
                    lemma_multiset_commutative(
                        rest.push(heap[0]),
                        s.subrange(pos(end), pos(len)),
                    );
                    to_multiset_build(rest, heap[0]);
                    assert(arr@.subrange(0, end - 1) =~= rest);
                    assert forall|i: int, j: int| 0 <= i < end - 1 <= j < len implies (r.le)(
                        #[trigger] arr@[j],
                        #[trigger] arr@[i],
                    ) by {
                        assert(arr@[i] == rest[i]);
                        to_multiset_build(rest, heap[0]);
                        lemma_same_elements(rest.push(heap[0]), heap, i);
                        let k = choose|k: int| 0 <= k < heap.len() && #[trigger] heap[k] == rest[i];
                        assert(heap[k] == s[k]);
                        if j == end - 1 {
                            lemma_root_first(r, heap, k);
                        } else {
                            assert(arr@[j] == s[j]);
                            assert((r.le)(s[j], s[k]));
                        }
                    }
                    assert forall|i: int, j: int| end - 1 <= i < j < len implies (r.le)(
                        #[trigger] arr@[j],
                        #[trigger] arr@[i],
                    ) by {
                        assert(arr@[j] == s[j]);
                        if i == end - 1 {
                            assert(arr@[i] == s[0]);
                            assert((r.le)(s[j], s[0]));
                        } else {
                            assert(arr@[i] == s[i]);
                        }
                    }
                }
                end -= 1;
            },
            None => {
                assert(arr@ =~= s);
                break ;
            },
        }
    }
}

/// Puts the heap in order again after the element at `idx` was changed: the
/// node rises where it is strictly before its parent, else it sinks.
pub(crate) fn adjust<T, C>(
    arr: &mut [T],
    idx: usize,
    compare: &C,
    Ghost(r): Ghost<Relations<T>>,
) -> (moved: bool)
    where C: Fn(&T, &T) -> Ordering
    requires
        tells(*compare, r),
        idx == 0 || idx < old(arr).len(),
        2 * old(arr).len() <= usize::MAX,
    ensures
        final(arr)@.len() == old(arr)@.len(),
        final(arr)@.to_multiset() == old(arr)@.to_multiset(),
        !moved ==> final(arr)@ == old(arr)@,
        moved ==> idx < old(arr).len() && ((0 < idx && (r.lt)(
            old(arr)@[pos(idx)],
            old(arr)@[parent(pos(idx))],
        )) || (r.lt)(final(arr)@[pos(idx)], old(arr)@[pos(idx)])),
        moved ==> final(arr)@ != old(arr)@,
        heap_ordered(r, old(arr)@) ==> !moved,
        can_rise(r, old(arr)@, pos(idx)) ==> moved && rises(r, old(arr)@, final(arr)@, pos(idx)),
        !can_rise(r, old(arr)@, pos(idx)) ==> sinks(r, old(arr)@, final(arr)@, pos(idx)),
        heap_but_at(r, old(arr)@, pos(idx)) ==> heap_ordered(r, final(arr)@),
{
    let ghost s = arr@;
    proof {
        if heap_but_at(r, s, pos(idx)) && 0 < idx < s.len() {
            if (r.lt)(s[pos(idx)], s[parent(pos(idx))]) {
                assert forall|i: int| 0 < i < s.len() && i != idx implies (r.le)(
                    s[parent(i)],
                    #[trigger] s[i],
                ) by {
                    if parent(i) == idx {
                        assert((r.le)(s[parent(pos(idx))], s[i]));
                        lemma_order(r, s[pos(idx)], s[parent(pos(idx))], s[i]);
                        lemma_order(r, s[pos(idx)], s[i], s[i]);
                    }
                }
            }
        }
    }
    proof {
        if 0 < idx < s.len() {
            lemma_order(r, s[parent(pos(idx))], s[pos(idx)], s[pos(idx)]);
        }
    }
    sift_up(arr, idx, compare, Ghost(r)) || sift_down(arr, idx, compare, Ghost(r), Ghost(0))
}

/// Tells whether the slice is in heap order by `compare`: whether no node is
/// after one of its children.
pub fn is_heap<T, F>(arr: &[T], compare: F) -> (ok: bool)
    where F: Fn(&T, &T) -> Ordering
    requires
        is_comparator(compare),
    ensures
        ok ==> heap_ordered(direct(compare), arr@),
        !ok ==> exists|i: int|
            0 < i < arr@.len() && (direct(compare).lt)(#[trigger] arr@[i], arr@[parent(i)]),
{
    proof {
        lemma_tells_own(&compare);
    }
    check_heap(arr, &compare, Ghost(direct(compare)))
}

/// Lets the node at `idx` change places with its parent where it is strictly
/// before it, and tells whether it did; `idx` follows the node.
pub fn single_upward<T, F>(arr: &mut [T], idx: &mut usize, compare: F) -> (moved: bool)
    where F: Fn(&T, &T) -> Ordering
    requires
        is_comparator(compare),
        *old(idx) == 0 || *old(idx) < old(arr).len(),
    ensures
        final(arr)@.len() == old(arr)@.len(),
        !moved ==> final(arr)@ == old(arr)@ && *final(idx) == *old(idx) && (*old(idx) == 0 || (
        direct(compare).le)(old(arr)@[parent(pos(*old(idx)))], old(arr)@[pos(*old(idx))])),
        moved ==> went_up(
            direct(compare),
            old(arr)@,
            final(arr)@,
            pos(*old(idx)),
            pos(*final(idx)),
        ),
{
    proof {
        lemma_tells_own(&compare);
    }
    step_up(arr, idx, &compare, Ghost(direct(compare)))
}

/// Lets the node at `idx` change places with the least of its children where
/// that one is strictly before it, and tells whether it did; `idx` follows the node.
pub fn single_downward<T, F>(arr: &mut [T], idx: &mut usize, compare: F) -> (moved: bool)
    where F: Fn(&T, &T) -> Ordering
    requires
        is_comparator(compare),
        2 * *old(idx) + 2 <= usize::MAX,
    ensures
        final(arr)@.len() == old(arr)@.len(),
        !moved ==> final(arr)@ == old(arr)@ && *final(idx) == *old(idx) && settled(
            direct(compare),
            old(arr)@,
            pos(*old(idx)),
        ),
        moved ==> went_down(
            direct(compare),
            old(arr)@,
            final(arr)@,
            pos(*old(idx)),
            pos(*final(idx)),
        ),
{
    proof {
        lemma_tells_own(&compare);
    }
    step_down(arr, idx, &compare, Ghost(direct(compare)))
}

/// Lets the node at `idx` rise while it is strictly before its parent, and
/// tells whether it rose. A heap in which only that node may be before its
/// parent is in order afterwards.
pub fn move_upward<T, F>(arr: &mut [T], idx: usize, compare: F) -> (moved: bool)
    where F: Fn(&T, &T) -> Ordering
    requires
        is_comparator(compare),
        idx == 0 || idx < old(arr).len(),
    ensures
        final(arr)@.len() == old(arr)@.len(),
        final(arr)@.to_multiset() == old(arr)@.to_multiset(),
        !moved ==> final(arr)@ == old(arr)@ && (idx == 0 || (direct(compare).le)(
            old(arr)@[parent(pos(idx))],
            old(arr)@[pos(idx)],
        )),
        moved ==> 0 < idx < old(arr).len() && (direct(compare).lt)(
            old(arr)@[pos(idx)],
            old(arr)@[parent(pos(idx))],
        ) && final(arr)@[pos(idx)] == old(arr)@[parent(pos(idx))] && final(arr)@ != old(arr)@,
        rises(direct(compare), old(arr)@, final(arr)@, pos(idx)),
        forall|k: int|
            0 <= k < old(arr)@.len() && !on_path(k, pos(idx)) ==> #[trigger] final(arr)@[k] == old(arr)@[k],
        heap_ordered(direct(compare), old(arr)@) ==> !moved,
        heap_but_above(direct(compare), old(arr)@, pos(idx)) ==> heap_ordered(
            direct(compare),
            final(arr)@,
        ),
{
    proof {
        lemma_tells_own(&compare);
    }
    sift_up(arr, idx, &compare, Ghost(direct(compare)))
}

/// Lets the node at `idx` sink while one of its children is strictly before
/// it, and tells whether it sank. A heap in which only that node may be after
/// its children is in order afterwards.
pub fn move_downward<T, F>(arr: &mut [T], idx: usize, compare: F) -> (moved: bool)
    where F: Fn(&T, &T) -> Ordering
    requires
        is_comparator(compare),
        2 * idx + 2 <= usize::MAX,
        2 * old(arr).len() <= usize::MAX,
    ensures
        final(arr)@.len() == old(arr)@.len(),
        final(arr)@.to_multiset() == old(arr)@.to_multiset(),
        !moved ==> final(arr)@ == old(arr)@ && settled(direct(compare), old(arr)@, pos(idx)),
        moved ==> idx < old(arr).len() && (direct(compare).lt)(
            final(arr)@[pos(idx)],
            old(arr)@[pos(idx)],
        ) && final(arr)@ != old(arr)@,
        sinks(direct(compare), old(arr)@, final(arr)@, pos(idx)),
        heap_ordered(direct(compare), old(arr)@) ==> !moved,
        heap_but_below(direct(compare), old(arr)@, pos(idx), 0) ==> heap_ordered(
            direct(compare),
            final(arr)@,
        ),
{
    proof {
        lemma_tells_own(&compare);
    }
    sift_down(arr, idx, &compare, Ghost(direct(compare)), Ghost(0))
}

/// Puts the slice in heap order by `compare`.
pub fn heapify<T, F>(arr: &mut [T], compare: F)
    where F: Fn(&T, &T) -> Ordering
    requires
        is_comparator(compare),
        2 * old(arr).len() <= usize::MAX,
    ensures
        final(arr)@.len() == old(arr)@.len(),
        final(arr)@.to_multiset() == old(arr)@.to_multiset(),
        heap_ordered(direct(compare), final(arr)@),
{
    proof {
        lemma_tells_own(&compare);
    }
    build_heap(arr, &compare, Ghost(direct(compare)))
}

/// Takes `x` into the heap and the least element out of it, in one step.
///
/// This is a push followed by a pop, not the other way round: where the heap
/// is empty or `x` is not after the root, `x` itself comes back and the heap
/// stays as it is.
pub fn heap_pushpop<T, F>(arr: &mut [T], x: T, compare: F) -> (out: T)
    where F: Fn(&T, &T) -> Ordering
    requires
        is_comparator(compare),
        2 * old(arr).len() <= usize::MAX,
    ensures
        final(arr)@.len() == old(arr)@.len(),
        final(arr)@.to_multiset().insert(out) == old(arr)@.to_multiset().insert(x),
        (out == x && final(arr)@ == old(arr)@ && (old(arr)@.len() > 0 ==> (direct(compare).le)(
            x,
            old(arr)@[0],
        ))) || (old(arr)@.len() > 0 && out == old(arr)@[0] && (direct(compare).lt)(
            old(arr)@[0],
            x,
        )),
        heap_ordered(direct(compare), old(arr)@) ==> heap_ordered(direct(compare), final(arr)@)
            && forall|i: int|
            0 <= i < final(arr)@.len() ==> (direct(compare).le)(out, #[trigger] final(arr)@[i]),
{
    proof {
        lemma_tells_own(&compare);
    }
    push_pop(arr, x, &compare, Ghost(direct(compare)))
}

/// Takes the root out of the heap: it comes to stand at the end of the slice,
/// and the part before it is put in heap order again and handed back. An
/// empty slice gives `None`.
pub fn heap_pop<'a, T, F>(arr: &'a mut [T], compare: F) -> (init: Option<&'a mut [T]>)
    where F: Fn(&T, &T) -> Ordering
    requires
        is_comparator(compare),
        2 * old(arr).len() <= usize::MAX,
    ensures
        old(arr)@.len() == 0 ==> init is None && final(arr)@ == old(arr)@,
        old(arr)@.len() > 0 ==> init is Some && init.unwrap()@.len() == old(arr)@.len() - 1
            && final(arr)@ == final(init.unwrap())@.push(old(arr)@[0])
            && init.unwrap()@.to_multiset().insert(old(arr)@[0]) == old(arr)@.to_multiset() && (
        heap_ordered(direct(compare), old(arr)@) ==> heap_ordered(
            direct(compare),
            init.unwrap()@,
        )),
{
    proof {
        lemma_tells_own(&compare);
    }
    pop_root(arr, &compare, Ghost(direct(compare)))
}

/// Sorts the slice downwards by `compare`: it is put in heap order, and the
/// root is taken out until nothing is left.
pub fn heap_reverse_sort<T, F>(arr: &mut [T], compare: F)
    where F: Fn(&T, &T) -> Ordering
    requires
        is_comparator(compare),
        2 * old(arr).len() <= usize::MAX,
    ensures
        final(arr)@.len() == old(arr)@.len(),
        final(arr)@.to_multiset() == old(arr)@.to_multiset(),
        sorted_down(direct(compare), final(arr)@),
{
    proof {
        lemma_tells_own(&compare);
    }
    sort_down(arr, &compare, Ghost(direct(compare)))
}

/// Puts the heap in order again after the element at `idx` was changed, and
/// tells whether anything moved: the node rises where it is strictly before
/// its parent, else it sinks.
pub fn adjust_heap<T, F>(arr: &mut [T], idx: usize, compare: F) -> (moved: bool)
    where F: Fn(&T, &T) -> Ordering
    requires
        is_comparator(compare),
        idx == 0 || idx < old(arr).len(),
        2 * old(arr).len() <= usize::MAX,
    ensures
        final(arr)@.len() == old(arr)@.len(),
        final(arr)@.to_multiset() == old(arr)@.to_multiset(),
        !moved ==> final(arr)@ == old(arr)@,
        moved ==> idx < old(arr).len() && ((0 < idx && (direct(compare).lt)(
            old(arr)@[pos(idx)],
            old(arr)@[parent(pos(idx))],
        )) || (direct(compare).lt)(final(arr)@[pos(idx)], old(arr)@[pos(idx)])),
        moved ==> final(arr)@ != old(arr)@,
        heap_ordered(direct(compare), old(arr)@) ==> !moved,
        can_rise(direct(compare), old(arr)@, pos(idx)) ==> moved && rises(direct(compare), old(arr)@, final(arr)@, pos(idx)),
        !can_rise(direct(compare), old(arr)@, pos(idx)) ==> sinks(direct(compare), old(arr)@, final(arr)@, pos(idx)),
        heap_but_at(direct(compare), old(arr)@, pos(idx)) ==> heap_ordered(
            direct(compare),
            final(arr)@,
        ),
{
    proof {
        lemma_tells_own(&compare);
    }
    adjust(arr, idx, &compare, Ghost(direct(compare)))
}

} // verus!
