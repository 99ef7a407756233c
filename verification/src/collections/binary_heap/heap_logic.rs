//! The logic of the heap: where the relatives of a node stand, and how a
//! vector is put and kept in heap order.

use vstd::prelude::*;
use core::cmp::Ordering;
use crate::algorithms::adapter::heap_on_slice::heap_order::{sinks, is_order, lemma_order, parent, heap_from, heap_ordered, settled, heap_but_below, went_down, lemma_step_down, lemma_settled_down};
use crate::permutation::{swapped, lemma_swapped_multiset};
use crate::slices::pos;
use super::comparator::Comparator;

verus! {

/// The index of the parent of the node at `i`. The root has no parent: for
/// it the result wraps round to the greatest index there is.
#[inline]
pub fn get_parent(i: usize) -> (p: usize)
    requires
        i < usize::MAX,
    ensures
        i > 0 ==> p == parent(pos(i)),
        i == 0 ==> p == usize::MAX,
{
    let next = i + 1;
    assert(next >> 1 == next / 2) by (bit_vector);
    (next >> 1).wrapping_sub(1)
}

/// The index of the left child of the node at `i`.
#[inline]
pub fn get_left(i: usize) -> (l: usize)
    requires
        2 * i + 2 <= usize::MAX,
    ensures
        l == 2 * i + 1,
{
    let next = i + 1;
    assert(next << 1 == (2 * next) as usize) by (bit_vector);
    (next << 1) - 1
}

/// The index of the right child of the node at `i`.
#[inline]
pub fn get_right(i: usize) -> (r: usize)
    requires
        2 * i + 2 <= usize::MAX,
    ensures
        r == 2 * i + 2,
{
    let next = i + 1;
    assert(next << 1 == (2 * next) as usize) by (bit_vector);
    (next << 1) + 1 - 1
}

/// Lets the node at `i` sink until none of its children is strictly before it.
///
/// A heap in which only that node may be after its children is in order afterwards.
pub fn min_heapify<T, C: Comparator<T>>(data: &mut [T], comp: &C, i: usize)
    requires
        is_order(comp.relations()),
        2 * i + 2 <= usize::MAX,
        2 * old(data).len() <= usize::MAX,
    ensures
        final(data)@.len() == old(data)@.len(),
        final(data)@.to_multiset() == old(data)@.to_multiset(),
        sinks(comp.relations(), old(data)@, final(data)@, pos(i)),
        forall|from: int| #[trigger]
            heap_but_below(comp.relations(), old(data)@, pos(i), from) ==> heap_from(
                comp.relations(),
                final(data)@,
                from,
            ),
    decreases old(data)@.len() - i,
{
    let ghost rel = comp.relations();
    let ghost before = data@;
    let l = get_left(i);
    let r = get_right(i);
    let mut s = i;
    if l < data.len() && matches!(comp.compare(&data[l], &data[s]), Ordering::Less) {
        s = l;
    }
    if r < data.len() && matches!(comp.compare(&data[r], &data[s]), Ordering::Less) {
        s = r;
    }
    proof {
        if r < before.len() {
            lemma_order(rel, before[pos(r)], before[pos(l)], before[pos(i)]);
            lemma_order(rel, before[pos(r)], before[pos(i)], before[pos(l)]);
            lemma_order(rel, before[pos(l)], before[pos(i)], before[pos(r)]);
        }
        if l < before.len() {
            lemma_order(rel, before[pos(l)], before[pos(l)], before[pos(i)]);
        }
        assert forall|k: int| 0 < k < before.len() && parent(k) == i implies k == l || k == r by {}
    }
    if s != i {
        data.swap(i, s);
        let ghost put = data@;
        min_heapify(data, comp, s);  // push down
        proof {
            lemma_swapped_multiset(before, pos(i), pos(s));
            assert(went_down(rel, before, put, pos(i), pos(s)));
            assert(put == swapped(before, pos(i), pos(s)));
            assert(sinks(rel, before, data@, pos(i)));
            assert forall|from: int| #[trigger]
                heap_but_below(rel, before, pos(i), from) implies heap_from(rel, data@, from) by {
                lemma_step_down(rel, before, put, pos(i), pos(s), from);
            }
        }
    } else {
        proof {
            assert(settled(rel, before, pos(i)));
            assert(sinks(rel, before, before, pos(i)));
            assert forall|from: int| #[trigger]
                heap_but_below(rel, before, pos(i), from) implies heap_from(rel, data@, from) by {
                lemma_settled_down(rel, before, pos(i), from);
            }
        }
    }
}

/// Puts the slice in heap order: each node that has children is let sink, the last one first.
pub fn build_heap<T, C: Comparator<T>>(data: &mut [T], comp: &C)
    requires
        is_order(comp.relations()),
        2 * old(data).len() <= usize::MAX,
    ensures
        final(data)@.len() == old(data)@.len(),
        final(data)@.to_multiset() == old(data)@.to_multiset(),
        heap_ordered(comp.relations(), final(data)@),
{
    let offset = data.len() / 2;
    let mut i: usize = offset;
    while i > 0
        invariant
            is_order(comp.relations()),
            data@.len() == old(data)@.len(),
            2 * data@.len() <= usize::MAX,
            i <= data@.len() / 2,
            data@.to_multiset() == old(data)@.to_multiset(),
            heap_from(comp.relations(), data@, pos(i)),
        decreases i,
    {
        i -= 1;
        assert(heap_but_below(comp.relations(), data@, pos(i), pos(i)));
        min_heapify(data, comp, i);
    }
}

} // verus!
