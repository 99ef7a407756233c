//! The heap itself: a vector in heap order together with its comparator.

use vstd::prelude::*;
use vstd::seq_lib::*;
use core::cmp::Ordering;
use crate::algorithms::adapter::heap_on_slice::heap_order::{Relations, is_order, parent, heap_from, heap_ordered, heap_but_below, heap_but_above, lemma_step_up, lemma_settled_up, lemma_root_first, lemma_same_elements};
use crate::permutation::{swapped, lemma_swapped_multiset};
use crate::slices::pos;
use super::comparator::Comparator;
use super::heap_logic::{build_heap, get_parent, min_heapify};

verus! {

/// A heap with the least element at the root.
pub struct MinHeap<T, C: Comparator<T>> {
    data: Vec<T>,
    comparator: C,
}

impl<T, C> MinHeap<T, C> where C: Comparator<T> {
    /// The elements of the heap, in the order in which the vector holds them.
    pub closed spec fn view(&self) -> Seq<T> {
        self.data@
    }

    /// The relations that the comparator of the heap stands for.
    pub closed spec fn relations(&self) -> Relations<T> {
        self.comparator.relations()
    }

    /// The comparator stands for an order, the elements are in heap order by
    /// it, and they are few enough for the index of a child to be computed.
    pub closed spec fn well_formed(&self) -> bool {
        &&& is_order(self.comparator.relations())
        &&& heap_ordered(self.comparator.relations(), self.data@)
        &&& 2 * self.data@.len() <= usize::MAX
    }

    /// create empty min heap
    pub fn new(comp: C) -> (heap: MinHeap<T, C>)
        requires
            is_order(comp.relations()),
        ensures
            heap.well_formed(),
            heap@ == Seq::<T>::empty(),
            heap.relations() == comp.relations(),
    {
        MinHeap { data: Vec::new(), comparator: comp }
    }

    /// create min heap with vector
    pub fn from_vec(source: Vec<T>, comp: C) -> (heap: MinHeap<T, C>)
        requires
            is_order(comp.relations()),
            2 * source@.len() <= usize::MAX,
        ensures
            heap.well_formed(),
            heap@.to_multiset() == source@.to_multiset(),
            heap@.len() == source@.len(),
            heap.relations() == comp.relations(),
    {
        let mut source = source;
        let comparator = comp;
        build_heap(source.as_mut_slice(), &comparator);
        MinHeap { data: source, comparator }
    }

    /// push new element to the heap
    pub fn push(&mut self, elem: T)
        requires
            old(self).well_formed(),
            2 * (old(self)@.len() + 1) <= usize::MAX,
        ensures
            final(self).well_formed(),
            final(self)@.to_multiset() == old(self)@.to_multiset().insert(elem),
            final(self)@.len() == old(self)@.len() + 1,
            final(self).relations() == old(self).relations(),
    {
        broadcast use to_multiset_build;

        let ghost rel = self.comparator.relations();
        self.data.push(elem);
        let ghost pushed = self.data@;
        let mut cur_idx = self.data.len() - 1;
        let mut parent_idx = get_parent(cur_idx);
        assert(heap_but_above(rel, pushed, pos(cur_idx))) by {
            assert forall|i: int| 0 < i < pushed.len() && i != cur_idx implies (rel.le)(
                pushed[parent(i)],
                #[trigger] pushed[i],
            ) by {
                assert(pushed[i] == old(self).data@[i]);
                assert(pushed[parent(i)] == old(self).data@[parent(i)]);
            }
        }
        loop
            invariant
                self.comparator == old(self).comparator,
                rel == self.comparator.relations(),
                is_order(rel),
                self.data@.len() == pushed.len(),
                self.data@.to_multiset() == pushed.to_multiset(),
                cur_idx < self.data@.len(),
                cur_idx > 0 ==> parent_idx == parent(pos(cur_idx)),
                cur_idx == 0 ==> parent_idx == usize::MAX,
                heap_but_above(rel, self.data@, pos(cur_idx)),
            ensures
                heap_ordered(rel, self.data@),
                self.comparator == old(self).comparator,
                self.data@.len() == pushed.len(),
                self.data@.to_multiset() == pushed.to_multiset(),
            decreases cur_idx,
        {
            let ghost s = self.data@;
            if !(parent_idx < self.data.len() && cur_idx < self.data.len() && matches!(
                self.comparator.compare(&self.data[parent_idx], &self.data[cur_idx]),
                Ordering::Greater
            )) {
                proof {
                    lemma_settled_up(rel, s, pos(cur_idx));
                }
                break ;
            }
            self.data.as_mut_slice().swap(parent_idx, cur_idx);  // pull up
            proof {
                lemma_swapped_multiset(s, pos(parent_idx), pos(cur_idx));
                assert(self.data@ =~= swapped(s, pos(cur_idx), pos(parent_idx)));
                lemma_step_up(rel, s, self.data@, pos(cur_idx), pos(parent_idx));
            }
            cur_idx = parent_idx;
            parent_idx = get_parent(parent_idx);
        }
    }

    /// add multiple element to the heap
    pub fn extend(&mut self, elems: &mut Vec<T>)
        requires
            old(self).well_formed(),
            2 * (old(self)@.len() + old(elems)@.len()) <= usize::MAX,
        ensures
            final(self).well_formed(),
            final(self)@.to_multiset() == old(self)@.to_multiset().add(old(elems)@.to_multiset()),
            final(self)@.len() == old(self)@.len() + old(elems)@.len(),
            final(elems)@.len() == 0,
            final(self).relations() == old(self).relations(),
    {
        proof {
            lemma_multiset_commutative(self.data@, elems@);
        }
        self.data.append(elems);
        build_heap(self.data.as_mut_slice(), &self.comparator);  // O(n)
    }

    /// extract ownership of the element at root
    /// O(log n)
    pub fn pop(&mut self) -> (root: Option<T>)
        requires
            old(self).well_formed(),
        ensures
            final(self).well_formed(),
            final(self).relations() == old(self).relations(),
            old(self)@.len() == 0 ==> root is None && final(self)@ == old(self)@,
            old(self)@.len() > 0 ==> root == Some(old(self)@[0]) && final(self)@.len() == old(self)@.len() - 1 && final(self)@.to_multiset().insert(old(self)@[0]) == old(self)@.to_multiset() && forall|i: int|
                0 <= i < final(self)@.len() ==> (final(self).relations().le)(
                    old(self)@[0],
                    #[trigger] final(self)@[i],
                ),
    {
        broadcast use {to_multiset_build, to_multiset_update};

        if self.is_empty() {
            return None;
        }
        let ghost rel = self.comparator.relations();
        let ghost s = self.data@;
        let end_idx = self.data.len() - 1;  // already checked the emptiness, no overflow
        self.data.as_mut_slice().swap(0, end_idx);
        let result = self.data.pop();
        let ghost put = self.data@;
        proof {
            lemma_swapped_multiset(s, 0, pos(end_idx));
            assert(swapped(s, 0, pos(end_idx)) =~= put.push(s[0]));
            assert(heap_but_below(rel, put, 0, 0)) by {
                assert forall|i: int|
                    0 < i < put.len() && parent(i) >= 0 && parent(i) != 0 implies (rel.le)(
                    put[parent(i)],
                    #[trigger] put[i],
                ) by {
                    assert((rel.le)(s[parent(i)], s[i]));
                }
            }
        }
        min_heapify(self.data.as_mut_slice(), &self.comparator, 0);  // O(log n)
        proof {
            assert(heap_but_below(self.comparator.relations(), put, pos(0), 0));
            assert(heap_from(rel, self.data@, 0));
            assert forall|i: int| 0 <= i < self.data@.len() implies (rel.le)(
                s[0],
                #[trigger] self.data@[i],
            ) by {
                lemma_same_elements(self.data@, put, i);
                let k = choose|k: int| 0 <= k < put.len() && #[trigger] put[k] == self.data@[i];
                if k == 0 {
                    lemma_root_first(rel, s, pos(end_idx));
                } else {
                    lemma_root_first(rel, s, k);
                }
            }
        }
        result
    }

    /// The comparator stands for an order and the elements are in heap order
    /// by it but for the root, which may be after its children.
    pub closed spec fn well_formed_but_root(&self) -> bool {
        &&& is_order(self.comparator.relations())
        &&& heap_but_below(self.comparator.relations(), self.data@, 0, 0)
        &&& 2 * self.data@.len() <= usize::MAX
    }

    /// A heap that is well formed is well formed but for the root, and with
    /// one element or none the two are the same.
    pub proof fn lemma_well_formed_but_root(&self)
        ensures
            self.well_formed() ==> self.well_formed_but_root(),
            self.well_formed_but_root() && self@.len() <= 1 ==> self.well_formed(),
    {
    }

    /// Lends out the root to be changed, where there is one. Whatever it is
    /// changed to, the heap stays in order but for the root, and `restore`
    /// puts it in order again.
    pub fn peek_mut(&mut self) -> (root: Option<&mut T>)
        requires
            old(self).well_formed_but_root(),
        ensures
            old(self)@.len() == 0 ==> root is None && final(self)@ == old(self)@,
            old(self)@.len() > 0 ==> root is Some && *root.unwrap() == old(self)@[0]
                && final(self)@ == old(self)@.update(0, *final(root.unwrap())),
            final(self).well_formed_but_root(),
            final(self).relations() == old(self).relations(),
    {
        proof {
            assert forall|i: int|
                0 < i < self.data@.len() && parent(i) >= 0 && parent(i) != 0 implies parent(i) > 0
                && parent(parent(i)) < i by {}
        }
        self.data.as_mut_slice().first_mut()
    }

    /// Puts the heap in order again after its root was changed.
    pub fn restore(&mut self)
        requires
            old(self).well_formed_but_root(),
        ensures
            final(self).well_formed(),
            final(self)@.to_multiset() == old(self)@.to_multiset(),
            final(self)@.len() == old(self)@.len(),
            final(self).relations() == old(self).relations(),
    {
        assert(heap_but_below(self.comparator.relations(), self.data@, pos(0), 0));
        min_heapify(self.data.as_mut_slice(), &self.comparator, 0);
        assert(heap_from(self.comparator.relations(), self.data@, 0));
    }

    /// The number of elements in the heap.
    pub fn len(&self) -> (n: usize)
        ensures
            n == self@.len(),
    {
        self.data.len()
    }

    /// Tells whether the heap holds no element.
    pub fn is_empty(&self) -> (empty: bool)
        ensures
            empty == (self@.len() == 0),
    {
        self.data.is_empty()
    }

    /// The root of the heap: an element that no other is before.
    pub fn top(&self) -> (root: Option<&T>)
        ensures
            self@.len() == 0 ==> root is None,
            self@.len() > 0 ==> root == Some(&self@[0]),
            self.well_formed() ==> forall|i: int|
                0 <= i < self@.len() ==> (self.relations().le)(self@[0], #[trigger] self@[i]),
    {
        proof {
            if self.well_formed() {
                assert forall|i: int| 0 <= i < self@.len() implies (self.relations().le)(
                    self@[0],
                    #[trigger] self@[i],
                ) by {
                    lemma_root_first(self.comparator.relations(), self.data@, i);
                }
            }
        }
        self.data.as_slice().first()
    }
}

} // verus!
