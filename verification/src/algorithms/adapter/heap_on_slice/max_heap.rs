//! Heap operations on a slice, the greatest element at the root.
//!
//! Each operation comes in three forms: by the order of the elements, by a
//! comparator, and by a key taken from each element.

use vstd::prelude::*;
use core::cmp::Ordering;
use vstd::std_specs::cmp::OrdSpec;
use crate::order::{is_comparator, is_ordered, flipped, turned_round, lemma_ordered};
use crate::slices::pos;
use super::heap_order::{reversed, reverses, by_key_reversed, is_key, compares_keys, lemma_reversing, lemma_keyed, lemma_tells_reversed, lemma_tells_by_key, parent, heap_ordered, heap_but_at, rises, sinks, can_rise};
use super::heap_implementation::{check_heap, build_heap, push_pop, pop_root, sort_down, adjust, sorted_down};

verus! {

/// Compares by the order of the elements, turned round.
fn reversed_cmp<T: Ord>(a: &T, b: &T) -> (o: Ordering)
    ensures
        call_ensures(T::cmp, (a, b), flipped(o)),
{
    turned_round(Ord::cmp(a, b))
}

/// The comparator that returns what `compare` returns, turned round.
fn reverse_compare<T, F>(compare: F) -> (rev: impl Fn(&T, &T) -> Ordering)
    where F: Fn(&T, &T) -> Ordering
    requires
        is_comparator(compare),
    ensures
        reverses(rev, compare),
{
    proof {
        lemma_reversing(compare);
    }
    move |a: &T, b: &T| -> (o: Ordering)
        ensures
            call_ensures(compare, (a, b), flipped(o)),
    {
        turned_round(compare(a, b))
    }
}

/// The comparator that compares the keys of two elements, turned round.
fn key2reversed_compare<T, K, F>(key: F) -> (by: impl Fn(&T, &T) -> Ordering)
    where K: Ord, F: Fn(&T) -> K
    requires
        is_key(key),
        is_ordered::<K>(),
    ensures
        compares_keys(by, key, true),
{
    proof {
        lemma_keyed(key);
    }
    move |a: &T, b: &T| -> (o: Ordering)
        ensures
            exists|ka: K, kb: K|
                #![trigger call_ensures(key, (a,), ka), call_ensures(key, (b,), kb)]
                call_ensures(key, (a,), ka) && call_ensures(key, (b,), kb) && ka.cmp_spec(&kb)
                    == flipped(o),
    {
        let ka = key(a);
        let kb = key(b);
        turned_round(Ord::cmp(&ka, &kb))
    }
}

/// Tells whether the slice is a heap with the greatest element at the root, by
/// the order of the elements: whether no node is before its parent.
pub fn is_heap<T: Ord>(arr: &[T]) -> (ok: bool)
    requires
        is_ordered::<T>(),
    ensures
        ok ==> heap_ordered(reversed(T::cmp), arr@),
        !ok ==> exists|i: int| 0 < i < arr@.len()
            && (reversed(T::cmp).lt)(#[trigger] arr@[i], arr@[parent(i)]),
{
    proof {
        lemma_ordered::<T>();
        lemma_tells_reversed(reversed_cmp::<T>, T::cmp);
    }
    check_heap(arr, &reversed_cmp::<T>, Ghost(reversed(T::cmp)))
}

/// Tells whether the slice is a heap with the greatest element at the root, by
/// `compare`: whether no node is before its parent.
pub fn is_heap_by<T, F>(arr: &[T], compare: F) -> (ok: bool)
    where F: Fn(&T, &T) -> Ordering
    requires
        is_comparator(compare),
    ensures
        ok ==> heap_ordered(reversed(compare), arr@),
        !ok ==> exists|i: int| 0 < i < arr@.len()
            && (reversed(compare).lt)(#[trigger] arr@[i], arr@[parent(i)]),
{
    let r = Ghost(reversed(compare));
    let ghost given = compare;
    let rev = reverse_compare(compare);
    proof {
        lemma_tells_reversed(rev, given);
    }
    check_heap(arr, &rev, r)
}

/// Tells whether the slice is a heap with the greatest element at the root, by
/// the keys that `key` takes from the elements: whether no node is before its
/// parent.
pub fn is_heap_by_key<T, K, F>(arr: &[T], key: F) -> (ok: bool)
    where K: Ord, F: Fn(&T) -> K
    requires
        is_key(key),
        is_ordered::<K>(),
    ensures
        ok ==> heap_ordered(by_key_reversed(key), arr@),
        !ok ==> exists|i: int| 0 < i < arr@.len()
            && (by_key_reversed(key).lt)(#[trigger] arr@[i], arr@[parent(i)]),
{
    let r = Ghost(by_key_reversed(key));
    let ghost given = key;
    let by = key2reversed_compare(key);
    proof {
        lemma_tells_by_key(by, given, true);
    }
    check_heap(arr, &by, r)
}

/// Makes the slice a heap with the greatest element at the root, by the order
/// of the elements.
pub fn heapify<T: Ord>(arr: &mut [T])
    requires
        is_ordered::<T>(),
        2 * old(arr).len() <= usize::MAX,
    ensures
        final(arr)@.len() == old(arr)@.len(),
        final(arr)@.to_multiset() == old(arr)@.to_multiset(),
        heap_ordered(reversed(T::cmp), final(arr)@),
{
    proof {
        lemma_ordered::<T>();
        lemma_tells_reversed(reversed_cmp::<T>, T::cmp);
    }
    build_heap(arr, &reversed_cmp::<T>, Ghost(reversed(T::cmp)))
}

/// Makes the slice a heap with the greatest element at the root, by `compare`.
pub fn heapify_by<T, F>(arr: &mut [T], compare: F)
    where F: Fn(&T, &T) -> Ordering
    requires
        is_comparator(compare),
        2 * old(arr).len() <= usize::MAX,
    ensures
        final(arr)@.len() == old(arr)@.len(),
        final(arr)@.to_multiset() == old(arr)@.to_multiset(),
        heap_ordered(reversed(compare), final(arr)@),
{
    let r = Ghost(reversed(compare));
    let ghost given = compare;
    let rev = reverse_compare(compare);
    proof {
        lemma_tells_reversed(rev, given);
    }
    build_heap(arr, &rev, r)
}

/// Makes the slice a heap with the greatest element at the root, by the keys
/// that `key` takes from the elements.
pub fn heapify_by_key<T, K, F>(arr: &mut [T], key: F)
    where K: Ord, F: Fn(&T) -> K
    requires
        is_key(key),
        is_ordered::<K>(),
        2 * old(arr).len() <= usize::MAX,
    ensures
        final(arr)@.len() == old(arr)@.len(),
        final(arr)@.to_multiset() == old(arr)@.to_multiset(),
        heap_ordered(by_key_reversed(key), final(arr)@),
{
    let r = Ghost(by_key_reversed(key));
    let ghost given = key;
    let by = key2reversed_compare(key);
    proof {
        lemma_tells_by_key(by, given, true);
    }
    build_heap(arr, &by, r)
}

/// Takes `x` into the heap and the greatest element out of it, in one step, by
/// the order of the elements: `x` itself comes back where the heap is empty or
/// `x` would be its root.
pub fn heap_pushpop<T: Ord>(arr: &mut [T], x: T) -> (out: T)
    requires
        is_ordered::<T>(),
        2 * old(arr).len() <= usize::MAX,
    ensures
        final(arr)@.len() == old(arr)@.len(),
        final(arr)@.to_multiset().insert(out) == old(arr)@.to_multiset().insert(x),
        (out == x && final(arr)@ == old(arr)@
            && (old(arr)@.len() > 0 ==> (reversed(T::cmp).le)(x, old(arr)@[0])))
            || (old(arr)@.len() > 0 && out == old(arr)@[0]
            && (reversed(T::cmp).lt)(old(arr)@[0], x)),
        heap_ordered(reversed(T::cmp), old(arr)@)
            ==> heap_ordered(reversed(T::cmp), final(arr)@)
            && forall|i: int| 0 <= i < final(arr)@.len()
            ==> (reversed(T::cmp).le)(out, #[trigger] final(arr)@[i]),
{
    proof {
        lemma_ordered::<T>();
        lemma_tells_reversed(reversed_cmp::<T>, T::cmp);
    }
    push_pop(arr, x, &reversed_cmp::<T>, Ghost(reversed(T::cmp)))
}

/// Takes `x` into the heap and the greatest element out of it, in one step, by
/// `compare`: `x` itself comes back where the heap is empty or `x` would be its
/// root.
pub fn heap_pushpop_by<T, F>(arr: &mut [T], x: T, compare: F) -> (out: T)
    where F: Fn(&T, &T) -> Ordering
    requires
        is_comparator(compare),
        2 * old(arr).len() <= usize::MAX,
    ensures
        final(arr)@.len() == old(arr)@.len(),
        final(arr)@.to_multiset().insert(out) == old(arr)@.to_multiset().insert(x),
        (out == x && final(arr)@ == old(arr)@
            && (old(arr)@.len() > 0 ==> (reversed(compare).le)(x, old(arr)@[0])))
            || (old(arr)@.len() > 0 && out == old(arr)@[0]
            && (reversed(compare).lt)(old(arr)@[0], x)),
        heap_ordered(reversed(compare), old(arr)@)
            ==> heap_ordered(reversed(compare), final(arr)@)
            && forall|i: int| 0 <= i < final(arr)@.len()
            ==> (reversed(compare).le)(out, #[trigger] final(arr)@[i]),
{
    let r = Ghost(reversed(compare));
    let ghost given = compare;
    let rev = reverse_compare(compare);
    proof {
        lemma_tells_reversed(rev, given);
    }
    push_pop(arr, x, &rev, r)
}

/// Takes `x` into the heap and the greatest element out of it, in one step, by
/// the keys that `key` takes from the elements: `x` itself comes back where the
/// heap is empty or `x` would be its root.
pub fn heap_pushpop_by_key<T, K, F>(arr: &mut [T], x: T, key: F) -> (out: T)
    where K: Ord, F: Fn(&T) -> K
    requires
        is_key(key),
        is_ordered::<K>(),
        2 * old(arr).len() <= usize::MAX,
    ensures
        final(arr)@.len() == old(arr)@.len(),
        final(arr)@.to_multiset().insert(out) == old(arr)@.to_multiset().insert(x),
        (out == x && final(arr)@ == old(arr)@
            && (old(arr)@.len() > 0 ==> (by_key_reversed(key).le)(x, old(arr)@[0])))
            || (old(arr)@.len() > 0 && out == old(arr)@[0]
            && (by_key_reversed(key).lt)(old(arr)@[0], x)),
        heap_ordered(by_key_reversed(key), old(arr)@)
            ==> heap_ordered(by_key_reversed(key), final(arr)@)
            && forall|i: int| 0 <= i < final(arr)@.len()
            ==> (by_key_reversed(key).le)(out, #[trigger] final(arr)@[i]),
{
    let r = Ghost(by_key_reversed(key));
    let ghost given = key;
    let by = key2reversed_compare(key);
    proof {
        lemma_tells_by_key(by, given, true);
    }
    push_pop(arr, x, &by, r)
}

/// Takes the root, the greatest element, out of the heap, by the order of the
/// elements: it comes to stand at the end of the slice, and the part before it
/// is made a heap again and handed back. An empty slice gives `None`.
pub fn heap_pop<'a, T: Ord>(arr: &'a mut [T]) -> (init: Option<&'a mut [T]>)
    requires
        is_ordered::<T>(),
        2 * old(arr).len() <= usize::MAX,
    ensures
        old(arr)@.len() == 0 ==> init is None && final(arr)@ == old(arr)@,
        old(arr)@.len() > 0 ==> init is Some
            && init.unwrap()@.len() == old(arr)@.len() - 1
            && final(arr)@ == final(init.unwrap())@.push(old(arr)@[0])
            && init.unwrap()@.to_multiset().insert(old(arr)@[0]) == old(arr)@.to_multiset()
            && (heap_ordered(reversed(T::cmp), old(arr)@)
            ==> heap_ordered(reversed(T::cmp), init.unwrap()@)),
{
    proof {
        lemma_ordered::<T>();
        lemma_tells_reversed(reversed_cmp::<T>, T::cmp);
    }
    pop_root(arr, &reversed_cmp::<T>, Ghost(reversed(T::cmp)))
}

/// Takes the root, the greatest element, out of the heap, by `compare`: it
/// comes to stand at the end of the slice, and the part before it is made a
/// heap again and handed back. An empty slice gives `None`.
pub fn heap_pop_by<'a, T, F>(arr: &'a mut [T], compare: F) -> (init: Option<&'a mut [T]>)
    where F: Fn(&T, &T) -> Ordering
    requires
        is_comparator(compare),
        2 * old(arr).len() <= usize::MAX,
    ensures
        old(arr)@.len() == 0 ==> init is None && final(arr)@ == old(arr)@,
        old(arr)@.len() > 0 ==> init is Some
            && init.unwrap()@.len() == old(arr)@.len() - 1
            && final(arr)@ == final(init.unwrap())@.push(old(arr)@[0])
            && init.unwrap()@.to_multiset().insert(old(arr)@[0]) == old(arr)@.to_multiset()
            && (heap_ordered(reversed(compare), old(arr)@)
            ==> heap_ordered(reversed(compare), init.unwrap()@)),
{
    let r = Ghost(reversed(compare));
    let ghost given = compare;
    let rev = reverse_compare(compare);
    proof {
        lemma_tells_reversed(rev, given);
    }
    pop_root(arr, &rev, r)
}

/// Takes the root, the greatest element, out of the heap, by the keys that
/// `key` takes from the elements: it comes to stand at the end of the slice,
/// and the part before it is made a heap again and handed back. An empty slice
/// gives `None`.
pub fn heap_pop_by_key<'a, T, K, F>(arr: &'a mut [T], key: F) -> (init: Option<&'a mut [T]>)
    where K: Ord, F: Fn(&T) -> K
    requires
        is_key(key),
        is_ordered::<K>(),
        2 * old(arr).len() <= usize::MAX,
    ensures
        old(arr)@.len() == 0 ==> init is None && final(arr)@ == old(arr)@,
        old(arr)@.len() > 0 ==> init is Some
            && init.unwrap()@.len() == old(arr)@.len() - 1
            && final(arr)@ == final(init.unwrap())@.push(old(arr)@[0])
            && init.unwrap()@.to_multiset().insert(old(arr)@[0]) == old(arr)@.to_multiset()
            && (heap_ordered(by_key_reversed(key), old(arr)@)
            ==> heap_ordered(by_key_reversed(key), init.unwrap()@)),
{
    let r = Ghost(by_key_reversed(key));
    let ghost given = key;
    let by = key2reversed_compare(key);
    proof {
        lemma_tells_by_key(by, given, true);
    }
    pop_root(arr, &by, r)
}

/// Sorts the slice upwards, by the order of the elements: it is made a heap
/// with the greatest element at the root, and the root is taken out until
/// nothing is left.
pub fn heapsort<T: Ord>(arr: &mut [T])
    requires
        is_ordered::<T>(),
        2 * old(arr).len() <= usize::MAX,
    ensures
        final(arr)@.len() == old(arr)@.len(),
        final(arr)@.to_multiset() == old(arr)@.to_multiset(),
        sorted_down(reversed(T::cmp), final(arr)@),
{
    proof {
        lemma_ordered::<T>();
        lemma_tells_reversed(reversed_cmp::<T>, T::cmp);
    }
    sort_down(arr, &reversed_cmp::<T>, Ghost(reversed(T::cmp)))
}

/// Sorts the slice upwards, by `compare`: it is made a heap with the greatest
/// element at the root, and the root is taken out until nothing is left.
pub fn heapsort_by<T, F>(arr: &mut [T], compare: F)
    where F: Fn(&T, &T) -> Ordering
    requires
        is_comparator(compare),
        2 * old(arr).len() <= usize::MAX,
    ensures
        final(arr)@.len() == old(arr)@.len(),
        final(arr)@.to_multiset() == old(arr)@.to_multiset(),
        sorted_down(reversed(compare), final(arr)@),
{
    let r = Ghost(reversed(compare));
    let ghost given = compare;
    let rev = reverse_compare(compare);
    proof {
        lemma_tells_reversed(rev, given);
    }
    sort_down(arr, &rev, r)
}

/// Sorts the slice upwards, by the keys that `key` takes from the elements: it
/// is made a heap with the greatest element at the root, and the root is taken
/// out until nothing is left.
pub fn heapsort_by_key<T, K, F>(arr: &mut [T], key: F)
    where K: Ord, F: Fn(&T) -> K
    requires
        is_key(key),
        is_ordered::<K>(),
        2 * old(arr).len() <= usize::MAX,
    ensures
        final(arr)@.len() == old(arr)@.len(),
        final(arr)@.to_multiset() == old(arr)@.to_multiset(),
        sorted_down(by_key_reversed(key), final(arr)@),
{
    let r = Ghost(by_key_reversed(key));
    let ghost given = key;
    let by = key2reversed_compare(key);
    proof {
        lemma_tells_by_key(by, given, true);
    }
    sort_down(arr, &by, r)
}

/// Makes the slice a heap again, the greatest element at the root, by the order
/// of the elements, after the element at `idx` was changed, and tells whether
/// anything moved.
pub fn adjust_heap<T: Ord>(arr: &mut [T], idx: usize) -> (moved: bool)
    requires
        is_ordered::<T>(),
        idx == 0 || idx < old(arr).len(),
        2 * old(arr).len() <= usize::MAX,
    ensures
        final(arr)@.len() == old(arr)@.len(),
        final(arr)@.to_multiset() == old(arr)@.to_multiset(),
        !moved ==> final(arr)@ == old(arr)@,
        moved ==> final(arr)@ != old(arr)@,
        heap_ordered(reversed(T::cmp), old(arr)@) ==> !moved,
        can_rise(reversed(T::cmp), old(arr)@, pos(idx)) ==> moved && rises(reversed(T::cmp), old(arr)@, final(arr)@, pos(idx)),
        !can_rise(reversed(T::cmp), old(arr)@, pos(idx)) ==> sinks(reversed(T::cmp), old(arr)@, final(arr)@, pos(idx)),
        moved ==> idx < old(arr).len() && ((0 < idx && (reversed(T::cmp).lt)(old(arr)@[pos(idx)], old(arr)@[parent(pos(idx))]))
            || (reversed(T::cmp).lt)(final(arr)@[pos(idx)], old(arr)@[pos(idx)])),
        heap_but_at(reversed(T::cmp), old(arr)@, pos(idx))
            ==> heap_ordered(reversed(T::cmp), final(arr)@),
{
    proof {
        lemma_ordered::<T>();
        lemma_tells_reversed(reversed_cmp::<T>, T::cmp);
    }
    adjust(arr, idx, &reversed_cmp::<T>, Ghost(reversed(T::cmp)))
}

/// Makes the slice a heap again, the greatest element at the root, by
/// `compare`, after the element at `idx` was changed, and tells whether
/// anything moved.
pub fn adjust_heap_by<T, F>(arr: &mut [T], idx: usize, compare: F) -> (moved: bool)
    where F: Fn(&T, &T) -> Ordering
    requires
        is_comparator(compare),
        idx == 0 || idx < old(arr).len(),
        2 * old(arr).len() <= usize::MAX,
    ensures
        final(arr)@.len() == old(arr)@.len(),
        final(arr)@.to_multiset() == old(arr)@.to_multiset(),
        !moved ==> final(arr)@ == old(arr)@,
        moved ==> final(arr)@ != old(arr)@,
        heap_ordered(reversed(compare), old(arr)@) ==> !moved,
        can_rise(reversed(compare), old(arr)@, pos(idx)) ==> moved && rises(reversed(compare), old(arr)@, final(arr)@, pos(idx)),
        !can_rise(reversed(compare), old(arr)@, pos(idx)) ==> sinks(reversed(compare), old(arr)@, final(arr)@, pos(idx)),
        moved ==> idx < old(arr).len() && ((0 < idx && (reversed(compare).lt)(old(arr)@[pos(idx)], old(arr)@[parent(pos(idx))]))
            || (reversed(compare).lt)(final(arr)@[pos(idx)], old(arr)@[pos(idx)])),
        heap_but_at(reversed(compare), old(arr)@, pos(idx))
            ==> heap_ordered(reversed(compare), final(arr)@),
{
    let r = Ghost(reversed(compare));
    let ghost given = compare;
    let rev = reverse_compare(compare);
    proof {
        lemma_tells_reversed(rev, given);
    }
    adjust(arr, idx, &rev, r)
}

/// Makes the slice a heap again, the greatest element at the root, by the keys
/// that `key` takes from the elements, after the element at `idx` was changed,
/// and tells whether anything moved.
pub fn adjust_heap_by_key<T, K, F>(arr: &mut [T], idx: usize, key: F) -> (moved: bool)
    where K: Ord, F: Fn(&T) -> K
    requires
        is_key(key),
        is_ordered::<K>(),
        idx == 0 || idx < old(arr).len(),
        2 * old(arr).len() <= usize::MAX,
    ensures
        final(arr)@.len() == old(arr)@.len(),
        final(arr)@.to_multiset() == old(arr)@.to_multiset(),
        !moved ==> final(arr)@ == old(arr)@,
        moved ==> final(arr)@ != old(arr)@,
        heap_ordered(by_key_reversed(key), old(arr)@) ==> !moved,
        can_rise(by_key_reversed(key), old(arr)@, pos(idx)) ==> moved && rises(by_key_reversed(key), old(arr)@, final(arr)@, pos(idx)),
        !can_rise(by_key_reversed(key), old(arr)@, pos(idx)) ==> sinks(by_key_reversed(key), old(arr)@, final(arr)@, pos(idx)),
        moved ==> idx < old(arr).len() && ((0 < idx && (by_key_reversed(key).lt)(old(arr)@[pos(idx)], old(arr)@[parent(pos(idx))]))
            || (by_key_reversed(key).lt)(final(arr)@[pos(idx)], old(arr)@[pos(idx)])),
        heap_but_at(by_key_reversed(key), old(arr)@, pos(idx))
            ==> heap_ordered(by_key_reversed(key), final(arr)@),
{
    let r = Ghost(by_key_reversed(key));
    let ghost given = key;
    let by = key2reversed_compare(key);
    proof {
        lemma_tells_by_key(by, given, true);
    }
    adjust(arr, idx, &by, r)
}

} // verus!
