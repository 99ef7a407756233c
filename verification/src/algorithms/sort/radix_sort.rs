//! Radix sort: counting sort by one key after the other.
//!
//! A scheme tells the keys. It is a tuple of up to 16 functions, each of
//! which takes a key from an element, or a slice of such functions. The slice
//! is sorted stably by the first key, then by the second, and so on, so that
//! the last key counts most.

use vstd::prelude::*;
use vstd::seq_lib::*;
use crate::algorithms::sort::counting_sort::{CountingSortByKey, fit_for_keys, keyed, sorted_by_key};

verus! {

/// A scheme of keys by which a slice of `T` can be sorted.
pub trait RadixScheme<T> {
    /// Each key of the scheme can be taken from each element of `s` and counted.
    spec fn fits(&self, s: Seq<T>) -> bool;

    /// `after` is `before` sorted stably by each key of the scheme in turn.
    spec fn sorts(&self, before: Seq<T>, after: Seq<T>) -> bool;

    /// A scheme that fits a sequence fits every sequence of the same elements.
    proof fn lemma_fits(&self, s: Seq<T>, other: Seq<T>)
        requires
            self.fits(s),
            other.to_multiset() == s.to_multiset(),
        ensures
            self.fits(other),
    ;

    fn sort(&mut self, slice: &mut [T])
        requires
            old(self).fits(old(slice)@),
        ensures
            final(slice)@.len() == old(slice)@.len(),
            final(slice)@.to_multiset() == old(slice)@.to_multiset(),
            old(self).sorts(old(slice)@, final(slice)@),
    ;
}

/// Two sequences of the same elements have the same elements.
pub proof fn lemma_same_contents<T>(s: Seq<T>, other: Seq<T>, x: T)
    requires
        other.to_multiset() == s.to_multiset(),
    ensures
        other.contains(x) == s.contains(x),
{
    to_multiset_contains(s, x);
    to_multiset_contains(other, x);
}

/// A function that fits a sequence fits every sequence of the same elements.
pub proof fn lemma_fit_for_keys<T, F: Fn(&T) -> usize>(key_fn: F, s: Seq<T>, other: Seq<T>)
    requires
        fit_for_keys(s, key_fn),
        other.to_multiset() == s.to_multiset(),
    ensures
        fit_for_keys(other, key_fn),
{
    let e = keyed(key_fn);
    assert forall|x: T, k: usize| other.contains(x) && #[trigger] e(x, k) implies k <= usize::MAX
        / 2 by {
        lemma_same_contents(s, other, x);
    }
}

impl<T> RadixScheme<T> for () {
    open spec fn fits(&self, s: Seq<T>) -> bool {
        true
    }

    open spec fn sorts(&self, before: Seq<T>, after: Seq<T>) -> bool {
        after == before
    }

    proof fn lemma_fits(&self, s: Seq<T>, other: Seq<T>) {
    }

    fn sort(&mut self, _slice: &mut [T]) {
    }
}

impl<T, F1> RadixScheme<T> for (F1,) where
    F1: Fn(&T) -> usize + Copy,
    (): RadixScheme<T>,
{
    open spec fn fits(&self, s: Seq<T>) -> bool {
        fit_for_keys(s, self.0) && ().fits(s)
    }

    open spec fn sorts(&self, before: Seq<T>, after: Seq<T>) -> bool {
        exists|between: Seq<T>|
            #![trigger sorted_by_key(keyed(self.0), before, between)]
            sorted_by_key(keyed(self.0), before, between) && between.to_multiset()
                == before.to_multiset() && ().sorts(between, after)
    }

    proof fn lemma_fits(&self, s: Seq<T>, other: Seq<T>) {
        lemma_fit_for_keys(self.0, s, other);
        ().lemma_fits(s, other);
    }

    fn sort(&mut self, slice: &mut [T]) {
        let ghost before = slice@;
        let (key0,) = *self;
        // the key that stands first in the tuple is taken first
        slice.counting_sort_by_key(key0);
        let ghost between = slice@;
        let mut rest = ();
        proof {
            ().lemma_fits(before, between);
        }
        rest.sort(slice);
        proof {
            assert(sorted_by_key(keyed(self.0), before, between));
        }
    }
}

impl<T, F2, F1> RadixScheme<T> for (F2, F1,) where
    F2: Fn(&T) -> usize + Copy,
    (F1, ): RadixScheme<T>,
    F1: Copy,
{
    open spec fn fits(&self, s: Seq<T>) -> bool {
        fit_for_keys(s, self.0) && (self.1, ).fits(s)
    }

    open spec fn sorts(&self, before: Seq<T>, after: Seq<T>) -> bool {
        exists|between: Seq<T>|
            #![trigger sorted_by_key(keyed(self.0), before, between)]
            sorted_by_key(keyed(self.0), before, between) && between.to_multiset()
                == before.to_multiset() && (self.1, ).sorts(between, after)
    }

    proof fn lemma_fits(&self, s: Seq<T>, other: Seq<T>) {
        lemma_fit_for_keys(self.0, s, other);
        (self.1, ).lemma_fits(s, other);
    }

    fn sort(&mut self, slice: &mut [T]) {
        let ghost before = slice@;
        let (key0, key1,) = *self;
        // the key that stands first in the tuple is taken first
        slice.counting_sort_by_key(key0);
        let ghost between = slice@;
        let mut rest = (key1, );
        proof {
            (self.1, ).lemma_fits(before, between);
        }
        rest.sort(slice);
        proof {
            assert(sorted_by_key(keyed(self.0), before, between));
        }
    }
}

impl<T, F3, F2, F1> RadixScheme<T> for (F3, F2, F1,) where
    F3: Fn(&T) -> usize + Copy,
    (F2, F1, ): RadixScheme<T>,
    F2: Copy,
    F1: Copy,
{
    open spec fn fits(&self, s: Seq<T>) -> bool {
        fit_for_keys(s, self.0) && (self.1, self.2, ).fits(s)
    }

    open spec fn sorts(&self, before: Seq<T>, after: Seq<T>) -> bool {
        exists|between: Seq<T>|
            #![trigger sorted_by_key(keyed(self.0), before, between)]
            sorted_by_key(keyed(self.0), before, between) && between.to_multiset()
                == before.to_multiset() && (self.1, self.2, ).sorts(between, after)
    }

    proof fn lemma_fits(&self, s: Seq<T>, other: Seq<T>) {
        lemma_fit_for_keys(self.0, s, other);
        (self.1, self.2, ).lemma_fits(s, other);
    }

    fn sort(&mut self, slice: &mut [T]) {
        let ghost before = slice@;
        let (key0, key1, key2,) = *self;
        // the key that stands first in the tuple is taken first
        slice.counting_sort_by_key(key0);
        let ghost between = slice@;
        let mut rest = (key1, key2, );
        proof {
            (self.1, self.2, ).lemma_fits(before, between);
        }
        rest.sort(slice);
        proof {
            assert(sorted_by_key(keyed(self.0), before, between));
        }
    }
}

impl<T, F4, F3, F2, F1> RadixScheme<T> for (F4, F3, F2, F1,) where
    F4: Fn(&T) -> usize + Copy,
    (F3, F2, F1, ): RadixScheme<T>,
    F3: Copy,
    F2: Copy,
    F1: Copy,
{
    open spec fn fits(&self, s: Seq<T>) -> bool {
        fit_for_keys(s, self.0) && (self.1, self.2, self.3, ).fits(s)
    }

    open spec fn sorts(&self, before: Seq<T>, after: Seq<T>) -> bool {
        exists|between: Seq<T>|
            #![trigger sorted_by_key(keyed(self.0), before, between)]
            sorted_by_key(keyed(self.0), before, between) && between.to_multiset()
                == before.to_multiset() && (self.1, self.2, self.3, ).sorts(between, after)
    }

    proof fn lemma_fits(&self, s: Seq<T>, other: Seq<T>) {
        lemma_fit_for_keys(self.0, s, other);
        (self.1, self.2, self.3, ).lemma_fits(s, other);
    }

    fn sort(&mut self, slice: &mut [T]) {
        let ghost before = slice@;
        let (key0, key1, key2, key3,) = *self;
        // the key that stands first in the tuple is taken first
        slice.counting_sort_by_key(key0);
        let ghost between = slice@;
        let mut rest = (key1, key2, key3, );
        proof {
            (self.1, self.2, self.3, ).lemma_fits(before, between);
        }
        rest.sort(slice);
        proof {
            assert(sorted_by_key(keyed(self.0), before, between));
        }
    }
}

impl<T, F5, F4, F3, F2, F1> RadixScheme<T> for (F5, F4, F3, F2, F1,) where
    F5: Fn(&T) -> usize + Copy,
    (F4, F3, F2, F1, ): RadixScheme<T>,
    F4: Copy,
    F3: Copy,
    F2: Copy,
    F1: Copy,
{
    open spec fn fits(&self, s: Seq<T>) -> bool {
        fit_for_keys(s, self.0) && (self.1, self.2, self.3, self.4, ).fits(s)
    }

    open spec fn sorts(&self, before: Seq<T>, after: Seq<T>) -> bool {
        exists|between: Seq<T>|
            #![trigger sorted_by_key(keyed(self.0), before, between)]
            sorted_by_key(keyed(self.0), before, between) && between.to_multiset()
                == before.to_multiset() && (self.1, self.2, self.3, self.4, ).sorts(between, after)
    }

    proof fn lemma_fits(&self, s: Seq<T>, other: Seq<T>) {
        lemma_fit_for_keys(self.0, s, other);
        (self.1, self.2, self.3, self.4, ).lemma_fits(s, other);
    }

    fn sort(&mut self, slice: &mut [T]) {
        let ghost before = slice@;
        let (key0, key1, key2, key3, key4,) = *self;
        // the key that stands first in the tuple is taken first
        slice.counting_sort_by_key(key0);
        let ghost between = slice@;
        let mut rest = (key1, key2, key3, key4, );
        proof {
            (self.1, self.2, self.3, self.4, ).lemma_fits(before, between);
        }
        rest.sort(slice);
        proof {
            assert(sorted_by_key(keyed(self.0), before, between));
        }
    }
}

impl<T, F6, F5, F4, F3, F2, F1> RadixScheme<T> for (F6, F5, F4, F3, F2, F1,) where
    F6: Fn(&T) -> usize + Copy,
    (F5, F4, F3, F2, F1, ): RadixScheme<T>,
    F5: Copy,
    F4: Copy,
    F3: Copy,
    F2: Copy,
    F1: Copy,
{
    open spec fn fits(&self, s: Seq<T>) -> bool {
        fit_for_keys(s, self.0) && (self.1, self.2, self.3, self.4, self.5, ).fits(s)
    }

    open spec fn sorts(&self, before: Seq<T>, after: Seq<T>) -> bool {
        exists|between: Seq<T>|
            #![trigger sorted_by_key(keyed(self.0), before, between)]
            sorted_by_key(keyed(self.0), before, between) && between.to_multiset()
                == before.to_multiset() && (self.1, self.2, self.3, self.4, self.5, ).sorts(between, after)
    }

    proof fn lemma_fits(&self, s: Seq<T>, other: Seq<T>) {
        lemma_fit_for_keys(self.0, s, other);
        (self.1, self.2, self.3, self.4, self.5, ).lemma_fits(s, other);
    }

    fn sort(&mut self, slice: &mut [T]) {
        let ghost before = slice@;
        let (key0, key1, key2, key3, key4, key5,) = *self;
        // the key that stands first in the tuple is taken first
        slice.counting_sort_by_key(key0);
        let ghost between = slice@;
        let mut rest = (key1, key2, key3, key4, key5, );
        proof {
            (self.1, self.2, self.3, self.4, self.5, ).lemma_fits(before, between);
        }
        rest.sort(slice);
        proof {
            assert(sorted_by_key(keyed(self.0), before, between));
        }
    }
}

impl<T, F7, F6, F5, F4, F3, F2, F1> RadixScheme<T> for (F7, F6, F5, F4, F3, F2, F1,) where
    F7: Fn(&T) -> usize + Copy,
    (F6, F5, F4, F3, F2, F1, ): RadixScheme<T>,
    F6: Copy,
    F5: Copy,
    F4: Copy,
    F3: Copy,
    F2: Copy,
    F1: Copy,
{
    open spec fn fits(&self, s: Seq<T>) -> bool {
        fit_for_keys(s, self.0) && (self.1, self.2, self.3, self.4, self.5, self.6, ).fits(s)
    }

    open spec fn sorts(&self, before: Seq<T>, after: Seq<T>) -> bool {
        exists|between: Seq<T>|
            #![trigger sorted_by_key(keyed(self.0), before, between)]
            sorted_by_key(keyed(self.0), before, between) && between.to_multiset()
                == before.to_multiset() && (self.1, self.2, self.3, self.4, self.5, self.6, ).sorts(between, after)
    }

    proof fn lemma_fits(&self, s: Seq<T>, other: Seq<T>) {
        lemma_fit_for_keys(self.0, s, other);
        (self.1, self.2, self.3, self.4, self.5, self.6, ).lemma_fits(s, other);
    }

    fn sort(&mut self, slice: &mut [T]) {
        let ghost before = slice@;
        let (key0, key1, key2, key3, key4, key5, key6,) = *self;
        // the key that stands first in the tuple is taken first
        slice.counting_sort_by_key(key0);
        let ghost between = slice@;
        let mut rest = (key1, key2, key3, key4, key5, key6, );
        proof {
            (self.1, self.2, self.3, self.4, self.5, self.6, ).lemma_fits(before, between);
        }
        rest.sort(slice);
        proof {
            assert(sorted_by_key(keyed(self.0), before, between));
        }
    }
}

impl<T, F8, F7, F6, F5, F4, F3, F2, F1> RadixScheme<T> for (F8, F7, F6, F5, F4, F3, F2, F1,) where
    F8: Fn(&T) -> usize + Copy,
    (F7, F6, F5, F4, F3, F2, F1, ): RadixScheme<T>,
    F7: Copy,
    F6: Copy,
    F5: Copy,
    F4: Copy,
    F3: Copy,
    F2: Copy,
    F1: Copy,
{
    open spec fn fits(&self, s: Seq<T>) -> bool {
        fit_for_keys(s, self.0) && (self.1, self.2, self.3, self.4, self.5, self.6, self.7, ).fits(s)
    }

    open spec fn sorts(&self, before: Seq<T>, after: Seq<T>) -> bool {
        exists|between: Seq<T>|
            #![trigger sorted_by_key(keyed(self.0), before, between)]
            sorted_by_key(keyed(self.0), before, between) && between.to_multiset()
                == before.to_multiset() && (self.1, self.2, self.3, self.4, self.5, self.6, self.7, ).sorts(between, after)
    }

    proof fn lemma_fits(&self, s: Seq<T>, other: Seq<T>) {
        lemma_fit_for_keys(self.0, s, other);
        (self.1, self.2, self.3, self.4, self.5, self.6, self.7, ).lemma_fits(s, other);
    }

    fn sort(&mut self, slice: &mut [T]) {
        let ghost before = slice@;
        let (key0, key1, key2, key3, key4, key5, key6, key7,) = *self;
        // the key that stands first in the tuple is taken first
        slice.counting_sort_by_key(key0);
        let ghost between = slice@;
        let mut rest = (key1, key2, key3, key4, key5, key6, key7, );
        proof {
            (self.1, self.2, self.3, self.4, self.5, self.6, self.7, ).lemma_fits(before, between);
        }
        rest.sort(slice);
        proof {
            assert(sorted_by_key(keyed(self.0), before, between));
        }
    }
}

impl<T, F9, F8, F7, F6, F5, F4, F3, F2, F1> RadixScheme<T> for (F9, F8, F7, F6, F5, F4, F3, F2, F1,) where
    F9: Fn(&T) -> usize + Copy,
    (F8, F7, F6, F5, F4, F3, F2, F1, ): RadixScheme<T>,
    F8: Copy,
    F7: Copy,
    F6: Copy,
    F5: Copy,
    F4: Copy,
    F3: Copy,
    F2: Copy,
    F1: Copy,
{
    open spec fn fits(&self, s: Seq<T>) -> bool {
        fit_for_keys(s, self.0) && (self.1, self.2, self.3, self.4, self.5, self.6, self.7, self.8, ).fits(s)
    }

    open spec fn sorts(&self, before: Seq<T>, after: Seq<T>) -> bool {
        exists|between: Seq<T>|
            #![trigger sorted_by_key(keyed(self.0), before, between)]
            sorted_by_key(keyed(self.0), before, between) && between.to_multiset()
                == before.to_multiset() && (self.1, self.2, self.3, self.4, self.5, self.6, self.7, self.8, ).sorts(between, after)
    }

    proof fn lemma_fits(&self, s: Seq<T>, other: Seq<T>) {
        lemma_fit_for_keys(self.0, s, other);
        (self.1, self.2, self.3, self.4, self.5, self.6, self.7, self.8, ).lemma_fits(s, other);
    }

    fn sort(&mut self, slice: &mut [T]) {
        let ghost before = slice@;
        let (key0, key1, key2, key3, key4, key5, key6, key7, key8,) = *self;
        // the key that stands first in the tuple is taken first
        slice.counting_sort_by_key(key0);
        let ghost between = slice@;
        let mut rest = (key1, key2, key3, key4, key5, key6, key7, key8, );
        proof {
            (self.1, self.2, self.3, self.4, self.5, self.6, self.7, self.8, ).lemma_fits(before, between);
        }
        rest.sort(slice);
        proof {
            assert(sorted_by_key(keyed(self.0), before, between));
        }
    }
}

impl<T, F10, F9, F8, F7, F6, F5, F4, F3, F2, F1> RadixScheme<T> for (F10, F9, F8, F7, F6, F5, F4, F3, F2, F1,) where
    F10: Fn(&T) -> usize + Copy,
    (F9, F8, F7, F6, F5, F4, F3, F2, F1, ): RadixScheme<T>,
    F9: Copy,
    F8: Copy,
    F7: Copy,
    F6: Copy,
    F5: Copy,
    F4: Copy,
    F3: Copy,
    F2: Copy,
    F1: Copy,
{
    open spec fn fits(&self, s: Seq<T>) -> bool {
        fit_for_keys(s, self.0) && (self.1, self.2, self.3, self.4, self.5, self.6, self.7, self.8, self.9, ).fits(s)
    }

    open spec fn sorts(&self, before: Seq<T>, after: Seq<T>) -> bool {
        exists|between: Seq<T>|
            #![trigger sorted_by_key(keyed(self.0), before, between)]
            sorted_by_key(keyed(self.0), before, between) && between.to_multiset()
                == before.to_multiset() && (self.1, self.2, self.3, self.4, self.5, self.6, self.7, self.8, self.9, ).sorts(between, after)
    }

    proof fn lemma_fits(&self, s: Seq<T>, other: Seq<T>) {
        lemma_fit_for_keys(self.0, s, other);
        (self.1, self.2, self.3, self.4, self.5, self.6, self.7, self.8, self.9, ).lemma_fits(s, other);
    }

    fn sort(&mut self, slice: &mut [T]) {
        let ghost before = slice@;
        let (key0, key1, key2, key3, key4, key5, key6, key7, key8, key9,) = *self;
        // the key that stands first in the tuple is taken first
        slice.counting_sort_by_key(key0);
        let ghost between = slice@;
        let mut rest = (key1, key2, key3, key4, key5, key6, key7, key8, key9, );
        proof {
            (self.1, self.2, self.3, self.4, self.5, self.6, self.7, self.8, self.9, ).lemma_fits(before, between);
        }
        rest.sort(slice);
        proof {
            assert(sorted_by_key(keyed(self.0), before, between));
        }
    }
}

impl<T, F11, F10, F9, F8, F7, F6, F5, F4, F3, F2, F1> RadixScheme<T> for (F11, F10, F9, F8, F7, F6, F5, F4, F3, F2, F1,) where
    F11: Fn(&T) -> usize + Copy,
    (F10, F9, F8, F7, F6, F5, F4, F3, F2, F1, ): RadixScheme<T>,
    F10: Copy,
    F9: Copy,
    F8: Copy,
    F7: Copy,
    F6: Copy,
    F5: Copy,
    F4: Copy,
    F3: Copy,
    F2: Copy,
    F1: Copy,
{
    open spec fn fits(&self, s: Seq<T>) -> bool {
        fit_for_keys(s, self.0) && (self.1, self.2, self.3, self.4, self.5, self.6, self.7, self.8, self.9, self.10, ).fits(s)
    }

    open spec fn sorts(&self, before: Seq<T>, after: Seq<T>) -> bool {
        exists|between: Seq<T>|
            #![trigger sorted_by_key(keyed(self.0), before, between)]
            sorted_by_key(keyed(self.0), before, between) && between.to_multiset()
                == before.to_multiset() && (self.1, self.2, self.3, self.4, self.5, self.6, self.7, self.8, self.9, self.10, ).sorts(between, after)
    }

    proof fn lemma_fits(&self, s: Seq<T>, other: Seq<T>) {
        lemma_fit_for_keys(self.0, s, other);
        (self.1, self.2, self.3, self.4, self.5, self.6, self.7, self.8, self.9, self.10, ).lemma_fits(s, other);
    }

    fn sort(&mut self, slice: &mut [T]) {
        let ghost before = slice@;
        let (key0, key1, key2, key3, key4, key5, key6, key7, key8, key9, key10,) = *self;
        // the key that stands first in the tuple is taken first
        slice.counting_sort_by_key(key0);
        let ghost between = slice@;
        let mut rest = (key1, key2, key3, key4, key5, key6, key7, key8, key9, key10, );
        proof {
            (self.1, self.2, self.3, self.4, self.5, self.6, self.7, self.8, self.9, self.10, ).lemma_fits(before, between);
        }
        rest.sort(slice);
        proof {
            assert(sorted_by_key(keyed(self.0), before, between));
        }
    }
}

impl<T, F12, F11, F10, F9, F8, F7, F6, F5, F4, F3, F2, F1> RadixScheme<T> for (F12, F11, F10, F9, F8, F7, F6, F5, F4, F3, F2, F1,) where
    F12: Fn(&T) -> usize + Copy,
    (F11, F10, F9, F8, F7, F6, F5, F4, F3, F2, F1, ): RadixScheme<T>,
    F11: Copy,
    F10: Copy,
    F9: Copy,
    F8: Copy,
    F7: Copy,
    F6: Copy,
    F5: Copy,
    F4: Copy,
    F3: Copy,
    F2: Copy,
    F1: Copy,
{
    open spec fn fits(&self, s: Seq<T>) -> bool {
        fit_for_keys(s, self.0) && (self.1, self.2, self.3, self.4, self.5, self.6, self.7, self.8, self.9, self.10, self.11, ).fits(s)
    }

    open spec fn sorts(&self, before: Seq<T>, after: Seq<T>) -> bool {
        exists|between: Seq<T>|
            #![trigger sorted_by_key(keyed(self.0), before, between)]
            sorted_by_key(keyed(self.0), before, between) && between.to_multiset()
                == before.to_multiset() && (self.1, self.2, self.3, self.4, self.5, self.6, self.7, self.8, self.9, self.10, self.11, ).sorts(between, after)
    }

    proof fn lemma_fits(&self, s: Seq<T>, other: Seq<T>) {
        lemma_fit_for_keys(self.0, s, other);
        (self.1, self.2, self.3, self.4, self.5, self.6, self.7, self.8, self.9, self.10, self.11, ).lemma_fits(s, other);
    }

    fn sort(&mut self, slice: &mut [T]) {
        let ghost before = slice@;
        let (key0, key1, key2, key3, key4, key5, key6, key7, key8, key9, key10, key11,) = *self;
        // the key that stands first in the tuple is taken first
        slice.counting_sort_by_key(key0);
        let ghost between = slice@;
        let mut rest = (key1, key2, key3, key4, key5, key6, key7, key8, key9, key10, key11, );
        proof {
            (self.1, self.2, self.3, self.4, self.5, self.6, self.7, self.8, self.9, self.10, self.11, ).lemma_fits(before, between);
        }
        rest.sort(slice);
        proof {
            assert(sorted_by_key(keyed(self.0), before, between));
        }
    }
}

impl<T, F13, F12, F11, F10, F9, F8, F7, F6, F5, F4, F3, F2, F1> RadixScheme<T> for (F13, F12, F11, F10, F9, F8, F7, F6, F5, F4, F3, F2, F1,) where
    F13: Fn(&T) -> usize + Copy,
    (F12, F11, F10, F9, F8, F7, F6, F5, F4, F3, F2, F1, ): RadixScheme<T>,
    F12: Copy,
    F11: Copy,
    F10: Copy,
    F9: Copy,
    F8: Copy,
    F7: Copy,
    F6: Copy,
    F5: Copy,
    F4: Copy,
    F3: Copy,
    F2: Copy,
    F1: Copy,
{
    open spec fn fits(&self, s: Seq<T>) -> bool {
        fit_for_keys(s, self.0) && (self.1, self.2, self.3, self.4, self.5, self.6, self.7, self.8, self.9, self.10, self.11, self.12, ).fits(s)
    }

    open spec fn sorts(&self, before: Seq<T>, after: Seq<T>) -> bool {
        exists|between: Seq<T>|
            #![trigger sorted_by_key(keyed(self.0), before, between)]
            sorted_by_key(keyed(self.0), before, between) && between.to_multiset()
                == before.to_multiset() && (self.1, self.2, self.3, self.4, self.5, self.6, self.7, self.8, self.9, self.10, self.11, self.12, ).sorts(between, after)
    }

    proof fn lemma_fits(&self, s: Seq<T>, other: Seq<T>) {
        lemma_fit_for_keys(self.0, s, other);
        (self.1, self.2, self.3, self.4, self.5, self.6, self.7, self.8, self.9, self.10, self.11, self.12, ).lemma_fits(s, other);
    }

    fn sort(&mut self, slice: &mut [T]) {
        let ghost before = slice@;
        let (key0, key1, key2, key3, key4, key5, key6, key7, key8, key9, key10, key11, key12,) = *self;
        // the key that stands first in the tuple is taken first
        slice.counting_sort_by_key(key0);
        let ghost between = slice@;
        let mut rest = (key1, key2, key3, key4, key5, key6, key7, key8, key9, key10, key11, key12, );
        proof {
            (self.1, self.2, self.3, self.4, self.5, self.6, self.7, self.8, self.9, self.10, self.11, self.12, ).lemma_fits(before, between);
        }
        rest.sort(slice);
        proof {
            assert(sorted_by_key(keyed(self.0), before, between));
        }
    }
}

impl<T, F14, F13, F12, F11, F10, F9, F8, F7, F6, F5, F4, F3, F2, F1> RadixScheme<T> for (F14, F13, F12, F11, F10, F9, F8, F7, F6, F5, F4, F3, F2, F1,) where
    F14: Fn(&T) -> usize + Copy,
    (F13, F12, F11, F10, F9, F8, F7, F6, F5, F4, F3, F2, F1, ): RadixScheme<T>,
    F13: Copy,
    F12: Copy,
    F11: Copy,
    F10: Copy,
    F9: Copy,
    F8: Copy,
    F7: Copy,
    F6: Copy,
    F5: Copy,
    F4: Copy,
    F3: Copy,
    F2: Copy,
    F1: Copy,
{
    open spec fn fits(&self, s: Seq<T>) -> bool {
        fit_for_keys(s, self.0) && (self.1, self.2, self.3, self.4, self.5, self.6, self.7, self.8, self.9, self.10, self.11, self.12, self.13, ).fits(s)
    }

    open spec fn sorts(&self, before: Seq<T>, after: Seq<T>) -> bool {
        exists|between: Seq<T>|
            #![trigger sorted_by_key(keyed(self.0), before, between)]
            sorted_by_key(keyed(self.0), before, between) && between.to_multiset()
                == before.to_multiset() && (self.1, self.2, self.3, self.4, self.5, self.6, self.7, self.8, self.9, self.10, self.11, self.12, self.13, ).sorts(between, after)
    }

    proof fn lemma_fits(&self, s: Seq<T>, other: Seq<T>) {
        lemma_fit_for_keys(self.0, s, other);
        (self.1, self.2, self.3, self.4, self.5, self.6, self.7, self.8, self.9, self.10, self.11, self.12, self.13, ).lemma_fits(s, other);
    }

    fn sort(&mut self, slice: &mut [T]) {
        let ghost before = slice@;
        let (key0, key1, key2, key3, key4, key5, key6, key7, key8, key9, key10, key11, key12, key13,) = *self;
        // the key that stands first in the tuple is taken first
        slice.counting_sort_by_key(key0);
        let ghost between = slice@;
        let mut rest = (key1, key2, key3, key4, key5, key6, key7, key8, key9, key10, key11, key12, key13, );
        proof {
            (self.1, self.2, self.3, self.4, self.5, self.6, self.7, self.8, self.9, self.10, self.11, self.12, self.13, ).lemma_fits(before, between);
        }
        rest.sort(slice);
        proof {
            assert(sorted_by_key(keyed(self.0), before, between));
        }
    }
}

impl<T, F15, F14, F13, F12, F11, F10, F9, F8, F7, F6, F5, F4, F3, F2, F1> RadixScheme<T> for (F15, F14, F13, F12, F11, F10, F9, F8, F7, F6, F5, F4, F3, F2, F1,) where
    F15: Fn(&T) -> usize + Copy,
    (F14, F13, F12, F11, F10, F9, F8, F7, F6, F5, F4, F3, F2, F1, ): RadixScheme<T>,
    F14: Copy,
    F13: Copy,
    F12: Copy,
    F11: Copy,
    F10: Copy,
    F9: Copy,
    F8: Copy,
    F7: Copy,
    F6: Copy,
    F5: Copy,
    F4: Copy,
    F3: Copy,
    F2: Copy,
    F1: Copy,
{
    open spec fn fits(&self, s: Seq<T>) -> bool {
        fit_for_keys(s, self.0) && (self.1, self.2, self.3, self.4, self.5, self.6, self.7, self.8, self.9, self.10, self.11, self.12, self.13, self.14, ).fits(s)
    }

    open spec fn sorts(&self, before: Seq<T>, after: Seq<T>) -> bool {
        exists|between: Seq<T>|
            #![trigger sorted_by_key(keyed(self.0), before, between)]
            sorted_by_key(keyed(self.0), before, between) && between.to_multiset()
                == before.to_multiset() && (self.1, self.2, self.3, self.4, self.5, self.6, self.7, self.8, self.9, self.10, self.11, self.12, self.13, self.14, ).sorts(between, after)
    }

    proof fn lemma_fits(&self, s: Seq<T>, other: Seq<T>) {
        lemma_fit_for_keys(self.0, s, other);
        (self.1, self.2, self.3, self.4, self.5, self.6, self.7, self.8, self.9, self.10, self.11, self.12, self.13, self.14, ).lemma_fits(s, other);
    }

    fn sort(&mut self, slice: &mut [T]) {
        let ghost before = slice@;
        let (key0, key1, key2, key3, key4, key5, key6, key7, key8, key9, key10, key11, key12, key13, key14,) = *self;
        // the key that stands first in the tuple is taken first
        slice.counting_sort_by_key(key0);
        let ghost between = slice@;
        let mut rest = (key1, key2, key3, key4, key5, key6, key7, key8, key9, key10, key11, key12, key13, key14, );
        proof {
            (self.1, self.2, self.3, self.4, self.5, self.6, self.7, self.8, self.9, self.10, self.11, self.12, self.13, self.14, ).lemma_fits(before, between);
        }
        rest.sort(slice);
        proof {
            assert(sorted_by_key(keyed(self.0), before, between));
        }
    }
}

impl<T, F16, F15, F14, F13, F12, F11, F10, F9, F8, F7, F6, F5, F4, F3, F2, F1> RadixScheme<T> for (F16, F15, F14, F13, F12, F11, F10, F9, F8, F7, F6, F5, F4, F3, F2, F1,) where
    F16: Fn(&T) -> usize + Copy,
    (F15, F14, F13, F12, F11, F10, F9, F8, F7, F6, F5, F4, F3, F2, F1, ): RadixScheme<T>,
    F15: Copy,
    F14: Copy,
    F13: Copy,
    F12: Copy,
    F11: Copy,
    F10: Copy,
    F9: Copy,
    F8: Copy,
    F7: Copy,
    F6: Copy,
    F5: Copy,
    F4: Copy,
    F3: Copy,
    F2: Copy,
    F1: Copy,
{
    open spec fn fits(&self, s: Seq<T>) -> bool {
        fit_for_keys(s, self.0) && (self.1, self.2, self.3, self.4, self.5, self.6, self.7, self.8, self.9, self.10, self.11, self.12, self.13, self.14, self.15, ).fits(s)
    }

    open spec fn sorts(&self, before: Seq<T>, after: Seq<T>) -> bool {
        exists|between: Seq<T>|
            #![trigger sorted_by_key(keyed(self.0), before, between)]
            sorted_by_key(keyed(self.0), before, between) && between.to_multiset()
                == before.to_multiset() && (self.1, self.2, self.3, self.4, self.5, self.6, self.7, self.8, self.9, self.10, self.11, self.12, self.13, self.14, self.15, ).sorts(between, after)
    }

    proof fn lemma_fits(&self, s: Seq<T>, other: Seq<T>) {
        lemma_fit_for_keys(self.0, s, other);
        (self.1, self.2, self.3, self.4, self.5, self.6, self.7, self.8, self.9, self.10, self.11, self.12, self.13, self.14, self.15, ).lemma_fits(s, other);
    }

    fn sort(&mut self, slice: &mut [T]) {
        let ghost before = slice@;
        let (key0, key1, key2, key3, key4, key5, key6, key7, key8, key9, key10, key11, key12, key13, key14, key15,) = *self;
        // the key that stands first in the tuple is taken first
        slice.counting_sort_by_key(key0);
        let ghost between = slice@;
        let mut rest = (key1, key2, key3, key4, key5, key6, key7, key8, key9, key10, key11, key12, key13, key14, key15, );
        proof {
            (self.1, self.2, self.3, self.4, self.5, self.6, self.7, self.8, self.9, self.10, self.11, self.12, self.13, self.14, self.15, ).lemma_fits(before, between);
        }
        rest.sort(slice);
        proof {
            assert(sorted_by_key(keyed(self.0), before, between));
        }
    }
}

/// A scheme whose keys are told by a slice of functions of one type, such as
/// boxed functions; how many there are need not be known before the program runs.
pub struct SerialScheme<'a, P> {
    projs: &'a mut [P],
}

/// `after` is `before` sorted stably by each of the keys from `from` on in turn.
pub open spec fn sorts_from<T, P: Fn(&T) -> usize>(
    projs: Seq<P>,
    from: int,
    before: Seq<T>,
    after: Seq<T>,
) -> bool
    decreases projs.len() - from,
{
    if from >= projs.len() {
        after == before
    } else {
        exists|between: Seq<T>|
            #![trigger sorted_by_key(keyed(projs[from]), before, between)]
            sorted_by_key(keyed(projs[from]), before, between) && between.to_multiset()
                == before.to_multiset() && sorts_from(projs, from + 1, between, after)
    }
}

impl<'a, P> SerialScheme<'a, P> {
    /// The functions of the scheme, in the order in which their keys are used.
    pub closed spec fn projections(&self) -> Seq<P> {
        self.projs@
    }

    /// The scheme whose keys are taken by the functions of `projs`, one after the other.
    pub fn new(projs: &'a mut [P]) -> (scheme: Self)
        ensures
            scheme.projections() == old(projs)@,
    {
        Self { projs }
    }
}

impl<T, P: Fn(&T) -> usize> RadixScheme<T> for SerialScheme<'_, P> {
    open spec fn fits(&self, s: Seq<T>) -> bool {
        forall|i: int|
            0 <= i < self.projections().len() ==> fit_for_keys(s, #[trigger] self.projections()[i])
    }

    open spec fn sorts(&self, before: Seq<T>, after: Seq<T>) -> bool {
        sorts_from(self.projections(), 0, before, after)
    }

    proof fn lemma_fits(&self, s: Seq<T>, other: Seq<T>) {
        assert forall|i: int| 0 <= i < self.projections().len() implies fit_for_keys(
            other,
            #[trigger] self.projections()[i],
        ) by {
            lemma_fit_for_keys(self.projections()[i], s, other);
        }
    }

    fn sort(&mut self, slice: &mut [T]) {
        let ghost before = slice@;
        let ghost projs = self.projs@;
        let n = self.projs.len();
        let mut done: usize = 0;
        proof {
            assert(self.projections() == projs);
            assert forall|k: int| 0 <= k < projs.len() implies fit_for_keys(
                before,
                #[trigger] projs[k],
            ) by {
                assert(fit_for_keys(before, self.projections()[k]));
            }
        }
        while done < n
            invariant
                n == projs.len(),
                done <= n,
                self.projs@ == projs,
                slice@.len() == before.len(),
                slice@.to_multiset() == before.to_multiset(),
                forall|k: int| 0 <= k < projs.len() ==> fit_for_keys(before, #[trigger] projs[k]),
                forall|after: Seq<T>|
                    #![trigger sorts_from(projs, done as int, slice@, after)]
                    sorts_from(projs, done as int, slice@, after) ==> sorts_from(
                        projs,
                        0,
                        before,
                        after,
                    ),
            decreases n - done,
        {
            let ghost now = slice@;
            proof {
                lemma_fit_for_keys(projs[done as int], before, now);
            }
            slice.counting_sort_by_key(&self.projs[done]);
            proof {
                let next = slice@;
                assert forall|after: Seq<T>|
                    #![trigger sorts_from(projs, done + 1, next, after)]
                    sorts_from(projs, done + 1, next, after) implies sorts_from(
                    projs,
                    0,
                    before,
                    after,
                ) by {
                    assert(sorted_by_key(keyed(projs[done as int]), now, next));
                    assert(sorts_from(projs, done as int, now, after));
                }
            }
            done += 1;
        }
        proof {
            assert(sorts_from(projs, done as int, slice@, slice@));
        }
    }
}

/// Sorts a slice by the keys of a scheme.
pub trait RadixSortExt<T> {
    /// The elements that are to be sorted.
    spec fn radix_elements(&self) -> Seq<T>;

    fn radix_sort<S: RadixScheme<T>>(self, scheme: S)
        requires
            scheme.fits(self.radix_elements()),
    ;
}

impl<T> RadixSortExt<T> for &mut [T] {
    open spec fn radix_elements(&self) -> Seq<T> {
        (**self)@
    }

    fn radix_sort<S: RadixScheme<T>>(self, scheme: S)
        ensures
            final(self)@.len() == old(self)@.len(),
            final(self)@.to_multiset() == old(self)@.to_multiset(),
            scheme.sorts(old(self)@, final(self)@),
    {
        assert(old(self).radix_elements() == old(self)@);
        let mut scheme = scheme;
        scheme.sort(self);
    }
}

} // verus!
