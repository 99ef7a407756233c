//! The comparator of a heap: it takes two elements and tells how they compare.

use vstd::prelude::*;
use core::cmp::Ordering;
use crate::algorithms::adapter::heap_on_slice::heap_order::{Relations, direct, holds_in};
use crate::order::lemma_result;

verus! {

/// A way to compare two elements of `T`.
pub trait Comparator<T> {
    /// The relations that the comparator stands for.
    spec fn relations(&self) -> Relations<T>;

    /// Tells how `a` compares with `b`.
    fn compare(&self, a: &T, b: &T) -> (o: Ordering)
        ensures
            holds_in(self.relations(), *a, *b, o),
    ;
}

/// The comparator that goes by the order of the elements.
#[derive(Default)]
pub struct DefaultComparator;

impl<T: Ord> Comparator<T> for DefaultComparator {
    open spec fn relations(&self) -> Relations<T> {
        direct(T::cmp)
    }

    #[inline]
    fn compare(&self, a: &T, b: &T) -> (o: Ordering) {
        let o = a.cmp(b);
        proof {
            lemma_result(T::cmp, *a, *b, o);
        }
        o
    }
}

} // verus!
