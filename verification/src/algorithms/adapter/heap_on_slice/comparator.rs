//! Comparators as values: the trait of all that can compare two elements,
//! and the comparators that go by the order of the elements.

use vstd::prelude::*;
use core::cmp::Ordering;
use crate::order::lemma_result;
use super::heap_order::{Relations, direct, reversed, holds_in};

verus! {

/// A way to compare two elements of `T`. What `cmp` returns is read as what
/// `Ord::cmp` returns: in a heap with the least element at the root, of a
/// parent and its child the parent is the one that is not found `Greater`.
pub trait Comparator<T> {
    /// The relations that the comparator stands for.
    spec fn relations(&self) -> Relations<T>;

    /// Tells how `a` compares with `b`.
    fn cmp(&self, a: &T, b: &T) -> (o: Ordering)
        ensures
            holds_in(self.relations(), *a, *b, o),
    ;
}

/// The comparator that goes by the order of the elements.
#[derive(Debug, Copy, Clone, Default)]
pub struct DefaultComparator;

impl<T: Ord> Comparator<T> for DefaultComparator {
    open spec fn relations(&self) -> Relations<T> {
        direct(T::cmp)
    }

    fn cmp(&self, a: &T, b: &T) -> (o: Ordering) {
        let o = a.cmp(b);
        proof {
            lemma_result(T::cmp, *a, *b, o);
        }
        o
    }
}

/// The comparator that goes by the order of the elements, turned round.
#[derive(Debug, Copy, Clone, Default)]
pub struct ReverseComparator;

impl<T: Ord> Comparator<T> for ReverseComparator {
    open spec fn relations(&self) -> Relations<T> {
        reversed(T::cmp)
    }

    fn cmp(&self, a: &T, b: &T) -> (o: Ordering) {
        let o = b.cmp(a);
        proof {
            lemma_result(T::cmp, *b, *a, o);
        }
        o
    }
}

/// The relations `r`, turned round.
pub open spec fn turned<T>(r: Relations<T>) -> Relations<T> {
    Relations { le: |a: T, b: T| (r.le)(b, a), lt: |a: T, b: T| (r.lt)(b, a) }
}

/// A comparator that is lent, turned round.
#[derive(Debug, Copy, Clone)]
pub struct Reverse<'c, C: ?Sized>(pub &'c C);

impl<T, C: Comparator<T> + ?Sized> Comparator<T> for Reverse<'_, C> {
    open spec fn relations(&self) -> Relations<T> {
        turned(self.0.relations())
    }

    fn cmp(&self, a: &T, b: &T) -> (o: Ordering) {
        self.0.cmp(b, a)
    }
}

} // verus!
