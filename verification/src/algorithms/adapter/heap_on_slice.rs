//! Binary heaps that live in a slice: no heap is built beside the slice, its
//! elements are put in heap order where they are.
//!
//! `min_heap` keeps the least element at the root and `max_heap` the
//! greatest; both go by `heap_implementation`.

pub mod comparator;
pub mod heap_implementation;
pub mod heap_order;
pub mod max_heap;
pub mod min_heap;
