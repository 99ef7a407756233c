//! A binary heap with the least element at the root, after the heap of
//! "Introduction to Algorithms". How two elements compare is told by a
//! comparator that the heap is given, not by wrapping the elements.

pub mod comparator;
pub mod heap_logic;
pub mod min_heap;
