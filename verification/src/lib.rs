//! Sorting algorithms that work in place on a slice, and binary heaps: heaps
//! that live in a slice, and a heap that owns its elements.
//!
//! The heart of the crate is `algorithms::sort::tim_sort`, a stable sort that
//! adapts to the order it finds. Every function states what it does over the
//! orders that its comparator stands for (`order`), over rearrangements
//! (`permutation`) and over what it means to be sorted (`sorted`).

pub mod algorithms;
pub mod collections;
pub mod order;
pub mod permutation;
pub mod runs;
pub mod slices;
pub mod sorted;
