//! Sorting algorithms.

pub mod counting_sort;
pub mod insertion_sort;
pub mod intro_sort;
pub mod merge_sort;
pub mod quick_sort;
pub mod radix_sort;
pub mod tim_sort;
