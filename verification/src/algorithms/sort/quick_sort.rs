//! Quick sort with one pivot and with two.

pub mod binary_quick_sort;
pub mod parts;
pub mod ternary_quick_sort;
