//! Algorithms on slices.

pub mod adapter;
pub mod sort;
