//! Data structures that are laid over a slice.

pub mod heap_on_slice;
