//! Collections that own their elements.

pub mod binary_heap;
