//! A d-ary max-heap of prioritised elements.

pub mod dheap;
pub mod order;
pub mod pair;
