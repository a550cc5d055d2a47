//! Approximate-membership and companion data structures with machine-checked
//! contracts: a quotient filter (the core), count-min sketches and a d-ary heap.

pub mod bloom;
pub mod byte_hashes;
pub mod error;
pub mod hashers;
pub mod priority_queue;
pub mod quotient_filter;
pub mod sketch;
