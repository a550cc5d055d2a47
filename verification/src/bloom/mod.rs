//! Bloom filters: bit arrays that report a key as present where all of its
//! positions are set.

pub mod bit_vector;
pub mod bits;
pub mod bloom_filter;
pub mod byte_filter;
pub mod simple_bloom_filter;
