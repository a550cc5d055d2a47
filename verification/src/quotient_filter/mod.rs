//! A quotient filter: an open-addressed table of fingerprint remainders with
//! run and cluster metadata, supporting insertion, lookup, lazy deletion,
//! table doubling and merging.

pub mod codec;
pub mod error;
pub mod filter;
pub mod hashing;
pub mod laws;
pub mod model;
pub mod navigator;
pub mod placement;
pub mod removal;
pub mod ring;
pub mod settle;
pub mod slot;
pub mod walk;
