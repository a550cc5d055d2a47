//! The hash functions that pick a counter for a value.

use vstd::prelude::*;
use vstd::std_specs::hash::DefaultHasherAdditionalSpecFns;
use std::collections::hash_map::DefaultHasher;
use std::hash::Hash;
use crate::byte_hashes::fnv1a_64_of;
use crate::hashers::{default_digest, fnv_digest, xxh3_digest, xxh3_digest_seeded};

verus! {

/// The counter below `capacity` that the digest of `value` by the standard
/// library's default hasher picks.
pub fn default_hash<T: Hash>(capacity: u64, value: &T) -> (cell: usize)
    requires
        0 < capacity <= usize::MAX,
    ensures
        cell < capacity,
        exists|written: Seq<Seq<u8>>|
            cell as int == cell_of(#[trigger] DefaultHasher::spec_finish(written), capacity),
{
    cell_for(default_digest(value), capacity)
}

/// A counter index below `capacity` for `value`, from XXH3.
pub fn xxhash<T: Hash>(capacity: u64, value: &T) -> (cell: usize)
    requires
        0 < capacity <= usize::MAX,
    ensures
        cell < capacity,
{
    cell_for(xxh3_digest(value), capacity)
}

/// The counter below `capacity` that the FNV-1a hash of what `value` feeds the
/// hasher picks.
pub fn fnv_hash<T: Hash>(capacity: u64, value: &T) -> (cell: usize)
    requires
        0 < capacity <= usize::MAX,
    ensures
        cell < capacity,
        exists|fed: Seq<u8>| cell as int == cell_of(#[trigger] fnv1a_64_of(fed), capacity),
{
    cell_for(fnv_digest(value), capacity)
}

/// A counter index below `capacity` for `value` in the row `seed`, from XXH3.
pub fn xxhash_seeded<T: Hash>(capacity: u64, value: &T, seed: u64) -> (cell: usize)
    requires
        0 < capacity <= usize::MAX,
    ensures
        cell < capacity,
{
    cell_for(xxh3_digest_seeded(seed, value), capacity)
}

/// The counter that a digest picks among `capacity` counters.
pub open spec fn cell_of(digest: u64, capacity: u64) -> int {
    digest as int % capacity as int
}

/// The counter that `digest` picks among `capacity` counters: the digest
/// modulo the capacity.
pub fn cell_for(digest: u64, capacity: u64) -> (cell: usize)
    requires
        0 < capacity <= usize::MAX,
    ensures
        cell as int == cell_of(digest, capacity),
        cell < capacity,
{
    (digest % capacity) as usize
}

} // verus!
