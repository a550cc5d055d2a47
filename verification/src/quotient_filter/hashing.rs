//! The hash functions that turn a byte string into a fingerprint.

use vstd::prelude::*;
use super::model::FingerprintWidth;
use crate::byte_hashes::{fnv1a_64_of, fnv1a_hash_64, murmur3_32, murmur3_32_of};

verus! {

/// The seed of the 32-bit fingerprints.
pub const MURMUR_SEED: u32 = 2023;

/// The fingerprint of `value` for a filter of `width`.
pub open spec fn fingerprint_for(width: FingerprintWidth, value: Seq<u8>) -> u64 {
    match width {
        FingerprintWidth::Bits32 => murmur3_32_of(value, MURMUR_SEED) as u64,
        FingerprintWidth::Bits64 => fnv1a_64_of(value),
    }
}

/// Hashes `value` to a fingerprint of `width`: MurmurHash3 with the fixed seed
/// for 32 bits, FNV-1a for 64 bits.
pub fn fingerprint(width: FingerprintWidth, value: &[u8]) -> (hash: u64)
    ensures
        hash == fingerprint_for(width, value@),
        width == FingerprintWidth::Bits32 ==> hash <= u32::MAX,
{
    match width {
        FingerprintWidth::Bits32 => murmur3_32(value, MURMUR_SEED) as u64,
        FingerprintWidth::Bits64 => {
            assert(value@.take(value@.len() as int) =~= value@);
            fnv1a_hash_64(value, None)
        },
    }
}

} // verus!
