//! The hash functions of byte strings.

use vstd::prelude::*;

verus! {

/// The 32-bit MurmurHash3 of `data` under `seed`.
pub uninterp spec fn murmur3_32_of(data: Seq<u8>, seed: u32) -> u32;

/// The 64-bit FNV-1a hash of `bytes`: from the offset basis, each byte is
/// xored in and the result multiplied by the FNV prime, modulo two to the 64.
pub open spec fn fnv1a_64_of(bytes: Seq<u8>) -> u64
    decreases bytes.len(),
{
    if bytes.len() == 0 {
        0xcbf29ce484222325u64
    } else {
        let mixed = fnv1a_64_of(bytes.drop_last()) ^ (bytes.last() as u64);
        ((mixed as int * 0x100000001b3) % 0x1_0000_0000_0000_0000) as u64
    }
}

/// The 128-bit FNV-1a hash of `bytes`: from the offset basis, each byte is
/// xored in and the result multiplied by the FNV prime, modulo two to the 128.
pub open spec fn fnv1a_128_of(bytes: Seq<u8>) -> u128
    decreases bytes.len(),
{
    if bytes.len() == 0 {
        0x6c62272e07bb014262b821756295c58du128
    } else {
        let mixed = fnv1a_128_of(bytes.drop_last()) ^ (bytes.last() as u128);
        ((mixed as int * 0x0000000001000000000000000000013b) % (u128::MAX as int + 1)) as u128
    }
}

/// How many bytes `const_fnv1a_hash` hashes of `length` bytes under `limit`:
/// the limit where it is positive and within the length, else all of them.
pub open spec fn fnv_span(length: nat, limit: Option<usize>) -> nat {
    match limit {
        Some(bound) => if 0 < bound <= length {
            bound as nat
        } else {
            length
        },
        None => length,
    }
}

/// `const_murmur3::murmur3_32`: the result is a function of the bytes and the
/// seed, named `murmur3_32_of`.
#[verifier::external_body]
pub(crate) fn murmur3_32(data: &[u8], seed: u32) -> (hash: u32)
    ensures
        hash == murmur3_32_of(data@, seed),
{
    const_murmur3::murmur3_32(data, seed)
}

/// `fastmurmur3::murmur3_x64_128`: the two halves of the hash are put together
/// in the byte order of the machine, so nothing is claimed of the number that
/// comes back.
#[verifier::external_body]
pub(crate) fn murmur3_x64_128(data: &[u8], seed: u64) -> (hash: u128) {
    fastmurmur3::murmur3_x64_128(data, seed)
}

/// `const_fnv1a_hash::fnv1a_hash_64`: the FNV-1a hash of the first bytes of
/// the slice, as many as `fnv_span` says.
#[verifier::external_body]
pub(crate) fn fnv1a_hash_64(bytes: &[u8], limit: Option<usize>) -> (hash: u64)
    ensures
        hash == fnv1a_64_of(bytes@.take(fnv_span(bytes@.len(), limit) as int)),
{
    const_fnv1a_hash::fnv1a_hash_64(bytes, limit)
}

/// `const_fnv1a_hash::fnv1a_hash_128`: the FNV-1a hash of the first bytes of
/// the slice, as many as `fnv_span` says.
#[verifier::external_body]
pub(crate) fn fnv1a_hash_128(bytes: &[u8], limit: Option<usize>) -> (hash: u128)
    ensures
        hash == fnv1a_128_of(bytes@.take(fnv_span(bytes@.len(), limit) as int)),
{
    const_fnv1a_hash::fnv1a_hash_128(bytes, limit)
}

} // verus!
