//! The calls into hashers that take any hashable value. Which bytes a value
//! feeds a hasher is not known here, so a digest is known at most as the hash
//! of some bytes.

use vstd::prelude::*;
use vstd::std_specs::hash::DefaultHasherAdditionalSpecFns;
use std::collections::hash_map::DefaultHasher;
use std::hash::Hash;
use std::hash::Hasher;
use crate::byte_hashes::fnv1a_64_of;

verus! {

/// `Hash::hash` of the standard library: feeds `value` to the hasher. Nothing
/// is claimed of what the hasher has seen afterwards.
#[verifier::external_body]
pub(crate) fn feed<T: Hash>(value: &T, state: &mut DefaultHasher) {
    value.hash(state)
}

/// `xxhash_rust::xxh3::Xxh3` as a `Hasher`: a new hasher takes `value`; the
/// result is its digest. Nothing is claimed of the digest.
#[verifier::external_body]
pub(crate) fn xxh3_digest<T: Hash>(value: &T) -> (digest: u64) {
    let mut hasher = xxhash_rust::xxh3::Xxh3::default();
    value.hash(&mut hasher);
    hasher.finish()
}

/// `xxhash_rust::xxh3::Xxh3` as a `Hasher`: a new hasher takes the word `seed`
/// and then `value`; the result is its digest. Nothing is claimed of the
/// digest.
#[verifier::external_body]
pub(crate) fn xxh3_digest_seeded<T: Hash>(seed: u64, value: &T) -> (digest: u64) {
    let mut hasher = xxhash_rust::xxh3::Xxh3::default();
    hasher.write_u64(seed);
    value.hash(&mut hasher);
    hasher.finish()
}

/// `hashers::fnv::FNV1aHasher64` as a `Hasher`: a new hasher starts from the
/// FNV offset basis and takes in each byte that `value` feeds it by an xor
/// and a multiplication with the FNV prime; the result is its state. So the
/// result is the FNV-1a hash of the bytes that were fed. Which bytes a value
/// feeds is not claimed.
#[verifier::external_body]
pub(crate) fn fnv_digest<T: Hash>(value: &T) -> (digest: u64)
    ensures
        exists|fed: Seq<u8>| digest == #[trigger] fnv1a_64_of(fed),
{
    let mut hasher = hashers::fnv::FNV1aHasher64::default();
    value.hash(&mut hasher);
    hasher.finish()
}

/// `twox_hash::XxHash64` as a `Hasher`: a hasher made with `seed` takes
/// `value`; the result is its digest. Nothing is claimed of the digest.
#[verifier::external_body]
pub(crate) fn xxhash64_digest<T: Hash>(seed: u64, value: &T) -> (digest: u64) {
    let mut hasher = twox_hash::XxHash64::with_seed(seed);
    value.hash(&mut hasher);
    hasher.finish()
}

/// The digest of `value` by the standard library's default hasher: what a
/// new hasher gives at its finish after the value was fed to it.
pub fn default_digest<T: Hash>(value: &T) -> (digest: u64)
    ensures
        exists|written: Seq<Seq<u8>>| digest == #[trigger] DefaultHasher::spec_finish(written),
{
    let mut hasher = DefaultHasher::new();
    feed(value, &mut hasher);
    let digest = hasher.finish();
    assert(digest == DefaultHasher::spec_finish(hasher@));
    digest
}

} // verus!
