use rusty_structures::quotient_filter::filter::QuotientFilter;
use rusty_structures::quotient_filter::hashing::fingerprint;
use rusty_structures::quotient_filter::model::FingerprintWidth;
use rusty_structures::sketch::hashing::{
    cell_for, default_hash, fnv_hash, xxhash, xxhash_seeded,
};

#[test]
fn fingerprints_of_64_bits_are_fnv1a() {
    assert_eq!(fingerprint(FingerprintWidth::Bits64, b""), 14695981039346656037);
    assert_eq!(fingerprint(FingerprintWidth::Bits64, b"a"), 12638187200555641996);
    assert_eq!(fingerprint(FingerprintWidth::Bits64, b"ab"), 620445648566982762);
    assert_eq!(fingerprint(FingerprintWidth::Bits64, b"abcd"), 18165163011005162717);
}

#[test]
fn fingerprints_of_32_bits_are_murmur3_with_the_fixed_seed() {
    assert_eq!(fingerprint(FingerprintWidth::Bits32, b""), MURMUR_OF_NOTHING);
    assert_eq!(fingerprint(FingerprintWidth::Bits32, b"a"), MURMUR_OF_A);
    assert!(fingerprint(FingerprintWidth::Bits32, b"some longer key") <= u32::MAX as u64);
}

const MURMUR_OF_NOTHING: u64 = 1344066337;
const MURMUR_OF_A: u64 = 1400172300;

#[test]
fn value_operations_use_the_fingerprint_of_the_width() {
    let mut narrow = QuotientFilter::new(6).unwrap();
    let stored = narrow.insert_value(b"key").unwrap();
    assert_eq!(narrow.get_index(fingerprint(FingerprintWidth::Bits32, b"key")), Some(stored));
    assert!(narrow.lookup(fingerprint(FingerprintWidth::Bits32, b"key")));
    let mut wide = QuotientFilter::with_width(FingerprintWidth::Bits64, 6).unwrap();
    let stored = wide.insert_value(b"key").unwrap();
    assert_eq!(wide.get_index(fingerprint(FingerprintWidth::Bits64, b"key")), Some(stored));
    wide.delete(fingerprint(FingerprintWidth::Bits64, b"key"));
    assert!(!wide.read_value(b"key"));
}

#[test]
fn sketch_hashes_stay_below_the_capacity() {
    for capacity in [1u64, 2, 8, 24, 1000] {
        for value in 0..50 {
            assert!((default_hash(capacity, &value) as u64) < capacity);
            assert!((xxhash(capacity, &value) as u64) < capacity);
            assert!((fnv_hash(capacity, &value) as u64) < capacity);
            assert!((xxhash_seeded(capacity, &value, 3) as u64) < capacity);
        }
    }
}

#[test]
fn sketch_hashes_depend_on_the_value_and_the_seed() {
    let capacity = 1 << 40;
    assert_eq!(xxhash(capacity, &5), xxhash(capacity, &5));
    assert_ne!(xxhash(capacity, &5), xxhash(capacity, &6));
    assert_ne!(fnv_hash(capacity, &5), fnv_hash(capacity, &6));
    assert_ne!(default_hash(capacity, &5), default_hash(capacity, &6));
    assert_ne!(xxhash_seeded(capacity, &5, 0), xxhash_seeded(capacity, &5, 1));
    assert_ne!(xxhash(capacity, &5), xxhash_seeded(capacity, &5, 0));
}

#[test]
fn cell_is_the_digest_modulo_the_capacity() {
    assert_eq!(cell_for(0, 8), 0);
    assert_eq!(cell_for(29, 8), 5);
    assert_eq!(cell_for(7, 8), 7);
    assert_eq!(cell_for(u64::MAX, 1), 0);
    assert_eq!(cell_for(u64::MAX, 1000), 615);
    assert_eq!(cell_for(12, u64::MAX >> 1), 12);
}

#[test]
fn fnv_hash_is_fnv1a_of_what_the_value_feeds() {
    // a byte feeds the hasher itself
    for (byte, text) in [(b'a', &b"a"[..]), (b'b', &b"b"[..]), (5u8, &[5u8][..])] {
        let digest = fingerprint(FingerprintWidth::Bits64, text);
        for capacity in [8u64, 24, 1 << 40] {
            assert_eq!(fnv_hash(capacity, &byte) as u64, digest % capacity);
        }
    }
    assert_eq!(fnv_hash(1 << 62, &b'a') as u64, 12638187200555641996 % (1 << 62));
}
