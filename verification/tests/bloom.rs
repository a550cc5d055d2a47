use rusty_structures::bloom::bloom_filter::BloomFilter;
use rusty_structures::bloom::byte_filter::BloomFilter as ByteBloomFilter;
use rusty_structures::bloom::simple_bloom_filter::SimpleBloomFilter;

fn bloom_filter(max_size: usize, max_tolerance: Option<f64>, seed: Option<u64>) -> BloomFilter {
    let max_tolerance = max_tolerance.unwrap_or(0.01);
    let ln2 = f64::ln(2.0);
    let calc = -(max_size as f64 * f64::ln(max_tolerance) / ln2 / ln2).ceil();
    let num_of_hash_functions = -((max_tolerance.ln()) / ln2).ceil();
    BloomFilter::with_parameters(
        calc as usize,
        num_of_hash_functions as usize,
        seed.unwrap_or(rand::random()),
    )
}

fn simple_bloom_filter(number_of_elements: u64, false_positive_rate: f64) -> SimpleBloomFilter {
    let ln2 = f64::ln(2.0);
    let space = (-false_positive_rate.ln() * number_of_elements as f64 / f64::powf(ln2, 2_f64)) as u64;
    let number_of_hash_functions = (space as f64 * ln2 / number_of_elements as f64) as u64;
    SimpleBloomFilter::with_parameters(number_of_elements, space, number_of_hash_functions)
}

#[test]
fn contains_oneelement_true() {
    let mut bloom = bloom_filter(16, None, None);
    bloom.insert(&1_u32.to_be_bytes());
    let result = bloom.contains(&1_u32.to_be_bytes(), None);

    assert!(result);
}

#[test]
fn contains_oneelement_false() {
    let mut bloom = bloom_filter(16, None, None);
    bloom.insert(&1_u32.to_be_bytes());
    let result = bloom.contains(&2_u32.to_be_bytes(), None);

    assert!(!result);
}

#[test]
fn lookup_oneelement_returnstrue() {
    let mut bloom = simple_bloom_filter(10, 0.01);
    bloom.insert(&1_u32.to_be_bytes());
    let result = bloom.lookup(&1_u32.to_be_bytes());
    assert!(result);
}

#[test]
fn lookup_oneelement_returnsfalse() {
    let mut bloom = simple_bloom_filter(10, 0.01);
    bloom.insert(&1_u32.to_be_bytes());
    let result = bloom.lookup(&2_u32.to_be_bytes());
    assert!(!result);
}

#[test]
fn bloom_parameters_from_the_tolerance() {
    let bloom = bloom_filter(16, None, Some(7));
    assert_eq!(bloom.number_of_bits(), 153);
    assert_eq!(bloom.num_of_hash_functions(), 6);
    assert_eq!(bloom.data().len(), 20);
    assert_eq!(bloom.size(), 0);
    assert!(bloom.data().iter().all(|byte| *byte == 0));
    let simple = simple_bloom_filter(10, 0.01);
    assert_eq!(simple.space(), 95);
    assert_eq!(simple.number_of_hash_functions(), 6);
    assert_eq!(simple.number_of_elements(), 10);
}

#[test]
fn bits_are_written_and_read() {
    let mut bloom = BloomFilter::with_parameters(20, 2, 1);
    assert_eq!(bloom.data().len(), 3);
    assert_eq!(bloom.find_bit_coordinates(13), (1, 5));
    assert!(!bloom.read_bit(13));
    bloom.write_bit(13);
    assert!(bloom.read_bit(13));
    assert!(!bloom.read_bit(12));
    assert!(!bloom.read_bit(5));
    assert_eq!(bloom.data()[1], 1 << 5);
    // beyond the array nothing is written or read
    bloom.write_bit(24);
    assert!(!bloom.read_bit(24));
    assert_eq!(bloom.data().len(), 3);
}

#[test]
fn positions_follow_the_two_hashes() {
    let bloom = BloomFilter::with_parameters(100, 4, 1);
    // first + round * second + round * round, modulo the number of bits
    assert_eq!(bloom.positions_from(7, 10), vec![7, 18, 31, 46]);
    assert_eq!(bloom.positions_from(usize::MAX, 1), vec![usize::MAX % 100, 1, 5, 11]);
    let positions = bloom.key_2_positions(&"key");
    assert_eq!(positions.len(), 4);
    assert!(positions.iter().all(|position| *position < 100));
}

#[test]
fn inserted_positions_are_reported_and_counted() {
    let mut bloom = BloomFilter::with_parameters(64, 3, 1);
    let positions = [3usize, 17, 60];
    assert!(!bloom.contains_positions(&positions));
    bloom.insert_positions(&positions);
    assert!(bloom.contains_positions(&positions));
    assert!(bloom.contains(&"anything", Some(&positions)));
    assert!(!bloom.contains_positions(&[3, 4]));
    assert_eq!(bloom.size(), 3);
    // nothing is counted where all positions are set already
    bloom.insert_positions(&positions);
    assert_eq!(bloom.size(), 3);
    bloom.insert_positions(&[3, 4]);
    assert_eq!(bloom.size(), 5);
    assert!(bloom.contains_positions(&[3, 4, 17, 60]));
}

#[test]
fn byte_keys_are_reported_after_insertion() {
    let mut bloom = ByteBloomFilter::with_parameters(154, 6, 99);
    assert!(!bloom.contains(b"first", None));
    bloom.insert(b"first");
    assert!(bloom.contains(b"first", None));
    let positions = bloom.key_2_positions(b"first");
    assert_eq!(positions.len(), 6);
    // the positions of a key lie within the first segment
    assert!(positions.iter().all(|position| *position < 8));
    assert!(bloom.contains(b"other", Some(&positions)));
    assert!(bloom.size() <= 6);
    assert_eq!(bloom.data().len(), 20);
}

#[test]
fn byte_key_positions_follow_the_two_hashes() {
    let bloom = ByteBloomFilter::with_parameters(64, 6, 1);
    // first + round * second + round * round, within the first segment
    assert_eq!(bloom.positions_from(0, 5), vec![0, 6, 6, 0, 4, 2]);
    assert_eq!(bloom.positions_from(u128::MAX, 1), vec![7, 1, 5, 3, 3, 5]);
    assert_eq!(ByteBloomFilter::narrow(12), 12);
    assert_eq!(bloom.number_of_bits(), 64);
    assert_eq!(bloom.num_of_hash_functions(), 6);
    // the second hash is FNV-1a: the step from one round to the next shows it
    for (key, second) in [(&b""[..], 5_u128), (&b"a"[..], 4_u128)] {
        let positions = bloom.key_2_positions(key);
        assert_eq!(positions, bloom.key_2_positions(key));
        assert_eq!((positions[0] + second + 1) % 8, positions[1]);
        assert_eq!((positions[0] + 2 * second + 4) % 8, positions[2]);
    }
}

#[test]
fn byte_positions_are_set_and_counted() {
    let mut bloom = ByteBloomFilter::with_parameters(16, 2, 1);
    bloom.insert_positions(&[1, 9]);
    assert!(bloom.contains_positions(&[1, 9]));
    assert!(bloom.contains(b"any", Some(&[9])));
    assert!(!bloom.contains_positions(&[1, 2]));
    assert_eq!(bloom.size(), 2);
    bloom.insert_positions(&[9, 1]);
    assert_eq!(bloom.size(), 2);
    // a position beyond the array is never set
    bloom.insert_positions(&[16]);
    assert!(!bloom.contains_positions(&[16]));
    assert_eq!(bloom.size(), 3);
    assert_eq!(bloom.data(), &vec![2u8, 2u8]);
}

#[test]
fn simple_filter_marks_and_reports_indices() {
    let mut bloom = SimpleBloomFilter::with_parameters(10, 95, 6);
    assert!(!bloom.lookup_at(&[1, 50, 94]));
    bloom.insert_at(&[1, 50, 94]);
    assert!(bloom.lookup_at(&[1, 50, 94]));
    assert!(bloom.lookup_at(&[50]));
    assert!(!bloom.lookup_at(&[1, 51]));
    // an index beyond the bits is never set
    assert!(!bloom.lookup_at(&[95]));
    assert!(bloom.lookup_at(&[]));
    let indices = bloom.indices_of(b"item");
    assert_eq!(indices.len(), 6);
    assert!(indices.iter().all(|index| *index < 95));
    assert_eq!(indices, bloom.indices_of(b"item"));
}
