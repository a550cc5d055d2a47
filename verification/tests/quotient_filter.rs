use rusty_structures::quotient_filter::error::QuotientFilterError;
use rusty_structures::quotient_filter::filter::QuotientFilter;
use rusty_structures::quotient_filter::model::FingerprintWidth;

fn wide(quotient_size: u8) -> QuotientFilter {
    QuotientFilter::with_width(FingerprintWidth::Bits64, quotient_size).unwrap()
}

#[test]
fn insert_one() {
    let mut filter = wide(2);
    let idx = filter.insert_value(&1_u8.to_be_bytes()).unwrap(); // 1_u8's quotient is 2
    assert_eq!(idx, 2);
    assert!(filter.slot(2).is_run_start());
    assert!(filter.slot(2).is_cluster_start());
}

#[test]
fn insert_two_same_quotient() {
    let mut filter = wide(2);
    let idx1 = filter.insert_value(&1_u8.to_be_bytes()).unwrap(); // 1_u8's quotient is 2
    let idx2 = filter.insert_value(&2_u8.to_be_bytes()).unwrap(); // 2_u8's quotient is 2
    assert_eq!(idx1, 2);
    assert_eq!(idx2, 3);
    assert!(!filter.slot(3).is_occupied());
    assert!(filter.slot(3).is_run_continued());
    assert!(filter.slot(3).is_shifted());
}

#[test]
fn insert_second_run_on_different_quotient() {
    let mut filter = wide(2);
    let idx1 = filter.insert_value(&1_u8.to_be_bytes()).unwrap(); // 1_u8's quotient is 2
    let idx2 = filter.insert_value(&2_u8.to_be_bytes()).unwrap(); // 2_u8's quotient is 2
    let idx3 = filter.insert_value(&567889965_u64.to_be_bytes()).unwrap(); // quotient is 3
    assert_eq!(idx1, 2);
    assert_eq!(idx2, 3);
    assert_eq!(idx3, 0);
    assert!(!filter.slot(0).is_occupied());
    assert!(!filter.slot(0).is_run_continued());
    assert!(filter.slot(0).is_shifted());
}

#[test]
fn insert_multiple_runs_different_quotients_sequentially() {
    let mut filter = wide(3);
    let idx1 = filter.insert_value(&1_u8.to_be_bytes()).unwrap(); // 5
    let idx2 = filter.insert_value(&2_u8.to_be_bytes()).unwrap(); // 5
    let idx3 = filter.insert_value(&3_u8.to_be_bytes()).unwrap(); // 5
    let idx4 = filter.insert_value(&75324433_u32.to_be_bytes()).unwrap(); // 7
    let idx5 = filter.insert_value(&75324434_u32.to_be_bytes()).unwrap(); // 7
    let idx6 = filter.insert_value(&567889965_u64.to_be_bytes()).unwrap(); // 6

    assert_eq!(idx1, 5);
    assert_eq!(idx2, 6);
    assert_eq!(idx3, 6); // has a smaller remainder
    assert_eq!(idx4, 0);
    assert_eq!(idx5, 0); // has a smaller remainder
    assert_eq!(idx6, 0); // the new run goes between the two that are there

    assert!(!filter.slot(0).is_occupied());
    assert!(!filter.slot(0).is_run_continued());
    assert!(filter.slot(0).is_shifted()); // 0 0 1

    assert!(!filter.slot(1).is_occupied());
    assert!(!filter.slot(1).is_run_continued());
    assert!(filter.slot(1).is_shifted()); // 0 0 1

    assert!(!filter.slot(2).is_occupied());
    assert!(filter.slot(2).is_run_continued());
    assert!(filter.slot(2).is_shifted()); // 0 1 1

    assert!(filter.slot(5).is_occupied());
    assert!(!filter.slot(5).is_run_continued());
    assert!(!filter.slot(5).is_shifted()); // 1 0 0

    assert!(filter.slot(6).is_occupied());
    assert!(filter.slot(6).is_run_continued());
    assert!(filter.slot(6).is_shifted()); // 1 1 1

    assert!(filter.slot(7).is_occupied());
    assert!(filter.slot(7).is_run_continued());
    assert!(filter.slot(7).is_shifted()); // 1 1 1
}

#[test]
fn lib_insert_and_read_one_success() {
    let mut filter = wide(5);
    _ = filter.insert_value(&1_u8.to_be_bytes());
    let result = filter.read_value(&1_u8.to_be_bytes());

    assert!(result);
}

#[test]
fn lib_insert_and_read_multiple_success() {
    let mut filter = wide(5);
    _ = filter.insert_value(&1_u8.to_be_bytes());
    _ = filter.insert_value(&2_u8.to_be_bytes());
    _ = filter.insert_value(&3_u8.to_be_bytes());
    let result = filter.read_value(&2_u8.to_be_bytes());

    assert!(result);
}

#[test]
fn lib_insert_and_read_one_failure() {
    let mut filter = wide(5);
    _ = filter.insert_value(&1_u8.to_be_bytes());
    let result = filter.read_value(&2_u8.to_be_bytes());

    assert!(!result);
}

#[test]
fn lib_insert_and_read_multiple_failure() {
    let mut filter = wide(5);
    _ = filter.insert_value(&1_u8.to_be_bytes());
    _ = filter.insert_value(&2_u8.to_be_bytes());
    _ = filter.insert_value(&3_u8.to_be_bytes());
    let result = filter.read_value(&4_u8.to_be_bytes());

    assert!(!result);
}

#[test]
fn lib_delete_read_one_success() {
    let mut filter = wide(5);
    _ = filter.insert_value(&1_u8.to_be_bytes());
    filter.delete_value(&1_u8.to_be_bytes());
    let result = filter.read_value(&1_u8.to_be_bytes());

    assert!(!result);
}

#[test]
fn lib_delete_read_multiple_success() {
    let mut filter = wide(5);
    _ = filter.insert_value(&1_u8.to_be_bytes());
    _ = filter.insert_value(&2_u8.to_be_bytes());
    _ = filter.insert_value(&3_u8.to_be_bytes());
    _ = filter.insert_value(&4_u8.to_be_bytes());
    filter.delete_value(&2_u8.to_be_bytes());
    let result = filter.read_value(&2_u8.to_be_bytes());

    assert!(!result);
}

#[test]
fn lib_delete_read_multiple_value_multiple_success() {
    let mut filter = wide(10);
    _ = filter.insert_value(&1_u8.to_be_bytes());
    _ = filter.insert_value(&2_u8.to_be_bytes());
    _ = filter.insert_value(&3_u8.to_be_bytes());
    _ = filter.insert_value(&4_u8.to_be_bytes());
    _ = filter.insert_value(&5_u8.to_be_bytes());
    _ = filter.insert_value(&6_u8.to_be_bytes());
    filter.delete_value(&2_u8.to_be_bytes());
    filter.delete_value(&3_u8.to_be_bytes());
    filter.delete_value(&6_u8.to_be_bytes());
    let result1 = filter.read_value(&2_u8.to_be_bytes());
    let result2 = filter.read_value(&3_u8.to_be_bytes());
    let result3 = filter.read_value(&6_u8.to_be_bytes());

    assert!(!result1);
    assert!(!result2);
    assert!(!result3);
}

#[test]
fn quotient_filter_insert_and_read_one_success() {
    let mut filter = wide(5);
    _ = filter.insert_value(&1_u8.to_be_bytes());
    let result = filter.read_value(&1_u8.to_be_bytes());

    assert!(result);
}

#[test]
fn quotient_filter_insert_and_read_multiple_success() {
    let mut filter = wide(5);
    _ = filter.insert_value(&1_u8.to_be_bytes());
    _ = filter.insert_value(&2_u8.to_be_bytes());
    _ = filter.insert_value(&3_u8.to_be_bytes());
    let result = filter.read_value(&2_u8.to_be_bytes());

    assert!(result);
}

#[test]
fn quotient_filter_insert_and_read_one_failure() {
    let mut filter = wide(5);
    _ = filter.insert_value(&1_u8.to_be_bytes());
    let result = filter.read_value(&2_u8.to_be_bytes());

    assert!(!result);
}

#[test]
fn quotient_filter_insert_and_read_multiple_failure() {
    let mut filter = wide(5);
    _ = filter.insert_value(&1_u8.to_be_bytes());
    _ = filter.insert_value(&2_u8.to_be_bytes());
    _ = filter.insert_value(&3_u8.to_be_bytes());
    let result = filter.read_value(&4_u8.to_be_bytes());

    assert!(!result);
}

#[test]
fn delete_value_one_success() {
    let mut filter = wide(5);
    _ = filter.insert_value(&1_u8.to_be_bytes());
    filter.delete_value(&1_u8.to_be_bytes());
    let result = filter.read_value(&1_u8.to_be_bytes());

    assert!(!result);
}

#[test]
fn delete_value_multiple_success() {
    let mut filter = wide(5);
    _ = filter.insert_value(&1_u8.to_be_bytes());
    _ = filter.insert_value(&2_u8.to_be_bytes());
    _ = filter.insert_value(&3_u8.to_be_bytes());
    _ = filter.insert_value(&4_u8.to_be_bytes());
    filter.delete_value(&2_u8.to_be_bytes());
    let result = filter.read_value(&2_u8.to_be_bytes());

    assert!(!result);
}

#[test]
fn delete_multiple_value_multiple_success() {
    let mut filter = wide(10);
    _ = filter.insert_value(&1_u8.to_be_bytes());
    _ = filter.insert_value(&2_u8.to_be_bytes());
    _ = filter.insert_value(&3_u8.to_be_bytes());
    _ = filter.insert_value(&4_u8.to_be_bytes());
    _ = filter.insert_value(&5_u8.to_be_bytes());
    _ = filter.insert_value(&6_u8.to_be_bytes());
    filter.delete_value(&2_u8.to_be_bytes());
    filter.delete_value(&3_u8.to_be_bytes());
    filter.delete_value(&6_u8.to_be_bytes());
    let result1 = filter.read_value(&2_u8.to_be_bytes());
    let result2 = filter.read_value(&3_u8.to_be_bytes());
    let result3 = filter.read_value(&6_u8.to_be_bytes());

    assert!(!result1);
    assert!(!result2);
    assert!(!result3);
}

#[test]
fn filter_insert_and_read_one_success() {
    let mut filter = QuotientFilter::new(5).unwrap();
    _ = filter.insert_value(&1_u8.to_be_bytes());
    let result = filter.lookup_value(&1_u8.to_be_bytes());

    assert!(result);
}

#[test]
fn filter_insert_and_read_multiple_success() {
    let mut filter = QuotientFilter::new(5).unwrap();
    _ = filter.insert_value(&1_u8.to_be_bytes());
    _ = filter.insert_value(&2_u8.to_be_bytes());
    _ = filter.insert_value(&3_u8.to_be_bytes());
    let result = filter.lookup_value(&2_u8.to_be_bytes());

    assert!(result);
}

#[test]
fn filter_insert_and_read_one_failure() {
    let mut filter = QuotientFilter::new(5).unwrap();
    _ = filter.insert_value(&1_u8.to_be_bytes());
    let result = filter.lookup_value(&2_u8.to_be_bytes());

    assert!(!result);
}

#[test]
fn filter_insert_and_read_multiple_failure() {
    let mut filter = QuotientFilter::new(5).unwrap();
    _ = filter.insert_value(&1_u8.to_be_bytes());
    _ = filter.insert_value(&2_u8.to_be_bytes());
    _ = filter.insert_value(&3_u8.to_be_bytes());
    let result = filter.lookup_value(&4_u8.to_be_bytes());

    assert!(!result);
}

#[test]
fn filter_delete_read_one_success() {
    let mut filter = QuotientFilter::new(5).unwrap();
    _ = filter.insert_value(&1_u8.to_be_bytes());
    filter.delete_value(&1_u8.to_be_bytes());
    let result = filter.lookup_value(&1_u8.to_be_bytes());

    assert!(!result);
}

#[test]
fn filter_delete_read_multiple_success() {
    let mut filter = QuotientFilter::new(5).unwrap();
    _ = filter.insert_value(&1_u8.to_be_bytes());
    _ = filter.insert_value(&2_u8.to_be_bytes());
    _ = filter.insert_value(&3_u8.to_be_bytes());
    _ = filter.insert_value(&4_u8.to_be_bytes());
    filter.delete_value(&2_u8.to_be_bytes());
    let result = filter.lookup_value(&2_u8.to_be_bytes());

    assert!(!result);
}

#[test]
fn filter_delete_read_multiple_value_multiple_success() {
    let mut filter = QuotientFilter::new(10).unwrap();
    _ = filter.insert_value(&1_u8.to_be_bytes());
    _ = filter.insert_value(&2_u8.to_be_bytes());
    _ = filter.insert_value(&3_u8.to_be_bytes());
    _ = filter.insert_value(&4_u8.to_be_bytes());
    _ = filter.insert_value(&5_u8.to_be_bytes());
    _ = filter.insert_value(&6_u8.to_be_bytes());
    filter.delete_value(&2_u8.to_be_bytes());
    filter.delete_value(&3_u8.to_be_bytes());
    filter.delete_value(&6_u8.to_be_bytes());
    let result1 = filter.lookup_value(&2_u8.to_be_bytes());
    let result2 = filter.lookup_value(&3_u8.to_be_bytes());
    let result3 = filter.lookup_value(&6_u8.to_be_bytes());

    assert!(!result1);
    assert!(!result2);
    assert!(!result3);
}

#[test]
fn read_after_resize_one_element() {
    let mut filter = QuotientFilter::new(2).unwrap();
    _ = filter.insert_value(&1_u8.to_be_bytes());
    _ = filter.resize();
    assert!(filter.lookup_value(&1_u8.to_be_bytes()));
}

#[test]
fn new_filter_reports_nothing() {
    let filter = QuotientFilter::new(4).unwrap();
    assert_eq!(filter.size(), 16);
    assert_eq!(filter.count(), 0);
    assert_eq!(filter.remainder_size(), 28);
    for fingerprint in [0u64, 1, 77, 0xffff_ffff] {
        assert!(!filter.lookup(fingerprint));
    }
    assert!(!filter.lookup_value(b"anything"));
}

#[test]
fn quotient_size_is_bounded_by_the_width() {
    assert!(QuotientFilter::new(12).is_ok());
    assert!(matches!(QuotientFilter::new(31), Err(QuotientFilterError::InvalidQuotientSize)));
    assert!(matches!(
        QuotientFilter::with_width(FingerprintWidth::Bits64, 62),
        Err(QuotientFilterError::InvalidQuotientSize)
    ));
    assert!(QuotientFilter::with_width(FingerprintWidth::Bits64, 20).is_ok());
}

#[test]
fn fingerprint_wider_than_the_filter_is_refused() {
    let mut filter = QuotientFilter::new(3).unwrap();
    assert_eq!(filter.insert(1 << 32), Err(QuotientFilterError::ConvertingError));
    assert_eq!(filter.count(), 0);
    assert!(!filter.lookup(1 << 32));
    filter.delete(1 << 32);
    assert_eq!(filter.count(), 0);
}

#[test]
fn split_gives_quotient_and_remainder() {
    let filter = QuotientFilter::new(3).unwrap();
    // 3 bits of quotient, 29 bits of remainder
    assert_eq!(filter.fingerprint_destruction((5 << 29) | 1234), Ok((5, 1234)));
    assert_eq!(filter.fingerprint_destruction(0), Ok((0, 0)));
    assert_eq!(filter.fingerprint_destruction(0xffff_ffff), Ok((7, (1 << 29) - 1)));
    assert_eq!(
        filter.fingerprint_destruction(0x1_0000_0000),
        Err(QuotientFilterError::ConvertingError)
    );
}

#[test]
fn first_and_second_of_a_run() {
    let mut filter = QuotientFilter::new(2).unwrap();
    let first = filter.insert((2 << 30) | 10).unwrap();
    assert_eq!(first, 2);
    assert!(filter.slot(2).is_occupied());
    assert!(!filter.slot(2).is_run_continued());
    assert!(!filter.slot(2).is_shifted());
    let second = filter.insert((2 << 30) | 20).unwrap();
    assert_eq!(second, 3);
    assert!(!filter.slot(3).is_occupied());
    assert!(filter.slot(3).is_run_continued());
    assert!(filter.slot(3).is_shifted());
    assert_eq!(filter.slot(3).get_remainder(), 20);
    assert_eq!(filter.count(), 2);
    assert_eq!(filter.get_index((2 << 30) | 20), Some(3));
    assert_eq!(filter.get_index((2 << 30) | 10), Some(2));
    assert_eq!(filter.get_index((2 << 30) | 15), None);
}

#[test]
fn new_run_between_two_runs() {
    let mut filter = QuotientFilter::new(3).unwrap();
    let at = |quotient: u64, remainder: u64| (quotient << 29) | remainder;
    assert_eq!(filter.insert(at(5, 10)), Ok(5));
    assert_eq!(filter.insert(at(5, 30)), Ok(6));
    assert_eq!(filter.insert(at(5, 20)), Ok(6));
    assert_eq!(filter.insert(at(7, 50)), Ok(0));
    assert_eq!(filter.insert(at(7, 40)), Ok(0));
    assert_eq!(filter.insert(at(6, 60)), Ok(0));

    let flags = |index: usize| {
        let slot = filter.slot(index);
        (slot.is_occupied(), slot.is_run_continued(), slot.is_shifted())
    };
    assert_eq!(flags(0), (false, false, true));
    assert_eq!(flags(1), (false, false, true));
    assert_eq!(flags(2), (false, true, true));
    assert_eq!(flags(5), (true, false, false));
    assert_eq!(flags(6), (true, true, true));
    assert_eq!(flags(7), (true, true, true));
    assert_eq!(filter.slot(0).get_remainder(), 60);
    assert_eq!(filter.slot(1).get_remainder(), 40);
    assert_eq!(filter.slot(2).get_remainder(), 50);
    assert_eq!(filter.slot(5).get_remainder(), 10);
    assert_eq!(filter.slot(6).get_remainder(), 20);
    assert_eq!(filter.slot(7).get_remainder(), 30);
    assert_eq!(filter.count(), 6);
}

#[test]
fn resize_doubles_the_table() {
    let mut filter = QuotientFilter::new(2).unwrap();
    let remainder_size = filter.remainder_size();
    filter.insert_value(b"element").unwrap();
    assert_eq!(filter.resize(), Ok(()));
    assert_eq!(filter.size(), 8);
    assert_eq!(filter.remainder_size(), remainder_size - 1);
    assert_eq!(filter.count(), 1);
    assert!(filter.lookup_value(b"element"));
}

#[test]
fn merge_of_two_filters() {
    let mut first = QuotientFilter::new(2).unwrap();
    let mut second = QuotientFilter::new(2).unwrap();
    let fingerprints = [(0u64 << 30) | 11, (1 << 30) | 22, (2 << 30) | 33, (3 << 30) | 44];
    first.insert(fingerprints[0]).unwrap();
    first.insert(fingerprints[2]).unwrap();
    second.insert(fingerprints[1]).unwrap();
    second.insert(fingerprints[3]).unwrap();
    assert_eq!(first.merge(&second), Ok(()));
    assert_eq!(first.size(), 8);
    assert_eq!(first.count(), 4);
    for fingerprint in fingerprints {
        assert!(first.lookup(fingerprint));
    }
    assert!(!first.lookup((1 << 30) | 23));
    assert_eq!(second.size(), 4);
    assert_eq!(second.count(), 2);
}

#[test]
fn merge_places_fingerprints_in_ascending_order() {
    let low = (1u64 << 29) | 3;
    let middle = (1u64 << 29) | 9;
    let high = (2u64 << 29) | 5;
    let mut first = QuotientFilter::new(2).unwrap();
    let mut second = QuotientFilter::new(2).unwrap();
    first.insert(middle).unwrap();
    first.insert(high).unwrap();
    second.insert(low).unwrap();
    assert_eq!(first.merge(&second), Ok(()));
    assert_eq!(first.get_index(low), Some(1));
    assert_eq!(first.get_index(middle), Some(2));
    assert_eq!(first.get_index(high), Some(3));
    assert!(first.slot(3).is_shifted());
    assert!(!first.slot(3).is_run_continued());
    assert!(first.slot(2).is_occupied());
}

#[test]
fn merge_needs_equal_sizes() {
    let mut first = QuotientFilter::new(2).unwrap();
    let second = QuotientFilter::new(3).unwrap();
    first.insert(5).unwrap();
    assert_eq!(first.merge(&second), Err(QuotientFilterError::NotEqualSize));
    assert_eq!(first.size(), 4);
    assert_eq!(first.count(), 1);
    let wide_filter = wide(2);
    assert_eq!(first.merge(&wide_filter), Err(QuotientFilterError::NotEqualSize));
}

#[test]
fn insert_grows_a_table_with_one_free_slot() {
    let mut filter = QuotientFilter::new(2).unwrap();
    let fingerprints = [(0u64 << 30) | 1, (1 << 30) | 2, (2 << 30) | 3, (3 << 30) | 4];
    for fingerprint in &fingerprints[..3] {
        filter.insert(*fingerprint).unwrap();
    }
    assert_eq!(filter.size(), 4);
    assert_eq!(filter.count(), 3);
    filter.insert(fingerprints[3]).unwrap();
    assert_eq!(filter.size(), 8);
    assert_eq!(filter.count(), 4);
    for fingerprint in fingerprints {
        assert!(filter.lookup(fingerprint));
    }
}

#[test]
fn delete_marks_a_tombstone() {
    let mut filter = QuotientFilter::new(3).unwrap();
    let kept = (4u64 << 29) | 7;
    let gone = (4u64 << 29) | 9;
    assert_eq!(filter.insert(kept), Ok(4));
    assert_eq!(filter.insert(gone), Ok(5));
    filter.delete(gone);
    assert_eq!(filter.count(), 1);
    assert!(filter.slot(5).is_tombstone());
    assert!(filter.slot(5).is_empty());
    assert!(filter.slot(4).is_occupied());
    assert!(filter.lookup(kept));
    assert!(!filter.lookup(gone));
    // deleting what is absent changes nothing
    filter.delete(gone);
    filter.delete((2u64 << 29) | 1);
    assert_eq!(filter.count(), 1);
    assert!(filter.lookup(kept));
}

#[test]
fn deleted_slot_stays_in_place_until_the_table_grows() {
    let mut filter = QuotientFilter::new(3).unwrap();
    let fingerprint = (6u64 << 29) | 21;
    assert_eq!(filter.insert(fingerprint), Ok(6));
    assert_eq!(filter.insert((6u64 << 29) | 30), Ok(7));
    filter.delete(fingerprint);
    assert!(filter.slot(6).is_tombstone());
    assert_eq!(filter.count(), 1);
    assert!(!filter.lookup(fingerprint));
    // the tombstone heads a run that goes on: it keeps its place
    assert_eq!(filter.insert((6u64 << 29) | 25), Ok(7));
    assert!(filter.slot(6).is_tombstone());
    assert!(filter.lookup((6u64 << 29) | 25));
    assert!(filter.lookup((6u64 << 29) | 30));
    assert_eq!(filter.count(), 2);
    assert_eq!(filter.resize(), Ok(()));
    assert_eq!(filter.count(), 2);
    assert!(filter.lookup((6u64 << 29) | 25));
    assert!(filter.lookup((6u64 << 29) | 30));
    assert!(!filter.lookup(fingerprint));
    assert!((0..filter.size()).all(|index| !filter.slot(index).is_tombstone()));
}

#[test]
fn space_counts_remainder_and_metadata_bits() {
    let filter = QuotientFilter::new(5).unwrap();
    assert_eq!(filter.space(), 32 * (27 + 8));
    let wide_filter = wide(4);
    assert_eq!(wide_filter.space(), 16 * (60 + 8));
}

#[test]
fn error_messages() {
    assert_eq!(
        QuotientFilterError::NotEqualSize.message(),
        "Filters need to have the same size for merging"
    );
    assert_eq!(QuotientFilterError::InvalidQuotientAccess(3).message(), "Invalid quotient access");
    assert_eq!(QuotientFilterError::NotAbleToFindOccupied.message(), "Next occupied slot not found");
    assert_eq!(
        QuotientFilterError::ConvertingError.message(),
        "Fingerprint does not fit the table"
    );
    assert_eq!(
        QuotientFilterError::InvalidQuotientSize.message(),
        "Quotient size is too large for the fingerprint width"
    );
}

fn snapshot(filter: &QuotientFilter) -> Vec<(u64, bool, bool, bool, bool)> {
    (0..filter.size())
        .map(|index| {
            let slot = filter.slot(index);
            (
                slot.get_remainder(),
                slot.is_occupied(),
                slot.is_run_continued(),
                slot.is_shifted(),
                slot.is_tombstone(),
            )
        })
        .collect()
}

#[test]
fn members_behind_a_tombstone_survive_resize_and_merge() {
    let mut filter = QuotientFilter::new(3).unwrap();
    for fingerprint in [0x40000001u64, 0x40000002, 0x40000003] {
        filter.insert(fingerprint).unwrap();
    }
    filter.delete(0x40000002);
    assert!(filter.lookup(0x40000003));
    assert_eq!(filter.count(), 2);
    assert_eq!(filter.collect_fingerprints(), vec![0x40000001, 0x40000003]);
    let mut merged = QuotientFilter::new(3).unwrap();
    merged.insert(0x40000001).unwrap();
    merged.insert(0x40000002).unwrap();
    merged.insert(0x40000003).unwrap();
    merged.delete(0x40000002);
    assert_eq!(merged.merge(&QuotientFilter::new(3).unwrap()), Ok(()));
    assert_eq!(merged.count(), 2);
    assert!(merged.lookup(0x40000001) && merged.lookup(0x40000003));
    assert!(!merged.lookup(0x40000002));
    assert_eq!(filter.resize(), Ok(()));
    assert_eq!(filter.count(), 2);
    assert!(filter.lookup(0x40000001) && filter.lookup(0x40000003));
    assert!(!filter.lookup(0x40000002));
}

#[test]
fn insertion_at_a_home_slot_that_holds_a_tombstone_is_found() {
    let mut filter = QuotientFilter::new(2).unwrap();
    filter.insert(0x80000001).unwrap();
    filter.insert(0x80000002).unwrap();
    filter.delete(0x80000002);
    assert_eq!(filter.insert(0xC0000007), Ok(3));
    assert!(filter.lookup(0xC0000007));
    assert!(filter.lookup(0x80000001));
    assert!(!filter.lookup(0x80000002));
    assert_eq!(snapshot(&filter)[3], (0xC0000007 & 0x3fffffff, true, false, false, false));
    assert_eq!(filter.count(), 2);
}

#[test]
fn deleted_slot_at_its_own_home_is_written_anew() {
    let mut filter = QuotientFilter::new(3).unwrap();
    let at = |quotient: u64, remainder: u64| (quotient << 29) | remainder;
    assert_eq!(filter.insert(at(5, 9)), Ok(5));
    filter.delete(at(5, 9));
    // the only slot of its cluster: the home slot is no longer occupied
    assert_eq!(snapshot(&filter)[5], (9, false, false, false, true));
    assert_eq!(filter.count(), 0);
    assert!(!filter.lookup(at(5, 9)));
    assert_eq!(filter.insert(at(5, 4)), Ok(5));
    assert_eq!(snapshot(&filter)[5], (4, true, false, false, false));
    assert!(filter.lookup(at(5, 4)));
    assert!(!filter.lookup(at(5, 9)));
    assert_eq!(filter.count(), 1);
}

#[test]
fn deleted_slot_within_a_run_is_not_written_anew() {
    let mut filter = QuotientFilter::new(3).unwrap();
    let at = |quotient: u64, remainder: u64| (quotient << 29) | remainder;
    for remainder in [1u64, 2, 3] {
        filter.insert(at(2, remainder)).unwrap();
    }
    filter.delete(at(2, 2));
    // slot 3 holds the tombstone, between two live members of the run of 2
    assert_eq!(snapshot(&filter)[3], (2, false, true, true, true));
    assert_eq!(filter.insert(at(3, 7)), Ok(5));
    assert_eq!(snapshot(&filter)[5], (7, false, false, true, false));
    assert!(snapshot(&filter)[3].1);
    for fingerprint in [at(2, 1), at(2, 3), at(3, 7)] {
        assert!(filter.lookup(fingerprint));
    }
    assert!(!filter.lookup(at(2, 2)));
    assert_eq!(filter.count(), 3);
}

#[test]
fn deletion_keeps_the_runs_behind_it() {
    let mut filter = QuotientFilter::new(3).unwrap();
    for fingerprint in [0x40000001u64, 0x40000002, 0x60000005, 0x80000006] {
        filter.insert(fingerprint).unwrap();
    }
    filter.delete(0x60000005);
    assert!(filter.lookup(0x80000006));
    assert!(filter.lookup(0x40000001) && filter.lookup(0x40000002));
    assert!(!filter.lookup(0x60000005));
    assert_eq!(filter.count(), 3);
}

#[test]
fn what_was_inserted_stays_found() {
    let mut filter = QuotientFilter::new(3).unwrap();
    let at = |quotient: u64, remainder: u64| (quotient << 29) | remainder;
    let fingerprints = [at(1, 5), at(2, 9), at(1, 7), at(1, 0), at(7, 3), at(7, 1), at(0, 4)];
    for (done, fingerprint) in fingerprints.iter().enumerate() {
        filter.insert(*fingerprint).unwrap();
        for earlier in &fingerprints[..=done] {
            assert!(filter.lookup(*earlier));
        }
        assert_eq!(filter.count(), done + 1);
    }
    let before = snapshot(&filter);
    assert_eq!(before.len(), filter.size());
    let mut other = QuotientFilter::new(3).unwrap();
    let others = [0x20000001u64, 0x30000003, 0x40000005, 0x20000002, 0x30000004];
    for fingerprint in others {
        other.insert(fingerprint).unwrap();
    }
    assert_eq!(filter.merge(&other), Ok(()));
    for fingerprint in fingerprints.iter().chain(others.iter()) {
        assert!(filter.lookup(*fingerprint));
    }
    assert!(!filter.lookup(at(1, 6)));
    assert_eq!(filter.count(), 12);
    assert_eq!(filter.size(), 16);
}

#[test]
fn full_table_refuses_without_a_change() {
    let mut filter = QuotientFilter::new(1).unwrap();
    filter.place(1).unwrap();
    filter.place(2).unwrap();
    let before = snapshot(&filter);
    assert_eq!(filter.place(3), Err(QuotientFilterError::InvalidQuotientAccess(0)));
    assert_eq!(snapshot(&filter), before);
    assert_eq!(filter.count(), 2);
    // with room made first the same fingerprint goes in
    assert_eq!(filter.insert(3), Ok(2));
    assert_eq!(filter.size(), 4);
    assert_eq!(filter.count(), 3);
}

#[test]
fn insertion_into_an_unwritten_home_slot_settles_there() {
    let mut filter = QuotientFilter::new(3).unwrap();
    let at = |quotient: u64, remainder: u64| (quotient << 29) | remainder;
    assert_eq!(filter.place(at(4, 11)), Ok(4));
    assert_eq!(filter.place(at(6, 2)), Ok(6));
    // the slot behind starts a cluster
    assert_eq!(filter.place(at(3, 8)), Ok(3));
    // the last slot, before the first
    assert_eq!(filter.place(at(7, 1)), Ok(7));
    let slots = snapshot(&filter);
    assert_eq!(slots[3], (8, true, false, false, false));
    assert_eq!(slots[4], (11, true, false, false, false));
    assert_eq!(slots[6], (2, true, false, false, false));
    assert_eq!(slots[7], (1, true, false, false, false));
    assert_eq!(filter.count(), 4);
    for fingerprint in [at(4, 11), at(6, 2), at(3, 8), at(7, 1)] {
        assert!(filter.lookup(fingerprint));
    }
    assert!(!filter.lookup(at(5, 11)));
}

#[test]
fn filter_agrees_with_a_list_through_insertions_and_deletions() {
    let mut seed: u64 = 0x2545_f491_4f6c_dd1d;
    let mut step = move || {
        seed ^= seed << 13;
        seed ^= seed >> 7;
        seed ^= seed << 17;
        seed
    };
    for round in 0..40u8 {
        let mut filter = QuotientFilter::new(1 + round % 3).unwrap();
        let mut stored: Vec<u64> = Vec::new();
        for _ in 0..60 {
            let drawn = step();
            // few quotients and few remainders, so that runs and clusters grow
            let fingerprint = ((drawn >> 40) % 8) << 29 | (drawn % 6);
            if drawn % 4 == 3 {
                filter.delete(fingerprint);
                if let Some(found) = stored.iter().position(|kept| *kept == fingerprint) {
                    stored.remove(found);
                }
            } else {
                assert!(filter.insert(fingerprint).is_ok());
                stored.push(fingerprint);
            }
            assert_eq!(filter.count(), stored.len());
            for quotient in 0..8u64 {
                for remainder in 0..6u64 {
                    let probe = quotient << 29 | remainder;
                    assert_eq!(filter.lookup(probe), stored.contains(&probe));
                }
            }
        }
    }
}

#[test]
fn deleted_slot_behind_a_cluster_is_taken_by_a_shift() {
    let mut filter = QuotientFilter::new(3).unwrap();
    let at = |quotient: u64, remainder: u64| (quotient << 29) | remainder;
    assert_eq!(filter.insert(at(2, 5)), Ok(2));
    assert_eq!(filter.insert(at(3, 8)), Ok(3));
    filter.delete(at(3, 8));
    assert_eq!(snapshot(&filter)[3], (8, false, false, false, true));
    // the run of 2 grows into the slot that was given up
    assert_eq!(filter.insert(at(2, 6)), Ok(3));
    assert_eq!(snapshot(&filter)[3], (6, false, true, true, false));
    assert_eq!(snapshot(&filter)[4], (0, false, false, false, false));
    assert!(filter.lookup(at(2, 5)) && filter.lookup(at(2, 6)));
    assert!(!filter.lookup(at(3, 8)));
    assert_eq!(filter.count(), 2);
    // and quotient 3 finds a place behind it
    assert_eq!(filter.insert(at(3, 1)), Ok(4));
    assert!(filter.lookup(at(3, 1)));
    assert_eq!(filter.count(), 3);
}

#[test]
fn deletion_within_a_cluster_keeps_the_home_slot_occupied() {
    let mut filter = QuotientFilter::new(3).unwrap();
    let at = |quotient: u64, remainder: u64| (quotient << 29) | remainder;
    for fingerprint in [at(2, 1), at(2, 2), at(3, 5), at(4, 6)] {
        filter.insert(fingerprint).unwrap();
    }
    filter.delete(at(3, 5));
    // the run of 3 keeps its slot and its home slot, so the run of 4 is found
    assert_eq!(snapshot(&filter)[4], (5, true, false, true, true));
    assert!(snapshot(&filter)[3].1);
    assert!(filter.lookup(at(4, 6)));
    assert!(!filter.lookup(at(3, 5)));
    assert_eq!(filter.count(), 3);
}
