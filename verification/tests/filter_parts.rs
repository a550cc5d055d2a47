use rusty_structures::quotient_filter::codec::{pow2_u64, split};
use rusty_structures::quotient_filter::error::QuotientFilterError;
use rusty_structures::quotient_filter::filter::{
    empty_table, table_size, walk_to_run, QuotientFilter,
};
use rusty_structures::quotient_filter::model::FingerprintWidth;
use rusty_structures::quotient_filter::navigator::{
    get_lowest_of_run, get_next_anchor, get_next_occupied, get_start_of_the_cluster, probe_down,
    probe_up, skip_empty_slots, Probe,
};
use rusty_structures::quotient_filter::placement::{find_position, move_slot, plan, shift_in};
use rusty_structures::quotient_filter::ring::{advance, distance, index_down, index_up};
use rusty_structures::quotient_filter::slot::MetadataType::{
    BucketOccupied, IsShifted, RunContinued, Tombstone,
};
use rusty_structures::quotient_filter::slot::{MetadataType, Slot};

fn slot(remainder: u64, flags: &[MetadataType]) -> Slot {
    let mut slot = Slot::new_with_remainder(remainder);
    for flag in flags {
        slot.set_metadata(*flag);
    }
    slot
}

/// A run of three for quotient 5 at 5, 6, 7, a run of one for quotient 6 at 0
/// and a run of two for quotient 7 at 1, 2.
fn three_runs() -> Vec<Slot> {
    let mut table = empty_table(8);
    table[5] = slot(10, &[BucketOccupied]);
    table[6] = slot(20, &[BucketOccupied, RunContinued, IsShifted]);
    table[7] = slot(30, &[BucketOccupied, RunContinued, IsShifted]);
    table[0] = slot(60, &[IsShifted]);
    table[1] = slot(40, &[IsShifted]);
    table[2] = slot(50, &[RunContinued, IsShifted]);
    table
}

#[test]
fn ring_indices_wrap() {
    assert_eq!(index_up(0, 4), 1);
    assert_eq!(index_up(3, 4), 0);
    assert_eq!(index_up(0, 1), 0);
    assert_eq!(index_down(0, 4), 3);
    assert_eq!(index_down(3, 4), 2);
    assert_eq!(index_down(0, 1), 0);
    assert_eq!(distance(1, 3, 4), 2);
    assert_eq!(distance(3, 1, 4), 2);
    assert_eq!(distance(2, 2, 4), 0);
    assert_eq!(advance(3, 2, 4), 1);
    assert_eq!(advance(1, 2, 4), 3);
    assert_eq!(advance(1, 4, 4), 1);
    assert_eq!(advance(usize::MAX - 1, usize::MAX, usize::MAX), usize::MAX - 1);
}

#[test]
fn flags_are_set_and_cleared_one_by_one() {
    let flags = [
        MetadataType::Tombstone,
        MetadataType::BucketOccupied,
        MetadataType::RunContinued,
        MetadataType::IsShifted,
    ];
    for flag in flags {
        let mut slot = Slot::new();
        slot.set_metadata(flag);
        for other in flags {
            assert_eq!(slot.get_metadata(other), other == flag);
        }
        slot.set_remainder(9);
        assert_eq!(slot.get_remainder(), 9);
        assert!(slot.get_metadata(flag));
        let mut full = Slot::new_with_remainder(3);
        for other in flags {
            full.set_metadata(other);
        }
        full.clear_metadata(flag);
        for other in flags {
            assert_eq!(full.get_metadata(other), other != flag);
        }
        assert_eq!(full.get_remainder(), 3);
    }
}

#[test]
fn slot_kinds() {
    assert!(Slot::new().is_empty());
    assert!(!Slot::new_with_remainder(1).is_empty());
    assert!(slot(1, &[Tombstone]).is_empty());
    assert!(slot(1, &[Tombstone]).is_tombstone());
    // a tombstone hides no other flag
    assert!(slot(1, &[Tombstone, BucketOccupied]).is_occupied());
    assert!(slot(1, &[BucketOccupied]).is_cluster_start());
    assert!(slot(1, &[BucketOccupied]).is_run_start());
    assert!(slot(1, &[IsShifted]).is_run_start());
    assert!(!slot(1, &[IsShifted]).is_cluster_start());
    assert!(!slot(1, &[RunContinued, IsShifted]).is_run_start());
    assert!(!slot(1, &[BucketOccupied, RunContinued]).is_cluster_start());
    assert!(!Slot::new_with_remainder(1).is_run_start());
    assert!(slot(1, &[RunContinued]).is_run_continued());
    assert!(slot(1, &[IsShifted]).is_shifted());
}

#[test]
fn fingerprints_split_and_recombine() {
    assert_eq!(pow2_u64(0), 1);
    assert_eq!(pow2_u64(63), 1 << 63);
    assert_eq!(split(0b1011_0110, 4, 16), Ok((0b1011, 0b0110)));
    assert_eq!(split(0b1011_0110, 4, 11), Err(QuotientFilterError::ConvertingError));
    assert_eq!(split(u64::MAX, 64, 1), Ok((0, u64::MAX)));
    assert_eq!(split(u64::MAX, 0, 1), Err(QuotientFilterError::ConvertingError));
    assert_eq!(split(7, 0, 8), Ok((7, 0)));
    let stored = Slot::new_with_remainder(0b0110);
    assert_eq!(stored.reconstruct_fingerprint(0b1011, 4), 0b1011_0110);
    // bits of the remainder above its width do not count
    let wide = Slot::new_with_remainder(0b1111_0110);
    assert_eq!(wide.reconstruct_fingerprint(0b1011, 4), 0b1011_0110);
    assert_eq!(stored.reconstruct_fingerprint(0, 64), 0b0110);
    assert_eq!(stored.reconstruct_fingerprint(3, 62), (3 << 62) | 0b0110);
}

#[test]
fn table_sizes_are_powers_of_two() {
    assert_eq!(table_size(0), Some(1));
    assert_eq!(table_size(10), Some(1024));
    assert_eq!(table_size(200), None);
    assert_eq!(table_size(usize::BITS as u8), None);
    assert_eq!(table_size(usize::BITS as u8 - 1), Some(1 << (usize::BITS - 1)));
    let table = empty_table(5);
    assert_eq!(table.len(), 5);
    assert!(table.iter().all(|slot| slot.get_remainder() == 0 && slot.is_empty()));
    assert!(table.iter().all(|slot| !slot.is_occupied() && !slot.is_shifted()));
}

#[test]
fn walks_over_the_table() {
    let table = three_runs();
    assert_eq!(get_start_of_the_cluster(&table, 7), Some(5));
    assert_eq!(get_start_of_the_cluster(&table, 2), Some(5));
    assert_eq!(get_start_of_the_cluster(&table, 5), Some(5));
    assert_eq!(get_start_of_the_cluster(&table, 3), Some(3));
    assert_eq!(get_lowest_of_run(&table, 6), Some(0));
    assert_eq!(get_lowest_of_run(&table, 0), Some(0));
    assert_eq!(get_lowest_of_run(&table, 2), Some(3));
    assert_eq!(skip_empty_slots(&table, 0), Some(5));
    assert_eq!(skip_empty_slots(&table, 6), Some(6));
    assert_eq!(get_next_occupied(&table, 5), Some(6));
    assert_eq!(get_next_occupied(&table, 7), Some(5));
    assert_eq!(get_next_anchor(&table, 0), Some(5));
    assert_eq!(get_next_anchor(&table, 5), Some(5));
    assert_eq!(get_next_anchor(&table, 6), None);
    assert_eq!(get_next_anchor(&table, 9), None);
    assert_eq!(probe_up(&table, 5, 8, Probe::Free), Some(3));
    assert_eq!(probe_up(&table, 5, 5, Probe::Free), None);
    assert_eq!(find_position(&table, 5, 25), Some(7));
    assert_eq!(find_position(&table, 5, 5), Some(5));
    assert_eq!(find_position(&table, 5, 99), Some(0));
    assert_eq!(find_position(&table, 0, 99), Some(1));
    assert_eq!(probe_up(&table, 0, 8, Probe::Continued), Some(2));
    assert_eq!(probe_up(&table, 3, 8, Probe::Unshifted), Some(3));
    assert_eq!(probe_up(&table, 6, 8, Probe::RunHead), Some(0));
    assert_eq!(probe_up(&table, 0, 8, Probe::Occupied), Some(5));
    assert_eq!(probe_up(&table, 0, 0, Probe::Occupied), None);
    assert_eq!(probe_down(&table, 2, 8, Probe::Unshifted), Some(5));
    assert_eq!(probe_down(&table, 2, 5, Probe::Unshifted), None);
    assert_eq!(probe_down(&table, 4, 8, Probe::Continued), Some(2));
}

#[test]
fn walks_that_find_nothing() {
    let table = empty_table(4);
    assert_eq!(skip_empty_slots(&table, 1), None);
    assert_eq!(get_next_occupied(&table, 1), None);
    assert_eq!(get_next_anchor(&table, 0), None);
    assert_eq!(probe_up(&table, 0, 4, Probe::Continued), None);
    let mut shifted = empty_table(2);
    shifted[0] = slot(1, &[MetadataType::IsShifted, MetadataType::RunContinued]);
    shifted[1] = slot(1, &[MetadataType::IsShifted, MetadataType::RunContinued]);
    assert_eq!(get_start_of_the_cluster(&shifted, 0), None);
    assert_eq!(get_lowest_of_run(&shifted, 1), None);
    // the only occupied slot is not its own successor
    let mut single = empty_table(3);
    single[1] = slot(1, &[MetadataType::BucketOccupied]);
    assert_eq!(get_next_occupied(&single, 1), None);
    assert_eq!(get_next_occupied(&single, 0), Some(1));
}

#[test]
fn runs_are_found_from_the_anchor() {
    let table = three_runs();
    assert_eq!(walk_to_run(&table, 5, 5), Some(5));
    assert_eq!(walk_to_run(&table, 6, 5), Some(0));
    assert_eq!(walk_to_run(&table, 7, 5), Some(1));
    // no occupied slot leads to a quotient that is not occupied
    assert_eq!(walk_to_run(&table, 3, 5), None);
}

#[test]
fn plans_of_insertions() {
    let table = three_runs();
    // into the run of quotient 5, before the remainder 30
    assert_eq!(plan(&table, 5, 25, true), Some((7, 3, true, false)));
    // at the head of the run of quotient 7
    assert_eq!(plan(&table, 7, 35, true), Some((1, 3, false, true)));
    // behind the run of quotient 6, before the run of quotient 7
    assert_eq!(plan(&table, 6, 70, true), Some((1, 3, true, false)));
    let mut two = empty_table(8);
    two[5] = slot(10, &[MetadataType::BucketOccupied]);
    two[6] = slot(
        20,
        &[MetadataType::BucketOccupied, MetadataType::RunContinued, MetadataType::IsShifted],
    );
    // a new run for quotient 6, whose home slot holds the run of quotient 5
    assert_eq!(plan(&two, 6, 1, false), Some((7, 7, false, false)));
    let mut full = empty_table(2);
    full[0] = slot(1, &[MetadataType::BucketOccupied]);
    full[1] = slot(1, &[MetadataType::BucketOccupied]);
    assert_eq!(plan(&full, 1, 5, true), None);
}

#[test]
fn moved_slots_are_shifted_and_leave_the_occupied_flag_behind() {
    let head = slot(4, &[BucketOccupied]);
    let free = Slot::new();
    let moved = move_slot(head, free, false);
    assert!(moved.is_shifted() && !moved.is_occupied() && !moved.is_run_continued());
    let behind_new_head = move_slot(head, head, true);
    assert!(behind_new_head.is_shifted() && behind_new_head.is_occupied());
    assert!(behind_new_head.is_run_continued());
    let deleted = move_slot(slot(4, &[RunContinued, IsShifted, Tombstone]), free, false);
    assert!(deleted.is_tombstone() && deleted.is_run_continued() && deleted.is_shifted());
    assert_eq!(deleted.get_remainder(), 4);
    assert!(Slot::new().is_vacant());
    assert!(!slot(0, &[Tombstone]).is_vacant());
    assert!(!head.is_vacant());
}

#[test]
fn slots_move_up_to_the_gap() {
    let mut table = three_runs();
    shift_in(&mut table, 5, 25, 7, 3, true, false);
    let seen: Vec<(u64, bool, bool, bool)> = table
        .iter()
        .map(|slot| {
            (slot.get_remainder(), slot.is_occupied(), slot.is_run_continued(), slot.is_shifted())
        })
        .collect();
    assert_eq!(
        seen,
        vec![
            (30, false, true, true),
            (60, false, false, true),
            (40, false, false, true),
            (50, false, true, true),
            (0, false, false, false),
            (10, true, false, false),
            (20, true, true, true),
            (25, true, true, true),
        ]
    );
    let mut free = empty_table(4);
    shift_in(&mut free, 1, 9, 2, 2, false, false);
    assert_eq!(free[2].get_remainder(), 9);
    assert!(free[2].is_shifted() && !free[2].is_run_continued() && !free[2].is_occupied());
    assert!(free[0].is_vacant() && free[1].is_vacant() && free[3].is_vacant());
}

#[test]
fn filter_of_one_slot_grows_with_the_first_insertion() {
    let mut filter = QuotientFilter::new(0).unwrap();
    assert_eq!(filter.size(), 1);
    assert_eq!(filter.remainder_size(), 32);
    assert!(!filter.lookup(77));
    assert_eq!(filter.space(), 40);
    let index = filter.insert(77).unwrap();
    assert_eq!(filter.size(), 2);
    assert_eq!(filter.remainder_size(), 31);
    assert_eq!(index, 0);
    assert!(filter.lookup(77));
    let mut wide = QuotientFilter::with_width(FingerprintWidth::Bits64, 0).unwrap();
    assert_eq!(wide.remainder_size(), 64);
    assert!(!wide.lookup(u64::MAX));
    assert_eq!(wide.fingerprint_destruction(u64::MAX), Ok((0, u64::MAX)));
    assert_eq!(wide.insert(u64::MAX), Ok(1));
    assert_eq!(wide.width(), FingerprintWidth::Bits64);
    assert!(wide.lookup(u64::MAX));
}

#[test]
fn stored_fingerprints_are_collected_by_cluster() {
    let mut filter = QuotientFilter::new(3).unwrap();
    let at = |quotient: u64, remainder: u64| (quotient << 29) | remainder;
    for fingerprint in [at(5, 10), at(5, 30), at(5, 20), at(7, 50), at(7, 40), at(6, 60), at(2, 5)]
    {
        filter.insert(fingerprint).unwrap();
    }
    // one cluster, from its anchor at 5 around the end of the table
    let stored = vec![at(5, 10), at(5, 20), at(5, 30), at(6, 60), at(7, 40), at(7, 50), at(2, 5)];
    assert_eq!(filter.collect_fingerprints(), stored);
    let entries: Vec<(usize, u64)> =
        [5usize, 6, 7, 0, 1, 2, 3].iter().copied().zip(stored.iter().copied()).collect();
    assert_eq!(filter.collect_cluster(5), Some(entries.clone()));
    assert_eq!(filter.collect_entries(), Some(entries));
    assert_eq!(filter.locate(at(7, 50)), Some((2, at(7, 50))));
    assert_eq!(filter.locate(at(7, 45)), None);
    assert_eq!(filter.vacant_slots(), 1);
    assert_eq!(QuotientFilter::new(3).unwrap().collect_fingerprints(), Vec::<u64>::new());
    filter.delete(at(5, 20));
    assert_eq!(filter.collect_entries().unwrap().len(), 6);
    assert_eq!(filter.locate(at(5, 30)), Some((7, at(5, 30))));
    assert_eq!(filter.locate(at(2, 5)), Some((3, at(2, 5))));
}

#[test]
fn placing_does_not_grow_the_table() {
    let mut filter = QuotientFilter::new(1).unwrap();
    assert_eq!(filter.place(5), Ok(0));
    assert_eq!(filter.place((1 << 31) | 5), Ok(1));
    assert_eq!(filter.place(7), Err(QuotientFilterError::InvalidQuotientAccess(0)));
    assert_eq!(filter.place(1 << 32), Err(QuotientFilterError::ConvertingError));
    assert_eq!(filter.size(), 2);
    assert_eq!(filter.count(), 2);
    assert!(filter.lookup(5) && filter.lookup((1 << 31) | 5) && !filter.lookup(7));
    let mut rebuilt = QuotientFilter::new(1).unwrap();
    assert_eq!(rebuilt.rebuild(&vec![5, (3 << 30) | 1]), Ok(()));
    assert_eq!(rebuilt.size(), 4);
    assert_eq!(rebuilt.count(), 2);
    assert!(rebuilt.lookup(5) && rebuilt.lookup((3 << 30) | 1));
    assert_eq!(rebuilt.rebuild(&vec![1 << 32]), Err(QuotientFilterError::NotAbleToFindOccupied));
    assert_eq!(rebuilt.size(), 4);
    assert_eq!(rebuilt.count(), 2);
    let mut stored = QuotientFilter::new(2).unwrap();
    assert_eq!(stored.place((3 << 30) | 8), Ok(3));
    assert_eq!(stored.place((3 << 30) | 4), Ok(3));
    assert_eq!(stored.slot(0).get_remainder(), 8);
    assert!(stored.slot(3).is_occupied() && !stored.slot(3).is_shifted());
}
