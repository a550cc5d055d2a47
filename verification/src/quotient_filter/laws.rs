//! What holds of every filter, proved over the model.

use vstd::prelude::*;
use vstd::arithmetic::power2::pow2;
use super::error::QuotientFilterError;
use super::model::{
    attempt,
    placement,
    run_position,
    run_walk,
    FilterState,
    FingerprintWidth,
};
use super::navigator::{lemma_walk_up_found, probe_stops, walk_down, walk_up, Probe};
use super::removal::{lemma_delete_keeps_sound, lemma_fill_marks_none, unmarked};
use super::ring::{ring_next, ring_prev};
use super::settle::{lemma_settle, settled, settles};
use super::slot::{MetadataType, Slot};
use super::walk::{
    entry_in_cluster,
    lemma_attempt_keeps_remainders,
    lemma_cluster_entries,
    lemma_entries_from,
    lemma_find_is_contains,
    lemma_fresh_is_sound,
    lemma_parts_in_range,
};

verus! {

/// Where a backward walk stops lies within the table.
pub proof fn lemma_walk_down_in_range(table: Seq<Slot>, from: int, fuel: nat, kind: Probe)
    requires
        0 <= from < table.len(),
        walk_down(table, from, fuel, kind) is Some,
    ensures
        0 <= walk_down(table, from, fuel, kind).unwrap() < table.len(),
    decreases fuel,
{
    if fuel > 0 && !super::navigator::probe_stops(kind, table[from]) {
        lemma_walk_down_in_range(
            table,
            super::ring::ring_prev(from, table.len() as int),
            (fuel - 1) as nat,
            kind,
        );
    }
}

/// The head of a run that the flags lead to lies within the table.
pub proof fn lemma_run_walk_in_range(
    table: Seq<Slot>,
    quotient: int,
    homes: int,
    runs: int,
    fuel: nat,
)
    requires
        0 <= homes < table.len(),
        0 <= runs < table.len(),
        run_walk(table, quotient, homes, runs, fuel) is Some,
    ensures
        0 <= run_walk(table, quotient, homes, runs, fuel).unwrap() < table.len(),
    decreases fuel,
{
    let size = table.len() as int;
    if homes != quotient && fuel > 0 {
        let next_run = walk_up(
            table,
            super::ring::ring_next(runs, size),
            table.len(),
            Probe::RunHead,
        ).unwrap();
        let next_home = walk_up(
            table,
            super::ring::ring_next(homes, size),
            table.len(),
            Probe::Occupied,
        ).unwrap();
        lemma_walk_up_found(table, super::ring::ring_next(runs, size), table.len(), Probe::RunHead);
        lemma_walk_up_found(
            table,
            super::ring::ring_next(homes, size),
            table.len(),
            Probe::Occupied,
        );
        lemma_run_walk_in_range(table, quotient, next_home, next_run, (fuel - 1) as nat);
    }
}

/// Two tables of one length in which the same slots stop a walk: forward
/// walks end alike.
pub proof fn lemma_walk_up_agrees(
    first: Seq<Slot>,
    second: Seq<Slot>,
    from: int,
    fuel: nat,
    kind: Probe,
)
    requires
        first.len() == second.len(),
        0 <= from < first.len(),
        forall|k: int|
            0 <= k < first.len() ==> probe_stops(kind, #[trigger] first[k]) == probe_stops(
                kind,
                second[k],
            ),
    ensures
        walk_up(first, from, fuel, kind) == walk_up(second, from, fuel, kind),
    decreases fuel,
{
    if fuel > 0 && !probe_stops(kind, first[from]) {
        lemma_walk_up_agrees(
            first,
            second,
            ring_next(from, first.len() as int),
            (fuel - 1) as nat,
            kind,
        );
    }
}

/// Two tables of one length in which the same slots stop a walk: backward
/// walks end alike.
pub proof fn lemma_walk_down_agrees(
    first: Seq<Slot>,
    second: Seq<Slot>,
    from: int,
    fuel: nat,
    kind: Probe,
)
    requires
        first.len() == second.len(),
        0 <= from < first.len(),
        forall|k: int|
            0 <= k < first.len() ==> probe_stops(kind, #[trigger] first[k]) == probe_stops(
                kind,
                second[k],
            ),
    ensures
        walk_down(first, from, fuel, kind) == walk_down(second, from, fuel, kind),
    decreases fuel,
{
    if fuel > 0 && !probe_stops(kind, first[from]) {
        lemma_walk_down_agrees(
            first,
            second,
            ring_prev(from, first.len() as int),
            (fuel - 1) as nat,
            kind,
        );
    }
}

/// The place within a run lies within the table.
pub proof fn lemma_run_position_in_range(
    table: Seq<Slot>,
    run: int,
    at: int,
    remainder: u64,
    fuel: nat,
)
    requires
        0 <= at < table.len(),
        run_position(table, run, at, remainder, fuel) is Some,
    ensures
        0 <= run_position(table, run, at, remainder, fuel).unwrap() < table.len(),
    decreases fuel,
{
    if fuel > 0 && run_position(table, run, at, remainder, fuel) != Some(at) {
        lemma_run_position_in_range(
            table,
            run,
            ring_next(at, table.len() as int),
            remainder,
            (fuel - 1) as nat,
        );
    }
}

/// A placement lies within the table.
pub proof fn lemma_placement_in_range(
    table: Seq<Slot>,
    quotient: int,
    remainder: u64,
    was_occupied: bool,
)
    requires
        0 <= quotient < table.len(),
        placement(table, quotient, remainder, was_occupied) is Some,
    ensures
        ({
            let place = placement(table, quotient, remainder, was_occupied).unwrap();
            0 <= place.index < table.len() && 0 <= place.gap < table.len()
        }),
{
    let anchor = walk_down(table, quotient, table.len(), Probe::Unshifted).unwrap();
    lemma_walk_down_in_range(table, quotient, table.len(), Probe::Unshifted);
    let run = run_walk(table, quotient, anchor, anchor, table.len()).unwrap();
    lemma_run_walk_in_range(table, quotient, anchor, anchor, table.len());
    if was_occupied {
        lemma_run_position_in_range(table, run, run, remainder, table.len());
    }
    let index = placement(table, quotient, remainder, was_occupied).unwrap().index;
    lemma_walk_up_found(table, index, table.len(), Probe::Free);
}

/// A new filter stores nothing.
pub proof fn law_new_filter_is_empty(width: FingerprintWidth, quotient_bits: nat, fingerprint: u64)
    requires
        quotient_bits <= width.bits(),
        pow2(quotient_bits) <= usize::MAX,
    ensures
        FilterState::fresh(width, quotient_bits).sound(),
        !FilterState::fresh(width, quotient_bits).contains(fingerprint),
        FilterState::fresh(width, quotient_bits).count == 0,
{
    lemma_fresh_is_sound(width, quotient_bits);
}

/// What the invariants say of every stored fingerprint: it is found by a
/// lookup; its home slot is occupied; its slot is not deleted, stores its
/// remainder, and stands in the cluster of its home slot, at or behind the
/// home slot; and where the slot continues a run, the slot before it stores
/// no greater remainder. The count is the number of stored fingerprints.
pub proof fn law_invariants(state: FilterState, at: int)
    requires
        state.sound(),
        0 <= at < state.entries().unwrap().len(),
    ensures
        state.count == state.live().len(),
        ({
            let entry = state.entries().unwrap()[at];
            let home = state.quotient(entry.1);
            &&& state.contains(entry.1)
            &&& state.find(entry.1) is Some
            &&& 0 <= home < state.size()
            &&& state.table[home].has(MetadataType::BucketOccupied)
            &&& entry.0 < state.size()
            &&& !state.table[entry.0 as int].has(MetadataType::Tombstone)
            &&& state.table[entry.0 as int].remainder == state.remainder(entry.1)
            &&& state.table[entry.0 as int].has(MetadataType::IsShifted) == (entry.0 != home)
            &&& state.table[entry.0 as int].has(MetadataType::RunContinued)
                ==> state.table[ring_prev(entry.0 as int, state.size())].remainder
                <= state.table[entry.0 as int].remainder
        }),
{
    let entries = state.entries().unwrap();
    let entry = entries[at];
    assert(state.live()[at] == entry.1);
    lemma_find_is_contains(state, entry.1);
    lemma_entries_from(state, 0);
    let anchor = choose|anchor: int|
        0 <= anchor < state.size() && state.table[anchor].cluster_start() && state.cluster(
            anchor,
        ) is Some && (#[trigger] state.cluster(anchor)).unwrap().contains(entries[at]);
    lemma_cluster_entries(state, anchor);
    let cluster = state.cluster(anchor).unwrap();
    let k = choose|k: int| 0 <= k < cluster.len() && cluster[k] == entry;
    assert(entry_in_cluster(state, anchor, cluster[k]));
    if entry.0 as int != anchor {
        assert(0 < super::ring::ring_distance(anchor, entry.0 as int, state.size()));
    }
}

/// Each stored fingerprint has a slot of its own: no two entries share one,
/// so the count is the number of slots that store a fingerprint.
pub proof fn law_one_slot_each(state: FilterState, first: int, second: int)
    requires
        state.sound(),
        0 <= first < second < state.entries().unwrap().len(),
    ensures
        state.entries().unwrap()[first].0 != state.entries().unwrap()[second].0,
{
    super::removal::lemma_entries_apart(state, 0);
}

/// A lookup finds a fingerprint exactly if the filter stores it: no stored
/// fingerprint is missed, and a fingerprint that the filter does not store is
/// never found.
pub proof fn law_lookup_finds_what_is_stored(state: FilterState, fingerprint: u64)
    requires
        state.sound(),
    ensures
        state.find(fingerprint) is Some == state.contains(fingerprint),
        state.find(fingerprint) is Some ==> state.find(fingerprint).unwrap().1 == fingerprint
            && state.entries().unwrap().contains(state.find(fingerprint).unwrap()),
{
    lemma_find_is_contains(state, fingerprint);
}

/// A quotient and a remainder stand for one fingerprint: the filter reports
/// a fingerprint only where a slot of the run of its quotient stores its
/// remainder, and no other fingerprint has that quotient and that remainder.
pub proof fn law_parts_identify_the_fingerprint(state: FilterState, first: u64, second: u64)
    requires
        state.quotient(first) == state.quotient(second),
        state.remainder(first) == state.remainder(second),
    ensures
        first == second,
{
    super::codec::lemma_split_reconstruct(first, state.remainder_bits);
    super::codec::lemma_split_reconstruct(second, state.remainder_bits);
}

/// Whether the filter stores a fingerprint is whether its multiset of stored
/// fingerprints holds it.
pub proof fn lemma_contains_counts(state: FilterState, fingerprint: u64)
    ensures
        state.contains(fingerprint) == (state.live().to_multiset().count(fingerprint) > 0),
{
    vstd::seq_lib::to_multiset_contains(state.live(), fingerprint);
}

/// An insertion that succeeds without growth stores the fingerprint: the
/// filter then stores it and, of all others, exactly what it stored before;
/// the count grows by one, the slot at the index returned holds the remainder,
/// and the invariants hold.
pub proof fn law_place_stores(state: FilterState, fingerprint: u64, other: u64)
    requires
        state.sound(),
        state.place(fingerprint) is Ok,
    ensures
        ({
            let (after, index) = state.place(fingerprint).unwrap();
            &&& after.sound()
            &&& after.contains(fingerprint)
            &&& after.contains(other) == (state.contains(other) || other == fingerprint)
            &&& after.live().to_multiset() == state.live().to_multiset().insert(fingerprint)
            &&& after.count == state.count + 1
            &&& after.size() == state.size()
            &&& after.remainder_bits == state.remainder_bits
        }),
{
    broadcast use vstd::multiset::group_multiset_axioms;

    lemma_parts_in_range(state, fingerprint);
    let quotient = state.quotient(fingerprint);
    lemma_attempt_keeps_remainders(state, quotient, state.remainder(fingerprint));
    let (after, index) = state.place(fingerprint).unwrap();
    vstd::seq_lib::to_multiset_build(state.live(), fingerprint);
    assert(state.live() + seq![fingerprint] =~= state.live().push(fingerprint));
    vstd::seq_lib::to_multiset_len(after.live());
    vstd::seq_lib::to_multiset_len(state.live().push(fingerprint));
    lemma_contains_counts(after, fingerprint);
    lemma_contains_counts(after, other);
    lemma_contains_counts(state, other);
    assert(after.live().len() == after.entries().unwrap().len());
    assert(state.live().len() == state.entries().unwrap().len());
}

/// The table that `fill` gives is as large as the one it began with and
/// stores remainders of the filter's width.
pub proof fn lemma_fill_keeps_remainders(
    state: FilterState,
    table: Seq<Slot>,
    fingerprints: Seq<u64>,
    from: int,
)
    requires
        state.with_table(table, 0).valid(),
        table.len() == state.table.len(),
        0 <= from,
        state.fill(table, fingerprints, from) is Some,
    ensures
        state.with_table(state.fill(table, fingerprints, from).unwrap(), 0).valid(),
    decreases fingerprints.len() - from,
{
    if from < fingerprints.len() {
        let here = state.with_table(table, 0);
        lemma_parts_in_range(state, fingerprints[from]);
        lemma_attempt_keeps_remainders(
            here,
            state.quotient(fingerprints[from]),
            state.remainder(fingerprints[from]),
        );
        let next = attempt(
            table,
            state.quotient(fingerprints[from]),
            state.remainder(fingerprints[from]),
        ).unwrap().0;
        lemma_fill_keeps_remainders(state, next, fingerprints, from + 1);
    }
}

/// A rebuild that succeeds gives a sound filter of twice the size that stores
/// exactly the fingerprints it was given, in a table without a tombstone.
pub proof fn law_rebuild_stores(state: FilterState, fingerprints: Seq<u64>)
    requires
        state.sound(),
        state.rebuild(fingerprints) is Ok,
    ensures
        ({
            let after = state.rebuild(fingerprints).unwrap();
            &&& after.sound()
            &&& after.live().to_multiset() == fingerprints.to_multiset()
            &&& after.count == fingerprints.len()
            &&& after.size() == 2 * state.size()
            &&& after.remainder_bits + 1 == state.remainder_bits
            &&& after.width == state.width
            &&& unmarked(after.table)
        }),
{
    let fresh = FilterState::fresh(state.width, state.quotient_bits() + 1);
    lemma_fresh_is_sound(state.width, state.quotient_bits() + 1);
    assert(unmarked(fresh.table)) by {
        Slot::lemma_zero(MetadataType::Tombstone);
        assert forall|i: int| 0 <= i < fresh.table.len() implies !(#[trigger] fresh.table[i]).has(
            MetadataType::Tombstone,
        ) by {
            assert(fresh.table[i] == Slot::zero());
        }
    }
    lemma_fill_marks_none(fresh, fresh.table, fingerprints, 0);
    vstd::arithmetic::power2::lemma_pow2_unfold(state.quotient_bits() + 1);
    assert(fresh.with_table(fresh.table, 0) == fresh);
    lemma_fill_keeps_remainders(fresh, fresh.table, fingerprints, 0);
    let after = state.rebuild(fingerprints).unwrap();
    vstd::seq_lib::to_multiset_len(after.live());
    vstd::seq_lib::to_multiset_len(fingerprints);
    assert(after.live().len() == after.entries().unwrap().len());
    assert(after.valid()) by {
        let table = fresh.fill(fresh.table, fingerprints, 0).unwrap();
        assert(after == fresh.with_table(table, fingerprints.len()));
        assert(fresh.with_table(table, 0).valid());
    }
}

/// Where the table doubles, the filter stores exactly what it stored before:
/// every fingerprint as often as before, the deleted ones gone for good and
/// their tombstones with them. The count stays, and the invariants hold.
pub proof fn law_resize_keeps_membership(state: FilterState, fingerprint: u64)
    requires
        state.sound(),
        state.resize() is Ok,
    ensures
        ({
            let after = state.resize().unwrap();
            &&& after.sound()
            &&& after.contains(fingerprint) == state.contains(fingerprint)
            &&& after.live().to_multiset() == state.live().to_multiset()
            &&& after.count == state.count
            &&& after.size() == 2 * state.size()
            &&& after.remainder_bits + 1 == state.remainder_bits
            &&& unmarked(after.table)
        }),
{
    law_rebuild_stores(state, state.live());
    lemma_contains_counts(state, fingerprint);
    lemma_contains_counts(state.resize().unwrap(), fingerprint);
    assert(state.live().len() == state.entries().unwrap().len());
}

/// Where two filters merge, the merged filter stores a fingerprint exactly if
/// one of the two did, as often as both together; the count is the sum of
/// theirs, and the invariants hold.
pub proof fn law_merge_is_union(first: FilterState, second: FilterState, fingerprint: u64)
    requires
        first.sound(),
        second.sound(),
        first.merge(second) is Ok,
    ensures
        ({
            let merged = first.merge(second).unwrap();
            &&& merged.sound()
            &&& merged.contains(fingerprint) == (first.contains(fingerprint) || second.contains(
                fingerprint,
            ))
            &&& merged.live().to_multiset() == first.live().to_multiset().add(
                second.live().to_multiset(),
            )
            &&& merged.count == first.count + second.count
            &&& merged.size() == 2 * first.size()
            &&& merged.remainder_bits + 1 == first.remainder_bits
            &&& unmarked(merged.table)
        }),
{
    broadcast use vstd::multiset::group_multiset_axioms;

    let both = first.live() + second.live();
    let sorted = both.sort_by(super::model::ascending());
    both.lemma_sort_by_ensures(super::model::ascending());
    law_rebuild_stores(first, sorted);
    vstd::seq_lib::lemma_multiset_commutative(first.live(), second.live());
    vstd::seq_lib::to_multiset_len(sorted);
    vstd::seq_lib::to_multiset_len(both);
    lemma_contains_counts(first, fingerprint);
    lemma_contains_counts(second, fingerprint);
    lemma_contains_counts(first.merge(second).unwrap(), fingerprint);
    assert(first.live().len() == first.entries().unwrap().len());
    assert(second.live().len() == second.entries().unwrap().len());
}

/// No false negatives: an insertion that succeeds, with or without growth,
/// leaves a sound filter that stores the fingerprint and, of all others,
/// exactly what it stored before; the count grows by one.
pub proof fn law_insert_is_found(state: FilterState, fingerprint: u64, other: u64)
    requires
        state.sound(),
        state.insert(fingerprint).1 is Ok,
    ensures
        ({
            let after = state.insert(fingerprint).0;
            &&& after.sound()
            &&& after.contains(fingerprint)
            &&& after.contains(other) == (state.contains(other) || other == fingerprint)
            &&& after.live().to_multiset() == state.live().to_multiset().insert(fingerprint)
            &&& after.count == state.count + 1
        }),
{
    let grown = if super::model::vacancies(state.table, state.table.len()) < 2 {
        state.resize().unwrap()
    } else {
        state
    };
    if grown != state {
        law_resize_keeps_membership(state, other);
        law_resize_keeps_membership(state, fingerprint);
    }
    law_place_stores(grown, fingerprint, other);
}

/// Success is owed where the remainder can settle at its home slot: the slot
/// was never written, or was deleted at the end of a run or outside every
/// run of another home slot, and the slot behind it is not shifted. The
/// fingerprint is then placed at its home slot, and no other slot changes.
pub proof fn law_place_settles(state: FilterState, fingerprint: u64)
    requires
        state.sound(),
        state.addresses(fingerprint),
        settles(state, state.quotient(fingerprint)),
    ensures
        state.place(fingerprint) == Ok::<(FilterState, int), QuotientFilterError>(
            (
                settled(state, state.quotient(fingerprint), state.remainder(fingerprint)),
                state.quotient(fingerprint),
            ),
        ),
{
    lemma_settle(state, fingerprint);
}

/// An insertion into a table with two slots or more that hold nothing
/// succeeds where the remainder can settle at its home slot.
pub proof fn law_insert_settles(state: FilterState, fingerprint: u64)
    requires
        state.sound(),
        state.addresses(fingerprint),
        super::model::vacancies(state.table, state.table.len()) >= 2,
        settles(state, state.quotient(fingerprint)),
    ensures
        state.insert(fingerprint) == (
            settled(state, state.quotient(fingerprint), state.remainder(fingerprint)),
            Ok::<int, QuotientFilterError>(state.quotient(fingerprint)),
        ),
{
    law_place_settles(state, fingerprint);
}

/// Where each of the first `upto` slots holds nothing, that many are counted.
pub proof fn lemma_all_free(table: Seq<Slot>, upto: nat)
    requires
        upto <= table.len(),
        forall|i: int| 0 <= i < upto ==> (#[trigger] table[i]).free(),
    ensures
        super::model::vacancies(table, upto) == upto,
    decreases upto,
{
    if upto > 0 {
        lemma_all_free(table, (upto - 1) as nat);
    }
}

/// The first insertion into a new filter of two slots or more succeeds: the
/// fingerprint is placed at its home slot and is then found, and the count
/// is one.
pub proof fn law_first_insert_succeeds(
    width: FingerprintWidth,
    quotient_bits: nat,
    fingerprint: u64,
)
    requires
        1 <= quotient_bits <= width.bits(),
        pow2(quotient_bits) <= usize::MAX,
        FilterState::fresh(width, quotient_bits).addresses(fingerprint),
    ensures
        ({
            let fresh = FilterState::fresh(width, quotient_bits);
            let (after, stored) = fresh.insert(fingerprint);
            &&& stored == Ok::<int, QuotientFilterError>(fresh.quotient(fingerprint))
            &&& after == settled(fresh, fresh.quotient(fingerprint), fresh.remainder(fingerprint))
            &&& after.sound()
            &&& after.contains(fingerprint)
            &&& after.count == 1
        }),
{
    let fresh = FilterState::fresh(width, quotient_bits);
    lemma_fresh_is_sound(width, quotient_bits);
    lemma_parts_in_range(fresh, fingerprint);
    Slot::lemma_zero(MetadataType::BucketOccupied);
    Slot::lemma_zero(MetadataType::RunContinued);
    Slot::lemma_zero(MetadataType::IsShifted);
    Slot::lemma_zero(MetadataType::Tombstone);
    assert forall|i: int| 0 <= i < fresh.table.len() implies (#[trigger] fresh.table[i]).free()
        && fresh.table[i].vacant() by {
        assert(fresh.table[i] == Slot::zero());
    }
    lemma_all_free(fresh.table, fresh.table.len());
    vstd::arithmetic::power2::lemma_pow2_unfold(quotient_bits);
    vstd::arithmetic::power2::lemma_pow2_pos((quotient_bits - 1) as nat);
    let quotient = fresh.quotient(fingerprint);
    assert(fresh.table[quotient].vacant());
    assert(fresh.table[ring_next(quotient, fresh.size())].vacant());
    law_insert_settles(fresh, fingerprint);
    law_insert_is_found(fresh, fingerprint, fingerprint);
}

/// An insertion that fails leaves a sound filter that stores what it stored
/// before, with the count it had.
pub proof fn law_failed_insert_keeps_all(state: FilterState, fingerprint: u64, other: u64)
    requires
        state.sound(),
        state.insert(fingerprint).1 is Err,
    ensures
        ({
            let after = state.insert(fingerprint).0;
            &&& after.sound()
            &&& after.contains(other) == state.contains(other)
            &&& after.count == state.count
        }),
{
    let after = state.insert(fingerprint).0;
    if after != state {
        law_resize_keeps_membership(state, other);
    }
}

/// A deletion takes one stored fingerprint away: the filter stays sound and
/// stores, of all fingerprints but the deleted one, what it stored before,
/// and the deleted one once less; the count falls by one. It no longer
/// stores the deleted one unless it stored it more than once. A deletion of
/// what the filter does not store changes nothing.
pub proof fn law_delete_then_absent(state: FilterState, fingerprint: u64, other: u64)
    requires
        state.sound(),
    ensures
        state.delete(fingerprint).sound(),
        other != fingerprint ==> state.delete(fingerprint).contains(other) == state.contains(
            other,
        ),
        !state.contains(fingerprint) ==> state.delete(fingerprint) == state,
        state.contains(fingerprint) ==> state.delete(fingerprint).count == state.count - 1
            && state.delete(fingerprint).live().to_multiset() == state.live().to_multiset().remove(
            fingerprint,
        ),
        state.delete(fingerprint).contains(fingerprint) == (state.live().to_multiset().count(
            fingerprint,
        ) > 1),
{
    broadcast use vstd::multiset::group_multiset_axioms;

    lemma_delete_keeps_sound(state, fingerprint);
    lemma_find_is_contains(state, fingerprint);
    lemma_contains_counts(state, fingerprint);
    lemma_contains_counts(state, other);
    lemma_contains_counts(state.delete(fingerprint), fingerprint);
    lemma_contains_counts(state.delete(fingerprint), other);
    if state.contains(fingerprint) {
        super::removal::lemma_delete_takes_one(state, fingerprint);
    }
}

} // verus!
