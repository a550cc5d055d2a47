//! Tombstones: a deletion takes away the entry of one slot and nothing else,
//! and a table that is built anew holds no tombstone.

use vstd::prelude::*;
use vstd::arithmetic::power2::pow2;
use super::model::{
    alone,
    attempt,
    fingerprints_of,
    inserted_slot,
    moved,
    placement,
    shifted_table,
    Entry,
    FilterState,
    Placement,
};
use super::navigator::anchor_from;
use super::ring::{ring_distance, ring_next, ring_prev};
use super::settle::{lemma_settle_entries, written_at};
use super::slot::{MetadataType, Slot};
use super::walk::{
    entry_in_cluster,
    lemma_anchor_from,
    lemma_cluster_entries,
    lemma_entries_from,
    lemma_find_is_contains,
    lemma_recounted,
    recounted,
};

verus! {

/// Entries of the clusters of two anchors lie in different slots.
pub proof fn lemma_clusters_apart(
    state: FilterState,
    one: int,
    two: int,
    first: Entry,
    second: Entry,
)
    requires
        0 <= one < state.size(),
        0 <= two < state.size(),
        one != two,
        state.table[one].cluster_start(),
        state.table[two].cluster_start(),
        entry_in_cluster(state, one, first),
        entry_in_cluster(state, two, second),
    ensures
        first.0 != second.0,
{
    let size = state.size();
    let index = first.0 as int;
    if first.0 == second.0 {
        if index == one {
            assert(0 < ring_distance(two, index, size));
            assert(state.table[index].has(MetadataType::IsShifted));
        } else if index == two {
            assert(0 < ring_distance(one, index, size));
            assert(state.table[index].has(MetadataType::IsShifted));
        } else if ring_distance(two, index, size) < ring_distance(one, index, size) {
            assert(0 < ring_distance(one, two, size) <= ring_distance(one, index, size));
            assert(state.table[two].has(MetadataType::IsShifted));
        } else {
            assert(0 < ring_distance(two, one, size) <= ring_distance(two, index, size));
            assert(state.table[one].has(MetadataType::IsShifted));
        }
    }
}

/// No two entries that the walk recovers lie in one slot.
pub proof fn lemma_entries_apart(state: FilterState, from: int)
    requires
        state.valid(),
        0 <= from <= state.size(),
        state.entries_from(from) is Some,
    ensures
        forall|k: int, l: int|
            0 <= k < l < state.entries_from(from).unwrap().len() ==> (
            #[trigger] state.entries_from(from).unwrap()[k]).0 != (#[trigger] state.entries_from(
                from,
            ).unwrap()[l]).0,
    decreases state.size() - from,
{
    lemma_anchor_from(state.table, from);
    let found = state.entries_from(from).unwrap();
    match anchor_from(state.table, from) {
        None => {},
        Some(first) => {
            lemma_entries_apart(state, first + 1);
            lemma_entries_from(state, first + 1);
            lemma_cluster_entries(state, first);
            let head = state.cluster(first).unwrap();
            let rest = state.entries_from(first + 1).unwrap();
            assert(found =~= head + rest);
            assert forall|k: int, l: int| 0 <= k < l < found.len() implies (#[trigger] found[k]).0
                != (#[trigger] found[l]).0 by {
                if l < head.len() {
                    assert(found[k] == head[k] && found[l] == head[l]);
                } else if k >= head.len() {
                    assert(found[k] == rest[k - head.len()]);
                    assert(found[l] == rest[l - head.len()]);
                } else {
                    assert(found[k] == head[k]);
                    assert(found[l] == rest[l - head.len()]);
                    let at = l - head.len();
                    let anchor = choose|anchor: int|
                        first + 1 <= anchor < state.size() && state.table[anchor].cluster_start()
                            && state.cluster(anchor) is Some && (#[trigger] state.cluster(
                            anchor,
                        )).unwrap().contains(rest[at]);
                    lemma_cluster_entries(state, anchor);
                    let cluster = state.cluster(anchor).unwrap();
                    let place = choose|place: int|
                        0 <= place < cluster.len() && cluster[place] == rest[at];
                    assert(entry_in_cluster(state, anchor, cluster[place]));
                    assert(entry_in_cluster(state, first, head[k]));
                    lemma_clusters_apart(state, first, anchor, head[k], rest[at]);
                }
            }
        },
    }
}

/// Two lists of the same entries, in whatever order, hold the same
/// fingerprints.
pub proof fn lemma_same_entries_same_fingerprints(first: Seq<Entry>, second: Seq<Entry>)
    requires
        first.to_multiset() == second.to_multiset(),
    ensures
        fingerprints_of(first).to_multiset() == fingerprints_of(second).to_multiset(),
    decreases first.len(),
{
    broadcast use vstd::multiset::group_multiset_axioms;

    vstd::seq_lib::to_multiset_len(first);
    vstd::seq_lib::to_multiset_len(second);
    if first.len() == 0 {
        assert(fingerprints_of(first) =~= fingerprints_of(second));
    } else {
        let last = first.last();
        let front = first.drop_last();
        assert(first =~= front.push(last));
        vstd::seq_lib::to_multiset_build(front, last);
        assert(second.to_multiset().count(last) > 0);
        vstd::seq_lib::to_multiset_contains(second, last);
        let at = choose|at: int| 0 <= at < second.len() && second[at] == last;
        let others = second.remove(at);
        vstd::seq_lib::to_multiset_remove(second, at);
        assert(front.to_multiset() =~= others.to_multiset());
        lemma_same_entries_same_fingerprints(front, others);
        assert(fingerprints_of(first) =~= fingerprints_of(front).push(last.1));
        vstd::seq_lib::to_multiset_build(fingerprints_of(front), last.1);
        assert(fingerprints_of(others) =~= fingerprints_of(second).remove(at));
        vstd::seq_lib::to_multiset_remove(fingerprints_of(second), at);
        vstd::seq_lib::to_multiset_contains(fingerprints_of(second), last.1);
        assert(fingerprints_of(second)[at] == last.1);
        assert(fingerprints_of(second).to_multiset().count(last.1) > 0);
        assert(fingerprints_of(first).to_multiset() =~= fingerprints_of(second).to_multiset());
    }
}

/// With one entry of a stored fingerprint marked as deleted the filter stores
/// one fingerprint less: that one.
pub proof fn lemma_recounted_takes_one(state: FilterState, fingerprint: u64)
    requires
        state.sound(),
        state.contains(fingerprint),
    ensures
        recounted(state, fingerprint).live().to_multiset() == state.live().to_multiset().remove(
            fingerprint,
        ),
        recounted(state, fingerprint).count == state.count - 1,
{
    broadcast use vstd::multiset::group_multiset_axioms;

    lemma_recounted(state, fingerprint);
    lemma_find_is_contains(state, fingerprint);
    let after = recounted(state, fingerprint);
    let found = state.find(fingerprint).unwrap();
    let before = state.entries().unwrap();
    let left = after.entries().unwrap();
    lemma_entries_apart(state, 0);
    lemma_entries_apart(after, 0);
    assert(before.no_duplicates());
    assert(left.no_duplicates());
    before.lemma_multiset_has_no_duplicates();
    left.lemma_multiset_has_no_duplicates();
    let at = choose|at: int| 0 <= at < before.len() && before[at] == found;
    let others = before.remove(at);
    vstd::seq_lib::to_multiset_remove(before, at);
    assert forall|entry: Entry| left.to_multiset().count(entry) == others.to_multiset().count(
        entry,
    ) by {
        vstd::seq_lib::to_multiset_contains(left, entry);
        vstd::seq_lib::to_multiset_contains(before, entry);
        if before.contains(entry) && entry.0 == found.0 {
            let k = choose|k: int| 0 <= k < before.len() && before[k] == entry;
            if k < at {
                assert(before[k].0 != before[at].0);
            } else if at < k {
                assert(before[at].0 != before[k].0);
            }
            assert(entry == found);
        }
    }
    assert(left.to_multiset() =~= others.to_multiset());
    lemma_same_entries_same_fingerprints(left, others);
    assert(fingerprints_of(others) =~= fingerprints_of(before).remove(at));
    vstd::seq_lib::to_multiset_remove(fingerprints_of(before), at);
    assert(fingerprints_of(before)[at] == fingerprint);
    vstd::seq_lib::to_multiset_len(left);
    vstd::seq_lib::to_multiset_len(others);
}

/// Where the only slot of a cluster is deleted and its home slot is no longer
/// occupied, the filter stays sound and stores one fingerprint less: that one.
pub proof fn lemma_released(state: FilterState, fingerprint: u64)
    requires
        state.sound(),
        state.find(fingerprint) is Some,
        alone(state.table, state.find(fingerprint).unwrap().0 as int),
    ensures
        ({
            let index = state.find(fingerprint).unwrap().0 as int;
            let after = state.with_table(state.released(index), (state.count - 1) as nat);
            &&& after.sound()
            &&& after.live().to_multiset() == state.live().to_multiset().remove(fingerprint)
            &&& after.count == state.count - 1
        }),
{
    broadcast use vstd::multiset::group_multiset_axioms;

    lemma_find_is_contains(state, fingerprint);
    let found = state.find(fingerprint).unwrap();
    let index = found.0 as int;
    let size = state.size();
    lemma_entries_from(state, 0);
    let entries = state.entries().unwrap();
    let k = choose|k: int| 0 <= k < entries.len() && entries[k] == found;
    let anchor = choose|anchor: int|
        0 <= anchor < state.size() && state.table[anchor].cluster_start() && state.cluster(
            anchor,
        ) is Some && (#[trigger] state.cluster(anchor)).unwrap().contains(entries[k]);
    lemma_cluster_entries(state, anchor);
    let cluster = state.cluster(anchor).unwrap();
    let at = choose|at: int| 0 <= at < cluster.len() && cluster[at] == found;
    assert(entry_in_cluster(state, anchor, cluster[at]));
    if index != anchor {
        assert(0 < ring_distance(anchor, index, size));
        assert(state.table[index].has(MetadataType::IsShifted));
    }
    let slot = state.table[index];
    let marked = slot.with_flag(MetadataType::Tombstone);
    let dead = marked.without_flag(MetadataType::BucketOccupied);
    slot.lemma_with_flag(MetadataType::Tombstone, MetadataType::RunContinued);
    slot.lemma_with_flag(MetadataType::Tombstone, MetadataType::IsShifted);
    marked.lemma_without_flag(MetadataType::BucketOccupied, MetadataType::BucketOccupied);
    marked.lemma_without_flag(MetadataType::BucketOccupied, MetadataType::RunContinued);
    marked.lemma_without_flag(MetadataType::BucketOccupied, MetadataType::IsShifted);
    let after = state.with_table(state.released(index), (state.count - 1) as nat);
    assert forall|i: int| 0 <= i < after.table.len() implies (#[trigger] after.table[i]).remainder
        < pow2(after.remainder_bits) by {
        if i != index {
            assert(after.table[i] == state.table[i]);
        } else {
            assert(state.table[index].remainder < pow2(state.remainder_bits));
        }
    }
    assert(written_at(after, index, slot).table =~= state.table);
    assert(written_at(after, index, slot) == state);
    let next = ring_next(index, size);
    if next != index {
        assert(after.table[next] == state.table[next]);
    }
    lemma_settle_entries(after, fingerprint, slot, 0);
}

/// A deletion keeps the filter sound.
pub proof fn lemma_delete_keeps_sound(state: FilterState, fingerprint: u64)
    requires
        state.sound(),
    ensures
        state.delete(fingerprint).sound(),
{
    lemma_find_is_contains(state, fingerprint);
    if state.find(fingerprint) is Some {
        lemma_delete_takes_one(state, fingerprint);
    }
}

/// A deletion of a stored fingerprint takes one entry with that fingerprint
/// away and leaves every other entry: the filter stores one fingerprint less.
pub proof fn lemma_delete_takes_one(state: FilterState, fingerprint: u64)
    requires
        state.sound(),
        state.contains(fingerprint),
    ensures
        state.delete(fingerprint).sound(),
        state.delete(fingerprint).live().to_multiset() == state.live().to_multiset().remove(
            fingerprint,
        ),
        state.delete(fingerprint).count == state.count - 1,
{
    lemma_find_is_contains(state, fingerprint);
    if alone(state.table, state.find(fingerprint).unwrap().0 as int) {
        lemma_released(state, fingerprint);
    } else {
        lemma_recounted(state, fingerprint);
        lemma_recounted_takes_one(state, fingerprint);
    }
}

/// Whether no slot of the table is marked as deleted.
pub open spec fn unmarked(table: Seq<Slot>) -> bool {
    forall|i: int| 0 <= i < table.len() ==> !(#[trigger] table[i]).has(MetadataType::Tombstone)
}

/// A slot that moves stays deleted or not as it was.
pub proof fn lemma_moved_mark(slot: Slot, target: Slot, follows_new_head: bool)
    ensures
        moved(slot, target, follows_new_head).has(MetadataType::Tombstone) == slot.has(
            MetadataType::Tombstone,
        ),
{
    let shifted = slot.with_flag(MetadataType::IsShifted);
    slot.lemma_with_flag(MetadataType::IsShifted, MetadataType::Tombstone);
    shifted.lemma_with_flag(MetadataType::RunContinued, MetadataType::Tombstone);
    let continued = if follows_new_head {
        shifted.with_flag(MetadataType::RunContinued)
    } else {
        shifted
    };
    continued.lemma_with_flag(MetadataType::BucketOccupied, MetadataType::Tombstone);
    continued.lemma_without_flag(MetadataType::BucketOccupied, MetadataType::Tombstone);
}

/// The slot that an insertion writes is not deleted.
pub proof fn lemma_inserted_slot_mark(
    table: Seq<Slot>,
    quotient: int,
    remainder: u64,
    place: Placement,
)
    ensures
        !inserted_slot(table, quotient, remainder, place).has(MetadataType::Tombstone),
{
    let plain = Slot::zero().with_remainder(remainder);
    Slot::lemma_zero(MetadataType::Tombstone);
    plain.lemma_with_flag(MetadataType::IsShifted, MetadataType::Tombstone);
    let shifted = if place.index != quotient {
        plain.with_flag(MetadataType::IsShifted)
    } else {
        plain
    };
    shifted.lemma_with_flag(MetadataType::RunContinued, MetadataType::Tombstone);
    let continued = if place.continues {
        shifted.with_flag(MetadataType::RunContinued)
    } else {
        shifted
    };
    continued.lemma_with_flag(MetadataType::BucketOccupied, MetadataType::Tombstone);
}

/// An insertion marks no slot as deleted.
pub proof fn lemma_attempt_marks_none(table: Seq<Slot>, quotient: int, remainder: u64)
    requires
        0 <= quotient < table.len(),
        unmarked(table),
        attempt(table, quotient, remainder) is Some,
    ensures
        unmarked(attempt(table, quotient, remainder).unwrap().0),
        attempt(table, quotient, remainder).unwrap().0.len() == table.len(),
{
    let home = table[quotient];
    let size = table.len() as int;
    let after = attempt(table, quotient, remainder).unwrap().0;
    if home.vacant() {
        let plain = Slot::zero().with_remainder(remainder);
        Slot::lemma_zero(MetadataType::Tombstone);
        plain.lemma_with_flag(MetadataType::BucketOccupied, MetadataType::Tombstone);
        assert forall|i: int| 0 <= i < after.len() implies !(#[trigger] after[i]).has(
            MetadataType::Tombstone,
        ) by {
            if i != quotient {
                assert(after[i] == table[i]);
            }
        }
    } else {
        let marked = table.update(quotient, home.with_flag(MetadataType::BucketOccupied));
        home.lemma_with_flag(MetadataType::BucketOccupied, MetadataType::Tombstone);
        assert forall|i: int| 0 <= i < marked.len() implies !(#[trigger] marked[i]).has(
            MetadataType::Tombstone,
        ) by {
            if i != quotient {
                assert(marked[i] == table[i]);
            }
        }
        let place = placement(
            marked,
            quotient,
            remainder,
            home.has(MetadataType::BucketOccupied),
        ).unwrap();
        let slot = inserted_slot(marked, quotient, remainder, place);
        lemma_inserted_slot_mark(marked, quotient, remainder, place);
        assert(after == shifted_table(marked, place, slot));
        assert forall|i: int| 0 <= i < after.len() implies !(#[trigger] after[i]).has(
            MetadataType::Tombstone,
        ) by {
            let back = ring_prev(i, size);
            lemma_moved_mark(marked[back], marked[i], place.heads && back == place.index);
            assert(!marked[back].has(MetadataType::Tombstone));
            assert(!marked[i].has(MetadataType::Tombstone));
        }
    }
}

/// A table filled from one without a tombstone holds none.
pub proof fn lemma_fill_marks_none(
    state: FilterState,
    table: Seq<Slot>,
    fingerprints: Seq<u64>,
    from: int,
)
    requires
        state.valid(),
        table.len() == state.table.len(),
        unmarked(table),
        0 <= from,
        state.fill(table, fingerprints, from) is Some,
    ensures
        unmarked(state.fill(table, fingerprints, from).unwrap()),
    decreases fingerprints.len() - from,
{
    if from < fingerprints.len() {
        super::walk::lemma_parts_in_range(state, fingerprints[from]);
        let quotient = state.quotient(fingerprints[from]);
        let remainder = state.remainder(fingerprints[from]);
        lemma_attempt_marks_none(table, quotient, remainder);
        lemma_fill_marks_none(
            state,
            attempt(table, quotient, remainder).unwrap().0,
            fingerprints,
            from + 1,
        );
    }
}

} // verus!
