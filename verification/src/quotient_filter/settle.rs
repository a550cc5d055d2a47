//! A home slot that holds nothing takes a remainder as the only slot of a new
//! cluster, and gives it back the same way: every other cluster stays as it
//! was.

use vstd::prelude::*;
use vstd::arithmetic::power2::pow2;
use super::codec::lemma_split_reconstruct;
use super::model::{fingerprints_of, reusable, Entry, FilterState};
use super::navigator::{anchor_from, lemma_walk_up_found, probe_stops, walk_up, Probe};
use super::ring::{lemma_ring_distance_step, ring_distance, ring_next, ring_prev};
use super::slot::{MetadataType, Slot};
use super::walk::{lemma_anchor_from, lemma_parts_in_range};

verus! {

/// Whether a remainder for home slot `quotient` can settle there at once: the
/// slot was never written, or was deleted and can be written anew, and the
/// slot behind it is not shifted.
pub open spec fn settles(state: FilterState, quotient: int) -> bool {
    let next = ring_next(quotient, state.size());
    ||| state.table[quotient].vacant() && !state.table[next].has(MetadataType::IsShifted)
    ||| reusable(state.table, quotient)
}

/// The slot that holds `remainder` at its home slot, alone in its run.
pub open spec fn settled_slot(remainder: u64) -> Slot {
    Slot::zero().with_remainder(remainder).with_flag(MetadataType::BucketOccupied)
}

/// The state with `slot` written at `quotient` and counted.
pub open spec fn written_at(state: FilterState, quotient: int, slot: Slot) -> FilterState {
    state.with_table(state.table.update(quotient, slot), state.count + 1)
}

/// The state after `remainder` settled at `quotient`.
pub open spec fn settled(state: FilterState, quotient: int, remainder: u64) -> FilterState {
    written_at(state, quotient, settled_slot(remainder))
}

/// Whether the walk from `index` on is known to succeed before `slot` is
/// written at `quotient`, where the remainder settles, or afterwards, where
/// the slot at `quotient` held nothing.
pub open spec fn tail_known(
    state: FilterState,
    quotient: int,
    slot: Slot,
    anchor: int,
    index: int,
    previous: int,
    fuel: nat,
) -> bool {
    ||| settles(state, quotient) && state.cluster_tail(anchor, index, previous, fuel) is Some
    ||| state.table[quotient].free() && written_at(state, quotient, slot).cluster_tail(
        anchor,
        index,
        previous,
        fuel,
    ) is Some
}

/// Whether the walk from `from` on is known to succeed before `slot` is
/// written at `quotient`, where the remainder settles, or afterwards, where
/// the slot at `quotient` held nothing.
pub open spec fn entries_known(state: FilterState, quotient: int, slot: Slot, from: int) -> bool {
    ||| settles(state, quotient) && state.entries_from(from) is Some
    ||| state.table[quotient].free() && written_at(state, quotient, slot).entries_from(from) is Some
}

/// The settled slot starts a cluster, holds its remainder and is no
/// tombstone.
pub proof fn lemma_settled_slot(remainder: u64)
    ensures
        settled_slot(remainder).cluster_start(),
        !settled_slot(remainder).vacant(),
        !settled_slot(remainder).has(MetadataType::Tombstone),
        settled_slot(remainder).remainder == remainder,
{
    let plain = Slot::zero().with_remainder(remainder);
    Slot::lemma_zero(MetadataType::BucketOccupied);
    Slot::lemma_zero(MetadataType::RunContinued);
    Slot::lemma_zero(MetadataType::IsShifted);
    Slot::lemma_zero(MetadataType::Tombstone);
    plain.lemma_with_flag(MetadataType::BucketOccupied, MetadataType::BucketOccupied);
    plain.lemma_with_flag(MetadataType::BucketOccupied, MetadataType::RunContinued);
    plain.lemma_with_flag(MetadataType::BucketOccupied, MetadataType::IsShifted);
    plain.lemma_with_flag(MetadataType::BucketOccupied, MetadataType::Tombstone);
}

/// A forward walk ends where it ended in another table that shows it the same
/// up to there.
pub proof fn lemma_walk_up_local(
    first: Seq<Slot>,
    second: Seq<Slot>,
    from: int,
    fuel: nat,
    kind: Probe,
)
    requires
        first.len() == second.len(),
        0 <= from < first.len(),
        fuel <= first.len(),
        walk_up(first, from, fuel, kind) is Some,
        forall|j: int|
            0 <= j < first.len() && ring_distance(from, j, first.len() as int) <= ring_distance(
                from,
                walk_up(first, from, fuel, kind).unwrap(),
                first.len() as int,
            ) ==> probe_stops(kind, #[trigger] first[j]) == probe_stops(kind, second[j]),
    ensures
        walk_up(second, from, fuel, kind) == walk_up(first, from, fuel, kind),
    decreases fuel,
{
    let size = first.len() as int;
    let end = walk_up(first, from, fuel, kind).unwrap();
    lemma_walk_up_found(first, from, fuel, kind);
    assert(ring_distance(from, from, size) == 0);
    if !probe_stops(kind, first[from]) {
        let next = ring_next(from, size);
        lemma_walk_up_found(first, next, (fuel - 1) as nat, kind);
        lemma_ring_distance_step(from, end, size);
        assert forall|j: int|
            0 <= j < first.len() && ring_distance(next, j, size) <= ring_distance(
                next,
                end,
                size,
            ) implies probe_stops(kind, #[trigger] first[j]) == probe_stops(kind, second[j]) by {
            if j != from {
                lemma_ring_distance_step(from, j, size);
            }
        }
        lemma_walk_up_local(first, second, next, (fuel - 1) as nat, kind);
    }
}

/// Of two states that differ in the slot at `quotient` alone, the second
/// gives a run that stands before that slot the home slot that the first
/// gives it.
pub proof fn lemma_same_home(
    first: FilterState,
    second: FilterState,
    quotient: int,
    anchor: int,
    index: int,
    previous: int,
)
    requires
        first.table.len() == second.table.len(),
        1 <= first.size(),
        0 <= quotient < first.size(),
        0 <= anchor < first.size(),
        0 <= index < first.size(),
        0 <= previous < first.size(),
        index != quotient,
        forall|k: int| 0 <= k < first.size() && k != quotient ==> #[trigger] second.table[k]
            == first.table[k],
        ring_distance(anchor, previous, first.size()) < ring_distance(anchor, index, first.size()),
        ring_distance(anchor, index, first.size()) <= ring_distance(
            anchor,
            quotient,
            first.size(),
        ),
        first.home_at(index, previous) is Some,
        ring_distance(anchor, first.home_at(index, previous).unwrap(), first.size())
            < ring_distance(anchor, index, first.size()),
        ring_distance(anchor, first.home_at(index, previous).unwrap(), first.size())
            >= ring_distance(anchor, previous, first.size()),
    ensures
        second.home_at(index, previous) == first.home_at(index, previous),
        0 <= first.home_at(index, previous).unwrap() < first.size(),
{
    let size = first.size();
    let slot = first.table[index];
    let home = first.home_at(index, previous).unwrap();
    if !slot.has(MetadataType::RunContinued) {
        let start = ring_next(previous, size);
        lemma_walk_up_found(first.table, start, (first.table.len() - 1) as nat, Probe::Occupied);
        assert(ring_distance(anchor, start, size) == ring_distance(anchor, previous, size) + 1);
        assert(home != previous) by {
            if home == previous {
                assert(ring_distance(start, previous, size) == size - 1);
            }
        }
        assert forall|j: int|
            0 <= j < size && ring_distance(start, j, size) <= ring_distance(
                start,
                home,
                size,
            ) implies probe_stops(Probe::Occupied, #[trigger] first.table[j]) == probe_stops(
            Probe::Occupied,
            second.table[j],
        ) by {
            assert(ring_distance(anchor, j, size) < ring_distance(anchor, index, size));
            assert(second.table[j] == first.table[j]);
        }
        lemma_walk_up_local(
            first.table,
            second.table,
            start,
            (first.table.len() - 1) as nat,
            Probe::Occupied,
        );
    }
}

/// The walk behind another anchor recovers the same before and after a slot
/// that starts a cluster is written at `quotient`.
pub proof fn lemma_settle_tail(
    state: FilterState,
    quotient: int,
    slot: Slot,
    anchor: int,
    index: int,
    previous: int,
    fuel: nat,
)
    requires
        state.valid(),
        0 <= quotient < state.size(),
        slot.cluster_start(),
        0 <= anchor < state.size(),
        anchor != quotient,
        0 <= index < state.size(),
        0 <= previous < state.size(),
        index != anchor,
        fuel == state.size() - ring_distance(anchor, index, state.size()),
        tail_known(state, quotient, slot, anchor, index, previous, fuel),
        ring_distance(anchor, previous, state.size()) < ring_distance(
            anchor,
            index,
            state.size(),
        ),
        ring_distance(anchor, index, state.size()) <= ring_distance(
            anchor,
            quotient,
            state.size(),
        ),
    ensures
        written_at(state, quotient, slot).cluster_tail(anchor, index, previous, fuel)
            == state.cluster_tail(anchor, index, previous, fuel),
    decreases fuel,
{
    let size = state.size();
    let after = written_at(state, quotient, slot);
    let here = state.table[index];
    let next = ring_next(index, size);
    if index == quotient {
        if !(fuel == 0 || !here.has(MetadataType::IsShifted)) {
            let home = state.home_at(index, previous).unwrap();
            let rest = state.cluster_tail(anchor, next, home, (fuel - 1) as nat);
            assert(rest == Some(Seq::<Entry>::empty()));
            assert(state.entry_at(index, home) + Seq::<Entry>::empty() =~= Seq::<Entry>::empty());
        }
    } else {
        assert(after.table[index] == here);
        if !(fuel == 0 || !here.has(MetadataType::IsShifted)) {
            let back = ring_prev(index, size);
            assert(ring_distance(anchor, back, size) == ring_distance(anchor, index, size) - 1);
            assert(after.table[back] == state.table[back]);
            if state.cluster_tail(anchor, index, previous, fuel) is Some {
                lemma_same_home(state, after, quotient, anchor, index, previous);
            } else {
                lemma_same_home(after, state, quotient, anchor, index, previous);
            }
            let home = state.home_at(index, previous).unwrap();
            assert(after.home_at(index, previous) == Some(home));
            assert(after.entry_at(index, home) == state.entry_at(index, home));
            if fuel > 1 {
                assert(next != anchor);
                assert(ring_distance(anchor, next, size) == ring_distance(anchor, index, size)
                    + 1);
                lemma_settle_tail(state, quotient, slot, anchor, next, home, (fuel - 1) as nat);
            }
        }
    }
}

/// The cluster of another anchor is the same before and after a slot that
/// starts a cluster is written at `quotient`.
pub proof fn lemma_settle_cluster(state: FilterState, quotient: int, slot: Slot, anchor: int)
    requires
        state.valid(),
        0 <= quotient < state.size(),
        slot.cluster_start(),
        0 <= anchor < state.size(),
        anchor != quotient,
        state.table[anchor].cluster_start(),
        settles(state, quotient) && state.cluster(anchor) is Some || state.table[quotient].free()
            && written_at(state, quotient, slot).cluster(anchor) is Some,
    ensures
        written_at(state, quotient, slot).cluster(anchor) == state.cluster(anchor),
{
    let size = state.size();
    let after = written_at(state, quotient, slot);
    assert(after.table[anchor] == state.table[anchor]);
    assert(after.entry_at(anchor, anchor) == state.entry_at(anchor, anchor));
    if size > 1 {
        let next = ring_next(anchor, size);
        lemma_settle_tail(state, quotient, slot, anchor, next, anchor, (size - 1) as nat);
    }
}

/// The cluster of a slot that was written at its home slot before an
/// unshifted slot holds its fingerprint alone.
pub proof fn lemma_settled_cluster(state: FilterState, fingerprint: u64, slot: Slot)
    requires
        state.valid(),
        state.addresses(fingerprint),
        slot.cluster_start(),
        !slot.has(MetadataType::Tombstone),
        slot.remainder == state.remainder(fingerprint),
        !state.table[ring_next(state.quotient(fingerprint), state.size())].has(
            MetadataType::IsShifted,
        ),
    ensures
        written_at(state, state.quotient(fingerprint), slot).cluster(state.quotient(fingerprint))
            == Some(seq![(state.quotient(fingerprint) as usize, fingerprint)]),
{
    let quotient = state.quotient(fingerprint);
    lemma_parts_in_range(state, fingerprint);
    lemma_split_reconstruct(fingerprint, state.remainder_bits);
    let after = written_at(state, quotient, slot);
    let size = state.size();
    let next = ring_next(quotient, size);
    assert(after.table[quotient] == slot);
    assert(after.fingerprint_at(quotient, quotient) == fingerprint);
    let tail = after.cluster_tail(quotient, next, quotient, (state.table.len() - 1) as nat);
    if next != quotient {
        assert(after.table[next] == state.table[next]);
    }
    assert(tail == Some(Seq::<Entry>::empty()));
    assert(seq![(quotient as usize, fingerprint)] + Seq::<Entry>::empty() =~= seq![
        (quotient as usize, fingerprint),
    ]);
}

/// Where no slot from `from` up to before `to` starts a cluster, the first
/// anchor from `from` on is the first from `to` on.
pub proof fn lemma_anchor_skips(table: Seq<Slot>, from: int, to: int)
    requires
        0 <= from <= to,
        forall|k: int| from <= k < to && k < table.len() ==> !(#[trigger] table[k]).cluster_start(),
    ensures
        anchor_from(table, from) == anchor_from(table, to),
    decreases to - from,
{
    if from < to {
        if from < table.len() {
            lemma_anchor_skips(table, from + 1, to);
        } else {
            assert(anchor_from(table, from) is None);
            assert(anchor_from(table, to) is None);
        }
    }
}

/// With a slot that starts a cluster written at the home slot of its
/// fingerprint, the walk recovers from `from` on what it recovers without,
/// and the fingerprint if its slot lies at `from` or above.
pub proof fn lemma_settle_entries(state: FilterState, fingerprint: u64, slot: Slot, from: int)
    requires
        state.valid(),
        state.addresses(fingerprint),
        slot.cluster_start(),
        !slot.has(MetadataType::Tombstone),
        slot.remainder == state.remainder(fingerprint),
        !state.table[ring_next(state.quotient(fingerprint), state.size())].has(
            MetadataType::IsShifted,
        ),
        0 <= from <= state.size(),
        entries_known(state, state.quotient(fingerprint), slot, from),
    ensures
        ({
            let quotient = state.quotient(fingerprint);
            let after = written_at(state, quotient, slot);
            &&& state.entries_from(from) is Some
            &&& after.entries_from(from) is Some
            &&& from > quotient ==> after.entries_from(from) == state.entries_from(from)
            &&& from <= quotient ==> fingerprints_of(
                after.entries_from(from).unwrap(),
            ).to_multiset() == fingerprints_of(
                state.entries_from(from).unwrap(),
            ).to_multiset().insert(fingerprint)
            &&& from <= quotient ==> after.entries_from(from).unwrap().len()
                == state.entries_from(from).unwrap().len() + 1
        }),
    decreases state.size() - from,
{
    broadcast use vstd::multiset::group_multiset_axioms;

    let quotient = state.quotient(fingerprint);
    lemma_parts_in_range(state, fingerprint);
    let after = written_at(state, quotient, slot);
    lemma_anchor_from(state.table, from);
    lemma_anchor_from(after.table, from);
    assert forall|k: int| 0 <= k < state.size() && k != quotient implies #[trigger] after.table[k]
        == state.table[k] by {}
    assert(after.table[quotient].cluster_start());
    let old_anchor = anchor_from(state.table, from);
    let new_anchor = anchor_from(after.table, from);
    if from > quotient {
        assert(new_anchor == old_anchor) by {
            if old_anchor is Some {
                assert(after.table[old_anchor.unwrap()].cluster_start());
                if new_anchor is Some && new_anchor != old_anchor {
                    assert(state.table[new_anchor.unwrap()].cluster_start());
                }
            } else if new_anchor is Some {
                assert(state.table[new_anchor.unwrap()].cluster_start());
            }
        }
        if old_anchor is Some {
            let anchor = old_anchor.unwrap();
            lemma_settle_cluster(state, quotient, slot, anchor);
            lemma_settle_entries(state, fingerprint, slot, anchor + 1);
        }
    } else if old_anchor is Some && old_anchor.unwrap() < quotient {
        let anchor = old_anchor.unwrap();
        assert(new_anchor == Some(anchor)) by {
            assert(after.table[anchor].cluster_start());
            if new_anchor.unwrap() != anchor {
                assert(state.table[new_anchor.unwrap()].cluster_start());
            }
        }
        lemma_settle_cluster(state, quotient, slot, anchor);
        lemma_settle_entries(state, fingerprint, slot, anchor + 1);
        let head = state.cluster(anchor).unwrap();
        let rest = state.entries_from(anchor + 1).unwrap();
        let rest_after = after.entries_from(anchor + 1).unwrap();
        assert(fingerprints_of(head + rest) =~= fingerprints_of(head) + fingerprints_of(rest));
        assert(fingerprints_of(head + rest_after) =~= fingerprints_of(head) + fingerprints_of(
            rest_after,
        ));
        vstd::seq_lib::lemma_multiset_commutative(fingerprints_of(head), fingerprints_of(rest));
        vstd::seq_lib::lemma_multiset_commutative(
            fingerprints_of(head),
            fingerprints_of(rest_after),
        );
        assert(fingerprints_of(head + rest_after).to_multiset() =~= fingerprints_of(
            head + rest,
        ).to_multiset().insert(fingerprint));
    } else {
        assert(new_anchor == Some(quotient)) by {
            if new_anchor.unwrap() != quotient {
                assert(state.table[new_anchor.unwrap()].cluster_start());
            }
        }
        lemma_settled_cluster(state, fingerprint, slot);
        lemma_anchor_from(state.table, quotient + 1);
        lemma_settle_entries(state, fingerprint, slot, quotient + 1);
        if old_anchor == Some(quotient) {
            let size = state.size();
            assert(state.cluster_tail(
                quotient,
                ring_next(quotient, size),
                quotient,
                (state.table.len() - 1) as nat,
            ) == Some(Seq::<Entry>::empty()));
            let dead = state.cluster(quotient).unwrap();
            assert(dead =~= Seq::<Entry>::empty());
            assert(dead + state.entries_from(quotient + 1).unwrap() =~= state.entries_from(
                quotient + 1,
            ).unwrap());
        } else {
            lemma_anchor_skips(state.table, from, quotient + 1);
        }
        assert(state.entries_from(quotient + 1) == state.entries_from(from));
        let rest = state.entries_from(from).unwrap();
        let head = seq![(quotient as usize, fingerprint)];
        assert(after.entries_from(from).unwrap() =~= head + rest);
        assert(fingerprints_of(head + rest) =~= seq![fingerprint] + fingerprints_of(rest));
        vstd::seq_lib::lemma_multiset_commutative(seq![fingerprint], fingerprints_of(rest));
        assert(seq![fingerprint] =~= Seq::<u64>::empty().push(fingerprint));
        vstd::seq_lib::to_multiset_build(Seq::<u64>::empty(), fingerprint);
        Seq::<u64>::empty().to_multiset_ensures();
        assert(fingerprints_of(head + rest).to_multiset() =~= fingerprints_of(
            rest,
        ).to_multiset().insert(fingerprint));
    }
}

/// A remainder that settles at its home slot makes the filter store its
/// fingerprint besides what it stored, and leaves it sound.
pub proof fn lemma_settle(state: FilterState, fingerprint: u64)
    requires
        state.sound(),
        state.addresses(fingerprint),
        settles(state, state.quotient(fingerprint)),
    ensures
        state.grows_to(
            settled(state, state.quotient(fingerprint), state.remainder(fingerprint)),
            seq![fingerprint],
        ),
        settled(state, state.quotient(fingerprint), state.remainder(fingerprint)).sound(),
{
    let quotient = state.quotient(fingerprint);
    let remainder = state.remainder(fingerprint);
    lemma_parts_in_range(state, fingerprint);
    lemma_settled_slot(remainder);
    lemma_settle_entries(state, fingerprint, settled_slot(remainder), 0);
    let after = settled(state, quotient, remainder);
    vstd::seq_lib::to_multiset_build(state.live(), fingerprint);
    assert(state.live() + seq![fingerprint] =~= state.live().push(fingerprint));
    assert forall|i: int| 0 <= i < after.table.len() implies (#[trigger] after.table[i]).remainder
        < pow2(after.remainder_bits) by {
        if i != quotient {
            assert(after.table[i] == state.table[i]);
        }
    }
}

} // verus!
