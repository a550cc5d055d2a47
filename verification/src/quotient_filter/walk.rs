//! What the walk over the clusters recovers, and why a lookup in the cluster
//! of the home slot finds exactly what is stored.

use vstd::prelude::*;
use vstd::arithmetic::power2::{lemma2_to64, lemma_pow2_adds, lemma_pow2_pos, pow2};
use vstd::seq_lib::lemma_seq_concat_contains_all_elements;
use super::codec::{lemma_reconstruct_split, lemma_split_reconstruct};
use super::model::{
    attempt,
    inserted_slot,
    placement,
    shifted_table,
    Entry,
    FilterState,
    FingerprintWidth,
};
use super::navigator::{anchor_from, lemma_walk_up_found, walk_down, Probe};
use super::ring::{ring_distance, ring_next, ring_prev};
use super::slot::{MetadataType, Slot};

verus! {

/// The quotient of a fingerprint is no negative number, and the remainder is
/// below two to the remainder width.
pub proof fn lemma_parts_in_range(state: FilterState, fingerprint: u64)
    ensures
        0 <= state.quotient(fingerprint),
        state.remainder(fingerprint) < pow2(state.remainder_bits),
{
    lemma_split_reconstruct(fingerprint, state.remainder_bits);
}

/// The table addresses exactly the fingerprints of the filter's width.
pub proof fn lemma_table_spans_width(state: FilterState)
    requires
        state.valid(),
    ensures
        state.size() * pow2(state.remainder_bits) == pow2(state.width.bits()),
        pow2(state.width.bits()) <= pow2(64),
        pow2(64) == 0x10000000000000000,
        state.size() >= 1,
        pow2(state.remainder_bits) >= 1,
{
    lemma_pow2_adds(state.quotient_bits(), state.remainder_bits);
    lemma2_to64();
    lemma_pow2_pos(state.quotient_bits());
    lemma_pow2_pos(state.remainder_bits);
}

/// The fingerprint that a slot stores for a home slot splits into that home
/// slot and the slot's remainder.
pub proof fn lemma_fingerprint_at(state: FilterState, index: int, home: int)
    requires
        state.valid(),
        0 <= index < state.size(),
        0 <= home < state.size(),
    ensures
        state.quotient(state.fingerprint_at(index, home)) == home,
        state.remainder(state.fingerprint_at(index, home)) == state.table[index].remainder,
        state.addresses(state.fingerprint_at(index, home)),
{
    lemma_table_spans_width(state);
    let bits = state.remainder_bits;
    let p = pow2(bits) as int;
    let stored = state.table[index].remainder;
    assert(stored < p);
    assert(stored as int % p == stored as int) by (nonlinear_arith)
        requires
            0 <= stored < p,
    ;
    assert(home * p + stored < state.size() * p) by (nonlinear_arith)
        requires
            0 <= home < state.size(),
            0 <= stored < p,
    ;
    lemma_reconstruct_split(home, stored, bits);
}

/// Where `anchor_from` finds an anchor, it is the first slot from `from` on
/// that starts a cluster; where it finds none, no slot from `from` on does.
pub proof fn lemma_anchor_from(table: Seq<Slot>, from: int)
    requires
        0 <= from,
    ensures
        match anchor_from(table, from) {
            Some(anchor) => from <= anchor < table.len() && table[anchor].cluster_start()
                && forall|i: int| from <= i < anchor ==> !(#[trigger] table[i]).cluster_start(),
            None => forall|i: int|
                from <= i < table.len() ==> !(#[trigger] table[i]).cluster_start(),
        },
    decreases table.len() - from,
{
    if from < table.len() && !table[from].cluster_start() {
        lemma_anchor_from(table, from + 1);
    }
}

/// A new table is sound and stores nothing.
pub proof fn lemma_fresh_is_sound(width: FingerprintWidth, quotient_bits: nat)
    requires
        quotient_bits <= width.bits(),
        pow2(quotient_bits) <= usize::MAX,
    ensures
        FilterState::fresh(width, quotient_bits).sound(),
        FilterState::fresh(width, quotient_bits).entries() == Some(Seq::<Entry>::empty()),
{
    let fresh = FilterState::fresh(width, quotient_bits);
    lemma_pow2_pos(fresh.remainder_bits);
    lemma_anchor_from(fresh.table, 0);
    Slot::lemma_zero(MetadataType::BucketOccupied);
    if anchor_from(fresh.table, 0) is Some {
        let anchor = anchor_from(fresh.table, 0).unwrap();
        assert(fresh.table[anchor] == Slot::zero());
    }
    assert forall|i: int| 0 <= i < fresh.table.len() implies (#[trigger] fresh.table[i]).remainder
        < pow2(fresh.remainder_bits) by {
        assert(fresh.table[i] == Slot::zero());
    }
}

/// Writing a remainder of the filter's width keeps every remainder within the
/// width and the table at its size.
pub proof fn lemma_attempt_keeps_remainders(state: FilterState, quotient: int, remainder: u64)
    requires
        state.valid(),
        0 <= quotient < state.size(),
        remainder < pow2(state.remainder_bits),
    ensures
        match attempt(state.table, quotient, remainder) {
            Some((table, index)) => state.with_table(table, state.count).valid() && 0 <= index
                < table.len(),
            None => true,
        },
{
    let home = state.table[quotient];
    let size = state.size();
    if !home.vacant() {
        let marked = state.table.update(quotient, home.with_flag(MetadataType::BucketOccupied));
        let place = placement(marked, quotient, remainder, home.has(MetadataType::BucketOccupied));
        if place is Some {
            let place = place.unwrap();
            let table = shifted_table(
                marked,
                place,
                inserted_slot(marked, quotient, remainder, place),
            );
            super::laws::lemma_placement_in_range(
                marked,
                quotient,
                remainder,
                home.has(MetadataType::BucketOccupied),
            );
            assert forall|i: int| 0 <= i < table.len() implies (#[trigger] table[i]).remainder
                < pow2(state.remainder_bits) by {
                let before = ring_prev(i, size);
                assert(marked[before].remainder == state.table[before].remainder);
                assert(marked[i].remainder == state.table[i].remainder);
            }
        }
    } else {
        let table = state.table.update(
            quotient,
            Slot::zero().with_remainder(remainder).with_flag(MetadataType::BucketOccupied),
        );
        assert forall|i: int| 0 <= i < table.len() implies (#[trigger] table[i]).remainder < pow2(
            state.remainder_bits,
        ) by {
            if i != quotient {
                assert(table[i] == state.table[i]);
            }
        }
    }
}

/// What holds of an entry of the cluster of `anchor`: its slot is not deleted
/// and stores its remainder, its home slot is occupied and lies between the
/// anchor and its slot, and every slot behind the anchor up to its own is
/// shifted.
pub open spec fn entry_in_cluster(state: FilterState, anchor: int, entry: Entry) -> bool {
    let size = state.size();
    let index = entry.0 as int;
    let home = state.quotient(entry.1);
    &&& 0 <= index < size
    &&& 0 <= home < size
    &&& !state.table[index].has(MetadataType::Tombstone)
    &&& state.remainder(entry.1) == state.table[index].remainder
    &&& state.table[home].has(MetadataType::BucketOccupied)
    &&& ring_distance(anchor, home, size) <= ring_distance(anchor, index, size)
    &&& (home == index) == (index == anchor)
    &&& state.table[index].has(MetadataType::RunContinued) ==> state.table[ring_prev(
        index,
        size,
    )].remainder <= state.table[index].remainder
    &&& forall|j: int|
        0 <= j < size && 0 < ring_distance(anchor, j, size) <= ring_distance(anchor, index, size)
            ==> (#[trigger] state.table[j]).has(MetadataType::IsShifted)
}

/// Every entry that the walk behind an anchor recovers is an entry of the
/// anchor's cluster.
pub proof fn lemma_cluster_tail_entries(
    state: FilterState,
    anchor: int,
    index: int,
    previous: int,
    fuel: nat,
)
    requires
        state.valid(),
        0 <= anchor < state.size(),
        0 <= index < state.size(),
        0 <= previous < state.size(),
        index != anchor,
        fuel == state.size() - ring_distance(anchor, index, state.size()),
        state.cluster_tail(anchor, index, previous, fuel) is Some,
        state.table[previous].has(MetadataType::BucketOccupied),
        ring_distance(anchor, previous, state.size()) < ring_distance(
            anchor,
            index,
            state.size(),
        ),
        forall|j: int|
            0 <= j < state.size() && 0 < ring_distance(anchor, j, state.size()) < ring_distance(
                anchor,
                index,
                state.size(),
            ) ==> (#[trigger] state.table[j]).has(MetadataType::IsShifted),
    ensures
        forall|k: int|
            0 <= k < state.cluster_tail(anchor, index, previous, fuel).unwrap().len()
                ==> entry_in_cluster(
                state,
                anchor,
                #[trigger] state.cluster_tail(anchor, index, previous, fuel).unwrap()[k],
            ),
        forall|k: int|
            0 <= k < state.cluster_tail(anchor, index, previous, fuel).unwrap().len()
                ==> ring_distance(
                anchor,
                (#[trigger] state.cluster_tail(anchor, index, previous, fuel).unwrap()[k]).0 as int,
                state.size(),
            ) >= ring_distance(anchor, index, state.size()),
        forall|k: int, l: int|
            0 <= k < l < state.cluster_tail(anchor, index, previous, fuel).unwrap().len()
                ==> ring_distance(
                anchor,
                (#[trigger] state.cluster_tail(anchor, index, previous, fuel).unwrap()[k]).0 as int,
                state.size(),
            ) < ring_distance(
                anchor,
                (#[trigger] state.cluster_tail(anchor, index, previous, fuel).unwrap()[l]).0 as int,
                state.size(),
            ),
    decreases fuel,
{
    let size = state.size();
    let slot = state.table[index];
    let found = state.cluster_tail(anchor, index, previous, fuel).unwrap();
    if slot.has(MetadataType::IsShifted) {
        let home = state.home_at(index, previous).unwrap();
        if !slot.has(MetadataType::RunContinued) {
            lemma_walk_up_found(
                state.table,
                ring_next(previous, size),
                (state.table.len() - 1) as nat,
                Probe::Occupied,
            );
        }
        lemma_fingerprint_at(state, index, home);
        let head = state.entry_at(index, home);
        let next = ring_next(index, size);
        let rest = state.cluster_tail(anchor, next, home, (fuel - 1) as nat).unwrap();
        assert(found =~= head + rest);
        if fuel > 1 {
            assert(next != anchor);
            assert(ring_distance(anchor, next, size) == ring_distance(anchor, index, size) + 1);
            assert forall|j: int|
                0 <= j < size && 0 < ring_distance(anchor, j, size) < ring_distance(
                    anchor,
                    next,
                    size,
                ) implies (#[trigger] state.table[j]).has(MetadataType::IsShifted) by {
                if ring_distance(anchor, j, size) == ring_distance(anchor, index, size) {
                    assert(j == index);
                }
            }
            lemma_cluster_tail_entries(state, anchor, next, home, (fuel - 1) as nat);
        } else {
            assert(rest =~= Seq::<Entry>::empty());
        }
        assert forall|k: int| 0 <= k < found.len() implies entry_in_cluster(
            state,
            anchor,
            #[trigger] found[k],
        ) by {
            if k < head.len() {
                assert(found[k] == head[k]);
                assert(found[k] == (index as usize, state.fingerprint_at(index, home)));
                assert forall|j: int|
                    0 <= j < size && 0 < ring_distance(anchor, j, size) <= ring_distance(
                        anchor,
                        index,
                        size,
                    ) implies (#[trigger] state.table[j]).has(MetadataType::IsShifted) by {
                    if ring_distance(anchor, j, size) == ring_distance(anchor, index, size) {
                        assert(j == index);
                    }
                }
            } else {
                assert(found[k] == rest[k - head.len()]);
            }
        }
        assert forall|k: int| 0 <= k < found.len() implies ring_distance(
            anchor,
            (#[trigger] found[k]).0 as int,
            size,
        ) >= ring_distance(anchor, index, size) by {
            if k < head.len() {
                assert(found[k] == head[k]);
            } else {
                assert(found[k] == rest[k - head.len()]);
            }
        }
        assert forall|k: int, l: int| 0 <= k < l < found.len() implies ring_distance(
            anchor,
            (#[trigger] found[k]).0 as int,
            size,
        ) < ring_distance(anchor, (#[trigger] found[l]).0 as int, size) by {
            assert(found[l] == rest[l - head.len()]);
            if k < head.len() {
                assert(found[k] == head[k]);
            } else {
                assert(found[k] == rest[k - head.len()]);
            }
        }
    }
}

/// Every entry of the cluster of an anchor is an entry of that cluster.
pub proof fn lemma_cluster_entries(state: FilterState, anchor: int)
    requires
        state.valid(),
        0 <= anchor < state.size(),
        state.table[anchor].cluster_start(),
        state.cluster(anchor) is Some,
    ensures
        forall|k: int|
            0 <= k < state.cluster(anchor).unwrap().len() ==> entry_in_cluster(
                state,
                anchor,
                #[trigger] state.cluster(anchor).unwrap()[k],
            ),
        forall|k: int, l: int|
            0 <= k < l < state.cluster(anchor).unwrap().len() ==> (
            #[trigger] state.cluster(anchor).unwrap()[k]).0 != (#[trigger] state.cluster(
                anchor,
            ).unwrap()[l]).0,
{
    let size = state.size();
    let found = state.cluster(anchor).unwrap();
    let head = state.entry_at(anchor, anchor);
    let next = ring_next(anchor, size);
    let rest = state.cluster_tail(anchor, next, anchor, (state.table.len() - 1) as nat).unwrap();
    assert(found =~= head + rest);
    lemma_fingerprint_at(state, anchor, anchor);
    if size > 1 {
        lemma_cluster_tail_entries(state, anchor, next, anchor, (size - 1) as nat);
    } else {
        assert(rest =~= Seq::<Entry>::empty());
    }
    assert forall|k: int| 0 <= k < found.len() implies entry_in_cluster(
        state,
        anchor,
        #[trigger] found[k],
    ) by {
        if k < head.len() {
            assert(found[k] == head[k]);
        } else {
            assert(found[k] == rest[k - head.len()]);
        }
    }
    assert forall|k: int, l: int| 0 <= k < l < found.len() implies (#[trigger] found[k]).0 != (
    #[trigger] found[l]).0 by {
        assert(found[l] == rest[l - head.len()]);
        assert(ring_distance(anchor, rest[l - head.len()].0 as int, size) >= 1);
        if k < head.len() {
            assert(found[k] == head[k]);
        } else {
            assert(found[k] == rest[k - head.len()]);
        }
    }
}

/// The slots of the entries of a cluster lie within the table.
pub proof fn lemma_cluster_indices(state: FilterState, anchor: int)
    requires
        state.valid(),
        0 <= anchor < state.size(),
        state.table[anchor].cluster_start(),
    ensures
        state.cluster(anchor) is Some ==> forall|k: int|
            0 <= k < state.cluster(anchor).unwrap().len() ==> (
            #[trigger] state.cluster(anchor).unwrap()[k]).0 < state.size(),
{
    if state.cluster(anchor) is Some {
        lemma_cluster_entries(state, anchor);
        assert forall|k: int| 0 <= k < state.cluster(anchor).unwrap().len() implies (
        #[trigger] state.cluster(anchor).unwrap()[k]).0 < state.size() by {
            assert(entry_in_cluster(state, anchor, state.cluster(anchor).unwrap()[k]));
        }
    }
}

/// The walk back from a slot over shifted slots ends at the slot that is not
/// shifted.
pub proof fn lemma_walk_back_to_anchor(table: Seq<Slot>, anchor: int, from: int, fuel: nat)
    requires
        0 <= anchor < table.len(),
        0 <= from < table.len(),
        !table[anchor].has(MetadataType::IsShifted),
        fuel > ring_distance(anchor, from, table.len() as int),
        forall|j: int|
            0 <= j < table.len() && 0 < ring_distance(anchor, j, table.len() as int)
                <= ring_distance(anchor, from, table.len() as int) ==> (#[trigger] table[j]).has(
                MetadataType::IsShifted,
            ),
    ensures
        walk_down(table, from, fuel, Probe::Unshifted) == Some(anchor),
    decreases ring_distance(anchor, from, table.len() as int),
{
    let size = table.len() as int;
    if from != anchor {
        assert(table[from].has(MetadataType::IsShifted));
        let back = ring_prev(from, size);
        assert(ring_distance(anchor, back, size) == ring_distance(anchor, from, size) - 1);
        assert forall|j: int|
            0 <= j < table.len() && 0 < ring_distance(anchor, j, size) <= ring_distance(
                anchor,
                back,
                size,
            ) implies (#[trigger] table[j]).has(MetadataType::IsShifted) by {}
        lemma_walk_back_to_anchor(table, anchor, back, (fuel - 1) as nat);
    }
}

/// What the walk over all clusters recovers from `from` on: each entry lies in
/// the cluster of an anchor, and the entries of each anchor's cluster are
/// among them.
pub proof fn lemma_entries_from(state: FilterState, from: int)
    requires
        0 <= from <= state.size(),
        state.entries_from(from) is Some,
    ensures
        forall|k: int|
            0 <= k < state.entries_from(from).unwrap().len() ==> exists|anchor: int|
                from <= anchor < state.size() && state.table[anchor].cluster_start()
                    && state.cluster(anchor) is Some && (#[trigger] state.cluster(
                    anchor,
                )).unwrap().contains(#[trigger] state.entries_from(from).unwrap()[k]),
        forall|anchor: int|
            from <= anchor < state.size() && (#[trigger] state.table[anchor]).cluster_start()
                ==> state.cluster(anchor) is Some && forall|k: int|
                0 <= k < state.cluster(anchor).unwrap().len() ==> state.entries_from(
                    from,
                ).unwrap().contains(#[trigger] state.cluster(anchor).unwrap()[k]),
    decreases state.size() - from,
{
    broadcast use lemma_seq_concat_contains_all_elements;

    lemma_anchor_from(state.table, from);
    let found = state.entries_from(from).unwrap();
    match anchor_from(state.table, from) {
        None => {
            assert(found =~= Seq::<Entry>::empty());
        },
        Some(first) => {
            lemma_entries_from(state, first + 1);
            let head = state.cluster(first).unwrap();
            let rest = state.entries_from(first + 1).unwrap();
            assert(found =~= head + rest);
            assert forall|k: int| 0 <= k < found.len() implies exists|anchor: int|
                from <= anchor < state.size() && state.table[anchor].cluster_start()
                    && state.cluster(anchor) is Some && (#[trigger] state.cluster(
                    anchor,
                )).unwrap().contains(#[trigger] found[k]) by {
                if k < head.len() {
                    assert(found[k] == head[k]);
                    assert(state.cluster(first).unwrap().contains(found[k]));
                } else {
                    assert(found[k] == rest[k - head.len()]);
                    let anchor = choose|anchor: int|
                        first + 1 <= anchor < state.size() && state.table[anchor].cluster_start()
                            && state.cluster(anchor) is Some && (#[trigger] state.cluster(
                            anchor,
                        )).unwrap().contains(rest[k - head.len()]);
                    assert(state.cluster(anchor).unwrap().contains(found[k]));
                }
            }
            assert forall|anchor: int|
                from <= anchor < state.size() && (#[trigger] state.table[anchor]).cluster_start()
                    implies state.cluster(anchor) is Some && forall|k: int|
                0 <= k < state.cluster(anchor).unwrap().len() ==> found.contains(
                    #[trigger] state.cluster(anchor).unwrap()[k],
                ) by {
                if anchor == first {
                    assert forall|k: int| 0 <= k < head.len() implies found.contains(
                        #[trigger] head[k],
                    ) by {
                        assert(head.contains(head[k]));
                    }
                } else {
                    assert(anchor > first);
                    assert forall|k: int|
                        0 <= k < state.cluster(anchor).unwrap().len() implies found.contains(
                        #[trigger] state.cluster(anchor).unwrap()[k],
                    ) by {
                        assert(rest.contains(state.cluster(anchor).unwrap()[k]));
                    }
                }
            }
        },
    }
}

/// Where the entries hold a fingerprint, `position` finds the first of them.
pub proof fn lemma_position(entries: Seq<Entry>, fingerprint: u64, from: int)
    requires
        0 <= from,
    ensures
        match FilterState::position(entries, fingerprint, from) {
            Some(at) => from <= at < entries.len() && entries[at].1 == fingerprint,
            None => forall|k: int| from <= k < entries.len() ==> (#[trigger] entries[k]).1
                != fingerprint,
        },
    decreases entries.len() - from,
{
    if from < entries.len() && entries[from].1 != fingerprint {
        lemma_position(entries, fingerprint, from + 1);
    }
}

/// In a sound filter a lookup in the cluster of the home slot finds a
/// fingerprint exactly if the filter stores it.
pub proof fn lemma_find_is_contains(state: FilterState, fingerprint: u64)
    requires
        state.sound(),
    ensures
        state.find(fingerprint) is Some == state.contains(fingerprint),
        state.find(fingerprint) is Some ==> state.find(fingerprint).unwrap().1 == fingerprint
            && state.find(fingerprint).unwrap().0 < state.size()
            && state.entries().unwrap().contains(state.find(fingerprint).unwrap()),
{
    lemma_table_spans_width(state);
    lemma_parts_in_range(state, fingerprint);
    lemma_entries_from(state, 0);
    let entries = state.entries().unwrap();
    let live = state.live();
    let quotient = state.quotient(fingerprint);
    let size = state.size();
    if state.find(fingerprint) is Some {
        let anchor = walk_down(state.table, quotient, state.table.len(), Probe::Unshifted).unwrap();
        super::laws::lemma_walk_down_in_range(
            state.table,
            quotient,
            state.table.len(),
            Probe::Unshifted,
        );
        let cluster = state.cluster(anchor).unwrap();
        lemma_position(cluster, fingerprint, 0);
        let at = FilterState::position(cluster, fingerprint, 0).unwrap();
        lemma_cluster_entries(state, anchor);
        assert(entry_in_cluster(state, anchor, cluster[at]));
        assert(entries.contains(cluster[at]));
        let k = choose|k: int| 0 <= k < entries.len() && entries[k] == cluster[at];
        assert(live[k] == fingerprint);
    }
    if state.contains(fingerprint) {
        let k = choose|k: int| 0 <= k < live.len() && live[k] == fingerprint;
        let entry = entries[k];
        assert(entry.1 == fingerprint);
        let anchor = choose|anchor: int|
            0 <= anchor < state.size() && state.table[anchor].cluster_start() && state.cluster(
                anchor,
            ) is Some && (#[trigger] state.cluster(anchor)).unwrap().contains(entries[k]);
        let cluster = state.cluster(anchor).unwrap();
        lemma_cluster_entries(state, anchor);
        let at = choose|at: int| 0 <= at < cluster.len() && cluster[at] == entry;
        assert(entry_in_cluster(state, anchor, cluster[at]));
        assert forall|j: int|
            0 <= j < size && 0 < ring_distance(anchor, j, size) <= ring_distance(
                anchor,
                quotient,
                size,
            ) implies (#[trigger] state.table[j]).has(MetadataType::IsShifted) by {}
        lemma_walk_back_to_anchor(state.table, anchor, quotient, state.table.len());
        lemma_position(cluster, fingerprint, 0);
        assert(cluster[at].1 == fingerprint);
    }
}

/// A tombstone changes what no walk looks at but whether the slot counts.
pub proof fn lemma_marked_tail(
    state: FilterState,
    deleted: int,
    anchor: int,
    index: int,
    previous: int,
    fuel: nat,
)
    requires
        state.size() <= usize::MAX,
        0 <= deleted < state.size(),
        0 <= anchor < state.size(),
        0 <= index < state.size(),
        0 <= previous < state.size(),
        !state.table[deleted].vacant(),
        state.cluster_tail(anchor, index, previous, fuel) is Some,
    ensures
        ({
            let after = state.with_table(state.marked(deleted), 0);
            &&& after.cluster_tail(anchor, index, previous, fuel) is Some
            &&& forall|entry: Entry|
                after.cluster_tail(anchor, index, previous, fuel).unwrap().contains(entry) == (
                state.cluster_tail(anchor, index, previous, fuel).unwrap().contains(entry)
                    && entry.0 != deleted)
        }),
    decreases fuel,
{
    broadcast use lemma_seq_concat_contains_all_elements;

    let size = state.size();
    let after = state.with_table(state.marked(deleted), 0);
    lemma_marked(state, deleted);
    let slot = state.table[index];
    let found = state.cluster_tail(anchor, index, previous, fuel).unwrap();
    if fuel == 0 || !slot.has(MetadataType::IsShifted) {
        assert(after.cluster_tail(anchor, index, previous, fuel) == Some(Seq::<Entry>::empty()));
        assert(found =~= Seq::<Entry>::empty());
        assert forall|entry: Entry| !Seq::<Entry>::empty().contains(entry) by {}
    } else {
        super::laws::lemma_walk_up_agrees(
            state.table,
            after.table,
            ring_next(previous, size),
            (state.table.len() - 1) as nat,
            Probe::Occupied,
        );
        let home = state.home_at(index, previous).unwrap();
        assert(after.home_at(index, previous) == Some(home));
        if !slot.has(MetadataType::RunContinued) {
            lemma_walk_up_found(
                state.table,
                ring_next(previous, size),
                (state.table.len() - 1) as nat,
                Probe::Occupied,
            );
        }
        let next = ring_next(index, size);
        lemma_marked_tail(state, deleted, anchor, next, home, (fuel - 1) as nat);
        let rest = state.cluster_tail(anchor, next, home, (fuel - 1) as nat).unwrap();
        let rest_after = after.cluster_tail(anchor, next, home, (fuel - 1) as nat).unwrap();
        let head = state.entry_at(index, home);
        let head_after = after.entry_at(index, home);
        assert(found =~= head + rest);
        assert(after.cluster_tail(anchor, index, previous, fuel).unwrap() =~= head_after
            + rest_after);
        assert forall|entry: Entry| (head_after + rest_after).contains(entry) == ((head
            + rest).contains(entry) && entry.0 != deleted) by {
            if index == deleted {
                assert(head_after =~= Seq::<Entry>::empty());
                if head.contains(entry) {
                    let k = choose|k: int| 0 <= k < head.len() && head[k] == entry;
                    assert(entry.0 == deleted);
                }
            } else {
                assert(head_after == head);
                if head.contains(entry) {
                    let k = choose|k: int| 0 <= k < head.len() && head[k] == entry;
                    assert(entry.0 == index);
                }
            }
        }
    }
}

/// A tombstone keeps the remainder and every other flag of its slot, and
/// every other slot.
pub proof fn lemma_marked(state: FilterState, deleted: int)
    requires
        0 <= deleted < state.size(),
        !state.table[deleted].vacant(),
    ensures
        ({
            let marked = state.marked(deleted);
            &&& marked.len() == state.table.len()
            &&& marked[deleted].has(MetadataType::Tombstone)
            &&& forall|k: int|
                0 <= k < marked.len() ==> {
                    &&& (#[trigger] marked[k]).remainder == state.table[k].remainder
                    &&& marked[k].has(MetadataType::BucketOccupied) == state.table[k].has(
                        MetadataType::BucketOccupied,
                    )
                    &&& marked[k].has(MetadataType::RunContinued) == state.table[k].has(
                        MetadataType::RunContinued,
                    )
                    &&& marked[k].has(MetadataType::IsShifted) == state.table[k].has(
                        MetadataType::IsShifted,
                    )
                    &&& marked[k].vacant() == state.table[k].vacant()
                    &&& marked[k].cluster_start() == state.table[k].cluster_start()
                    &&& k != deleted ==> marked[k] == state.table[k]
                }
        }),
{
    let slot = state.table[deleted];
    slot.lemma_with_flag(MetadataType::Tombstone, MetadataType::Tombstone);
    slot.lemma_with_flag(MetadataType::Tombstone, MetadataType::IsShifted);
    slot.lemma_with_flag(MetadataType::Tombstone, MetadataType::RunContinued);
    slot.lemma_with_flag(MetadataType::Tombstone, MetadataType::BucketOccupied);
}

/// Over a table with one more tombstone the walk recovers what it recovered
/// before, but for the entry of the slot that was marked.
pub proof fn lemma_marked_entries(state: FilterState, deleted: int, from: int)
    requires
        state.size() <= usize::MAX,
        0 <= deleted < state.size(),
        0 <= from <= state.size(),
        !state.table[deleted].vacant(),
        state.entries_from(from) is Some,
    ensures
        ({
            let after = state.with_table(state.marked(deleted), 0);
            &&& after.entries_from(from) is Some
            &&& forall|entry: Entry|
                after.entries_from(from).unwrap().contains(entry) == (state.entries_from(
                    from,
                ).unwrap().contains(entry) && entry.0 != deleted)
        }),
    decreases state.size() - from,
{
    broadcast use lemma_seq_concat_contains_all_elements;

    let size = state.size();
    let after = state.with_table(state.marked(deleted), 0);
    lemma_marked(state, deleted);
    lemma_anchor_agrees(state.table, after.table, from);
    lemma_anchor_from(state.table, from);
    match anchor_from(state.table, from) {
        None => {
            assert(state.entries_from(from).unwrap() =~= Seq::<Entry>::empty());
            assert(after.entries_from(from).unwrap() =~= Seq::<Entry>::empty());
        },
        Some(anchor) => {
            lemma_marked_entries(state, deleted, anchor + 1);
            lemma_marked_tail(
                state,
                deleted,
                anchor,
                ring_next(anchor, size),
                anchor,
                (state.table.len() - 1) as nat,
            );
            let tail = state.cluster_tail(
                anchor,
                ring_next(anchor, size),
                anchor,
                (state.table.len() - 1) as nat,
            ).unwrap();
            let tail_after = after.cluster_tail(
                anchor,
                ring_next(anchor, size),
                anchor,
                (state.table.len() - 1) as nat,
            ).unwrap();
            let head = state.entry_at(anchor, anchor);
            let head_after = after.entry_at(anchor, anchor);
            let rest = state.entries_from(anchor + 1).unwrap();
            let rest_after = after.entries_from(anchor + 1).unwrap();
            assert(state.entries_from(from).unwrap() =~= head + tail + rest);
            assert(after.entries_from(from).unwrap() =~= head_after + tail_after + rest_after);
            assert forall|entry: Entry| (head_after + tail_after + rest_after).contains(entry) == ((
            head + tail + rest).contains(entry) && entry.0 != deleted) by {
                if anchor == deleted {
                    assert(head_after =~= Seq::<Entry>::empty());
                    if head.contains(entry) {
                        let k = choose|k: int| 0 <= k < head.len() && head[k] == entry;
                        assert(entry.0 == deleted);
                    }
                } else {
                    assert(head_after == head);
                    if head.contains(entry) {
                        let k = choose|k: int| 0 <= k < head.len() && head[k] == entry;
                        assert(entry.0 == anchor);
                    }
                }
            }
        },
    }
}

/// Two tables of one length in which the same slots start a cluster have the
/// same anchors.
pub proof fn lemma_anchor_agrees(first: Seq<Slot>, second: Seq<Slot>, from: int)
    requires
        first.len() == second.len(),
        forall|k: int|
            0 <= k < first.len() ==> (#[trigger] first[k]).cluster_start()
                == second[k].cluster_start(),
    ensures
        anchor_from(first, from) == anchor_from(second, from),
    decreases first.len() - from,
{
    if 0 <= from < first.len() && !first[from].cluster_start() {
        lemma_anchor_agrees(first, second, from + 1);
    }
}

/// The slot of a stored entry lies within the table and was written.
pub proof fn lemma_entry_slot_is_used(state: FilterState, entry: Entry)
    requires
        state.sound(),
        state.entries().unwrap().contains(entry),
    ensures
        0 <= entry.0 < state.size(),
        !state.table[entry.0 as int].vacant(),
{
    lemma_entries_from(state, 0);
    let entries = state.entries().unwrap();
    let k = choose|k: int| 0 <= k < entries.len() && entries[k] == entry;
    let anchor = choose|anchor: int|
        0 <= anchor < state.size() && state.table[anchor].cluster_start() && state.cluster(
            anchor,
        ) is Some && (#[trigger] state.cluster(anchor)).unwrap().contains(entries[k]);
    lemma_cluster_entries(state, anchor);
    let cluster = state.cluster(anchor).unwrap();
    let at = choose|at: int| 0 <= at < cluster.len() && cluster[at] == entry;
    assert(entry_in_cluster(state, anchor, cluster[at]));
    let index = entry.0 as int;
    if index != anchor {
        assert(0 < ring_distance(anchor, index, state.size()));
        assert(state.table[index].has(MetadataType::IsShifted));
    }
}

/// A table with one more tombstone on a slot that was written is valid as
/// before.
pub proof fn lemma_marked_valid(state: FilterState, deleted: int, count: nat)
    requires
        state.valid(),
        0 <= deleted < state.size(),
        !state.table[deleted].vacant(),
    ensures
        state.with_table(state.marked(deleted), count).valid(),
{
    lemma_marked(state, deleted);
    let after = state.with_table(state.marked(deleted), count);
    assert forall|i: int| 0 <= i < after.table.len() implies (#[trigger] after.table[i]).remainder
        < pow2(after.remainder_bits) by {
        assert(after.table[i].remainder == state.table[i].remainder);
    }
}

/// The state with the slot of the first entry of `fingerprint` marked as
/// deleted and the entries counted anew.
pub open spec fn recounted(state: FilterState, fingerprint: u64) -> FilterState {
    match state.find(fingerprint) {
        None => state,
        Some(entry) => {
            let table = state.marked(entry.0 as int);
            state.with_table(table, state.with_table(table, 0).entries().unwrap().len())
        },
    }
}

/// With one more tombstone and the entries counted anew the filter is sound,
/// and stores what it stored before but for the entry of the slot that became
/// a tombstone.
pub proof fn lemma_recounted(state: FilterState, fingerprint: u64)
    requires
        state.sound(),
    ensures
        recounted(state, fingerprint).sound(),
        state.find(fingerprint) is Some ==> forall|entry: Entry|
            recounted(state, fingerprint).entries().unwrap().contains(entry) == (
            state.entries().unwrap().contains(entry) && entry.0 != state.find(
                fingerprint,
            ).unwrap().0),
{
    if state.find(fingerprint) is Some {
        lemma_find_is_contains(state, fingerprint);
        let found = state.find(fingerprint).unwrap();
        let deleted = found.0 as int;
        lemma_entry_slot_is_used(state, found);
        lemma_marked_entries(state, deleted, 0);
        let marked = state.with_table(state.marked(deleted), 0);
        let count = marked.entries().unwrap().len();
        lemma_marked_valid(state, deleted, count);
        let after = state.with_table(state.marked(deleted), count);
        assert(after.entries() == marked.entries()) by {
            lemma_entries_ignore_count(state, state.marked(deleted), 0, count, 0);
        }
        assert(recounted(state, fingerprint) == after);
    }
}

/// The walk does not look at the count.
pub proof fn lemma_entries_ignore_count(
    state: FilterState,
    table: Seq<Slot>,
    first: nat,
    second: nat,
    from: int,
)
    ensures
        state.with_table(table, first).entries_from(from) == state.with_table(
            table,
            second,
        ).entries_from(from),
    decreases table.len() - from,
{
    let one = state.with_table(table, first);
    let two = state.with_table(table, second);
    match anchor_from(table, from) {
        None => {},
        Some(anchor) => {
            if !(anchor < from || anchor >= table.len()) {
                lemma_entries_ignore_count(state, table, first, second, anchor + 1);
                lemma_tail_ignores_count(
                    state,
                    table,
                    first,
                    second,
                    anchor,
                    ring_next(anchor, table.len() as int),
                    anchor,
                    (table.len() - 1) as nat,
                );
            }
        },
    }
}

/// The walk behind an anchor does not look at the count.
pub proof fn lemma_tail_ignores_count(
    state: FilterState,
    table: Seq<Slot>,
    first: nat,
    second: nat,
    anchor: int,
    index: int,
    previous: int,
    fuel: nat,
)
    ensures
        state.with_table(table, first).cluster_tail(anchor, index, previous, fuel)
            == state.with_table(table, second).cluster_tail(anchor, index, previous, fuel),
    decreases fuel,
{
    let one = state.with_table(table, first);
    if fuel > 0 && one.home_at(index, previous) is Some {
        lemma_tail_ignores_count(
            state,
            table,
            first,
            second,
            anchor,
            ring_next(index, table.len() as int),
            one.home_at(index, previous).unwrap(),
            (fuel - 1) as nat,
        );
    }
}

} // verus!
