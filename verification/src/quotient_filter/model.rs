//! The mathematical model of a filter: its state as plain values, what it
//! stores, and what each operation makes of it.

use vstd::prelude::*;
use vstd::arithmetic::power2::pow2;
use super::codec::{fingerprint_of, quotient_of, remainder_of};
use super::error::QuotientFilterError;
use super::navigator::{anchor_from, walk_down, walk_up, Probe};
use super::ring::{ring_distance, ring_next, ring_prev};
use super::slot::{MetadataType, Slot};

verus! {

/// The width of the fingerprints that a filter stores.
#[derive(Clone, Copy, Debug, PartialEq, Eq, Structural)]
pub enum FingerprintWidth {
    /// Fingerprints of 32 bits.
    Bits32,
    /// Fingerprints of 64 bits.
    Bits64,
}

impl FingerprintWidth {
    /// The number of bits of a fingerprint.
    pub open spec fn bits(self) -> nat {
        match self {
            FingerprintWidth::Bits32 => 32,
            FingerprintWidth::Bits64 => 64,
        }
    }

    /// The widest quotient that a table for such fingerprints may have.
    pub open spec fn max_quotient_bits(self) -> nat {
        match self {
            FingerprintWidth::Bits32 => 30,
            FingerprintWidth::Bits64 => 61,
        }
    }
}

/// A filter as plain values.
pub struct FilterState {
    /// The width of the fingerprints.
    pub width: FingerprintWidth,
    /// How many low bits of a fingerprint a slot stores.
    pub remainder_bits: nat,
    /// The number of stored fingerprints that were not deleted.
    pub count: nat,
    /// The slots, by index.
    pub table: Seq<Slot>,
}

/// A stored fingerprint with the index of the slot that holds its remainder.
pub type Entry = (usize, u64);

/// Where an insertion puts a new slot and how far it moves the slots there.
pub struct Placement {
    /// The index that receives the new slot.
    pub index: int,
    /// The first slot at or after `index` that holds nothing.
    pub gap: int,
    /// Whether the new slot continues a run.
    pub continues: bool,
    /// Whether the new slot takes the place of the head of its run.
    pub heads: bool,
}

/// `rest` with `first` before it, where there is a rest.
pub open spec fn prepend(first: Seq<Entry>, rest: Option<Seq<Entry>>) -> Option<Seq<Entry>> {
    match rest {
        None => None,
        Some(rest) => Some(first + rest),
    }
}

/// The fingerprints of entries.
pub open spec fn fingerprints_of(entries: Seq<Entry>) -> Seq<u64> {
    entries.map_values(|entry: Entry| entry.1)
}

/// The ascending order of fingerprints.
pub open spec fn ascending() -> spec_fn(u64, u64) -> bool {
    |a: u64, b: u64| a <= b
}

/// How many of the first `upto` slots hold nothing: they were never written,
/// or were deleted and belong to no cluster.
pub open spec fn vacancies(table: Seq<Slot>, upto: nat) -> nat
    decreases upto,
{
    if upto == 0 {
        0
    } else {
        vacancies(table, (upto - 1) as nat) + if table[upto - 1].free() {
            1nat
        } else {
            0nat
        }
    }
}

/// The slot at the head of the run of `quotient`, found from the cluster's
/// anchor by stepping `runs` over run heads while `homes` steps over occupied
/// slots, until `homes` reaches `quotient`.
pub open spec fn run_walk(table: Seq<Slot>, quotient: int, homes: int, runs: int, fuel: nat)
    -> Option<int>
    decreases fuel,
{
    let size = table.len() as int;
    if homes == quotient {
        Some(runs)
    } else if fuel == 0 {
        None
    } else {
        match (
            walk_up(table, ring_next(runs, size), table.len(), Probe::RunHead),
            walk_up(table, ring_next(homes, size), table.len(), Probe::Occupied),
        ) {
            (Some(next_run), Some(next_home)) => run_walk(
                table,
                quotient,
                next_home,
                next_run,
                (fuel - 1) as nat,
            ),
            _ => None,
        }
    }
}

/// The place of `remainder` within the run that starts at `run`: the first
/// slot from `at` on that was never written, starts another run, or stores no
/// smaller remainder.
pub open spec fn run_position(table: Seq<Slot>, run: int, at: int, remainder: u64, fuel: nat)
    -> Option<int>
    decreases fuel,
{
    let slot = table[at];
    if fuel == 0 {
        None
    } else if slot.vacant() || (at != run && !slot.has(MetadataType::RunContinued))
        || slot.remainder >= remainder {
        Some(at)
    } else {
        run_position(
            table,
            run,
            ring_next(at, table.len() as int),
            remainder,
            (fuel - 1) as nat,
        )
    }
}

/// A slot after an insertion moved it one place up, to the place of
/// `target`: it is shifted, keeps its remainder and whether it was deleted,
/// continues its run as before or because the new slot took the head, and
/// leaves the occupied flag of the place it comes to as it was.
pub open spec fn moved(slot: Slot, target: Slot, follows_new_head: bool) -> Slot {
    let shifted = slot.with_flag(MetadataType::IsShifted);
    let continued = if follows_new_head {
        shifted.with_flag(MetadataType::RunContinued)
    } else {
        shifted
    };
    if target.has(MetadataType::BucketOccupied) {
        continued.with_flag(MetadataType::BucketOccupied)
    } else {
        continued.without_flag(MetadataType::BucketOccupied)
    }
}

/// The slot that an insertion writes at `placement.index`: it is shifted
/// unless it sits at its home slot, continues a run unless it is the head,
/// and leaves the occupied flag of its place as it was.
pub open spec fn inserted_slot(
    table: Seq<Slot>,
    quotient: int,
    remainder: u64,
    placement: Placement,
) -> Slot {
    let plain = Slot::zero().with_remainder(remainder);
    let shifted = if placement.index != quotient {
        plain.with_flag(MetadataType::IsShifted)
    } else {
        plain
    };
    let continued = if placement.continues {
        shifted.with_flag(MetadataType::RunContinued)
    } else {
        shifted
    };
    if table[placement.index].has(MetadataType::BucketOccupied) {
        continued.with_flag(MetadataType::BucketOccupied)
    } else {
        continued
    }
}

/// The table after the slots from `placement.index` up to the gap moved one
/// place up and `slot` took the freed place.
pub open spec fn shifted_table(table: Seq<Slot>, placement: Placement, slot: Slot) -> Seq<Slot> {
    let size = table.len() as int;
    Seq::new(
        table.len(),
        |k: int|
            if k == placement.index {
                slot
            } else if ring_distance(placement.index, k, size) <= ring_distance(
                placement.index,
                placement.gap,
                size,
            ) {
                moved(
                    table[ring_prev(k, size)],
                    table[k],
                    placement.heads && ring_prev(k, size) == placement.index,
                )
            } else {
                table[k]
            },
    )
}

/// Where a new slot with `remainder` for home slot `quotient` goes, in a
/// table whose home slot is in use and already marked occupied: into its run
/// in the order of the remainders, or, where the quotient had no run, before
/// the run of the next occupied quotient.
pub open spec fn placement(table: Seq<Slot>, quotient: int, remainder: u64, was_occupied: bool)
    -> Option<Placement> {
    match walk_down(table, quotient, table.len(), Probe::Unshifted) {
        None => None,
        Some(anchor) => match run_walk(table, quotient, anchor, anchor, table.len()) {
            None => None,
            Some(run) => match (if was_occupied {
                run_position(table, run, run, remainder, table.len())
            } else {
                Some(run)
            }) {
                None => None,
                Some(index) => match walk_up(table, index, table.len(), Probe::Free) {
                    None => None,
                    Some(gap) => Some(
                        Placement {
                            index,
                            gap,
                            continues: was_occupied && index != run,
                            heads: was_occupied && index == run,
                        },
                    ),
                },
            },
        },
    }
}

/// Whether the slot at `index` is the only slot of its cluster: it starts a
/// cluster, and the slot behind it is not shifted.
pub open spec fn alone(table: Seq<Slot>, index: int) -> bool {
    table[index].cluster_start() && !table[ring_next(index, table.len() as int)].has(
        MetadataType::IsShifted,
    )
}

/// Whether the slot at `quotient` was deleted and can be written anew as the
/// only slot of a cluster: it ended a run or stands unshifted, and the slot
/// behind it belongs to no cluster that began before it.
pub open spec fn reusable(table: Seq<Slot>, quotient: int) -> bool {
    let slot = table[quotient];
    let next = table[ring_next(quotient, table.len() as int)];
    &&& slot.has(MetadataType::Tombstone)
    &&& slot.has(MetadataType::RunContinued) || !slot.has(MetadataType::IsShifted)
    &&& !next.has(MetadataType::IsShifted)
}

/// The table after `remainder` was written for home slot `quotient`, and the
/// index of the slot that holds it; `None` where the flags lead to no place
/// or no slot is free. A home slot that was never written, or was deleted
/// and can be written anew, takes the remainder itself.
pub open spec fn attempt(table: Seq<Slot>, quotient: int, remainder: u64) -> Option<
    (Seq<Slot>, int),
> {
    let home = table[quotient];
    if home.vacant() || reusable(table, quotient) {
        Some(
            (
                table.update(
                    quotient,
                    Slot::zero().with_remainder(remainder).with_flag(MetadataType::BucketOccupied),
                ),
                quotient,
            ),
        )
    } else {
        let marked = table.update(quotient, home.with_flag(MetadataType::BucketOccupied));
        match placement(marked, quotient, remainder, home.has(MetadataType::BucketOccupied)) {
            None => None,
            Some(place) => Some(
                (
                    shifted_table(marked, place, inserted_slot(marked, quotient, remainder, place)),
                    place.index,
                ),
            ),
        }
    }
}

impl FilterState {
    /// The number of slots.
    pub open spec fn size(self) -> int {
        self.table.len() as int
    }

    /// How many high bits of a fingerprint select the home slot.
    pub open spec fn quotient_bits(self) -> nat {
        (self.width.bits() - self.remainder_bits) as nat
    }

    /// The table has two to the quotient width slots, and each stores a
    /// remainder of the remainder width.
    pub open spec fn valid(self) -> bool {
        &&& self.remainder_bits <= self.width.bits()
        &&& self.table.len() == pow2(self.quotient_bits())
        &&& self.table.len() <= usize::MAX
        &&& forall|i: int|
            0 <= i < self.table.len() ==> (#[trigger] self.table[i]).remainder < pow2(
                self.remainder_bits,
            )
    }

    /// The state of a new filter with `quotient_bits` bits of quotient.
    pub open spec fn fresh(width: FingerprintWidth, quotient_bits: nat) -> FilterState {
        FilterState {
            width,
            remainder_bits: (width.bits() - quotient_bits) as nat,
            count: 0,
            table: Seq::new(pow2(quotient_bits), |i: int| Slot::zero()),
        }
    }

    /// This state with another table and count.
    pub open spec fn with_table(self, table: Seq<Slot>, count: nat) -> FilterState {
        FilterState { width: self.width, remainder_bits: self.remainder_bits, count, table }
    }

    /// The home slot of `fingerprint`.
    pub open spec fn quotient(self, fingerprint: u64) -> int {
        quotient_of(fingerprint, self.remainder_bits)
    }

    /// What a slot stores of `fingerprint`.
    pub open spec fn remainder(self, fingerprint: u64) -> u64 {
        remainder_of(fingerprint, self.remainder_bits) as u64
    }

    /// Whether `fingerprint` has a home slot in the table.
    pub open spec fn addresses(self, fingerprint: u64) -> bool {
        self.quotient(fingerprint) < self.size()
    }

    /// The fingerprint that the slot at `index` stores for home slot `home`.
    pub open spec fn fingerprint_at(self, index: int, home: int) -> u64 {
        fingerprint_of(home, self.table[index].remainder, self.remainder_bits) as u64
    }

    /// What the slot at `index` adds to the stored fingerprints: its
    /// fingerprint for home slot `home`, unless it was deleted.
    pub open spec fn entry_at(self, index: int, home: int) -> Seq<Entry> {
        if self.table[index].has(MetadataType::Tombstone) {
            Seq::empty()
        } else {
            seq![(index as usize, self.fingerprint_at(index, home))]
        }
    }

    /// The home slot of the slot at `index`, where `previous` is the home slot
    /// of the slot before it: the same for a continuation, the next occupied
    /// slot for the head of a run.
    pub open spec fn home_at(self, index: int, previous: int) -> Option<int> {
        if self.table[index].has(MetadataType::RunContinued) {
            Some(previous)
        } else {
            walk_up(
                self.table,
                ring_next(previous, self.size()),
                (self.table.len() - 1) as nat,
                Probe::Occupied,
            )
        }
    }

    /// The entries of the cluster of `anchor` from the slot at `index` on. The
    /// walk passes over deleted slots and ends at the first slot that is not
    /// shifted (one that was never written, the anchor of another cluster, or
    /// a deleted slot that belongs to no cluster), or after `fuel` slots. It
    /// is `None` where the slots do not make a cluster: a run is not in the
    /// order of its remainders, no occupied slot is left for a run, a run does
    /// not stand behind its home slot, or the home slot of a run lies before
    /// that of the run before it.
    pub open spec fn cluster_tail(self, anchor: int, index: int, previous: int, fuel: nat)
        -> Option<Seq<Entry>>
        decreases fuel,
    {
        let size = self.size();
        let slot = self.table[index];
        if fuel == 0 || !slot.has(MetadataType::IsShifted) {
            Some(Seq::empty())
        } else if slot.has(MetadataType::RunContinued) && self.table[ring_prev(
            index,
            size,
        )].remainder > slot.remainder {
            None
        } else {
            match self.home_at(index, previous) {
                None => None,
                Some(home) => if ring_distance(anchor, home, size) >= ring_distance(
                    anchor,
                    index,
                    size,
                ) || ring_distance(anchor, home, size) < ring_distance(anchor, previous, size) {
                    None
                } else {
                    prepend(
                        self.entry_at(index, home),
                        self.cluster_tail(anchor, ring_next(index, size), home, (fuel - 1) as nat),
                    )
                },
            }
        }
    }

    /// The entries of the cluster whose anchor is `anchor`.
    pub open spec fn cluster(self, anchor: int) -> Option<Seq<Entry>> {
        prepend(
            self.entry_at(anchor, anchor),
            self.cluster_tail(
                anchor,
                ring_next(anchor, self.size()),
                anchor,
                (self.table.len() - 1) as nat,
            ),
        )
    }

    /// The entries of all clusters whose anchor lies at `from` or above, in the
    /// order of their anchors; `None` where one of them is no cluster.
    pub open spec fn entries_from(self, from: int) -> Option<Seq<Entry>>
        decreases self.table.len() - from,
    {
        match anchor_from(self.table, from) {
            None => Some(Seq::empty()),
            Some(anchor) => if anchor < from || anchor >= self.table.len() {
                None
            } else {
                match self.cluster(anchor) {
                    None => None,
                    Some(first) => prepend(first, self.entries_from(anchor + 1)),
                }
            },
        }
    }

    /// Everything that the filter stores, cluster by cluster.
    pub open spec fn entries(self) -> Option<Seq<Entry>> {
        self.entries_from(0)
    }

    /// The stored fingerprints.
    pub open spec fn live(self) -> Seq<u64> {
        fingerprints_of(self.entries().unwrap())
    }

    /// The invariants of a filter: the table is valid, its slots make clusters
    /// of runs, each run in the order of its remainders and behind an occupied
    /// home slot, and the count is the number of stored fingerprints.
    pub open spec fn sound(self) -> bool {
        &&& self.valid()
        &&& self.entries() is Some
        &&& self.count == self.entries().unwrap().len()
    }

    /// Whether the filter stores `fingerprint`.
    pub open spec fn contains(self, fingerprint: u64) -> bool {
        self.live().contains(fingerprint)
    }

    /// The index of the first entry of `entries` that holds `fingerprint`.
    pub open spec fn position(entries: Seq<Entry>, fingerprint: u64, from: int) -> Option<int>
        decreases entries.len() - from,
    {
        if from < 0 || from >= entries.len() {
            None
        } else if entries[from].1 == fingerprint {
            Some(from)
        } else {
            FilterState::position(entries, fingerprint, from + 1)
        }
    }

    /// The first entry for `fingerprint` in the cluster that holds its home
    /// slot; `None` where the home slot is not occupied or the cluster holds
    /// none.
    pub open spec fn find(self, fingerprint: u64) -> Option<Entry> {
        let quotient = self.quotient(fingerprint);
        if !self.addresses(fingerprint) || !self.table[quotient].has(
            MetadataType::BucketOccupied,
        ) {
            None
        } else {
            match walk_down(self.table, quotient, self.table.len(), Probe::Unshifted) {
                None => None,
                Some(anchor) => if !self.table[anchor].cluster_start() {
                    None
                } else {
                    match self.cluster(anchor) {
                        None => None,
                        Some(entries) => match FilterState::position(entries, fingerprint, 0) {
                            None => None,
                            Some(at) => Some(entries[at]),
                        },
                    }
                },
            }
        }
    }

    /// The table with the slot at `index` marked as deleted.
    pub open spec fn marked(self, index: int) -> Seq<Slot> {
        self.table.update(index, self.table[index].with_flag(MetadataType::Tombstone))
    }

    /// The table with the slot at `index` marked as deleted and its home slot,
    /// which it stands at, no longer occupied.
    pub open spec fn released(self, index: int) -> Seq<Slot> {
        self.table.update(
            index,
            self.table[index].with_flag(MetadataType::Tombstone).without_flag(
                MetadataType::BucketOccupied,
            ),
        )
    }

    /// The state after a deletion of `fingerprint`: the slot of its first entry
    /// becomes a tombstone, and the count falls by one. Where that slot was
    /// the only slot of its cluster, its home slot is no longer occupied.
    /// Nothing changes when the filter does not store the fingerprint.
    pub open spec fn delete(self, fingerprint: u64) -> FilterState {
        match self.find(fingerprint) {
            None => self,
            Some(entry) => self.with_table(
                if alone(self.table, entry.0 as int) {
                    self.released(entry.0 as int)
                } else {
                    self.marked(entry.0 as int)
                },
                (self.count - 1) as nat,
            ),
        }
    }

    /// Whether `next` is this filter with `added` stored besides: its slots
    /// make clusters and it stores what this filter stores and `added`.
    pub open spec fn grows_to(self, next: FilterState, added: Seq<u64>) -> bool {
        &&& next.entries() is Some
        &&& next.live().to_multiset() == (self.live() + added).to_multiset()
    }

    /// The insertion of `fingerprint` into a table that is not grown first.
    /// The slot is written as `attempt` says; the insertion counts only if the
    /// table then stores what it stored before and the fingerprint, and is
    /// refused otherwise.
    pub open spec fn place(self, fingerprint: u64) -> Result<(FilterState, int), QuotientFilterError> {
        let quotient = self.quotient(fingerprint);
        if !self.addresses(fingerprint) {
            Err(QuotientFilterError::ConvertingError)
        } else {
            match attempt(self.table, quotient, self.remainder(fingerprint)) {
                None => Err(QuotientFilterError::InvalidQuotientAccess(quotient as usize)),
                Some((table, index)) => {
                    let next = self.with_table(table, self.count + 1);
                    if self.grows_to(next, seq![fingerprint]) {
                        Ok((next, index))
                    } else {
                        Err(QuotientFilterError::InvalidQuotientAccess(quotient as usize))
                    }
                },
            }
        }
    }

    /// The table after the fingerprints from position `from` on were written
    /// one after another; `None` where one of them finds no place.
    pub open spec fn fill(self, table: Seq<Slot>, fingerprints: Seq<u64>, from: int) -> Option<
        Seq<Slot>,
    >
        decreases fingerprints.len() - from,
    {
        if from < 0 || from >= fingerprints.len() {
            Some(table)
        } else if !self.addresses(fingerprints[from]) {
            None
        } else {
            match attempt(
                table,
                self.quotient(fingerprints[from]),
                self.remainder(fingerprints[from]),
            ) {
                None => None,
                Some((next, _)) => self.fill(next, fingerprints, from + 1),
            }
        }
    }

    /// The state after `fingerprints` were written into a new table of twice
    /// the size, or the error that leaves the filter as it is. The new table
    /// counts only if it stores exactly `fingerprints`.
    pub open spec fn rebuild(self, fingerprints: Seq<u64>) -> Result<
        FilterState,
        QuotientFilterError,
    > {
        if self.quotient_bits() + 1 > self.width.max_quotient_bits() {
            Err(QuotientFilterError::InvalidQuotientSize)
        } else if pow2(self.quotient_bits() + 1) > usize::MAX {
            Err(QuotientFilterError::ConvertingError)
        } else {
            let fresh = FilterState::fresh(self.width, self.quotient_bits() + 1);
            match fresh.fill(fresh.table, fingerprints, 0) {
                None => Err(QuotientFilterError::NotAbleToFindOccupied),
                Some(table) => {
                    let next = fresh.with_table(table, fingerprints.len());
                    if next.entries() is Some && next.live().to_multiset()
                        == fingerprints.to_multiset() {
                        Ok(next)
                    } else {
                        Err(QuotientFilterError::NotAbleToFindOccupied)
                    }
                },
            }
        }
    }

    /// The state after the table doubled.
    pub open spec fn resize(self) -> Result<FilterState, QuotientFilterError> {
        self.rebuild(self.live())
    }

    /// The state after the union with `other`: the fingerprints of both, in
    /// ascending order, written into a new table of twice the size.
    pub open spec fn merge(self, other: FilterState) -> Result<FilterState, QuotientFilterError> {
        if self.size() != other.size() || self.width != other.width {
            Err(QuotientFilterError::NotEqualSize)
        } else {
            self.rebuild((self.live() + other.live()).sort_by(ascending()))
        }
    }

    /// The state after an insertion of `fingerprint` and its result: the index
    /// of the slot that stores it, or the error. The table doubles first where
    /// fewer than two slots hold nothing.
    pub open spec fn insert(self, fingerprint: u64) -> (FilterState, Result<
        int,
        QuotientFilterError,
    >) {
        if !self.addresses(fingerprint) {
            (self, Err(QuotientFilterError::ConvertingError))
        } else {
            let room = if vacancies(self.table, self.table.len()) < 2 {
                self.resize()
            } else {
                Ok(self)
            };
            match room {
                Err(error) => (self, Err(error)),
                Ok(grown) => match grown.place(fingerprint) {
                    Err(error) => (grown, Err(error)),
                    Ok((state, index)) => (state, Ok(index)),
                },
            }
        }
    }
}

} // verus!
