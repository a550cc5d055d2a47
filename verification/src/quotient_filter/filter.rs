//! The filter itself: construction, lookup, deletion, insertion, growth and
//! merging, each held to the model.

use vstd::prelude::*;
use vstd::arithmetic::power2::{
    lemma2_to64,
    lemma_pow2_adds,
    lemma_pow2_pos,
    lemma_pow2_strictly_increases,
    lemma_pow2_unfold,
    pow2,
};
use vstd::relations::{sorted_by, total_ordering};
use vstd::seq_lib::lemma_sorted_unique;
use super::codec::{lemma_split_reconstruct, split};
use super::error::QuotientFilterError;
use super::hashing::{fingerprint, fingerprint_for};
use super::model::{
    reusable,
    ascending,
    attempt,
    fingerprints_of,
    prepend,
    run_walk,
    vacancies,
    Entry,
    FilterState,
    FingerprintWidth,
};
use super::navigator::{
    get_lowest_of_run,
    get_next_anchor,
    get_next_occupied,
    get_start_of_the_cluster,
    skip_empty_slots,
};
use super::placement::{plan, shift_in};
use super::removal::{lemma_delete_takes_one, unmarked};
use super::ring::{distance, index_down, index_up, ring_next};
use super::settle::{lemma_settle, settled};
use super::slot::{MetadataType, Slot};
use super::walk::{
    lemma_attempt_keeps_remainders,
    lemma_entries_ignore_count,
    lemma_find_is_contains,
    lemma_fresh_is_sound,
};

verus! {

impl FingerprintWidth {
    /// The number of bits of a fingerprint.
    pub fn width_bits(&self) -> (bits: u8)
        ensures
            bits == self.bits(),
    {
        match self {
            FingerprintWidth::Bits32 => 32,
            FingerprintWidth::Bits64 => 64,
        }
    }

    /// The widest quotient that a table for such fingerprints may have.
    pub fn max_quotient_size(&self) -> (bits: u8)
        ensures
            bits == self.max_quotient_bits(),
    {
        match self {
            FingerprintWidth::Bits32 => 30,
            FingerprintWidth::Bits64 => 61,
        }
    }
}

/// A quotient filter over fingerprints of a fixed width.
pub struct QuotientFilter {
    width: FingerprintWidth,
    count: usize,
    remainder: u8,
    size: usize,
    table: Vec<Slot>,
}

impl View for QuotientFilter {
    type V = FilterState;

    closed spec fn view(&self) -> FilterState {
        FilterState {
            width: self.width,
            remainder_bits: self.remainder as nat,
            count: self.count as nat,
            table: self.table@,
        }
    }
}

/// Two to the power `exponent` as a table size, or `None` where it exceeds the
/// index range.
pub fn table_size(exponent: u8) -> (size: Option<usize>)
    ensures
        pow2(exponent as nat) <= usize::MAX ==> size == Some(pow2(exponent as nat) as usize),
        pow2(exponent as nat) > usize::MAX ==> size is None,
{
    let mut size: usize = 1;
    let mut done: u8 = 0;
    proof {
        lemma2_to64();
    }
    while done < exponent
        invariant
            done <= exponent,
            size == pow2(done as nat),
        decreases exponent - done,
    {
        proof {
            lemma_pow2_unfold((done + 1) as nat);
            if done + 1 < exponent {
                lemma_pow2_strictly_increases((done + 1) as nat, exponent as nat);
            }
        }
        if size > usize::MAX / 2 {
            return None;
        }
        size = size * 2;
        done = done + 1;
    }
    Some(size)
}

impl QuotientFilter {
    /// The filter keeps its sizes in step with its table.
    pub closed spec fn shaped(&self) -> bool {
        &&& self@.valid()
        &&& self.size == self.table@.len()
        &&& self.size >= 1
    }

    /// The filter keeps its sizes in step with its table and meets the
    /// invariants of the model.
    pub closed spec fn wf(&self) -> bool {
        &&& self.shaped()
        &&& self@.sound()
    }

    /// A valid filter has a sound state.
    pub proof fn lemma_wf_sound(&self)
        requires
            self.wf(),
        ensures
            self@.sound(),
            1 <= self@.size() <= usize::MAX,
            self@.remainder_bits <= 64,
    {
    }

    /// An empty filter for 32-bit fingerprints with a table of two to the
    /// `quotient_size` slots.
    pub fn new(quotient_size: u8) -> (made: Result<QuotientFilter, QuotientFilterError>)
        ensures
            quotient_size <= 30 && pow2(quotient_size as nat) <= usize::MAX ==> made is Ok
                && made.unwrap().wf() && made.unwrap()@ == FilterState::fresh(
                FingerprintWidth::Bits32,
                quotient_size as nat,
            ),
            quotient_size > 30 ==> made == Err::<QuotientFilter, QuotientFilterError>(
                QuotientFilterError::InvalidQuotientSize,
            ),
            quotient_size <= 30 && pow2(quotient_size as nat) > usize::MAX ==> made == Err::<
                QuotientFilter,
                QuotientFilterError,
            >(QuotientFilterError::ConvertingError),
    {
        QuotientFilter::with_width(FingerprintWidth::Bits32, quotient_size)
    }

    /// An empty filter for fingerprints of `width` with a table of two to the
    /// `quotient_size` slots.
    pub fn with_width(width: FingerprintWidth, quotient_size: u8) -> (made: Result<
        QuotientFilter,
        QuotientFilterError,
    >)
        ensures
            quotient_size <= width.max_quotient_bits() && pow2(quotient_size as nat) <= usize::MAX
                ==> made is Ok && made.unwrap().wf() && made.unwrap()@ == FilterState::fresh(
                width,
                quotient_size as nat,
            ),
            quotient_size > width.max_quotient_bits() ==> made == Err::<
                QuotientFilter,
                QuotientFilterError,
            >(QuotientFilterError::InvalidQuotientSize),
            quotient_size <= width.max_quotient_bits() && pow2(quotient_size as nat) > usize::MAX
                ==> made == Err::<QuotientFilter, QuotientFilterError>(
                QuotientFilterError::ConvertingError,
            ),
    {
        if quotient_size > width.max_quotient_size() {
            return Err(QuotientFilterError::InvalidQuotientSize);
        }
        let size = match table_size(quotient_size) {
            Some(size) => size,
            None => {
                return Err(QuotientFilterError::ConvertingError);
            },
        };
        let remainder = width.width_bits() - quotient_size;
        let table = empty_table(size);
        let filter = QuotientFilter { width, count: 0, remainder, size, table };
        proof {
            lemma_pow2_pos(quotient_size as nat);
            lemma_pow2_pos(remainder as nat);
            assert(filter@.table =~= FilterState::fresh(width, quotient_size as nat).table);
            lemma_fresh_is_sound(width, quotient_size as nat);
        }
        Ok(filter)
    }

    /// The number of slots of the table.
    pub fn size(&self) -> (size: usize)
        requires
            self.wf(),
        ensures
            size == self@.size(),
    {
        self.size
    }

    /// The number of stored fingerprints that were not deleted.
    pub fn count(&self) -> (count: usize)
        ensures
            count == self@.count,
    {
        self.count
    }

    /// How many low bits of a fingerprint a slot stores.
    pub fn remainder_size(&self) -> (bits: u8)
        ensures
            bits == self@.remainder_bits,
    {
        self.remainder
    }

    /// The width of the fingerprints.
    pub fn width(&self) -> (width: FingerprintWidth)
        ensures
            width == self@.width,
    {
        self.width
    }

    /// The slot at `index`.
    pub fn slot(&self, index: usize) -> (slot: Slot)
        requires
            index < self@.size(),
        ensures
            slot == self@.table[index as int],
    {
        self.table[index]
    }

    /// Splits `fingerprint` into the index of its home slot and the remainder
    /// that a slot stores of it.
    pub fn fingerprint_destruction(&self, fingerprint: u64) -> (parts: Result<
        (usize, u64),
        QuotientFilterError,
    >)
        requires
            self.shaped(),
        ensures
            match parts {
                Ok((quotient, remainder)) => {
                    &&& self@.addresses(fingerprint)
                    &&& quotient < self@.size()
                    &&& quotient as int == self@.quotient(fingerprint)
                    &&& remainder == self@.remainder(fingerprint)
                    &&& remainder < pow2(self@.remainder_bits)
                },
                Err(error) => {
                    &&& error == QuotientFilterError::ConvertingError
                    &&& !self@.addresses(fingerprint)
                },
            },
    {
        proof {
            lemma_split_reconstruct(fingerprint, self.remainder as nat);
        }
        split(fingerprint, self.remainder, self.size)
    }

    /// The table addresses no more fingerprints than 64 bits hold.
    proof fn lemma_capacity(&self)
        requires
            self.shaped(),
        ensures
            self@.size() * pow2(self@.remainder_bits) == pow2(self@.width.bits()),
            pow2(self@.width.bits()) <= pow2(64),
            self@.remainder_bits <= 64,
    {
        lemma_pow2_adds(self@.quotient_bits(), self@.remainder_bits);
        lemma2_to64();
    }

    /// The entries of the cluster whose anchor is `anchor`; `None` where the
    /// slots behind the anchor do not make a cluster.
    pub fn collect_cluster(&self, anchor: usize) -> (collected: Option<Vec<Entry>>)
        requires
            self.shaped(),
            anchor < self@.size(),
        ensures
            match self@.cluster(anchor as int) {
                Some(found) => collected is Some && collected.unwrap()@ == found,
                None => collected is None,
            },
    {
        let size = self.size;
        proof {
            self.lemma_capacity();
        }
        let mut out: Vec<Entry> = Vec::new();
        if !self.table[anchor].is_tombstone() {
            assert((anchor + 1) * pow2(self.remainder as nat) <= pow2(64)) by (nonlinear_arith)
                requires
                    anchor < size,
                    size * pow2(self.remainder as nat) <= pow2(64),
            ;
            out.push((anchor, self.table[anchor].reconstruct_fingerprint(anchor, self.remainder)));
        }
        let ghost head = out@;
        assert(head =~= self@.entry_at(anchor as int, anchor as int));
        let first = index_up(anchor, size);
        let mut index = first;
        let mut previous = anchor;
        let mut left = size - 1;
        let ghost mut tail: Seq<Entry> = Seq::empty();
        assert(out@ =~= head + tail);
        assert(prepend(
            tail,
            self@.cluster_tail(anchor as int, first as int, anchor as int, left as nat),
        ) =~= self@.cluster_tail(anchor as int, first as int, anchor as int, left as nat));
        while left > 0
            invariant
                self.shaped(),
                size == self.size,
                index < size,
                previous < size,
                first < size,
                anchor < size,
                size * pow2(self.remainder as nat) <= pow2(64),
                self.remainder <= 64,
                out@ == head + tail,
                self@.cluster_tail(anchor as int, first as int, anchor as int, (size - 1) as nat)
                    == prepend(
                    tail,
                    self@.cluster_tail(anchor as int, index as int, previous as int, left as nat),
                ),
                self@.cluster(anchor as int) == prepend(
                    head,
                    self@.cluster_tail(
                        anchor as int,
                        first as int,
                        anchor as int,
                        (size - 1) as nat,
                    ),
                ),
            decreases left,
        {
            let slot = self.table[index];
            if !slot.is_shifted() {
                assert(tail + Seq::<Entry>::empty() =~= tail);
                return Some(out);
            }
            let before = index_down(index, size);
            if slot.is_run_continued() && self.table[before].get_remainder()
                > slot.get_remainder() {
                return None;
            }
            let home = if slot.is_run_continued() {
                previous
            } else {
                match get_next_occupied(&self.table, previous) {
                    None => {
                        return None;
                    },
                    Some(home) => home,
                }
            };
            if distance(anchor, home, size) >= distance(anchor, index, size) || distance(
                anchor,
                home,
                size,
            ) < distance(anchor, previous, size) {
                return None;
            }
            let ghost entry = self@.entry_at(index as int, home as int);
            if !slot.is_tombstone() {
                assert((home + 1) * pow2(self.remainder as nat) <= pow2(64)) by (nonlinear_arith)
                    requires
                        home < size,
                        size * pow2(self.remainder as nat) <= pow2(64),
                ;
                out.push((index, slot.reconstruct_fingerprint(home, self.remainder)));
            }
            proof {
                let ghost after = self@.cluster_tail(
                    anchor as int,
                    ring_next(index as int, size as int),
                    home as int,
                    (left - 1) as nat,
                );
                assert(prepend(tail, prepend(entry, after)) =~= prepend(tail + entry, after)) by {
                    if after is Some {
                        assert(tail + (entry + after.unwrap()) =~= (tail + entry)
                            + after.unwrap());
                    }
                }
                assert(out@ =~= head + (tail + entry));
                tail = tail + entry;
            }
            previous = home;
            index = index_up(index, size);
            left = left - 1;
        }
        assert(tail + Seq::<Entry>::empty() =~= tail);
        Some(out)
    }

    /// Everything that the filter stores, cluster by cluster in the order of
    /// the anchors; `None` where the slots do not make clusters.
    pub fn collect_entries(&self) -> (collected: Option<Vec<Entry>>)
        requires
            self.shaped(),
        ensures
            match self@.entries() {
                Some(found) => collected is Some && collected.unwrap()@ == found,
                None => collected is None,
            },
    {
        let size = self.size;
        let mut out: Vec<Entry> = Vec::new();
        let mut from: usize = 0;
        assert(prepend(out@, self@.entries_from(0)) =~= self@.entries_from(0)) by {
            if self@.entries_from(0) is Some {
                assert(out@ + self@.entries_from(0).unwrap() =~= self@.entries_from(0).unwrap());
            }
        }
        while from < size
            invariant
                self.shaped(),
                size == self.size,
                from <= size,
                self@.entries() == prepend(out@, self@.entries_from(from as int)),
            decreases size - from,
        {
            match get_next_anchor(&self.table, from) {
                None => {
                    assert(out@ + Seq::<Entry>::empty() =~= out@);
                    return Some(out);
                },
                Some(anchor) => {
                    let ghost before = out@;
                    let mut cluster = match self.collect_cluster(anchor) {
                        Some(cluster) => cluster,
                        None => {
                            return None;
                        },
                    };
                    proof {
                        let first = cluster@;
                        let rest = self@.entries_from(anchor + 1);
                        if rest is Some {
                            assert(before + (first + rest.unwrap()) =~= (before + first)
                                + rest.unwrap());
                        }
                    }
                    out.append(&mut cluster);
                    from = anchor + 1;
                },
            }
        }
        assert(out@ + Seq::<Entry>::empty() =~= out@);
        Some(out)
    }

    /// The stored fingerprints, cluster by cluster.
    pub fn collect_fingerprints(&self) -> (collected: Vec<u64>)
        requires
            self.wf(),
        ensures
            collected@ == self@.live(),
    {
        match self.collect_entries() {
            Some(entries) => fingerprints_in(&entries),
            None => Vec::new(),
        }
    }

    /// The first entry for `fingerprint` in the cluster of its home slot.
    pub fn locate(&self, fingerprint: u64) -> (found: Option<Entry>)
        requires
            self.shaped(),
        ensures
            found == self@.find(fingerprint),
            found is Some ==> found.unwrap().0 < self@.size(),
    {
        let quotient = match self.fingerprint_destruction(fingerprint) {
            Ok(parts) => parts.0,
            Err(_) => {
                return None;
            },
        };
        if !self.table[quotient].is_occupied() {
            return None;
        }
        let anchor = match get_start_of_the_cluster(&self.table, quotient) {
            Some(anchor) => anchor,
            None => {
                return None;
            },
        };
        if !self.table[anchor].is_cluster_start() {
            return None;
        }
        let entries = match self.collect_cluster(anchor) {
            Some(entries) => entries,
            None => {
                return None;
            },
        };
        proof {
            super::walk::lemma_cluster_indices(self@, anchor as int);
        }
        let mut at: usize = 0;
        while at < entries.len() && entries[at].1 != fingerprint
            invariant
                at <= entries.len(),
                FilterState::position(entries@, fingerprint, 0) == FilterState::position(
                    entries@,
                    fingerprint,
                    at as int,
                ),
            decreases entries.len() - at,
        {
            at = at + 1;
        }
        if at < entries.len() {
            Some(entries[at])
        } else {
            None
        }
    }

    /// The index of the slot that stores `fingerprint`, if the filter stores
    /// it.
    pub fn get_index(&self, fingerprint: u64) -> (index: Option<usize>)
        requires
            self.wf(),
        ensures
            index is Some == self@.contains(fingerprint),
            index is Some ==> index.unwrap() < self@.size() && self@.entries().unwrap().contains(
                (index.unwrap(), fingerprint),
            ),
    {
        proof {
            lemma_find_is_contains(self@, fingerprint);
        }
        match self.locate(fingerprint) {
            Some(found) => Some(found.0),
            None => None,
        }
    }

    /// Whether the filter stores `fingerprint`.
    pub fn lookup(&self, fingerprint: u64) -> (present: bool)
        requires
            self.wf(),
        ensures
            present == self@.contains(fingerprint),
    {
        self.get_index(fingerprint).is_some()
    }

    /// Deletes `fingerprint`: the slot of its first entry becomes a tombstone
    /// and is no longer counted. Where that slot was the only slot of its
    /// cluster, its home slot is no longer occupied; within a cluster the home
    /// slot stays occupied, so that the runs behind keep their home slots.
    /// Nothing changes when the filter does not store the fingerprint.
    pub fn delete(&mut self, fingerprint: u64)
        requires
            old(self).wf(),
        ensures
            final(self).wf(),
            final(self)@ == old(self)@.delete(fingerprint),
            !old(self)@.contains(fingerprint) ==> final(self)@ == old(self)@,
            old(self)@.contains(fingerprint) ==> final(self)@.count == old(self)@.count - 1
                && final(self)@.live().to_multiset() == old(self)@.live().to_multiset().remove(
                fingerprint,
            ),
    {
        proof {
            lemma_find_is_contains(self@, fingerprint);
        }
        let index = match self.locate(fingerprint) {
            Some(found) => found.0,
            None => {
                return ;
            },
        };
        proof {
            lemma_delete_takes_one(self@, fingerprint);
        }
        let ghost after = old(self)@.delete(fingerprint);
        let behind = self.table[index_up(index, self.size)];
        let mut slot = self.table[index];
        let alone = slot.is_cluster_start() && !behind.is_shifted();
        slot.set_metadata(MetadataType::Tombstone);
        if alone {
            slot.clear_metadata(MetadataType::BucketOccupied);
        }
        self.table.set(index, slot);
        self.count = self.count - 1;
        assert(self@.table =~= after.table);
        assert(self@ == after);
    }

    /// Writes `remainder` for home slot `quotient` and returns the index of the
    /// slot that holds it. Where no place is found the table is what it was.
    fn attempt(&mut self, quotient: usize, remainder: u64) -> (written: Option<usize>)
        requires
            old(self).shaped(),
            quotient < old(self)@.size(),
            remainder < pow2(old(self)@.remainder_bits),
        ensures
            final(self).shaped(),
            final(self)@.width == old(self)@.width,
            final(self)@.remainder_bits == old(self)@.remainder_bits,
            final(self)@.count == old(self)@.count,
            match attempt(old(self)@.table, quotient as int, remainder) {
                Some((table, index)) => written == Some(index as usize) && index < table.len()
                    && final(self)@.table == table,
                None => written is None && final(self)@.table == old(self)@.table,
            },
    {
        proof {
            lemma_attempt_keeps_remainders(self@, quotient as int, remainder);
        }
        let home = self.table[quotient];
        if home.is_vacant() || can_reuse(&self.table, quotient) {
            let mut slot = Slot::new_with_remainder(remainder);
            slot.set_metadata(MetadataType::BucketOccupied);
            self.table.set(quotient, slot);
            return Some(quotient);
        }
        let was_occupied = home.is_occupied();
        let mut marked = home;
        marked.set_metadata(MetadataType::BucketOccupied);
        self.table.set(quotient, marked);
        match plan(&self.table, quotient, remainder, was_occupied) {
            None => {
                self.table.set(quotient, home);
                assert(self.table@ =~= old(self).table@);
                None
            },
            Some((index, gap, continues, heads)) => {
                shift_in(&mut self.table, quotient, remainder, index, gap, continues, heads);
                Some(index)
            },
        }
    }

    /// Inserts `fingerprint` without growing the table first. The insertion
    /// counts only if the table then stores what it stored before and the
    /// fingerprint; otherwise it is refused and the filter is what it was.
    pub fn place(&mut self, fingerprint: u64) -> (stored: Result<usize, QuotientFilterError>)
        requires
            old(self).wf(),
        ensures
            final(self).wf(),
            match old(self)@.place(fingerprint) {
                Ok((state, index)) => stored == Ok::<usize, QuotientFilterError>(index as usize)
                    && index < state.size() && final(self)@ == state,
                Err(error) => stored == Err::<usize, QuotientFilterError>(error) && final(self)@
                    == old(self)@,
            },
            stored is Ok ==> final(self)@.contains(fingerprint),
            stored is Ok ==> final(self)@.live().to_multiset()
                == old(self)@.live().to_multiset().insert(fingerprint),
            stored is Ok ==> final(self)@.count == old(self)@.count + 1,
    {
        broadcast use {
            vstd::seq_lib::to_multiset_build,
            vstd::seq_lib::to_multiset_len,
            vstd::seq_lib::to_multiset_contains,
            vstd::multiset::group_multiset_axioms,
        };

        let (quotient, remainder) = match self.fingerprint_destruction(fingerprint) {
            Ok(parts) => parts,
            Err(error) => {
                return Err(error);
            },
        };
        let home = self.table[quotient];
        let behind = self.table[index_up(quotient, self.size)];
        let settles = (home.is_vacant() && !behind.is_shifted()) || can_reuse(
            &self.table,
            quotient,
        );
        if settles && self.count < usize::MAX {
            proof {
                lemma_settle(self@, fingerprint);
                vstd::seq_lib::to_multiset_build(self@.live(), fingerprint);
                assert(self@.live() + seq![fingerprint] =~= self@.live().push(fingerprint));
            }
            let mut slot = Slot::new_with_remainder(remainder);
            slot.set_metadata(MetadataType::BucketOccupied);
            self.table.set(quotient, slot);
            self.count = self.count + 1;
            assert(self@ == settled(old(self)@, quotient as int, remainder));
            proof {
                vstd::seq_lib::to_multiset_contains(self@.live(), fingerprint);
            }
            return Ok(quotient);
        }
        let mut expected = self.collect_fingerprints();
        expected.push(fingerprint);
        assert(expected@ =~= old(self)@.live() + seq![fingerprint]);
        let snapshot = copy_table(&self.table);
        let index = match self.attempt(quotient, remainder) {
            Some(index) => index,
            None => {
                return Err(QuotientFilterError::InvalidQuotientAccess(quotient));
            },
        };
        let ghost next = old(self)@.with_table(self.table@, old(self)@.count + 1);
        let entries = self.collect_entries();
        let accepted = match &entries {
            Some(entries) => {
                let found = fingerprints_in(entries);
                same_fingerprints(&found, &expected)
            },
            None => false,
        };
        proof {
            lemma_entries_ignore_count(
                old(self)@,
                self@.table,
                old(self)@.count,
                old(self)@.count + 1,
                0,
            );
            assert(self@ == old(self)@.with_table(self@.table, old(self)@.count));
        }
        assert(accepted == old(self)@.grows_to(next, seq![fingerprint]));
        if !accepted {
            self.table = snapshot;
            return Err(QuotientFilterError::InvalidQuotientAccess(quotient));
        }
        proof {
            vstd::seq_lib::to_multiset_len(next.live());
            vstd::seq_lib::to_multiset_len(expected@);
            vstd::seq_lib::to_multiset_build(old(self)@.live(), fingerprint);
            assert(old(self)@.live() + seq![fingerprint] =~= old(self)@.live().push(fingerprint));
            assert(next.live().to_multiset().count(fingerprint) > 0);
            vstd::seq_lib::to_multiset_contains(next.live(), fingerprint);
            assert(next.live().len() == next.entries().unwrap().len());
            assert(old(self)@.live().len() == old(self)@.entries().unwrap().len());
        }
        self.count = expected.len();
        assert(self@ == next);
        Ok(index)
    }

    /// How many slots hold nothing: they were never written, or were deleted
    /// and belong to no cluster.
    pub fn vacant_slots(&self) -> (free: usize)
        requires
            self.shaped(),
        ensures
            free == vacancies(self@.table, self@.table.len()),
    {
        let mut free: usize = 0;
        let mut at: usize = 0;
        while at < self.size
            invariant
                self.shaped(),
                at <= self.size,
                free <= at,
                free == vacancies(self@.table, at as nat),
            decreases self.size - at,
        {
            if self.table[at].is_free() {
                free = free + 1;
            }
            at = at + 1;
        }
        free
    }

    /// Replaces the table by one of twice the size that holds `fingerprints`,
    /// written one after another. The new table counts only if it stores
    /// exactly `fingerprints`; on an error the filter is what it was.
    pub fn rebuild(&mut self, fingerprints: &Vec<u64>) -> (done: Result<(), QuotientFilterError>)
        requires
            old(self).wf(),
        ensures
            final(self).wf(),
            match old(self)@.rebuild(fingerprints@) {
                Ok(state) => done is Ok && final(self)@ == state,
                Err(error) => done == Err::<(), QuotientFilterError>(error) && final(self)@
                    == old(self)@,
            },
            done is Ok ==> final(self)@.live().to_multiset() == fingerprints@.to_multiset(),
            done is Ok ==> final(self)@.count == fingerprints@.len(),
            done is Ok ==> final(self)@.size() == 2 * old(self)@.size(),
            done is Ok ==> final(self)@.remainder_bits + 1 == old(self)@.remainder_bits,
            done is Ok ==> unmarked(final(self)@.table),
    {
        let quotient_size = self.width.width_bits() - self.remainder;
        if quotient_size + 1 > self.width.max_quotient_size() {
            return Err(QuotientFilterError::InvalidQuotientSize);
        }
        let mut grown = match QuotientFilter::with_width(self.width, quotient_size + 1) {
            Ok(grown) => grown,
            Err(error) => {
                return Err(error);
            },
        };
        proof {
            lemma_pow2_unfold((quotient_size + 1) as nat);
        }
        let ghost fresh = grown@;
        let mut placed: usize = 0;
        while placed < fingerprints.len()
            invariant
                self.wf(),
                self@ == old(self)@,
                grown.shaped(),
                grown@.width == fresh.width,
                grown@.remainder_bits == fresh.remainder_bits,
                grown@.table.len() == fresh.table.len(),
                fresh == FilterState::fresh(self@.width, self@.quotient_bits() + 1),
                self@.quotient_bits() + 1 <= self@.width.max_quotient_bits(),
                pow2(self@.quotient_bits() + 1) <= usize::MAX,
                placed <= fingerprints.len(),
                fresh.fill(fresh.table, fingerprints@, 0) == fresh.fill(
                    grown@.table,
                    fingerprints@,
                    placed as int,
                ),
            decreases fingerprints.len() - placed,
        {
            let (quotient, remainder) = match grown.fingerprint_destruction(fingerprints[placed]) {
                Ok(parts) => parts,
                Err(_) => {
                    return Err(QuotientFilterError::NotAbleToFindOccupied);
                },
            };
            if grown.attempt(quotient, remainder).is_none() {
                return Err(QuotientFilterError::NotAbleToFindOccupied);
            }
            placed = placed + 1;
        }
        let ghost next = fresh.with_table(grown@.table, fingerprints@.len());
        let entries = grown.collect_entries();
        let accepted = match &entries {
            Some(entries) => {
                let found = fingerprints_in(entries);
                same_fingerprints(&found, fingerprints)
            },
            None => false,
        };
        proof {
            lemma_entries_ignore_count(fresh, grown@.table, grown@.count, fingerprints@.len(), 0);
            assert(grown@ == fresh.with_table(grown@.table, grown@.count));
        }
        if !accepted {
            return Err(QuotientFilterError::NotAbleToFindOccupied);
        }
        proof {
            vstd::seq_lib::to_multiset_len(next.live());
            vstd::seq_lib::to_multiset_len(fingerprints@);
            assert(next.live().len() == next.entries().unwrap().len());
        }
        grown.count = fingerprints.len();
        assert(grown@ == next);
        proof {
            super::laws::law_rebuild_stores(self@, fingerprints@);
        }
        *self = grown;
        Ok(())
    }

    /// Doubles the table: every stored fingerprint is recovered and written
    /// into a table of twice the size, without the tombstones. On an error
    /// the filter is what it was.
    pub fn resize(&mut self) -> (done: Result<(), QuotientFilterError>)
        requires
            old(self).wf(),
        ensures
            final(self).wf(),
            match old(self)@.resize() {
                Ok(state) => done is Ok && final(self)@ == state,
                Err(error) => done == Err::<(), QuotientFilterError>(error) && final(self)@
                    == old(self)@,
            },
            done is Ok ==> final(self)@.live().to_multiset() == old(self)@.live().to_multiset(),
            done is Ok ==> final(self)@.count == old(self)@.count,
            done is Ok ==> final(self)@.size() == 2 * old(self)@.size(),
            done is Ok ==> final(self)@.remainder_bits + 1 == old(self)@.remainder_bits,
            done is Ok ==> unmarked(final(self)@.table),
    {
        let stored = self.collect_fingerprints();
        self.rebuild(&stored)
    }

    /// Makes this filter the union of itself and `other` in a table of twice
    /// the size. The two must have the same table size and fingerprint width.
    /// On an error the filter is what it was.
    pub fn merge(&mut self, other: &QuotientFilter) -> (done: Result<(), QuotientFilterError>)
        requires
            old(self).wf(),
            other.wf(),
        ensures
            final(self).wf(),
            match old(self)@.merge(other@) {
                Ok(state) => done is Ok && final(self)@ == state,
                Err(error) => done == Err::<(), QuotientFilterError>(error) && final(self)@
                    == old(self)@,
            },
            done is Ok ==> final(self)@.live().to_multiset() == old(self)@.live().to_multiset().add(
                other@.live().to_multiset(),
            ),
            done is Ok ==> final(self)@.count == old(self)@.count + other@.count,
            done is Ok ==> final(self)@.size() == 2 * old(self)@.size(),
            done is Ok ==> final(self)@.remainder_bits + 1 == old(self)@.remainder_bits,
            done is Ok ==> unmarked(final(self)@.table),
    {
        if self.size != other.size || self.width != other.width {
            return Err(QuotientFilterError::NotEqualSize);
        }
        let mut all = self.collect_fingerprints();
        let mut theirs = other.collect_fingerprints();
        all.append(&mut theirs);
        let ghost unsorted = all@;
        sort_ascending(&mut all);
        proof {
            unsorted.lemma_sort_by_ensures(ascending());
            assert(total_ordering(ascending()));
            assert(sorted_by(all@, ascending()));
            lemma_sorted_unique(all@, unsorted.sort_by(ascending()), ascending());
            vstd::seq_lib::lemma_multiset_commutative(self@.live(), other@.live());
            vstd::seq_lib::to_multiset_len(all@);
            vstd::seq_lib::to_multiset_len(unsorted);
            assert(self@.live().len() == self@.entries().unwrap().len());
            assert(other@.live().len() == other@.entries().unwrap().len());
        }
        self.rebuild(&all)
    }

    /// Inserts `fingerprint` and returns the index of the slot that stores it.
    /// The table doubles first where fewer than two slots hold nothing.
    /// A fingerprint wider than the filter's width is refused and the filter
    /// stays as it was, as it does when the table cannot double; where the
    /// insertion itself is refused, the table stays doubled if it had to grow.
    pub fn insert(&mut self, fingerprint: u64) -> (stored: Result<usize, QuotientFilterError>)
        requires
            old(self).wf(),
        ensures
            final(self).wf(),
            match old(self)@.insert(fingerprint) {
                (state, Ok(index)) => stored == Ok::<usize, QuotientFilterError>(index as usize)
                    && index < state.size() && final(self)@ == state,
                (state, Err(error)) => stored == Err::<usize, QuotientFilterError>(error)
                    && final(self)@ == state,
            },
            stored is Ok ==> final(self)@.contains(fingerprint),
            stored is Ok ==> final(self)@.live().to_multiset()
                == old(self)@.live().to_multiset().insert(fingerprint),
            stored is Ok ==> final(self)@.count == old(self)@.count + 1,
            stored is Err ==> final(self)@.live().to_multiset() == old(self)@.live().to_multiset()
                && final(self)@.count == old(self)@.count,
    {
        if let Err(error) = self.fingerprint_destruction(fingerprint) {
            return Err(error);
        }
        if self.vacant_slots() < 2 {
            if let Err(error) = self.resize() {
                return Err(error);
            }
        }
        self.place(fingerprint)
    }

    /// Inserts the fingerprint of `value`.
    pub fn insert_value(&mut self, value: &[u8]) -> (stored: Result<usize, QuotientFilterError>)
        requires
            old(self).wf(),
        ensures
            final(self).wf(),
            match old(self)@.insert(fingerprint_for(old(self)@.width, value@)) {
                (state, Ok(index)) => stored == Ok::<usize, QuotientFilterError>(index as usize)
                    && index < state.size() && final(self)@ == state,
                (state, Err(error)) => stored == Err::<usize, QuotientFilterError>(error)
                    && final(self)@ == state,
            },
            stored is Ok ==> final(self)@.contains(fingerprint_for(old(self)@.width, value@)),
    {
        let hash = fingerprint(self.width, value);
        self.insert(hash)
    }

    /// Whether the filter stores the fingerprint of `value`.
    pub fn lookup_value(&self, value: &[u8]) -> (present: bool)
        requires
            self.wf(),
        ensures
            present == self@.contains(fingerprint_for(self@.width, value@)),
    {
        let hash = fingerprint(self.width, value);
        self.lookup(hash)
    }

    /// Whether the filter stores the fingerprint of `value`.
    pub fn read_value(&self, value: &[u8]) -> (present: bool)
        requires
            self.wf(),
        ensures
            present == self@.contains(fingerprint_for(self@.width, value@)),
    {
        self.lookup_value(value)
    }

    /// Deletes the fingerprint of `value`.
    pub fn delete_value(&mut self, value: &[u8])
        requires
            old(self).wf(),
        ensures
            final(self).wf(),
            final(self)@ == old(self)@.delete(fingerprint_for(old(self)@.width, value@)),
    {
        let hash = fingerprint(self.width, value);
        self.delete(hash)
    }

    /// The footprint of the table in bits: a remainder and a byte of metadata
    /// for each slot.
    pub fn space(&self) -> (bits: u128)
        requires
            self.wf(),
        ensures
            bits == pow2(self@.quotient_bits()) * (self@.remainder_bits + 8),
    {
        proof {
            self.lemma_capacity();
            lemma2_to64();
            lemma_pow2_pos(self@.remainder_bits);
            assert(self.size <= 0x10000000000000000) by (nonlinear_arith)
                requires
                    self.size * pow2(self.remainder as nat) <= 0x10000000000000000,
                    pow2(self.remainder as nat) >= 1,
            ;
            assert(self.size * (self.remainder + 8) <= 0x10000000000000000 * 72)
                by (nonlinear_arith)
                requires
                    self.size <= 0x10000000000000000,
                    self.remainder <= 64,
            ;
        }
        (self.size as u128) * (self.remainder as u128 + 8)
    }
}

/// Whether the slot at `quotient` was deleted and can be written anew as the
/// only slot of a cluster.
pub fn can_reuse(table: &Vec<Slot>, quotient: usize) -> (yes: bool)
    requires
        quotient < table.len(),
    ensures
        yes == reusable(table@, quotient as int),
{
    let slot = table[quotient];
    let behind = table[index_up(quotient, table.len())];
    slot.is_tombstone() && (slot.is_run_continued() || !slot.is_shifted()) && !behind.is_shifted()
}

/// The fingerprints of `entries`, in their order.
pub fn fingerprints_in(entries: &Vec<Entry>) -> (found: Vec<u64>)
    ensures
        found@ == fingerprints_of(entries@),
{
    let mut found: Vec<u64> = Vec::new();
    let mut at: usize = 0;
    while at < entries.len()
        invariant
            at <= entries.len(),
            found@ == fingerprints_of(entries@.subrange(0, at as int)),
        decreases entries.len() - at,
    {
        found.push(entries[at].1);
        at = at + 1;
        assert(found@ =~= fingerprints_of(entries@.subrange(0, at as int)));
    }
    assert(entries@.subrange(0, at as int) =~= entries@);
    found
}

/// Whether the two vectors hold the same fingerprints, each as often.
pub fn same_fingerprints(first: &Vec<u64>, second: &Vec<u64>) -> (same: bool)
    ensures
        same == (first@.to_multiset() == second@.to_multiset()),
{
    proof {
        vstd::seq_lib::to_multiset_len(first@);
        vstd::seq_lib::to_multiset_len(second@);
    }
    if first.len() != second.len() {
        return false;
    }
    let mut left = copy_values(first);
    let mut right = copy_values(second);
    sort_ascending(&mut left);
    sort_ascending(&mut right);
    proof {
        vstd::seq_lib::to_multiset_len(left@);
        vstd::seq_lib::to_multiset_len(right@);
        assert(total_ordering(ascending()));
        assert(sorted_by(left@, ascending()));
        assert(sorted_by(right@, ascending()));
        if first@.to_multiset() == second@.to_multiset() {
            lemma_sorted_unique(left@, right@, ascending());
        }
    }
    let mut at: usize = 0;
    while at < left.len() && left[at] == right[at]
        invariant
            at <= left.len(),
            left@.len() == right@.len(),
            forall|k: int| 0 <= k < at ==> left@[k] == right@[k],
        decreases left.len() - at,
    {
        at = at + 1;
    }
    if at < left.len() {
        false
    } else {
        assert(left@ =~= right@);
        true
    }
}

/// A copy of `values`.
pub fn copy_values(values: &Vec<u64>) -> (copy: Vec<u64>)
    ensures
        copy@ == values@,
{
    let mut copy: Vec<u64> = Vec::new();
    let mut at: usize = 0;
    while at < values.len()
        invariant
            at <= values.len(),
            copy@ == values@.subrange(0, at as int),
        decreases values.len() - at,
    {
        copy.push(values[at]);
        at = at + 1;
        assert(copy@ =~= values@.subrange(0, at as int));
    }
    assert(values@.subrange(0, at as int) =~= values@);
    copy
}

/// A copy of `table`.
pub fn copy_table(table: &Vec<Slot>) -> (copy: Vec<Slot>)
    ensures
        copy@ == table@,
{
    let mut copy: Vec<Slot> = Vec::new();
    let mut at: usize = 0;
    while at < table.len()
        invariant
            at <= table.len(),
            copy@ == table@.subrange(0, at as int),
        decreases table.len() - at,
    {
        copy.push(table[at]);
        at = at + 1;
        assert(copy@ =~= table@.subrange(0, at as int));
    }
    assert(table@.subrange(0, at as int) =~= table@);
    copy
}

/// Sorts `values` in ascending order with the standard library's unstable
/// sort: afterwards the vector is ordered and holds the same values as
/// before, each as often as before.
#[verifier::external_body]
fn sort_ascending(values: &mut Vec<u64>)
    ensures
        forall|i: int, j: int|
            0 <= i < j < final(values)@.len() ==> final(values)@[i] <= final(values)@[j],
        final(values)@.to_multiset() == old(values)@.to_multiset(),
{
    values.sort_unstable();
}

/// Steps from the cluster's anchor over run heads and occupied slots in turn
/// until the occupied slot is `quotient`; the run head reached then is the head
/// of that quotient's run.
pub fn walk_to_run(table: &Vec<Slot>, quotient: usize, anchor: usize) -> (run: Option<usize>)
    requires
        quotient < table.len(),
        anchor < table.len(),
    ensures
        run is Some == run_walk(
            table@,
            quotient as int,
            anchor as int,
            anchor as int,
            table@.len(),
        ) is Some,
        run is Some ==> run.unwrap() < table.len() && run.unwrap() as int == run_walk(
            table@,
            quotient as int,
            anchor as int,
            anchor as int,
            table@.len(),
        ).unwrap(),
{
    let size = table.len();
    let mut homes = anchor;
    let mut runs = anchor;
    let mut left = size;
    while homes != quotient
        invariant
            size == table.len(),
            homes < size,
            runs < size,
            quotient < size,
            run_walk(table@, quotient as int, anchor as int, anchor as int, size as nat)
                == run_walk(table@, quotient as int, homes as int, runs as int, left as nat),
        decreases left,
    {
        if left == 0 {
            return None;
        }
        let after_run = index_up(runs, size);
        let after_home = index_up(homes, size);
        let next_run = get_lowest_of_run(table, after_run);
        let next_home = skip_empty_slots(table, after_home);
        match (next_run, next_home) {
            (Some(r), Some(h)) => {
                runs = r;
                homes = h;
            },
            _ => {
                return None;
            },
        }
        left = left - 1;
    }
    Some(runs)
}

/// A table of `size` zero-initialised slots.
pub fn empty_table(size: usize) -> (table: Vec<Slot>)
    ensures
        table@ == Seq::new(size as nat, |i: int| Slot::zero()),
{
    let mut table: Vec<Slot> = Vec::with_capacity(size);
    let mut filled: usize = 0;
    while filled < size
        invariant
            filled <= size,
            table@ == Seq::new(filled as nat, |i: int| Slot::zero()),
        decreases size - filled,
    {
        table.push(Slot::new());
        filled = filled + 1;
        assert(table@ =~= Seq::new(filled as nat, |i: int| Slot::zero()));
    }
    table
}

} // verus!
