//! A table slot: a stored remainder and four metadata flags packed in a byte.

use vstd::prelude::*;

verus! {

/// The four metadata flags of a slot.
#[derive(Clone, Copy, Debug, PartialEq, Eq, Structural)]
pub enum MetadataType {
    /// The slot was deleted logically and is still present physically.
    Tombstone,
    /// Some stored element has this slot's index as its quotient.
    BucketOccupied,
    /// The slot is not the first of its run.
    RunContinued,
    /// The slot's remainder does not sit at its own quotient's index.
    IsShifted,
}

/// The bit of the metadata byte that holds `flag`.
pub open spec fn flag_mask(flag: MetadataType) -> u8 {
    match flag {
        MetadataType::Tombstone => 8u8,
        MetadataType::BucketOccupied => 4u8,
        MetadataType::RunContinued => 2u8,
        MetadataType::IsShifted => 1u8,
    }
}

/// A remainder with its metadata flags.
#[derive(Clone, Copy, Debug)]
pub struct Slot {
    pub remainder: u64,
    pub metadata: u8,
}

impl Slot {
    /// Whether `flag` is set.
    pub open spec fn has(self, flag: MetadataType) -> bool {
        self.metadata & flag_mask(flag) != 0
    }

    /// This slot with `flag` set.
    pub open spec fn with_flag(self, flag: MetadataType) -> Slot {
        Slot { remainder: self.remainder, metadata: self.metadata | flag_mask(flag) }
    }

    /// This slot with `flag` cleared.
    pub open spec fn without_flag(self, flag: MetadataType) -> Slot {
        Slot { remainder: self.remainder, metadata: self.metadata & !flag_mask(flag) }
    }

    /// This slot with another remainder.
    pub open spec fn with_remainder(self, remainder: u64) -> Slot {
        Slot { remainder, metadata: self.metadata }
    }

    /// The zero-initialised slot.
    pub open spec fn zero() -> Slot {
        Slot { remainder: 0, metadata: 0 }
    }

    /// A slot that was never written: none of its flags is set.
    pub open spec fn vacant(self) -> bool {
        &&& !self.has(MetadataType::Tombstone)
        &&& !self.has(MetadataType::BucketOccupied)
        &&& !self.has(MetadataType::RunContinued)
        &&& !self.has(MetadataType::IsShifted)
    }

    /// A slot that holds nothing and belongs to no cluster: it was never
    /// written, or it was deleted and is neither occupied, nor shifted, nor
    /// the continuation of a run.
    pub open spec fn free(self) -> bool {
        &&& !self.has(MetadataType::BucketOccupied)
        &&& !self.has(MetadataType::RunContinued)
        &&& !self.has(MetadataType::IsShifted)
    }

    /// A slot counts as empty when it stores remainder zero or is a tombstone.
    pub open spec fn empty(self) -> bool {
        self.remainder == 0 || self.has(MetadataType::Tombstone)
    }

    /// First slot of a run: not a continuation, and occupied or shifted.
    pub open spec fn run_start(self) -> bool {
        !self.has(MetadataType::RunContinued) && (self.has(MetadataType::BucketOccupied)
            || self.has(MetadataType::IsShifted))
    }

    /// First slot of a cluster: occupied, neither continuation nor shifted.
    pub open spec fn cluster_start(self) -> bool {
        self.has(MetadataType::BucketOccupied) && !self.has(MetadataType::RunContinued)
            && !self.has(MetadataType::IsShifted)
    }

    /// Only the four flag bits are in use.
    pub open spec fn well_formed(self) -> bool {
        self.metadata < 16
    }

    /// Setting a flag leaves the remainder and the other flags as they were.
    pub proof fn lemma_with_flag(self, flag: MetadataType, other: MetadataType)
        ensures
            self.with_flag(flag).has(other) == (other == flag || self.has(other)),
            self.with_flag(flag).remainder == self.remainder,
            self.well_formed() ==> self.with_flag(flag).well_formed(),
    {
        let m = self.metadata;
        let f = flag_mask(flag);
        let g = flag_mask(other);
        assert((f == 1 || f == 2 || f == 4 || f == 8) && (g == 1 || g == 2 || g == 4 || g == 8));
        assert(((m | f) & g != 0) == (f == g || m & g != 0)) by (bit_vector)
            requires
                f == 1 || f == 2 || f == 4 || f == 8,
                g == 1 || g == 2 || g == 4 || g == 8,
        ;
        assert(m < 16 ==> (m | f) < 16) by (bit_vector)
            requires
                f == 1 || f == 2 || f == 4 || f == 8,
        ;
    }

    /// Clearing a flag leaves the remainder and the other flags as they were.
    pub proof fn lemma_without_flag(self, flag: MetadataType, other: MetadataType)
        ensures
            self.without_flag(flag).has(other) == (other != flag && self.has(other)),
            self.without_flag(flag).remainder == self.remainder,
            self.well_formed() ==> self.without_flag(flag).well_formed(),
    {
        let m = self.metadata;
        let f = flag_mask(flag);
        let g = flag_mask(other);
        assert((f == 1 || f == 2 || f == 4 || f == 8) && (g == 1 || g == 2 || g == 4 || g == 8));
        assert(((m & !f) & g != 0) == (f != g && m & g != 0)) by (bit_vector)
            requires
                f == 1 || f == 2 || f == 4 || f == 8,
                g == 1 || g == 2 || g == 4 || g == 8,
        ;
        assert(m < 16 ==> (m & !f) < 16) by (bit_vector);
    }

    /// The zero slot has no flag set.
    pub proof fn lemma_zero(flag: MetadataType)
        ensures
            !Slot::zero().has(flag),
            Slot::zero().empty(),
            Slot::zero().well_formed(),
    {
        let g = flag_mask(flag);
        assert(0u8 & g == 0) by (bit_vector);
    }

    /// A slot with remainder zero and no flag set.
    pub fn new() -> (slot: Slot)
        ensures
            slot == Slot::zero(),
    {
        Slot { remainder: 0, metadata: 0 }
    }

    /// A slot that stores `remainder`, with no flag set.
    pub fn new_with_remainder(remainder: u64) -> (slot: Slot)
        ensures
            slot == Slot::zero().with_remainder(remainder),
    {
        Slot { remainder, metadata: 0 }
    }

    /// The stored remainder.
    pub fn get_remainder(&self) -> (remainder: u64)
        ensures
            remainder == self.remainder,
    {
        self.remainder
    }

    /// Replaces the stored remainder and keeps the flags.
    pub fn set_remainder(&mut self, remainder: u64)
        ensures
            *final(self) == old(self).with_remainder(remainder),
    {
        self.remainder = remainder;
    }

    /// Reads one flag.
    pub fn get_metadata(&self, data: MetadataType) -> (set: bool)
        ensures
            set == self.has(data),
    {
        let mask: u8 = match data {
            MetadataType::Tombstone => 8u8,
            MetadataType::BucketOccupied => 4u8,
            MetadataType::RunContinued => 2u8,
            MetadataType::IsShifted => 1u8,
        };
        self.metadata & mask != 0
    }

    /// Sets one flag.
    pub fn set_metadata(&mut self, data: MetadataType)
        ensures
            *final(self) == old(self).with_flag(data),
    {
        match data {
            MetadataType::Tombstone => self.metadata = self.metadata | 8u8,
            MetadataType::BucketOccupied => self.metadata = self.metadata | 4u8,
            MetadataType::RunContinued => self.metadata = self.metadata | 2u8,
            MetadataType::IsShifted => self.metadata = self.metadata | 1u8,
        }
    }

    /// Clears one flag.
    pub fn clear_metadata(&mut self, data: MetadataType)
        ensures
            *final(self) == old(self).without_flag(data),
    {
        match data {
            MetadataType::Tombstone => self.metadata = self.metadata & !8u8,
            MetadataType::BucketOccupied => self.metadata = self.metadata & !4u8,
            MetadataType::RunContinued => self.metadata = self.metadata & !2u8,
            MetadataType::IsShifted => self.metadata = self.metadata & !1u8,
        }
    }

    /// Whether the slot's index is the quotient of some stored element.
    pub fn is_occupied(&self) -> (set: bool)
        ensures
            set == self.has(MetadataType::BucketOccupied),
    {
        self.get_metadata(MetadataType::BucketOccupied)
    }

    /// Whether the slot continues the run of the slot before it.
    pub fn is_run_continued(&self) -> (set: bool)
        ensures
            set == self.has(MetadataType::RunContinued),
    {
        self.get_metadata(MetadataType::RunContinued)
    }

    /// Whether the slot's remainder sits away from its quotient's index.
    pub fn is_shifted(&self) -> (set: bool)
        ensures
            set == self.has(MetadataType::IsShifted),
    {
        self.get_metadata(MetadataType::IsShifted)
    }

    /// Whether the slot was deleted.
    pub fn is_tombstone(&self) -> (set: bool)
        ensures
            set == self.has(MetadataType::Tombstone),
    {
        self.get_metadata(MetadataType::Tombstone)
    }

    /// Whether the slot was never written.
    pub fn is_vacant(&self) -> (vacant: bool)
        ensures
            vacant == self.vacant(),
    {
        !self.is_tombstone() && !self.is_occupied() && !self.is_run_continued()
            && !self.is_shifted()
    }

    /// Whether the slot holds nothing and belongs to no cluster.
    pub fn is_free(&self) -> (free: bool)
        ensures
            free == self.free(),
    {
        !self.is_occupied() && !self.is_run_continued() && !self.is_shifted()
    }

    /// Whether the slot stores remainder zero or is a tombstone.
    pub fn is_empty(&self) -> (empty: bool)
        ensures
            empty == self.empty(),
    {
        self.remainder == 0 || self.is_tombstone()
    }

    /// Whether the slot is the first of a run.
    pub fn is_run_start(&self) -> (start: bool)
        ensures
            start == self.run_start(),
    {
        !self.is_run_continued() && (self.is_occupied() || self.is_shifted())
    }

    /// Whether the slot is the first of a cluster.
    pub fn is_cluster_start(&self) -> (start: bool)
        ensures
            start == self.cluster_start(),
    {
        self.is_occupied() && !self.is_run_continued() && !self.is_shifted()
    }
}

} // verus!
