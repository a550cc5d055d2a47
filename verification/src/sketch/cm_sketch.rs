//! A count-min sketch of three rows in one array.

use vstd::prelude::*;
use std::hash::Hash;
use super::cells::{bump, bumped, has_headroom, headroom, least, lemma_bumped, zeroed};
use super::hashing::{default_hash, fnv_hash, xxhash};

verus! {

/// The number of hash functions, and of counters per unit of capacity.
pub const HASH_COUNT: u64 = 3;

/// Where the second hash function's counters start.
pub const SECOND_OFFSET: usize = 8;

/// Where the third hash function's counters start.
pub const THIRD_OFFSET: usize = 16;

/// The counters after an update that the three hash functions sent to
/// `first`, `second` and `third`.
pub open spec fn counted(counters: Seq<u64>, first: int, second: int, third: int) -> Seq<u64> {
    bumped(bumped(bumped(counters, first, 1), second + 8, 1), third + 16, 1)
}

/// The estimate for a value that the three hash functions send to `first`,
/// `second` and `third`: the least of its three counters.
pub open spec fn estimated(counters: Seq<u64>, first: int, second: int, third: int) -> u64 {
    least(least(counters[first], counters[second + 8]), counters[third + 16])
}

/// Whether the three hashes name counters of a table of that many counters.
pub open spec fn cells_fit(length: int, first: int, second: int, third: int) -> bool {
    0 <= first < length && 0 <= second && second + 8 < length && 0 <= third && third + 16 < length
}

/// An update grows each of the three counters of its value by one at least,
/// and no counter shrinks.
pub proof fn lemma_counted(counters: Seq<u64>, first: int, second: int, third: int, other: int)
    requires
        cells_fit(counters.len() as int, first, second, third),
        headroom(counters, 3),
        0 <= other < counters.len(),
    ensures
        counted(counters, first, second, third).len() == counters.len(),
        counted(counters, first, second, third)[other] >= counters[other],
        other == first || other == second + 8 || other == third + 16 ==> counted(
            counters,
            first,
            second,
            third,
        )[other] >= counters[other] + 1,
{
    let once = bumped(counters, first, 1);
    lemma_bumped(counters, first, 1, other);
    lemma_bumped(counters, first, 1, second + 8);
    let twice = bumped(once, second + 8, 1);
    lemma_bumped(once, second + 8, 1, other);
    lemma_bumped(once, second + 8, 1, third + 16);
    lemma_bumped(counters, first, 1, third + 16);
    lemma_bumped(twice, third + 16, 1, other);
}

/// The estimate is never too low: an update raises the estimate of its value
/// by one at least.
pub proof fn law_update_raises_the_estimate(
    counters: Seq<u64>,
    first: int,
    second: int,
    third: int,
)
    requires
        cells_fit(counters.len() as int, first, second, third),
        headroom(counters, 3),
    ensures
        estimated(counted(counters, first, second, third), first, second, third) >= estimated(
            counters,
            first,
            second,
            third,
        ) + 1,
{
    lemma_counted(counters, first, second, third, first);
    lemma_counted(counters, first, second, third, second + 8);
    lemma_counted(counters, first, second, third, third + 16);
}

/// An update lowers no estimate.
pub proof fn law_update_keeps_estimates(
    counters: Seq<u64>,
    first: int,
    second: int,
    third: int,
    other_first: int,
    other_second: int,
    other_third: int,
)
    requires
        cells_fit(counters.len() as int, first, second, third),
        cells_fit(counters.len() as int, other_first, other_second, other_third),
        headroom(counters, 3),
    ensures
        estimated(
            counted(counters, first, second, third),
            other_first,
            other_second,
            other_third,
        ) >= estimated(counters, other_first, other_second, other_third),
{
    lemma_counted(counters, first, second, third, other_first);
    lemma_counted(counters, first, second, third, other_second + 8);
    lemma_counted(counters, first, second, third, other_third + 16);
}

/// A count-min sketch with three hash functions.
pub struct CmSketch {
    data: Vec<u64>,
    capacity: u64,
}

impl View for CmSketch {
    type V = Seq<u64>;

    closed spec fn view(&self) -> Seq<u64> {
        self.data@
    }
}

impl CmSketch {
    /// The range of each hash function.
    pub closed spec fn spec_capacity(&self) -> u64 {
        self.capacity
    }

    /// The sketch has three counters per unit of capacity, and the counters of
    /// each hash function lie within them.
    pub closed spec fn wf(&self) -> bool {
        &&& self.capacity >= 8
        &&& 3 * self.capacity <= usize::MAX
        &&& self.data@.len() == 3 * self.capacity
    }

    /// The counters are three times the capacity.
    pub proof fn lemma_wf(&self)
        requires
            self.wf(),
        ensures
            self.spec_capacity() >= 8,
            self@.len() == 3 * self.spec_capacity(),
    {
    }

    /// A sketch of three times `capacity` counters, all zero.
    pub fn new(capacity: u64) -> (sketch: CmSketch)
        requires
            capacity >= 8,
            3 * capacity <= usize::MAX,
        ensures
            sketch.wf(),
            sketch.spec_capacity() == capacity,
            sketch@ == Seq::new((3 * capacity) as nat, |i: int| 0u64),
    {
        CmSketch { capacity, data: zeroed((HASH_COUNT * capacity) as usize) }
    }

    /// The range of each hash function.
    pub fn capacity(&self) -> (capacity: u64)
        ensures
            capacity == self.spec_capacity(),
    {
        self.capacity
    }

    /// Whether every counter can still grow by `by`.
    pub fn can_add(&self, by: u64) -> (roomy: bool)
        ensures
            roomy == headroom(self@, by as int),
    {
        has_headroom(&self.data, by)
    }

    /// Counts one occurrence of the value whose three hashes are `first`,
    /// `second` and `third`.
    pub fn update_cells(&mut self, first: usize, second: usize, third: usize)
        requires
            old(self).wf(),
            first < old(self).spec_capacity(),
            second < old(self).spec_capacity(),
            third < old(self).spec_capacity(),
            headroom(old(self)@, 3),
        ensures
            final(self).wf(),
            final(self).spec_capacity() == old(self).spec_capacity(),
            final(self)@ == counted(old(self)@, first as int, second as int, third as int),
    {
        bump(&mut self.data, first, 1);
        bump(&mut self.data, second + SECOND_OFFSET, 1);
        bump(&mut self.data, third + THIRD_OFFSET, 1);
    }

    /// The estimate for the value whose three hashes are `first`, `second` and
    /// `third`.
    pub fn estimate_cells(&self, first: usize, second: usize, third: usize) -> (count: u64)
        requires
            self.wf(),
            first < self.spec_capacity(),
            second < self.spec_capacity(),
            third < self.spec_capacity(),
        ensures
            count == estimated(self@, first as int, second as int, third as int),
    {
        let result_1 = self.data[first];
        let result_2 = self.data[second + SECOND_OFFSET];
        let result_3 = self.data[third + THIRD_OFFSET];
        let mut smallest = result_1;
        if result_2 < smallest {
            smallest = result_2;
        }
        if result_3 < smallest {
            smallest = result_3;
        }
        smallest
    }

    /// Counts one occurrence of `value`: one counter of each hash function
    /// grows by one.
    pub fn update<T: Hash>(&mut self, value: T)
        requires
            old(self).wf(),
            headroom(old(self)@, 3),
        ensures
            final(self).wf(),
            final(self).spec_capacity() == old(self).spec_capacity(),
            exists|first: int, second: int, third: int|
                0 <= first < old(self).spec_capacity() && 0 <= second < old(self).spec_capacity()
                    && 0 <= third < old(self).spec_capacity() && final(self)@ == #[trigger] counted(
                    old(self)@,
                    first,
                    second,
                    third,
                ),
    {
        let first = default_hash(self.capacity, &value);
        let second = xxhash(self.capacity, &value);
        let third = fnv_hash(self.capacity, &value);
        self.update_cells(first, second, third);
        assert(self@ == counted(old(self)@, first as int, second as int, third as int));
    }

    /// The estimate of how often `value` was counted: the least of its three
    /// counters.
    pub fn estimate<T: Hash>(&self, value: T) -> (count: u64)
        requires
            self.wf(),
        ensures
            exists|first: int, second: int, third: int|
                0 <= first < self.spec_capacity() && 0 <= second < self.spec_capacity() && 0
                    <= third < self.spec_capacity() && count == #[trigger] estimated(
                    self@,
                    first,
                    second,
                    third,
                ),
    {
        let first = default_hash(self.capacity, &value);
        let second = xxhash(self.capacity, &value);
        let third = fnv_hash(self.capacity, &value);
        let count = self.estimate_cells(first, second, third);
        assert(count == estimated(self@, first as int, second as int, third as int));
        count
    }
}

} // verus!
