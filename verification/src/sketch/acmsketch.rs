//! The count-min sketch of three rows whose third hash function counts in
//! steps of three.

use vstd::prelude::*;
use std::hash::Hash;
use super::cells::{bump, bumped, has_headroom, headroom, least, lemma_bumped, zeroed};
use super::hashing::{default_hash, fnv_hash, xxhash};

verus! {

/// Why a counter could not be reached.
#[derive(Clone, Copy, Debug, PartialEq, Eq, Structural)]
pub enum AcmSketchError {
    /// A counter was left locked by a writer that failed.
    Poisoned,
}

/// The counters after an update that the three hash functions sent to
/// `first`, `second` and `third`: the third counter grows by three.
pub open spec fn counted_in_steps(counters: Seq<u64>, first: int, second: int, third: int) -> Seq<
    u64,
> {
    bumped(bumped(bumped(counters, first, 1), second + 8, 1), third + 16, 3)
}

/// The estimate for a value that the three hash functions send to `first`,
/// `second` and `third`: the least of its three counters.
pub open spec fn least_of(counters: Seq<u64>, first: int, second: int, third: int) -> u64 {
    least(least(counters[first], counters[second + 8]), counters[third + 16])
}

/// Whether the three hashes name counters of a table of that many counters.
pub open spec fn cells_fit(length: int, first: int, second: int, third: int) -> bool {
    0 <= first < length && 0 <= second && second + 8 < length && 0 <= third && third + 16 < length
}

/// An update grows each of the three counters of its value by one at least,
/// and no counter shrinks.
pub proof fn lemma_counted_in_steps(
    counters: Seq<u64>,
    first: int,
    second: int,
    third: int,
    other: int,
)
    requires
        cells_fit(counters.len() as int, first, second, third),
        headroom(counters, 5),
        0 <= other < counters.len(),
    ensures
        counted_in_steps(counters, first, second, third).len() == counters.len(),
        counted_in_steps(counters, first, second, third)[other] >= counters[other],
        other == first || other == second + 8 || other == third + 16 ==> counted_in_steps(
            counters,
            first,
            second,
            third,
        )[other] >= counters[other] + 1,
{
    let once = bumped(counters, first, 1);
    lemma_bumped(counters, first, 1, other);
    lemma_bumped(counters, first, 1, second + 8);
    let twice = bumped(once, second + 8, 1);
    lemma_bumped(once, second + 8, 1, other);
    lemma_bumped(once, second + 8, 1, third + 16);
    lemma_bumped(counters, first, 1, third + 16);
    lemma_bumped(twice, third + 16, 3, other);
}

/// The estimate is never too low: an update raises the estimate of its value
/// by one at least.
pub proof fn law_update_raises_the_estimate(
    counters: Seq<u64>,
    first: int,
    second: int,
    third: int,
)
    requires
        cells_fit(counters.len() as int, first, second, third),
        headroom(counters, 5),
    ensures
        least_of(counted_in_steps(counters, first, second, third), first, second, third)
            >= least_of(counters, first, second, third) + 1,
{
    lemma_counted_in_steps(counters, first, second, third, first);
    lemma_counted_in_steps(counters, first, second, third, second + 8);
    lemma_counted_in_steps(counters, first, second, third, third + 16);
}

/// An update lowers no estimate.
pub proof fn law_update_keeps_estimates(
    counters: Seq<u64>,
    first: int,
    second: int,
    third: int,
    other_first: int,
    other_second: int,
    other_third: int,
)
    requires
        cells_fit(counters.len() as int, first, second, third),
        cells_fit(counters.len() as int, other_first, other_second, other_third),
        headroom(counters, 5),
    ensures
        least_of(
            counted_in_steps(counters, first, second, third),
            other_first,
            other_second,
            other_third,
        ) >= least_of(counters, other_first, other_second, other_third),
{
    lemma_counted_in_steps(counters, first, second, third, other_first);
    lemma_counted_in_steps(counters, first, second, third, other_second + 8);
    lemma_counted_in_steps(counters, first, second, third, other_third + 16);
}

/// A count-min sketch with three hash functions, held by one owner at a time.
pub struct AcmSketch {
    data: Vec<u64>,
    capacity: u64,
}

impl View for AcmSketch {
    type V = Seq<u64>;

    closed spec fn view(&self) -> Seq<u64> {
        self.data@
    }
}

impl AcmSketch {
    /// The range of each hash function.
    pub closed spec fn spec_capacity(&self) -> u64 {
        self.capacity
    }

    /// The sketch has three counters per unit of capacity, and the counters of
    /// each hash function lie within them.
    pub closed spec fn wf(&self) -> bool {
        &&& self.capacity >= 8
        &&& 3 * self.capacity <= usize::MAX
        &&& self.data@.len() == 3 * self.capacity
    }

    /// The counters are three times the capacity.
    pub proof fn lemma_wf(&self)
        requires
            self.wf(),
        ensures
            self.spec_capacity() >= 8,
            self@.len() == 3 * self.spec_capacity(),
    {
    }

    /// A sketch of three times `capacity` counters, all zero.
    pub fn new(capacity: u64) -> (sketch: AcmSketch)
        requires
            capacity >= 8,
            3 * capacity <= usize::MAX,
        ensures
            sketch.wf(),
            sketch.spec_capacity() == capacity,
            sketch@ == Seq::new((3 * capacity) as nat, |i: int| 0u64),
    {
        AcmSketch { capacity, data: zeroed((3 * capacity) as usize) }
    }

    /// The range of each hash function.
    pub fn capacity(&self) -> (capacity: u64)
        ensures
            capacity == self.spec_capacity(),
    {
        self.capacity
    }

    /// Whether every counter can still grow by `by`.
    pub fn can_add(&self, by: u64) -> (roomy: bool)
        ensures
            roomy == headroom(self@, by as int),
    {
        has_headroom(&self.data, by)
    }

    /// Counts one occurrence of the value whose three hashes are `first`,
    /// `second` and `third`.
    pub fn update_cells(&mut self, first: usize, second: usize, third: usize)
        requires
            old(self).wf(),
            first < old(self).spec_capacity(),
            second < old(self).spec_capacity(),
            third < old(self).spec_capacity(),
            headroom(old(self)@, 5),
        ensures
            final(self).wf(),
            final(self).spec_capacity() == old(self).spec_capacity(),
            final(self)@ == counted_in_steps(
                old(self)@,
                first as int,
                second as int,
                third as int,
            ),
    {
        bump(&mut self.data, first, 1);
        bump(&mut self.data, second + 8, 1);
        bump(&mut self.data, third + 16, 3);
    }

    /// The estimate for the value whose three hashes are `first`, `second` and
    /// `third`.
    pub fn estimate_cells(&self, first: usize, second: usize, third: usize) -> (count: u64)
        requires
            self.wf(),
            first < self.spec_capacity(),
            second < self.spec_capacity(),
            third < self.spec_capacity(),
        ensures
            count == least_of(self@, first as int, second as int, third as int),
    {
        let result_1 = self.data[first];
        let result_2 = self.data[second + 8];
        let result_3 = self.data[third + 16];
        let mut smallest = result_1;
        if result_2 < smallest {
            smallest = result_2;
        }
        if result_3 < smallest {
            smallest = result_3;
        }
        smallest
    }

    /// Counts one occurrence of `value`. The sketch has one owner, so no
    /// counter is ever found locked and the update succeeds.
    pub fn update<T: Hash>(&mut self, value: T) -> (done: Result<(), AcmSketchError>)
        requires
            old(self).wf(),
            headroom(old(self)@, 5),
        ensures
            done is Ok,
            final(self).wf(),
            final(self).spec_capacity() == old(self).spec_capacity(),
            exists|first: int, second: int, third: int|
                0 <= first < old(self).spec_capacity() && 0 <= second < old(self).spec_capacity()
                    && 0 <= third < old(self).spec_capacity() && final(self)@
                    == #[trigger] counted_in_steps(old(self)@, first, second, third),
    {
        let first = default_hash(self.capacity, &value);
        let second = xxhash(self.capacity, &value);
        let third = fnv_hash(self.capacity, &value);
        self.update_cells(first, second, third);
        assert(self@ == counted_in_steps(old(self)@, first as int, second as int, third as int));
        Ok(())
    }

    /// The estimate of how often `value` was counted: the least of its three
    /// counters.
    pub fn estimate<T: Hash>(&self, value: T) -> (count: Result<u64, AcmSketchError>)
        requires
            self.wf(),
        ensures
            count is Ok,
            exists|first: int, second: int, third: int|
                0 <= first < self.spec_capacity() && 0 <= second < self.spec_capacity() && 0
                    <= third < self.spec_capacity() && count.unwrap() == #[trigger] least_of(
                    self@,
                    first,
                    second,
                    third,
                ),
    {
        let first = default_hash(self.capacity, &value);
        let second = xxhash(self.capacity, &value);
        let third = fnv_hash(self.capacity, &value);
        let count = self.estimate_cells(first, second, third);
        assert(count == least_of(self@, first as int, second as int, third as int));
        Ok(count)
    }

    /// The three counters of `value` in a sketch of `capacity`: one for each
    /// hash function, each behind the offset of its function.
    pub fn cells_for<T: Hash>(capacity: u64, value: &T) -> (cells: (usize, usize, usize))
        requires
            capacity >= 8,
            3 * capacity <= usize::MAX,
        ensures
            cells.0 < capacity,
            8 <= cells.1 < capacity + 8,
            16 <= cells.2 < capacity + 16,
            cells.0 < 3 * capacity && cells.1 < 3 * capacity && cells.2 < 3 * capacity,
    {
        let first = default_hash(capacity, value);
        let second = xxhash(capacity, value);
        let third = fnv_hash(capacity, value);
        (first, second + 8, third + 16)
    }

    /// By how much an update raises the counter of the hash function `row`:
    /// by one for the first two, by three for the third.
    pub fn step_of(row: usize) -> (step: u64)
        requires
            row < 3,
        ensures
            step == if row == 2 {
                3u64
            } else {
                1u64
            },
    {
        if row == 2 {
            3
        } else {
            1
        }
    }

    /// The estimate from the three counters of a value: the least of them.
    pub fn least_of_three(first: u64, second: u64, third: u64) -> (count: u64)
        ensures
            count == least(least(first, second), third),
    {
        let mut smallest = first;
        if second < smallest {
            smallest = second;
        }
        if third < smallest {
            smallest = third;
        }
        smallest
    }
}

} // verus!
