//! A Bloom filter over a bit vector, with one seeded hash function for each
//! round.

use vstd::prelude::*;
use super::bit_vector::{bits_of, cleared_bits, get_bit_value, max_bits, set_bit_value, BitArray};
use crate::hashers::xxhash64_digest;

verus! {

/// The bits after the first `count` of `indices` were set.
pub open spec fn marked(bits: Seq<bool>, indices: Seq<int>, count: nat) -> Seq<bool>
    decreases count,
{
    if count == 0 {
        bits
    } else {
        marked(bits, indices, (count - 1) as nat).update(indices[count - 1], true)
    }
}

/// Whether the first `count` of `indices` are all set bits.
pub open spec fn all_marked(bits: Seq<bool>, indices: Seq<int>, count: nat) -> bool {
    forall|k: int|
        0 <= k < count ==> 0 <= #[trigger] indices[k] < bits.len() && bits[indices[k]]
}

/// Whether each of `indices` is an index of `space` bits, one for each of
/// `rounds` rounds.
pub open spec fn indices_fit(indices: Seq<int>, rounds: int, space: int) -> bool {
    &&& indices.len() == rounds
    &&& forall|k: int| 0 <= k < rounds ==> 0 <= #[trigger] indices[k] < space
}

/// The indices as mathematical integers.
pub open spec fn as_ints(indices: Seq<usize>) -> Seq<int> {
    indices.map_values(|index: usize| index as int)
}

/// Marking keeps the length, sets what it marks and clears nothing.
pub proof fn lemma_marked(bits: Seq<bool>, indices: Seq<int>, count: nat, other: int)
    requires
        count <= indices.len(),
        forall|k: int| 0 <= k < count ==> 0 <= #[trigger] indices[k] < bits.len(),
        0 <= other < bits.len(),
    ensures
        marked(bits, indices, count).len() == bits.len(),
        marked(bits, indices, count)[other] == (bits[other] || exists|k: int|
            0 <= k < count && #[trigger] indices[k] == other),
    decreases count,
{
    if count > 0 {
        lemma_marked(bits, indices, (count - 1) as nat, other);
        lemma_marked(bits, indices, (count - 1) as nat, indices[count - 1]);
        if indices[count - 1] == other {
            assert(indices[count - 1] == other);
        }
        if exists|k: int| 0 <= k < count && #[trigger] indices[k] == other {
            let k = choose|k: int| 0 <= k < count && #[trigger] indices[k] == other;
            if k < count - 1 {
                assert(indices[k] == other);
            }
        }
    }
}

/// What was put into the filter is reported as present: after indices were
/// marked, all of them are set.
pub proof fn law_marked_are_reported(bits: Seq<bool>, indices: Seq<int>)
    requires
        forall|k: int| 0 <= k < indices.len() ==> 0 <= #[trigger] indices[k] < bits.len(),
    ensures
        all_marked(marked(bits, indices, indices.len()), indices, indices.len()),
{
    assert forall|k: int| 0 <= k < indices.len() implies 0 <= #[trigger] indices[k] < marked(
        bits,
        indices,
        indices.len(),
    ).len() && marked(bits, indices, indices.len())[indices[k]] by {
        lemma_marked(bits, indices, indices.len(), indices[k]);
    }
}

/// A Bloom filter over a bit vector.
pub struct SimpleBloomFilter {
    number_of_elements: u64,
    space: u64,
    number_of_hash_functions: u64,
    bit_array: BitArray,
}

impl View for SimpleBloomFilter {
    type V = Seq<bool>;

    closed spec fn view(&self) -> Seq<bool> {
        bits_of(self.bit_array)
    }
}

impl SimpleBloomFilter {
    /// The number of bits.
    pub closed spec fn spec_space(&self) -> u64 {
        self.space
    }

    /// The number of rounds, each with a hash function of its own.
    pub closed spec fn spec_hash_functions(&self) -> u64 {
        self.number_of_hash_functions
    }

    /// The number of elements that the filter was made for.
    pub closed spec fn spec_number_of_elements(&self) -> u64 {
        self.number_of_elements
    }

    /// The vector holds the bits of the filter, and there is a bit.
    pub closed spec fn wf(&self) -> bool {
        &&& self.space >= 1
        &&& self.space <= usize::MAX
        &&& bits_of(self.bit_array).len() == self.space
    }

    /// The bits of a valid filter are as many as its space.
    pub proof fn lemma_wf(&self)
        requires
            self.wf(),
        ensures
            1 <= self.spec_space() <= usize::MAX,
            self@.len() == self.spec_space(),
    {
    }

    /// An empty filter of `space` bits with `number_of_hash_functions` rounds.
    pub fn with_parameters(number_of_elements: u64, space: u64, number_of_hash_functions: u64)
        -> (filter: SimpleBloomFilter)
        requires
            1 <= space <= max_bits(),
        ensures
            filter.wf(),
            filter.spec_space() == space,
            filter.spec_hash_functions() == number_of_hash_functions,
            filter.spec_number_of_elements() == number_of_elements,
            filter@ == Seq::new(space as nat, |i: int| false),
    {
        SimpleBloomFilter {
            number_of_elements,
            space,
            number_of_hash_functions,
            bit_array: cleared_bits(space as usize),
        }
    }

    /// The number of bits.
    pub fn space(&self) -> (space: u64)
        ensures
            space == self.spec_space(),
    {
        self.space
    }

    /// The number of rounds.
    pub fn number_of_hash_functions(&self) -> (rounds: u64)
        ensures
            rounds == self.spec_hash_functions(),
    {
        self.number_of_hash_functions
    }

    /// The number of elements that the filter was made for.
    pub fn number_of_elements(&self) -> (elements: u64)
        ensures
            elements == self.spec_number_of_elements(),
    {
        self.number_of_elements
    }

    /// Sets the bits at `indices`.
    pub fn insert_at(&mut self, indices: &[usize])
        requires
            old(self).wf(),
            forall|k: int| 0 <= k < indices@.len() ==> #[trigger] indices@[k] < old(self).spec_space(),
        ensures
            final(self).wf(),
            final(self).spec_space() == old(self).spec_space(),
            final(self).spec_hash_functions() == old(self).spec_hash_functions(),
            final(self).spec_number_of_elements() == old(self).spec_number_of_elements(),
            final(self)@ == marked(old(self)@, as_ints(indices@), indices@.len()),
    {
        let ghost places = as_ints(indices@);
        let mut done: usize = 0;
        while done < indices.len()
            invariant
                done <= indices.len(),
                places == as_ints(indices@),
                self.wf(),
                self.space == old(self).space,
                self.number_of_hash_functions == old(self).number_of_hash_functions,
                self.number_of_elements == old(self).number_of_elements,
                forall|k: int| 0 <= k < indices@.len() ==> #[trigger] indices@[k] < self.space,
                self@ == marked(old(self)@, places, done as nat),
            decreases indices.len() - done,
        {
            let index = indices[done];
            assert(places[done as int] == index);
            set_bit_value(&mut self.bit_array, index, true);
            done = done + 1;
        }
    }

    /// Whether the bits at `indices` are all set.
    pub fn lookup_at(&self, indices: &[usize]) -> (held: bool)
        requires
            self.wf(),
        ensures
            held == all_marked(self@, as_ints(indices@), indices@.len()),
    {
        let ghost places = as_ints(indices@);
        let mut done: usize = 0;
        while done < indices.len()
            invariant
                done <= indices.len(),
                places == as_ints(indices@),
                all_marked(self@, places, done as nat),
            decreases indices.len() - done,
        {
            let index = indices[done];
            assert(places[done as int] == index);
            match get_bit_value(&self.bit_array, index) {
                Some(true) => {},
                _ => {
                    return false;
                },
            }
            done = done + 1;
        }
        true
    }

    /// The index of `item` in each round: its XXH64 hash under the round as the
    /// seed, modulo the number of bits.
    pub fn indices_of(&self, item: &[u8]) -> (indices: Vec<usize>)
        requires
            self.wf(),
        ensures
            indices_fit(
                as_ints(indices@),
                self.spec_hash_functions() as int,
                self.spec_space() as int,
            ),
            forall|k: int| 0 <= k < indices@.len() ==> #[trigger] indices@[k] < self.spec_space(),
    {
        let mut indices: Vec<usize> = Vec::new();
        let mut i: u64 = 0;
        while i < self.number_of_hash_functions
            invariant
                self.wf(),
                i <= self.number_of_hash_functions,
                indices@.len() == i,
                forall|k: int| 0 <= k < i ==> #[trigger] indices@[k] < self.space,
            decreases self.number_of_hash_functions - i,
        {
            let index = xxhash64_digest(i, &item) % self.space;
            indices.push(index as usize);
            i = i + 1;
        }
        indices
    }

    /// Puts `item` into the filter: in each round one bit is set.
    pub fn insert(&mut self, item: &[u8])
        requires
            old(self).wf(),
        ensures
            final(self).wf(),
            final(self).spec_space() == old(self).spec_space(),
            final(self).spec_hash_functions() == old(self).spec_hash_functions(),
            final(self).spec_number_of_elements() == old(self).spec_number_of_elements(),
            exists|indices: Seq<int>|
                indices_fit(
                    indices,
                    old(self).spec_hash_functions() as int,
                    old(self).spec_space() as int,
                ) && final(self)@ == #[trigger] marked(old(self)@, indices, indices.len()),
    {
        let indices = self.indices_of(item);
        self.insert_at(indices.as_slice());
        assert(self@ == marked(old(self)@, as_ints(indices@), as_ints(indices@).len()));
    }

    /// Whether the filter reports `item` as present: in each round its bit is
    /// set.
    pub fn lookup(&self, item: &[u8]) -> (held: bool)
        requires
            self.wf(),
        ensures
            exists|indices: Seq<int>|
                indices_fit(indices, self.spec_hash_functions() as int, self.spec_space() as int)
                    && held == #[trigger] all_marked(self@, indices, indices.len()),
    {
        let indices = self.indices_of(item);
        let held = self.lookup_at(indices.as_slice());
        assert(held == all_marked(self@, as_ints(indices@), as_ints(indices@).len()));
        held
    }
}

} // verus!
