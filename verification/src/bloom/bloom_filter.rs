//! A Bloom filter over an array of bytes, for keys of any hashable type.

use vstd::prelude::*;
use std::hash::Hash;
use super::bits;
use super::bits::{all_set, bit_at, cleared, law_set_positions_are_set, set_bit, set_bits};
use crate::hashers::{default_digest, xxhash64_digest};

verus! {

/// The position of a key in round `round`, from its two hashes.
pub open spec fn position_of(first: usize, second: usize, round: usize, number_of_bits: usize)
    -> int {
    (first.wrapping_add(round.wrapping_mul(second)).wrapping_add(round.wrapping_mul(round))
        % number_of_bits) as int
}

/// The positions of a key with the hashes `first` and `second`, one for each
/// of `rounds` rounds.
pub open spec fn positions_of(first: usize, second: usize, rounds: usize, number_of_bits: usize)
    -> Seq<int> {
    Seq::new(rounds as nat, |round: int| position_of(first, second, round as usize, number_of_bits))
}

/// The indices as mathematical integers.
pub open spec fn as_ints(positions: Seq<usize>) -> Seq<int> {
    positions.map_values(|position: usize| position as int)
}

/// A Bloom filter.
#[derive(Debug)]
pub struct BloomFilter {
    data: Vec<u8>,
    size: usize,
    seed: u64,
    number_of_bits: usize,
    num_of_hash_functions: usize,
}

impl View for BloomFilter {
    type V = Seq<u8>;

    closed spec fn view(&self) -> Seq<u8> {
        self.data@
    }
}

impl BloomFilter {
    /// How many bits were written.
    pub closed spec fn spec_size(&self) -> usize {
        self.size
    }

    /// The seed of the first hash function.
    pub closed spec fn spec_seed(&self) -> u64 {
        self.seed
    }

    /// The number of bits of the filter.
    pub closed spec fn spec_number_of_bits(&self) -> usize {
        self.number_of_bits
    }

    /// The number of positions of a key.
    pub closed spec fn spec_hash_functions(&self) -> usize {
        self.num_of_hash_functions
    }

    /// The filter has a bit, and the array holds every bit of the filter.
    pub closed spec fn wf(&self) -> bool {
        &&& self.number_of_bits >= 1
        &&& self.number_of_bits <= 8 * self.data@.len()
    }

    /// The array of a valid filter holds every bit of the filter.
    pub proof fn lemma_wf(&self)
        requires
            self.wf(),
        ensures
            1 <= self.spec_number_of_bits() <= 8 * self@.len(),
    {
    }

    /// An empty filter of `number_of_bits` bits in which a key has
    /// `num_of_hash_functions` positions.
    pub fn with_parameters(number_of_bits: usize, num_of_hash_functions: usize, seed: u64) -> (filter:
        BloomFilter)
        requires
            number_of_bits >= 1,
        ensures
            filter.wf(),
            filter.spec_number_of_bits() == number_of_bits,
            filter.spec_hash_functions() == num_of_hash_functions,
            filter.spec_seed() == seed,
            filter.spec_size() == 0,
            filter@.len() == (number_of_bits + 7) / 8,
            forall|index: int| !bit_at(filter@, index),
    {
        let whole = number_of_bits / bits::BITS_PER_SEGMENT;
        let num_of_elements = if number_of_bits % bits::BITS_PER_SEGMENT == 0 {
            whole
        } else {
            whole + 1
        };
        BloomFilter {
            data: cleared(num_of_elements),
            seed,
            size: 0,
            number_of_bits,
            num_of_hash_functions,
        }
    }

    /// The bytes of the filter.
    pub fn data(&self) -> (data: &Vec<u8>)
        ensures
            data@ == self@,
    {
        &self.data
    }

    /// How many bits were written.
    pub fn size(&self) -> (size: usize)
        ensures
            size == self.spec_size(),
    {
        self.size
    }

    /// The number of bits of the filter.
    pub fn number_of_bits(&self) -> (bits: usize)
        ensures
            bits == self.spec_number_of_bits(),
    {
        self.number_of_bits
    }

    /// The number of positions of a key.
    pub fn num_of_hash_functions(&self) -> (rounds: usize)
        ensures
            rounds == self.spec_hash_functions(),
    {
        self.num_of_hash_functions
    }

    /// The byte and the bit of that byte that hold the bit `index`.
    pub fn find_bit_coordinates(&self, index: usize) -> (coordinates: (usize, usize))
        ensures
            coordinates.0 == index / 8,
            coordinates.1 == index % 8,
    {
        bits::find_bit_coordinates(index)
    }

    /// Whether the bit `index` is set.
    pub fn read_bit(&self, index: usize) -> (set: bool)
        ensures
            set == bit_at(self@, index as int),
    {
        bits::read_bit(&self.data, index)
    }

    /// Sets the bit `index`; an index beyond the array changes nothing.
    pub fn write_bit(&mut self, index: usize)
        ensures
            final(self)@ == set_bit(old(self)@, index as int),
            final(self).wf() == old(self).wf(),
            final(self).spec_size() == old(self).spec_size(),
            final(self).spec_seed() == old(self).spec_seed(),
            final(self).spec_number_of_bits() == old(self).spec_number_of_bits(),
            final(self).spec_hash_functions() == old(self).spec_hash_functions(),
    {
        bits::write_bit(&mut self.data, index)
    }

    /// The positions of a key whose two hashes are `first` and `second`.
    pub fn positions_from(&self, first: usize, second: usize) -> (positions: Vec<usize>)
        requires
            self.wf(),
        ensures
            as_ints(positions@) == positions_of(
                first,
                second,
                self.spec_hash_functions(),
                self.spec_number_of_bits(),
            ),
            forall|k: int|
                0 <= k < positions@.len() ==> #[trigger] positions@[k] < self.spec_number_of_bits(),
    {
        let mut result: Vec<usize> = Vec::with_capacity(self.num_of_hash_functions);
        let mut i: usize = 0;
        while i < self.num_of_hash_functions
            invariant
                self.wf(),
                i <= self.num_of_hash_functions,
                result@.len() == i,
                forall|k: int|
                    0 <= k < i ==> #[trigger] result@[k] as int == position_of(
                        first,
                        second,
                        k as usize,
                        self.number_of_bits,
                    ),
                forall|k: int| 0 <= k < i ==> #[trigger] result@[k] < self.number_of_bits,
            decreases self.num_of_hash_functions - i,
        {
            let position = first.wrapping_add(i.wrapping_mul(second)).wrapping_add(
                i.wrapping_mul(i),
            ) % self.number_of_bits;
            result.push(position);
            i = i + 1;
        }
        assert(as_ints(result@) =~= positions_of(
            first,
            second,
            self.num_of_hash_functions,
            self.number_of_bits,
        ));
        result
    }

    /// The positions of `key`: its two hashes are those of XXH64 under the
    /// filter's seed and of the standard library's default hasher.
    pub fn key_2_positions<T: Hash>(&self, key: &T) -> (positions: Vec<usize>)
        requires
            self.wf(),
        ensures
            exists|first: usize, second: usize|
                as_ints(positions@) == #[trigger] positions_of(
                    first,
                    second,
                    self.spec_hash_functions(),
                    self.spec_number_of_bits(),
                ),
            forall|k: int|
                0 <= k < positions@.len() ==> #[trigger] positions@[k] < self.spec_number_of_bits(),
    {
        let xxhash_result = Self::narrow(xxhash64_digest(self.seed, key));
        let default_result = Self::narrow(default_digest(key));
        self.positions_from(xxhash_result, default_result)
    }

    /// The low bits of a hash that fit an index.
    pub fn narrow(hash: u64) -> (index: usize)
        ensures
            index as int == hash as int % (usize::MAX as int + 1),
    {
        let limit = usize::MAX as u64;
        if limit == u64::MAX {
            hash as usize
        } else {
            (hash % (limit + 1)) as usize
        }
    }

    /// Whether every one of `positions` is a set bit.
    pub fn contains_positions(&self, positions: &[usize]) -> (held: bool)
        ensures
            held == all_set(self@, as_ints(positions@)),
    {
        let mut checked: usize = 0;
        while checked < positions.len()
            invariant
                checked <= positions.len(),
                forall|k: int| 0 <= k < checked ==> bit_at(self@, #[trigger] as_ints(positions@)[k]),
            decreases positions.len() - checked,
        {
            if !self.read_bit(positions[checked]) {
                assert(!bit_at(self@, as_ints(positions@)[checked as int]));
                return false;
            }
            checked = checked + 1;
        }
        true
    }

    /// Whether the filter reports `key` as present: all of `positions` are
    /// set, or all positions of the key where none are given.
    pub fn contains<T: Hash>(&self, key: &T, positions: Option<&[usize]>) -> (held: bool)
        requires
            self.wf(),
        ensures
            positions is Some ==> held == all_set(self@, as_ints(positions.unwrap()@)),
            positions is None ==> exists|first: usize, second: usize|
                held == all_set(
                    self@,
                    #[trigger] positions_of(
                        first,
                        second,
                        self.spec_hash_functions(),
                        self.spec_number_of_bits(),
                    ),
                ),
    {
        match positions {
            Some(value) => self.contains_positions(value),
            None => {
                let tmp_new = self.key_2_positions(key);
                self.contains_positions(tmp_new.as_slice())
            },
        }
    }

    /// Sets every one of `positions` and counts each, unless all of them are
    /// set already. Afterwards the filter reports the positions as present.
    pub fn insert_positions(&mut self, positions: &[usize])
        requires
            old(self).wf(),
            old(self).spec_size() + positions@.len() <= usize::MAX,
            forall|k: int|
                0 <= k < positions@.len() ==> #[trigger] positions@[k] < old(self).spec_number_of_bits(),
        ensures
            final(self).wf(),
            final(self).spec_seed() == old(self).spec_seed(),
            final(self).spec_number_of_bits() == old(self).spec_number_of_bits(),
            final(self).spec_hash_functions() == old(self).spec_hash_functions(),
            all_set(old(self)@, as_ints(positions@)) ==> final(self)@ == old(self)@ && final(self).spec_size() == old(self).spec_size(),
            !all_set(old(self)@, as_ints(positions@)) ==> final(self)@ == set_bits(
                old(self)@,
                as_ints(positions@),
                positions@.len(),
            ) && final(self).spec_size() == old(self).spec_size() + positions@.len(),
            all_set(final(self)@, as_ints(positions@)),
    {
        let ghost places = as_ints(positions@);
        if !self.contains_positions(positions) {
            let mut written: usize = 0;
            while written < positions.len()
                invariant
                    written <= positions.len(),
                    places == as_ints(positions@),
                    self.wf() == old(self).wf(),
                    self.seed == old(self).seed,
                    self.number_of_bits == old(self).number_of_bits,
                    self.num_of_hash_functions == old(self).num_of_hash_functions,
                    self.size == old(self).size + written,
                    old(self).size + positions@.len() <= usize::MAX,
                    self@ == set_bits(old(self)@, places, written as nat),
                decreases positions.len() - written,
            {
                let position = positions[written];
                assert(places[written as int] == position);
                self.write_bit(position);
                self.size += 1;
                written = written + 1;
            }
            proof {
                assert forall|k: int| 0 <= k < places.len() implies 0 <= #[trigger] places[k]
                    && places[k] / 8 < old(self)@.len() by {
                    assert(positions@[k] < old(self).number_of_bits);
                }
                law_set_positions_are_set(old(self)@, places);
                super::bits::lemma_set_bits(old(self)@, places, places.len(), 0);
            }
        }
    }

    /// Puts `key` into the filter: its positions are set, unless all of them
    /// are set already.
    pub fn insert<T: Hash>(&mut self, key: &T)
        requires
            old(self).wf(),
            old(self).spec_size() + old(self).spec_hash_functions() <= usize::MAX,
        ensures
            final(self).wf(),
            final(self).spec_seed() == old(self).spec_seed(),
            final(self).spec_number_of_bits() == old(self).spec_number_of_bits(),
            final(self).spec_hash_functions() == old(self).spec_hash_functions(),
            exists|first: usize, second: usize|
                {
                    let places = #[trigger] positions_of(
                        first,
                        second,
                        old(self).spec_hash_functions(),
                        old(self).spec_number_of_bits(),
                    );
                    &&& all_set(final(self)@, places)
                    &&& all_set(old(self)@, places) ==> final(self)@ == old(self)@ && final(self).spec_size() == old(self).spec_size()
                    &&& !all_set(old(self)@, places) ==> final(self)@ == set_bits(
                        old(self)@,
                        places,
                        places.len(),
                    ) && final(self).spec_size() == old(self).spec_size() + old(self).spec_hash_functions()
                },
    {
        let positions = self.key_2_positions(key);
        proof {
            let (first, second) = choose|first: usize, second: usize|
                as_ints(positions@) == #[trigger] positions_of(
                    first,
                    second,
                    self.spec_hash_functions(),
                    self.spec_number_of_bits(),
                );
            assert(as_ints(positions@).len() == positions@.len());
        }
        self.insert_positions(positions.as_slice());
    }
}

} // verus!
