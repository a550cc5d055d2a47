//! A Bloom filter over an array of bytes, for keys that are byte strings.

use vstd::prelude::*;
use super::bits;
use super::bits::{all_set, bit_at, cleared, law_set_positions_are_set, set_bit, set_bits};
use crate::byte_hashes::{fnv1a_128_of, fnv1a_hash_128, murmur3_x64_128};

verus! {

/// The position of a key in round `round`, from its two hashes: it lies
/// within the first segment of the array.
pub open spec fn position_in_segment(first: u128, second: u128, round: u128) -> u128 {
    first.wrapping_add(round.wrapping_mul(second)).wrapping_add(round.wrapping_mul(round)) % 8
}

/// The positions of a key with the hashes `first` and `second`, one for each
/// of `rounds` rounds.
pub open spec fn segment_positions(first: u128, second: u128, rounds: usize) -> Seq<u128> {
    Seq::new(rounds as nat, |round: int| position_in_segment(first, second, round as u128))
}

/// A position as an index of bits: its low bits, as many as an index has.
pub open spec fn as_index(position: u128) -> int {
    position as int % (usize::MAX as int + 1)
}

/// The positions as indices of bits.
pub open spec fn as_indices(positions: Seq<u128>) -> Seq<int> {
    positions.map_values(|position: u128| as_index(position))
}

/// A Bloom filter for byte strings.
#[derive(Debug)]
pub struct BloomFilter {
    data: Vec<u8>,
    size: usize,
    seed: u32,
    number_of_bits: usize,
    num_of_hash_functions: usize,
}

impl View for BloomFilter {
    type V = Seq<u8>;

    closed spec fn view(&self) -> Seq<u8> {
        self.data@
    }
}

impl BloomFilter {
    /// How many bits were written.
    pub closed spec fn spec_size(&self) -> usize {
        self.size
    }

    /// The seed of the first hash function.
    pub closed spec fn spec_seed(&self) -> u32 {
        self.seed
    }

    /// The number of bits of the filter.
    pub closed spec fn spec_number_of_bits(&self) -> usize {
        self.number_of_bits
    }

    /// The number of positions of a key.
    pub closed spec fn spec_hash_functions(&self) -> usize {
        self.num_of_hash_functions
    }

    /// The array holds the first segment.
    pub closed spec fn wf(&self) -> bool {
        self.data@.len() >= 1
    }

    /// The array of a valid filter holds a byte.
    pub proof fn lemma_wf(&self)
        requires
            self.wf(),
        ensures
            self@.len() >= 1,
    {
    }

    /// An empty filter of `number_of_bits` bits in which a key has
    /// `num_of_hash_functions` positions.
    pub fn with_parameters(number_of_bits: usize, num_of_hash_functions: usize, seed: u32) -> (filter:
        BloomFilter)
        ensures
            number_of_bits >= 1 ==> filter.wf(),
            filter.spec_number_of_bits() == number_of_bits,
            filter.spec_hash_functions() == num_of_hash_functions,
            filter.spec_seed() == seed,
            filter.spec_size() == 0,
            filter@.len() == (number_of_bits + 7) / 8,
            forall|index: int| !bit_at(filter@, index),
    {
        let whole = number_of_bits / bits::BITS_PER_SEGMENT;
        let num_of_elements = if number_of_bits % bits::BITS_PER_SEGMENT == 0 {
            whole
        } else {
            whole + 1
        };
        BloomFilter {
            data: cleared(num_of_elements),
            seed,
            size: 0,
            number_of_bits,
            num_of_hash_functions,
        }
    }

    /// The bytes of the filter.
    pub fn data(&self) -> (data: &Vec<u8>)
        ensures
            data@ == self@,
    {
        &self.data
    }

    /// How many bits were written.
    pub fn size(&self) -> (size: usize)
        ensures
            size == self.spec_size(),
    {
        self.size
    }

    /// The number of bits of the filter.
    pub fn number_of_bits(&self) -> (bits: usize)
        ensures
            bits == self.spec_number_of_bits(),
    {
        self.number_of_bits
    }

    /// The number of positions of a key.
    pub fn num_of_hash_functions(&self) -> (rounds: usize)
        ensures
            rounds == self.spec_hash_functions(),
    {
        self.num_of_hash_functions
    }

    /// The byte and the bit of that byte that hold the bit `index`.
    pub fn find_bit_coordinates(&self, index: usize) -> (coordinates: (usize, usize))
        ensures
            coordinates.0 == index / 8,
            coordinates.1 == index % 8,
    {
        bits::find_bit_coordinates(index)
    }

    /// Whether the bit `index` is set.
    pub fn read_bit(&self, index: usize) -> (set: bool)
        ensures
            set == bit_at(self@, index as int),
    {
        bits::read_bit(&self.data, index)
    }

    /// Sets the bit `index`; an index beyond the array changes nothing.
    pub fn write_bit(&mut self, index: usize)
        ensures
            final(self)@ == set_bit(old(self)@, index as int),
            final(self).spec_size() == old(self).spec_size(),
            final(self).spec_seed() == old(self).spec_seed(),
            final(self).spec_number_of_bits() == old(self).spec_number_of_bits(),
            final(self).spec_hash_functions() == old(self).spec_hash_functions(),
    {
        bits::write_bit(&mut self.data, index)
    }

    /// The low bits of a position that make an index.
    pub fn narrow(position: u128) -> (index: usize)
        ensures
            index as int == as_index(position),
    {
        let limit = usize::MAX as u128;
        (position % (limit + 1)) as usize
    }

    /// The positions of a key whose two hashes are `first` and `second`.
    pub fn positions_from(&self, first: u128, second: u128) -> (positions: Vec<u128>)
        ensures
            positions@ == segment_positions(first, second, self.spec_hash_functions()),
    {
        let rounds = self.num_of_hash_functions as u128;
        let mut positions: Vec<u128> = Vec::new();
        let mut x: u128 = 0;
        while x < rounds
            invariant
                x <= rounds,
                rounds == self.num_of_hash_functions,
                positions@.len() == x,
                forall|k: int|
                    0 <= k < x ==> #[trigger] positions@[k] == position_in_segment(
                        first,
                        second,
                        k as u128,
                    ),
            decreases rounds - x,
        {
            let position = first.wrapping_add(x.wrapping_mul(second)).wrapping_add(
                x.wrapping_mul(x),
            ) % (bits::BITS_PER_SEGMENT as u128);
            positions.push(position);
            x = x + 1;
        }
        assert(positions@ =~= segment_positions(first, second, self.num_of_hash_functions));
        positions
    }

    /// The positions of `key`: its first hash is MurmurHash3 under the
    /// filter's seed, its second is FNV-1a.
    pub fn key_2_positions(&self, key: &[u8]) -> (positions: Vec<u128>)
        ensures
            exists|first: u128|
                positions@ == #[trigger] segment_positions(
                    first,
                    fnv1a_128_of(key@),
                    self.spec_hash_functions(),
                ),
    {
        let murmur_result = murmur3_x64_128(key, self.seed as u64);
        assert(key@.take(key@.len() as int) =~= key@);
        let fnv1_result = fnv1a_hash_128(key, None);
        self.positions_from(murmur_result, fnv1_result)
    }

    /// Whether every one of `positions` is a set bit.
    pub fn contains_positions(&self, positions: &[u128]) -> (held: bool)
        ensures
            held == all_set(self@, as_indices(positions@)),
    {
        let mut checked: usize = 0;
        while checked < positions.len()
            invariant
                checked <= positions.len(),
                forall|k: int|
                    0 <= k < checked ==> bit_at(self@, #[trigger] as_indices(positions@)[k]),
            decreases positions.len() - checked,
        {
            if !self.read_bit(Self::narrow(positions[checked])) {
                assert(!bit_at(self@, as_indices(positions@)[checked as int]));
                return false;
            }
            checked = checked + 1;
        }
        true
    }

    /// Whether the filter reports `key` as present: all of `positions` are
    /// set, or all positions of the key where none are given.
    pub fn contains(&self, key: &[u8], positions: Option<&[u128]>) -> (held: bool)
        ensures
            positions is Some ==> held == all_set(self@, as_indices(positions.unwrap()@)),
            positions is None ==> exists|first: u128|
                held == all_set(
                    self@,
                    as_indices(
                        #[trigger] segment_positions(
                            first,
                            fnv1a_128_of(key@),
                            self.spec_hash_functions(),
                        ),
                    ),
                ),
    {
        match positions {
            Some(value) => self.contains_positions(value),
            None => {
                let tmp_new = self.key_2_positions(key);
                self.contains_positions(tmp_new.as_slice())
            },
        }
    }

    /// Sets every one of `positions` and counts each, unless all of them are
    /// set already. Afterwards the filter reports the positions as present,
    /// if the array holds them.
    pub fn insert_positions(&mut self, positions: &[u128])
        requires
            old(self).spec_size() + positions@.len() <= usize::MAX,
        ensures
            final(self).wf() == old(self).wf(),
            final(self).spec_seed() == old(self).spec_seed(),
            final(self).spec_number_of_bits() == old(self).spec_number_of_bits(),
            final(self).spec_hash_functions() == old(self).spec_hash_functions(),
            all_set(old(self)@, as_indices(positions@)) ==> final(self)@ == old(self)@ && final(self).spec_size() == old(self).spec_size(),
            !all_set(old(self)@, as_indices(positions@)) ==> final(self)@ == set_bits(
                old(self)@,
                as_indices(positions@),
                positions@.len(),
            ) && final(self).spec_size() == old(self).spec_size() + positions@.len(),
            (forall|k: int|
                0 <= k < positions@.len() ==> as_index(#[trigger] positions@[k]) / 8 < old(self)@.len()) ==> all_set(final(self)@, as_indices(positions@)),
    {
        let ghost places = as_indices(positions@);
        if !self.contains_positions(positions) {
            let mut written: usize = 0;
            while written < positions.len()
                invariant
                    written <= positions.len(),
                    places == as_indices(positions@),
                    self.wf() == old(self).wf(),
                    self.seed == old(self).seed,
                    self.number_of_bits == old(self).number_of_bits,
                    self.num_of_hash_functions == old(self).num_of_hash_functions,
                    self.size == old(self).size + written,
                    old(self).size + positions@.len() <= usize::MAX,
                    self@ == set_bits(old(self)@, places, written as nat),
                decreases positions.len() - written,
            {
                let position = Self::narrow(positions[written]);
                assert(places[written as int] == position);
                self.write_bit(position);
                self.size += 1;
                written = written + 1;
            }
            proof {
                super::bits::lemma_set_bits(old(self)@, places, places.len(), 0);
                if forall|k: int|
                    0 <= k < positions@.len() ==> as_index(#[trigger] positions@[k]) / 8 < old(self)@.len() {
                    assert forall|k: int| 0 <= k < places.len() implies 0 <= #[trigger] places[k]
                        && places[k] / 8 < old(self)@.len() by {
                        assert(places[k] == as_index(positions@[k]));
                    }
                    law_set_positions_are_set(old(self)@, places);
                }
            }
        }
    }

    /// Puts `key` into the filter: its positions are set and each is counted,
    /// unless all of them are set already.
    pub fn insert(&mut self, key: &[u8])
        requires
            old(self).wf(),
            old(self).spec_size() + old(self).spec_hash_functions() <= usize::MAX,
        ensures
            final(self).wf(),
            final(self).spec_seed() == old(self).spec_seed(),
            final(self).spec_number_of_bits() == old(self).spec_number_of_bits(),
            final(self).spec_hash_functions() == old(self).spec_hash_functions(),
            exists|first: u128|
                {
                    let places = as_indices(
                        #[trigger] segment_positions(
                            first,
                            fnv1a_128_of(key@),
                            old(self).spec_hash_functions(),
                        ),
                    );
                    &&& all_set(final(self)@, places)
                    &&& all_set(old(self)@, places) ==> final(self)@ == old(self)@ && final(self).spec_size() == old(self).spec_size()
                    &&& !all_set(old(self)@, places) ==> final(self)@ == set_bits(
                        old(self)@,
                        places,
                        places.len(),
                    ) && final(self).spec_size() == old(self).spec_size() + old(self).spec_hash_functions()
                },
    {
        let positions = self.key_2_positions(key);
        proof {
            let first = choose|first: u128|
                positions@ == #[trigger] segment_positions(
                    first,
                    fnv1a_128_of(key@),
                    self.spec_hash_functions(),
                );
            assert forall|k: int| 0 <= k < positions@.len() implies as_index(
                #[trigger] positions@[k],
            ) / 8 < self@.len() by {
                assert(positions@[k] == segment_positions(
                    first,
                    fnv1a_128_of(key@),
                    self.spec_hash_functions(),
                )[k]);
                assert(positions@[k] == position_in_segment(
                    first,
                    fnv1a_128_of(key@),
                    k as u128,
                ));
                assert(positions@[k] < 8);
                let position = positions@[k] as int;
                let range = usize::MAX as int + 1;
                assert(position % range == position) by (nonlinear_arith)
                    requires
                        0 <= position < 8,
                        range > 8,
                ;
            }
            assert(as_indices(positions@).len() == positions@.len());
        }
        self.insert_positions(positions.as_slice());
    }
}

} // verus!
