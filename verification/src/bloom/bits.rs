//! Single bits in an array of bytes.

use vstd::prelude::*;

verus! {

/// The number of bits in a segment of the array.
pub const BITS_PER_SEGMENT: usize = 8;

/// The mask of bit `offset` within a byte.
pub open spec fn bit_mask(offset: int) -> u8 {
    if offset == 0 {
        1u8
    } else if offset == 1 {
        2u8
    } else if offset == 2 {
        4u8
    } else if offset == 3 {
        8u8
    } else if offset == 4 {
        16u8
    } else if offset == 5 {
        32u8
    } else if offset == 6 {
        64u8
    } else {
        128u8
    }
}

/// Whether the bit `index` of the array is set; no bit beyond the array is.
pub open spec fn bit_at(data: Seq<u8>, index: int) -> bool {
    0 <= index && index / 8 < data.len() && data[index / 8] & bit_mask(index % 8) != 0
}

/// Whether every one of `positions` is a set bit of the array.
pub open spec fn all_set(data: Seq<u8>, positions: Seq<int>) -> bool {
    forall|k: int| 0 <= k < positions.len() ==> bit_at(data, #[trigger] positions[k])
}

/// The array after the bit `index` was set; an index beyond the array changes
/// nothing.
pub open spec fn set_bit(data: Seq<u8>, index: int) -> Seq<u8> {
    if 0 <= index && index / 8 < data.len() {
        data.update(index / 8, data[index / 8] | bit_mask(index % 8))
    } else {
        data
    }
}

/// The array after the first `count` of `positions` were set.
pub open spec fn set_bits(data: Seq<u8>, positions: Seq<int>, count: nat) -> Seq<u8>
    decreases count,
{
    if count == 0 {
        data
    } else {
        set_bit(set_bits(data, positions, (count - 1) as nat), positions[count - 1])
    }
}

/// Setting a bit sets that bit, if the array holds it, and no other.
pub proof fn lemma_set_bit(data: Seq<u8>, index: int, other: int)
    ensures
        set_bit(data, index).len() == data.len(),
        bit_at(set_bit(data, index), other) == (bit_at(data, other) || (other == index && 0
            <= index && index / 8 < data.len())),
{
    if 0 <= index && index / 8 < data.len() && 0 <= other && other / 8 == index / 8 {
        let value = data[index / 8];
        let mask = bit_mask(index % 8);
        let probe = bit_mask(other % 8);
        assert(((value | mask) & probe != 0u8) == ((value & probe != 0u8) || mask == probe))
            by (bit_vector)
            requires
                mask == 1u8 || mask == 2u8 || mask == 4u8 || mask == 8u8 || mask == 16u8 || mask
                    == 32u8 || mask == 64u8 || mask == 128u8,
                probe == 1u8 || probe == 2u8 || probe == 4u8 || probe == 8u8 || probe == 16u8
                    || probe == 32u8 || probe == 64u8 || probe == 128u8,
        ;
    }
}

/// Setting positions sets those that the array holds and no other bit.
pub proof fn lemma_set_bits(data: Seq<u8>, positions: Seq<int>, count: nat, other: int)
    requires
        count <= positions.len(),
    ensures
        set_bits(data, positions, count).len() == data.len(),
        bit_at(set_bits(data, positions, count), other) == (bit_at(data, other) || exists|k: int|
            0 <= k < count && #[trigger] positions[k] == other && 0 <= other && other / 8
                < data.len()),
    decreases count,
{
    if count > 0 {
        let before = set_bits(data, positions, (count - 1) as nat);
        lemma_set_bits(data, positions, (count - 1) as nat, other);
        lemma_set_bit(before, positions[count - 1], other);
        if positions[count - 1] == other && 0 <= other && other / 8 < data.len() {
            assert(positions[count - 1] == other);
        }
        if exists|k: int|
            0 <= k < count && #[trigger] positions[k] == other && 0 <= other && other / 8
                < data.len() {
            let k = choose|k: int|
                0 <= k < count && #[trigger] positions[k] == other && 0 <= other && other / 8
                    < data.len();
            if k < count - 1 {
                assert(positions[k] == other);
            }
        }
    }
}

/// After positions within the array were set, all of them are set: what was
/// put into a filter is reported as present.
pub proof fn law_set_positions_are_set(data: Seq<u8>, positions: Seq<int>)
    requires
        forall|k: int|
            0 <= k < positions.len() ==> 0 <= #[trigger] positions[k] && positions[k] / 8
                < data.len(),
    ensures
        all_set(set_bits(data, positions, positions.len()), positions),
{
    assert forall|k: int| 0 <= k < positions.len() implies bit_at(
        set_bits(data, positions, positions.len()),
        #[trigger] positions[k],
    ) by {
        lemma_set_bits(data, positions, positions.len(), positions[k]);
    }
}

/// Setting positions clears no bit: what a filter reported as present it
/// reports as present afterwards.
pub proof fn law_set_bits_stay_set(data: Seq<u8>, positions: Seq<int>, earlier: Seq<int>)
    requires
        all_set(data, earlier),
    ensures
        all_set(set_bits(data, positions, positions.len()), earlier),
{
    assert forall|k: int| 0 <= k < earlier.len() implies bit_at(
        set_bits(data, positions, positions.len()),
        #[trigger] earlier[k],
    ) by {
        lemma_set_bits(data, positions, positions.len(), earlier[k]);
    }
}

/// The byte of the array and the bit of that byte that hold the bit `index`.
pub fn find_bit_coordinates(index: usize) -> (coordinates: (usize, usize))
    ensures
        coordinates.0 == index / 8,
        coordinates.1 == index % 8,
{
    let byte_index = index / BITS_PER_SEGMENT;
    let bit_offset = index % BITS_PER_SEGMENT;
    (byte_index, bit_offset)
}

/// One shifted left by `offset` is the mask of that bit.
pub proof fn lemma_bit_mask(offset: u8)
    requires
        offset < 8,
    ensures
        1u8 << offset == bit_mask(offset as int),
{
    assert(1u8 << 0u8 == 1u8) by (bit_vector);
    assert(1u8 << 1u8 == 2u8) by (bit_vector);
    assert(1u8 << 2u8 == 4u8) by (bit_vector);
    assert(1u8 << 3u8 == 8u8) by (bit_vector);
    assert(1u8 << 4u8 == 16u8) by (bit_vector);
    assert(1u8 << 5u8 == 32u8) by (bit_vector);
    assert(1u8 << 6u8 == 64u8) by (bit_vector);
    assert(1u8 << 7u8 == 128u8) by (bit_vector);
}

/// Whether the bit `index` of the array is set.
pub fn read_bit(data: &Vec<u8>, index: usize) -> (set: bool)
    ensures
        set == bit_at(data@, index as int),
{
    let (element, bit) = find_bit_coordinates(index);
    if element < data.len() {
        let value = data[element];
        let offset = bit as u8;
        proof {
            lemma_bit_mask(offset);
        }
        let mask = 1u8 << offset;
        assert(((value & mask) >> offset == 1u8) == (value & mask != 0u8)) by (bit_vector)
            requires
                offset < 8u8,
                mask == 1u8 << offset,
        ;
        let result = (value & mask) >> offset;
        return result == 1;
    }
    false
}

/// Sets the bit `index` of the array; an index beyond the array changes
/// nothing.
pub fn write_bit(data: &mut Vec<u8>, index: usize)
    ensures
        final(data)@ == set_bit(old(data)@, index as int),
{
    let (element, bit) = find_bit_coordinates(index);
    if element < data.len() {
        let value = data[element];
        let offset = bit as u8;
        proof {
            lemma_bit_mask(offset);
        }
        let mask = 1u8 << offset;
        data.set(element, value | mask);
    }
}

/// A vector of `length` bytes, all zero: no bit is set.
pub fn cleared(length: usize) -> (data: Vec<u8>)
    ensures
        data@.len() == length,
        forall|index: int| !bit_at(data@, index),
{
    let mut data: Vec<u8> = Vec::with_capacity(length);
    let mut filled: usize = 0;
    while filled < length
        invariant
            filled <= length,
            data@.len() == filled,
            forall|k: int| 0 <= k < filled ==> #[trigger] data@[k] == 0u8,
        decreases length - filled,
    {
        data.push(0);
        filled = filled + 1;
    }
    proof {
        assert forall|index: int| !bit_at(data@, index) by {
            let probe = bit_mask(index % 8);
            assert(0u8 & probe == 0u8) by (bit_vector);
        }
    }
    data
}

} // verus!
