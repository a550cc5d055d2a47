//! The bit vector of the `bitvec` crate, and the calls into it.

use vstd::prelude::*;
use bitvec::vec::BitVec;

verus! {

/// A `bitvec::vec::BitVec` in its default layout.
#[verifier::external_body]
pub struct BitArray {
    bits: BitVec,
}

/// The bits that a bit vector holds, by index.
pub uninterp spec fn bits_of(array: BitArray) -> Seq<bool>;

/// The largest number of bits that a bit vector can hold: an index range
/// shortened by three bits.
pub open spec fn max_bits() -> int {
    usize::MAX as int / 8
}

/// `BitVec::repeat` with a cleared bit: a vector of `length` bits, none set.
#[verifier::external_body]
pub(crate) fn cleared_bits(length: usize) -> (array: BitArray)
    requires
        length <= max_bits(),
    ensures
        bits_of(array) == Seq::new(length as nat, |i: int| false),
{
    BitArray { bits: BitVec::repeat(false, length) }
}

/// `BitSlice::set`: the bit at `index` takes `value` and the others stay.
#[verifier::external_body]
pub(crate) fn set_bit_value(array: &mut BitArray, index: usize, value: bool)
    requires
        index < bits_of(*old(array)).len(),
    ensures
        bits_of(*final(array)) == bits_of(*old(array)).update(index as int, value),
{
    array.bits.set(index, value);
}

/// `BitSlice::get` with an index: the bit at `index`, or `None` beyond the
/// vector.
#[verifier::external_body]
pub(crate) fn get_bit_value(array: &BitArray, index: usize) -> (value: Option<bool>)
    ensures
        index < bits_of(*array).len() ==> value == Some(bits_of(*array)[index as int]),
        index >= bits_of(*array).len() ==> value is None,
{
    array.bits.get(index).as_deref().copied()
}

} // verus!
