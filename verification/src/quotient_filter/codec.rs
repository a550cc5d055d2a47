//! Splitting a fingerprint into quotient and remainder, and recombining them.

use vstd::prelude::*;
use vstd::arithmetic::power2::*;
use vstd::bits::*;
use super::error::QuotientFilterError;
use super::slot::Slot;

verus! {

/// The high part of `fingerprint` above its low `remainder_bits` bits.
pub open spec fn quotient_of(fingerprint: u64, remainder_bits: nat) -> int {
    fingerprint as int / pow2(remainder_bits) as int
}

/// The low `remainder_bits` bits of `fingerprint`.
pub open spec fn remainder_of(fingerprint: u64, remainder_bits: nat) -> int {
    fingerprint as int % pow2(remainder_bits) as int
}

/// The fingerprint whose high part is `quotient` and whose low `remainder_bits`
/// bits are those of `remainder`.
pub open spec fn fingerprint_of(quotient: int, remainder: u64, remainder_bits: nat) -> int {
    quotient * pow2(remainder_bits) as int + remainder as int % pow2(remainder_bits) as int
}

/// Two to the power `exponent`, as a machine integer.
pub fn pow2_u64(exponent: u8) -> (power: u64)
    requires
        exponent < 64,
    ensures
        power == pow2(exponent as nat),
        power >= 1,
{
    proof {
        lemma_u64_pow2_no_overflow(exponent as nat);
        lemma_u64_shl_is_mul(1u64, exponent as u64);
        lemma_pow2_pos(exponent as nat);
    }
    1u64 << (exponent as u64)
}

/// Splits `fingerprint` at `remainder_bits` into the index of its home slot and
/// the remainder to store there. Fails when the quotient is no index of a
/// table of `size` slots.
pub fn split(fingerprint: u64, remainder_bits: u8, size: usize) -> (parts: Result<
    (usize, u64),
    QuotientFilterError,
>)
    requires
        remainder_bits <= 64,
    ensures
        match parts {
            Ok((quotient, remainder)) => {
                &&& quotient < size
                &&& quotient as int == quotient_of(fingerprint, remainder_bits as nat)
                &&& remainder as int == remainder_of(fingerprint, remainder_bits as nat)
            },
            Err(error) => {
                &&& error == QuotientFilterError::ConvertingError
                &&& quotient_of(fingerprint, remainder_bits as nat) >= size
            },
        },
{
    let (quotient, remainder): (u64, u64) = if remainder_bits >= 64 {
        proof {
            lemma2_to64();
            assert(fingerprint as int / 0x10000000000000000 == 0);
            assert(fingerprint as int % 0x10000000000000000 == fingerprint as int);
        }
        (0, fingerprint)
    } else {
        let power = pow2_u64(remainder_bits);
        (fingerprint / power, fingerprint % power)
    };
    if quotient >= size as u64 {
        Err(QuotientFilterError::ConvertingError)
    } else {
        Ok((quotient as usize, remainder))
    }
}

/// A fingerprint is the recombination of its own two parts.
pub proof fn lemma_split_reconstruct(fingerprint: u64, remainder_bits: nat)
    ensures
        0 <= remainder_of(fingerprint, remainder_bits) < pow2(remainder_bits),
        0 <= quotient_of(fingerprint, remainder_bits),
        fingerprint_of(
            quotient_of(fingerprint, remainder_bits),
            remainder_of(fingerprint, remainder_bits) as u64,
            remainder_bits,
        ) == fingerprint,
{
    lemma_pow2_pos(remainder_bits);
    let p = pow2(remainder_bits) as int;
    let f = fingerprint as int;
    assert(0 <= f % p < p && 0 <= f / p && f == (f / p) * p + f % p && f % p <= f)
        by (nonlinear_arith)
        requires
            p > 0,
            f >= 0,
    ;
    assert((f % p) % p == f % p) by (nonlinear_arith)
        requires
            p > 0,
            0 <= f % p < p,
    ;
}

/// Recombined parts split again into themselves.
pub proof fn lemma_reconstruct_split(quotient: int, remainder: u64, remainder_bits: nat)
    requires
        0 <= quotient,
        fingerprint_of(quotient, remainder, remainder_bits) <= u64::MAX,
    ensures
        quotient_of(fingerprint_of(quotient, remainder, remainder_bits) as u64, remainder_bits)
            == quotient,
        remainder_of(fingerprint_of(quotient, remainder, remainder_bits) as u64, remainder_bits)
            == remainder as int % pow2(remainder_bits) as int,
{
    lemma_pow2_pos(remainder_bits);
    let p = pow2(remainder_bits) as int;
    let low = remainder as int % p;
    assert(0 <= low < p) by (nonlinear_arith)
        requires
            p > 0,
            low == remainder as int % p,
    ;
    assert((quotient * p + low) / p == quotient && (quotient * p + low) % p == low)
        by (nonlinear_arith)
        requires
            p > 0,
            0 <= low < p,
            0 <= quotient,
    ;
}

impl Slot {
    /// Recombines the stored remainder with the quotient that the slot's
    /// position implies: the remainder's bits above `remainder_size` are masked
    /// off and the quotient is put in their place.
    pub fn reconstruct_fingerprint(&self, quotient: usize, remainder_size: u8) -> (fingerprint:
        u64)
        requires
            remainder_size <= 64,
            (quotient as int + 1) * pow2(remainder_size as nat) <= pow2(64),
        ensures
            fingerprint as int == fingerprint_of(
                quotient as int,
                self.remainder,
                remainder_size as nat,
            ),
    {
        proof {
            lemma2_to64();
            lemma_pow2_pos(remainder_size as nat);
        }
        if remainder_size >= 64 {
            assert(quotient == 0) by (nonlinear_arith)
                requires
                    (quotient as int + 1) * 0x10000000000000000 <= 0x10000000000000000,
            ;
            assert(self.remainder as int % 0x10000000000000000 == self.remainder as int);
            assert(remainder_size as nat == 64);
            assert(fingerprint_of(0, self.remainder, 64) == self.remainder as int);
            self.remainder
        } else {
            let power = pow2_u64(remainder_size);
            let low = self.remainder % power;
            let wide = quotient as u64;
            assert(wide * power + power <= 0x10000000000000000) by (nonlinear_arith)
                requires
                    (wide as int + 1) * power as int <= 0x10000000000000000,
            ;
            proof {
                lemma_u64_shl_is_mul(wide, remainder_size as u64);
            }
            let high = wide << (remainder_size as u64);
            let shift = remainder_size as u64;
            proof {
                lemma_u64_pow2_no_overflow(shift as nat);
                lemma_u64_shl_is_mul(1u64, shift);
                lemma_u64_shr_is_div(u64::MAX, shift);
                assert(wide as int <= 0xffffffffffffffffint / (power as int)) by (nonlinear_arith)
                    requires
                        wide * power + power <= 0x10000000000000000,
                        power >= 1,
                ;
            }
            assert(high | low == high + low) by (bit_vector)
                requires
                    shift < 64,
                    high == wide << shift,
                    low < (1u64 << shift),
                    wide <= (u64::MAX >> shift),
            ;
            assert(wide as int == quotient as int);
            assert(high as int == quotient as int * pow2(remainder_size as nat) as int);
            assert(low as int == self.remainder as int % pow2(remainder_size as nat) as int);
            high | low
        }
    }
}

} // verus!
