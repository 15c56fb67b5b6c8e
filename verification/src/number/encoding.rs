//! The interchange encodings: a sign bit in front of the position on the ladder.
use crate::number::binary::{Binary32, Binary64};
use crate::number::scale::{lemma_power_adds, power, units};
use vstd::arithmetic::power2::pow2;
use vstd::prelude::*;

verus! {

impl Binary32 {
    /// The number that 32 bits encode.
    pub open spec fn decoded(bits: u32) -> Self {
        Binary32 {
            negative: bits >= 0x8000_0000,
            magnitude: (bits as int % 0x8000_0000) as u64,
        }
    }

    /// The bits that encode the number.
    pub open spec fn encoded(self) -> u32 {
        if self.magnitude >= 0x8000_0000 {
            0x7fc0_0000
        } else if self.negative {
            (self.magnitude + 0x8000_0000) as u32
        } else {
            self.magnitude as u32
        }
    }

    /// The number that 32 bits encode.
    pub fn from_bits(bits: u32) -> (r: Self)
        ensures
            r == Self::decoded(bits),
    {
        Binary32 { negative: bits >= 0x8000_0000, magnitude: (bits % 0x8000_0000) as u64 }
    }

    /// The bits that encode the number.
    pub fn to_bits(self) -> (r: u32)
        ensures
            r == self.encoded(),
    {
        if self.magnitude >= 0x8000_0000 {
            0x7fc0_0000
        } else if self.negative {
            self.magnitude as u32 + 0x8000_0000
        } else {
            self.magnitude as u32
        }
    }
}

impl Binary64 {
    /// The number that 64 bits encode.
    pub open spec fn decoded(bits: u64) -> Self {
        Binary64 {
            negative: bits >= 0x8000_0000_0000_0000,
            magnitude: (bits as int % 0x8000_0000_0000_0000) as u64,
        }
    }

    /// The bits that encode the number.
    pub open spec fn encoded(self) -> u64 {
        if self.magnitude >= 0x8000_0000_0000_0000 {
            0x7ff8_0000_0000_0000
        } else if self.negative {
            (self.magnitude + 0x8000_0000_0000_0000) as u64
        } else {
            self.magnitude
        }
    }

    /// The number that 64 bits encode.
    pub fn from_bits(bits: u64) -> (r: Self)
        ensures
            r == Self::decoded(bits),
    {
        Binary64 {
            negative: bits >= 0x8000_0000_0000_0000,
            magnitude: bits % 0x8000_0000_0000_0000,
        }
    }

    /// The bits that encode the number.
    pub fn to_bits(self) -> (r: u64)
        ensures
            r == self.encoded(),
    {
        if self.magnitude >= 0x8000_0000_0000_0000 {
            0x7ff8_0000_0000_0000
        } else if self.negative {
            self.magnitude + 0x8000_0000_0000_0000
        } else {
            self.magnitude
        }
    }
}

/// Thirty-two bits, made of an exponent, a fraction and a sign, stand for the number that
/// the interchange format gives them.
pub proof fn single_bits_have_their_value(exponent: nat, fraction: nat)
    requires
        1 <= exponent < 255,
        fraction < 0x80_0000,
    ensures
        ({
            let bits = exponent * 0x80_0000 + fraction;
            let v = ((0x80_0000 + fraction) as real) * power(exponent - 150);
            &&& Binary32::decoded(bits as u32).is_finite()
            &&& Binary32::decoded(bits as u32).value() == v
            &&& Binary32::decoded((bits + 0x8000_0000) as u32).value() == -v
        }),
{
    Binary32::lemma_limits();
    let b = exponent * 0x80_0000 + fraction;
    vstd::arithmetic::div_mod::lemma_fundamental_div_mod_converse(
        b as int,
        0x80_0000,
        exponent as int,
        fraction as int,
    );
    let (k, p, u) = (
        (0x80_0000 + fraction) as real,
        pow2((exponent - 1) as nat) as real,
        power(-149),
    );
    assert(units(23, b) as real == k * p) by (nonlinear_arith)
        requires
            units(23, b) == (0x80_0000 + fraction) * pow2((exponent - 1) as nat),
            k == (0x80_0000 + fraction) as real,
            p == pow2((exponent - 1) as nat) as real,
    ;
    lemma_power_adds(exponent - 1, -149);
    assert((k * p) * u == k * (p * u)) by (nonlinear_arith);
}

/// Sixty-four bits, made of an exponent, a fraction and a sign, stand for the number that
/// the interchange format gives them.
pub proof fn double_bits_have_their_value(exponent: nat, fraction: nat)
    requires
        1 <= exponent < 2047,
        fraction < 0x10_0000_0000_0000,
    ensures
        ({
            let bits = exponent * 0x10_0000_0000_0000 + fraction;
            let v = ((0x10_0000_0000_0000 + fraction) as real) * power(exponent - 1075);
            &&& Binary64::decoded(bits as u64).is_finite()
            &&& Binary64::decoded(bits as u64).value() == v
            &&& Binary64::decoded((bits + 0x8000_0000_0000_0000) as u64).value() == -v
        }),
{
    Binary64::lemma_limits();
    let b = exponent * 0x10_0000_0000_0000 + fraction;
    vstd::arithmetic::div_mod::lemma_fundamental_div_mod_converse(
        b as int,
        0x10_0000_0000_0000,
        exponent as int,
        fraction as int,
    );
    let (k, p, u) = (
        (0x10_0000_0000_0000 + fraction) as real,
        pow2((exponent - 1) as nat) as real,
        power(-1074),
    );
    assert(units(52, b) as real == k * p) by (nonlinear_arith)
        requires
            units(52, b) == (0x10_0000_0000_0000 + fraction) * pow2((exponent - 1) as nat),
            k == (0x10_0000_0000_0000 + fraction) as real,
            p == pow2((exponent - 1) as nat) as real,
    ;
    lemma_power_adds(exponent - 1, -1074);
    assert((k * p) * u == k * (p * u)) by (nonlinear_arith);
}

/// Encoding undoes decoding, bit for bit.
pub proof fn encoding_undoes_decoding(single: u32, double: u64)
    ensures
        Binary32::decoded(single).encoded() == single,
        Binary64::decoded(double).encoded() == double,
{
}

/// Decoding undoes encoding for every number that has an encoding.
pub proof fn decoding_undoes_encoding(single: Binary32, double: Binary64)
    ensures
        single.magnitude < 0x8000_0000 ==> Binary32::decoded(single.encoded()) == single,
        double.magnitude < 0x8000_0000_0000_0000 ==> Binary64::decoded(double.encoded()) == double,
{
}

} // verus!
