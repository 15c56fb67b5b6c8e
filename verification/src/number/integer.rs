//! Conversion to integers.
use crate::number::binary::Binary;
use crate::number::rounding::{lemma_pow2_increases, two_to};
use vstd::arithmetic::power2::{lemma2_to64, lemma_pow2_adds, lemma_pow2_pos, pow2};
use vstd::prelude::*;

verus! {

impl<const F: u32, const TOP: u32> Binary<F, TOP> {
    /// The whole part of the magnitude.
    pub open spec fn whole(self) -> nat {
        self.units() / pow2(Self::scale())
    }

    /// The integer nearest to the magnitude, the larger one of two that are equally
    /// near.
    pub open spec fn whole_rounded(self) -> nat {
        (2 * self.units() + pow2(Self::scale())) / (2 * pow2(Self::scale()))
    }

    /// The largest integer that is not above the number, brought into the range of
    /// `u32`.
    pub open spec fn floor(self) -> u32 {
        if self.is_nan() || self.negative {
            0
        } else if self.whole() > u32::MAX {
            u32::MAX
        } else {
            self.whole() as u32
        }
    }

    /// The integer nearest to the number, halves going away from zero, brought into
    /// the range of `u8`.
    pub open spec fn byte(self) -> u8 {
        if self.is_nan() || self.negative {
            0
        } else if self.whole_rounded() > u8::MAX {
            u8::MAX
        } else {
            self.whole_rounded() as u8
        }
    }

    /// The floor keeps order.
    pub proof fn lemma_floor_order(a: Self, b: Self)
        requires
            !a.is_nan(),
            !b.is_nan(),
            !a.negative,
            !b.negative,
            a.value() <= b.value(),
        ensures
            a.floor() <= b.floor(),
    {
        Self::lemma_value_order(b, a);
        crate::number::scale::lemma_units_order(F as nat, b.magnitude as nat, a.magnitude as nat);
        lemma_pow2_pos(Self::scale());
        vstd::arithmetic::div_mod::lemma_div_is_ordered(
            a.units() as int,
            b.units() as int,
            pow2(Self::scale()) as int,
        );
    }

    /// Infinity exceeds every integer that the conversions return.
    proof fn lemma_infinity_is_large(self)
        requires
            Self::standard(),
            self.is_infinite(),
        ensures
            self.whole() > u32::MAX,
            self.whole_rounded() > u32::MAX,
    {
        Self::lemma_limits();
        let top = TOP as nat;
        let p = pow2(F as nat);
        crate::number::scale::lemma_parts(F as nat, self.magnitude as nat);
        vstd::arithmetic::div_mod::lemma_fundamental_div_mod_converse(
            self.magnitude as int,
            p as int,
            top as int,
            0,
        );
        let s = (top - 1) as nat;
        assert(self.units() == p * pow2(s)) by {
            assert((p + 0) * pow2(s) == p * pow2(s));
        }
        lemma_large(p, s, Self::scale());
    }

    /// The largest integer that is not above the number.
    pub fn to_floor(self) -> (r: u32)
        requires
            Self::standard(),
        ensures
            r == self.floor(),
    {
        if self.not_a_number() || self.negative {
            return 0;
        }
        if self.magnitude == Self::top_position() {
            proof {
                self.lemma_infinity_is_large();
            }
            return u32::MAX;
        }
        let (k, s) = self.parts();
        let scale: u32 = F + TOP / 2 - 1;
        proof {
            Self::lemma_limits();
        }
        if s >= scale {
            if s - scale >= 32 {
                proof {
                    lemma_large(k as nat, s as nat, scale as nat);
                }
                return u32::MAX;
            }
            let factor: u128 = two_to(s - scale);
            proof {
                lemma_whole_large(k as nat, s as nat, scale as nat);
                lemma_fits(k, (s - scale) as nat, factor);
            }
            let v: u128 = k as u128 * factor;
            if v > 0xffff_ffff {
                u32::MAX
            } else {
                v as u32
            }
        } else {
            let d: u32 = scale - s;
            proof {
                lemma_whole_small(k as nat, s as nat, scale as nat);
            }
            if d >= 64 {
                proof {
                    lemma2_to64();
                    lemma_pow2_increases(64, d as nat);
                    vstd::arithmetic::div_mod::lemma_basic_div(k as int, pow2(d as nat) as int);
                }
                return 0;
            }
            let v: u128 = k as u128 / two_to(d);
            if v > 0xffff_ffff {
                u32::MAX
            } else {
                v as u32
            }
        }
    }

    /// The integer nearest to the number, in the range of a byte.
    pub fn to_byte(self) -> (r: u8)
        requires
            Self::standard(),
        ensures
            r == self.byte(),
    {
        if self.not_a_number() || self.negative {
            return 0;
        }
        if self.magnitude == Self::top_position() {
            proof {
                self.lemma_infinity_is_large();
            }
            return 0xff;
        }
        let (k, s) = self.parts();
        let scale: u32 = F + TOP / 2 - 1;
        proof {
            Self::lemma_limits();
        }
        if s >= scale {
            proof {
                lemma_large_byte(k as nat, s as nat, scale as nat);
            }
            return 0xff;
        }
        let d: u32 = scale - s;
        proof {
            lemma_whole_small(k as nat, s as nat, scale as nat);
            lemma_rounded_small(k as nat, s as nat, scale as nat);
        }
        if d >= 64 {
            proof {
                lemma2_to64();
                lemma_pow2_increases(64, d as nat);
                let w = pow2(d as nat);
                vstd::arithmetic::div_mod::lemma_basic_div((2 * k + w) as int, 2 * w as int);
            }
            return 0;
        }
        let w: u128 = two_to(d);
        proof {
            lemma2_to64();
            lemma_pow2_increases(d as nat, 64);
        }
        let v: u128 = (2 * k as u128 + w) / (2 * w);
        if v > 0xff {
            0xff
        } else {
            v as u8
        }
    }
}

/// A number of units that is at least two to the 23 times a scaled-up one is larger
/// than any `u32`.
proof fn lemma_large(k: nat, s: nat, scale: nat)
    requires
        k >= 0x80_0000,
        s >= scale + 32,
    ensures
        (k * pow2(s)) / pow2(scale) > u32::MAX,
        (2 * (k * pow2(s)) + pow2(scale)) / (2 * pow2(scale)) > u32::MAX,
{
    lemma_whole_large(k, s, scale);
    lemma2_to64();
    lemma_pow2_increases(32, (s - scale) as nat);
    let t = pow2((s - scale) as nat);
    assert(k * t >= 0x80_0000 * 0x1_0000_0000) by (nonlinear_arith)
        requires
            k >= 0x80_0000,
            t >= 0x1_0000_0000,
    ;
}

proof fn lemma_large_byte(k: nat, s: nat, scale: nat)
    requires
        k >= 0x80_0000,
        s >= scale,
    ensures
        (2 * (k * pow2(s)) + pow2(scale)) / (2 * pow2(scale)) > u8::MAX,
{
    lemma_whole_large(k, s, scale);
    let t = pow2((s - scale) as nat);
    lemma_pow2_pos((s - scale) as nat);
    assert(k * t >= 0x80_0000) by (nonlinear_arith)
        requires
            k >= 0x80_0000,
            t >= 1,
    ;
}

proof fn lemma_fits(k: u64, n: nat, factor: u128)
    requires
        k < 0x20_0000_0000_0000,
        n < 32,
        factor == pow2(n),
    ensures
        k * factor <= u128::MAX,
{
    lemma2_to64();
    lemma_pow2_increases(n, 32);
    assert(k * factor <= 0x20_0000_0000_0000 * 0x1_0000_0000) by (nonlinear_arith)
        requires
            k < 0x20_0000_0000_0000,
            factor <= 0x1_0000_0000,
    ;
}

/// Above the unit, every value is whole.
pub proof fn lemma_whole_large(k: nat, s: nat, scale: nat)
    requires
        s >= scale,
    ensures
        (k * pow2(s)) / pow2(scale) == k * pow2((s - scale) as nat),
        (2 * (k * pow2(s)) + pow2(scale)) / (2 * pow2(scale)) == k * pow2((s - scale) as nat),
{
    let (t, c) = (pow2((s - scale) as nat), pow2(scale));
    lemma_pow2_pos(scale);
    lemma_pow2_adds((s - scale) as nat, scale);
    let v = k * t;
    assert(k * (t * c) == c * v) by (nonlinear_arith)
        requires
            v == k * t,
    ;
    assert(c * v == v * c) by (nonlinear_arith);
    vstd::arithmetic::div_mod::lemma_fundamental_div_mod_converse(
        (c * v) as int,
        c as int,
        v as int,
        0,
    );
    assert(2 * (c * v) + c == v * (2 * c) + c) by (nonlinear_arith);
    vstd::arithmetic::div_mod::lemma_fundamental_div_mod_converse(
        (2 * (c * v) + c) as int,
        2 * c as int,
        v as int,
        c as int,
    );
}

/// Below the unit, the digits past the point fall away.
pub proof fn lemma_whole_small(k: nat, s: nat, scale: nat)
    requires
        s < scale,
    ensures
        (k * pow2(s)) / pow2(scale) == k / pow2((scale - s) as nat),
{
    let (q, w) = (pow2(s), pow2((scale - s) as nat));
    lemma_pow2_pos(s);
    lemma_pow2_pos((scale - s) as nat);
    lemma_pow2_adds(s, (scale - s) as nat);
    vstd::arithmetic::div_mod::lemma_div_multiples_vanish_quotient(q as int, k as int, w as int);
    assert(q * k == k * q) by (nonlinear_arith);
}

proof fn lemma_rounded_small(k: nat, s: nat, scale: nat)
    requires
        s < scale,
    ensures
        (2 * (k * pow2(s)) + pow2(scale)) / (2 * pow2(scale)) == (2 * k + pow2((scale - s) as nat))
            / (2 * pow2((scale - s) as nat)),
{
    let (q, w) = (pow2(s), pow2((scale - s) as nat));
    lemma_pow2_pos(s);
    lemma_pow2_pos((scale - s) as nat);
    lemma_pow2_adds(s, (scale - s) as nat);
    vstd::arithmetic::div_mod::lemma_div_multiples_vanish_quotient(
        q as int,
        (2 * k + w) as int,
        2 * w as int,
    );
    assert(q * (2 * k + w) == 2 * (k * q) + q * w) by (nonlinear_arith);
    assert(q * (2 * w) == 2 * (q * w)) by (nonlinear_arith);
}

} // verus!
