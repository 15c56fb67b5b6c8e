//! Addition and subtraction.
use crate::number::binary::Binary;
use crate::number::rounding::{lemma_brackets_exact, lemma_brackets_sticky, round_scaled, two_to};
use crate::number::scale::{lemma_units_order, power};
use vstd::arithmetic::power2::{
    lemma2_to64, lemma2_to64_rest, lemma_pow2_adds, lemma_pow2_pos, lemma_pow2_strictly_increases,
    lemma_pow2_unfold, pow2,
};
use vstd::prelude::*;

verus! {

impl<const F: u32, const TOP: u32> Binary<F, TOP> {
    /// Adds two finite numbers, the first of which is not the smaller one in magnitude.
    fn add_ordered(big: Self, small: Self) -> (r: Self)
        requires
            Self::standard(),
            big.is_finite(),
            small.is_finite(),
            big.magnitude >= small.magnitude,
        ensures
            r == big.sum(small),
            r == small.sum(big),
    {
        let (kb, sb) = big.parts();
        let (ks, ss) = small.parts();
        let same: bool = big.negative == small.negative;
        let ghost ub = big.units();
        let ghost us = small.units();
        let ghost size: int = if same {
            ub as int + us
        } else {
            ub - us
        };
        let ghost x = big.value() + small.value();
        proof {
            Self::lemma_limits();
            lemma_units_order(F as nat, small.magnitude as nat, big.magnitude as nat);
            lemma_order_of_parts(F as nat, kb as nat, sb as nat, ks as nat, ss as nat);
            let u = power(-(Self::scale() as int));
            let (a, b) = (ub as real, us as real);
            assert((a + b) * u == a * u + b * u) by (nonlinear_arith);
            assert((a - b) * u == a * u - b * u) by (nonlinear_arith);
            Self::lemma_measure(big.negative, size as nat, x);
        }
        let d: u32 = sb - ss;
        if d <= 64 {
            let whole: u128 = two_to(d);
            proof {
                lemma2_to64();
                if d < 64 {
                    lemma_pow2_strictly_increases(d as nat, 64);
                }
                lemma_pow2_adds(d as nat, ss as nat);
                let (p, q) = (whole as nat, pow2(ss as nat));
                let (a, c) = (kb as nat, ks as nat);
                assert(pow2(sb as nat) == p * q);
                assert((a * p) * q == a * (p * q)) by (nonlinear_arith);
                assert((a * p + c) * q == (a * p) * q + c * q) by (nonlinear_arith);
                assert((a * p - c) * q == (a * p) * q - c * q) by (nonlinear_arith);
                assert(0 <= a * p <= 0x20_0000_0000_0000 * 0x1_0000_0000_0000_0000)
                    by (nonlinear_arith)
                    requires
                        0 <= a <= 0x20_0000_0000_0000,
                        0 <= p <= 0x1_0000_0000_0000_0000,
                ;
                lemma_pow2_pos(ss as nat);
                if !same {
                    assert(a * p >= c) by (nonlinear_arith)
                        requires
                            (a * p) * q >= c * q,
                            q > 0,
                    ;
                }
                lemma_pow2_adds(64, 54);
                lemma2_to64_rest();
                lemma_pow2_strictly_increases(118, 127);
            }
            let shifted: u128 = kb as u128 * whole;
            let m: u128 = if same {
                shifted + ks as u128
            } else {
                shifted - ks as u128
            };
            proof {
                assert(m as nat * pow2(ss as nat) == size);
                lemma_brackets_exact(m as nat, ss as nat, size as nat);
            }
            let magnitude: u64 = round_scaled(
                F,
                TOP,
                m,
                ss as i64,
                false,
                Ghost(size as real),
            );
            if m == 0 {
                proof {
                    assert(0 * pow2(ss as nat) == 0);
                }
                Binary { negative: big.negative && small.negative, magnitude: 0 }
            } else {
                proof {
                    let q = pow2(ss as nat);
                    assert(m * q > 0) by (nonlinear_arith)
                        requires
                            m > 0,
                            q > 0,
                    ;
                }
                Binary { negative: big.negative, magnitude }
            }
        } else {
            proof {
                lemma_far_apart(kb as nat, sb as nat, ks as nat, ss as nat);
                lemma_pow2_pos(sb as nat);
                let (a, q) = (kb as nat, pow2(sb as nat));
                assert(a * q > 0) by (nonlinear_arith)
                    requires
                        a > 0,
                        q > 0,
                ;
                lemma2_to64();
                lemma_pow2_strictly_increases(64, 127);
                let h = pow2((sb - 3) as nat);
                assert((a * 8 - 1) * h == (a * 8) * h - h) by (nonlinear_arith);
            }
            let e: u32 = sb - 3;
            let m: u128 = if ks == 0 || same {
                kb as u128 * 8
            } else {
                kb as u128 * 8 - 1
            };
            let sticky: bool = ks != 0;
            proof {
                if ks == 0 {
                    assert(0 * pow2(ss as nat) == 0);
                    lemma_brackets_exact(m as nat, e as nat, size as nat);
                } else {
                    lemma_brackets_sticky(m as nat, e as nat, size as nat);
                }
            }
            let magnitude: u64 = round_scaled(
                F,
                TOP,
                m,
                e as i64,
                sticky,
                Ghost(size as real),
            );
            Binary { negative: big.negative, magnitude }
        }
    }

    /// The sum of two numbers.
    pub fn plus(self, other: Self) -> (r: Self)
        requires
            Self::standard(),
        ensures
            r == self.sum(other),
    {
        let top: u64 = Self::top_position();
        if self.magnitude > top || other.magnitude > top {
            Self::make_nan()
        } else if self.magnitude == top {
            if other.magnitude == top && self.negative != other.negative {
                Self::make_nan()
            } else {
                self
            }
        } else if other.magnitude == top {
            other
        } else if self.magnitude >= other.magnitude {
            Self::add_ordered(self, other)
        } else {
            Self::add_ordered(other, self)
        }
    }

    /// The number with its sign turned.
    pub fn negate(self) -> (r: Self)
        ensures
            r == self.negated(),
    {
        Binary { negative: !self.negative, magnitude: self.magnitude }
    }

    /// The difference of two numbers.
    pub fn minus(self, other: Self) -> (r: Self)
        requires
            Self::standard(),
        ensures
            r == self.difference(other),
    {
        self.plus(other.negate())
    }
}

/// The larger of two rungs has the larger exponent.
proof fn lemma_order_of_parts(f: nat, kb: nat, sb: nat, ks: nat, ss: nat)
    requires
        kb < 2 * pow2(f),
        ks < 2 * pow2(f),
        sb == 0 || kb >= pow2(f),
        ss == 0 || ks >= pow2(f),
        kb * pow2(sb) >= ks * pow2(ss),
    ensures
        sb >= ss,
{
    if sb < ss {
        lemma_pow2_adds(sb + 1, (ss - sb - 1) as nat);
        lemma_pow2_unfold(sb + 1);
        let (q, t, p) = (pow2(sb), pow2((ss - sb - 1) as nat), pow2(f));
        lemma_pow2_pos(sb);
        lemma_pow2_pos((ss - sb - 1) as nat);
        let w = (2 * q) * t;
        assert(pow2(ss) == w);
        assert(ks * w >= p * w) by (nonlinear_arith)
            requires
                ks >= p,
        ;
        assert(w >= 2 * q) by (nonlinear_arith)
            requires
                w == (2 * q) * t,
                t >= 1,
        ;
        assert(p * w >= p * (2 * q)) by (nonlinear_arith)
            requires
                w >= 2 * q,
        ;
        assert(kb * q < (2 * p) * q) by (nonlinear_arith)
            requires
                kb < 2 * p,
                q > 0,
        ;
        assert(p * (2 * q) == (2 * p) * q) by (nonlinear_arith);
        assert(false);
    }
}

/// A number whose exponent is far below another's is less than an eighth of a step
/// of the other.
proof fn lemma_far_apart(kb: nat, sb: nat, ks: nat, ss: nat)
    requires
        sb > ss + 64,
        ks < 0x20_0000_0000_0000,
    ensures
        ks * pow2(ss) < pow2((sb - 3) as nat),
        kb * pow2(sb) == (kb * 8) * pow2((sb - 3) as nat),
        ks > 0 ==> ks * pow2(ss) > 0,
{
    lemma2_to64();
    lemma2_to64_rest();
    lemma_pow2_adds((sb - 3) as nat, 3);
    let h = pow2((sb - 3) as nat);
    assert(kb * (h * 8) == (kb * 8) * h) by (nonlinear_arith);
    lemma_pow2_adds(53, ss);
    lemma_pow2_strictly_increases(53 + ss, (sb - 3) as nat);
    lemma_pow2_pos(ss);
    let q = pow2(ss);
    assert(ks * q <= 0x20_0000_0000_0000 * q) by (nonlinear_arith)
        requires
            ks < 0x20_0000_0000_0000,
    ;
    if ks > 0 {
        assert(ks * q > 0) by (nonlinear_arith)
            requires
                ks > 0,
                q > 0,
        ;
    }
}

} // verus!
