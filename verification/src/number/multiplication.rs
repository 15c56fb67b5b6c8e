//! Multiplication.
use crate::number::binary::{absolute, Binary};
use crate::number::reals::{lemma_positive_product, lemma_product_size, lemma_signs};
use crate::number::rounding::{brackets, round_scaled};
use crate::number::scale::{lemma_power_adds, lemma_power_positive, power};
use vstd::arithmetic::power2::{
    lemma2_to64_rest, lemma_pow2_adds, lemma_pow2_pos, lemma_pow2_strictly_increases, pow2,
};
use vstd::prelude::*;

verus! {

impl<const F: u32, const TOP: u32> Binary<F, TOP> {
    /// The product of two numbers.
    pub fn times(self, other: Self) -> (r: Self)
        requires
            Self::standard(),
        ensures
            r == self.product(other),
    {
        let top: u64 = Self::top_position();
        let negative: bool = self.negative != other.negative;
        if self.magnitude > top || other.magnitude > top {
            return Self::make_nan();
        }
        if self.magnitude == top || other.magnitude == top {
            if self.magnitude == 0 || other.magnitude == 0 {
                return Self::make_nan();
            }
            return Binary { negative, magnitude: top };
        }
        if self.magnitude == 0 || other.magnitude == 0 {
            return Binary { negative, magnitude: 0 };
        }
        let (ka, sa) = self.parts();
        let (kb, sb) = other.parts();
        let ghost x = absolute(self.value() * other.value()) * power(Self::scale() as int);
        proof {
            Self::lemma_limits();
            Self::lemma_product(self, other, ka as nat, sa as nat, kb as nat, sb as nat);
            let (a, b) = (ka as nat, kb as nat);
            assert(0 < a * b < 0x20_0000_0000_0000 * 0x20_0000_0000_0000) by (nonlinear_arith)
                requires
                    0 < a < 0x20_0000_0000_0000,
                    0 < b < 0x20_0000_0000_0000,
            ;
            lemma2_to64_rest();
            lemma_pow2_adds(53, 53);
            lemma_pow2_strictly_increases(106, 127);
        }
        let scale: i64 = F as i64 + TOP as i64 / 2 - 1;
        let m: u128 = ka as u128 * kb as u128;
        let e: i64 = sa as i64 + sb as i64 - scale;
        let magnitude: u64 = round_scaled(F, TOP, m, e, false, Ghost(x));
        Binary { negative, magnitude }
    }

    proof fn lemma_product(a: Self, b: Self, ka: nat, sa: nat, kb: nat, sb: nat)
        requires
            a.units() == ka * pow2(sa),
            b.units() == kb * pow2(sb),
            ka > 0,
            kb > 0,
        ensures
            brackets(
                ka * kb,
                sa + sb - Self::scale(),
                false,
                absolute(a.value() * b.value()) * power(Self::scale() as int),
            ),
            a.value() * b.value() < 0real <==> a.negative != b.negative,
    {
        Self::lemma_unit();
        let (u, g) = (power(-(Self::scale() as int)), power(Self::scale() as int));
        let (x, p) = (ka as real, pow2(sa) as real);
        let (y, q) = (kb as real, pow2(sb) as real);
        let e = sa + sb - Self::scale();
        let w = power(e);
        lemma_power_adds(sa as int, sb as int);
        lemma_power_adds(sa + sb as int, -(Self::scale() as int));
        lemma_power_positive(e);
        lemma_pow2_pos(sa);
        lemma_pow2_pos(sb);
        assert((p * q) * u == w);
        assert((ka * pow2(sa)) as real == x * p) by (nonlinear_arith)
            requires
                x == ka as real,
                p == pow2(sa) as real,
        ;
        assert((kb * pow2(sb)) as real == y * q) by (nonlinear_arith)
            requires
                y == kb as real,
                q == pow2(sb) as real,
        ;
        assert((ka * kb) as real == x * y) by (nonlinear_arith)
            requires
                x == ka as real,
                y == kb as real,
        ;
        let (v, t) = ((x * p) * u, (y * q) * u);
        lemma_positive_product(x, p, u);
        lemma_positive_product(y, q, u);
        lemma_signs(v, t);
        assert(absolute(a.value() * b.value()) == v * t);
        lemma_product_size(x, p, y, q, u, g);
        let m = x * y;
        assert((m + 1real) * w > m * w) by (nonlinear_arith)
            requires
                w > 0real,
        ;
    }
}

} // verus!
