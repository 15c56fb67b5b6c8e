//! Division.
use crate::number::binary::{absolute, Binary};
use crate::number::reals::{
    lemma_positive_product, lemma_quotient_bounds, lemma_quotient_signs, lemma_quotient_size,
};
use crate::number::rounding::{bit_length, brackets, lemma_pow2_increases, round_scaled, two_to};
use crate::number::scale::{lemma_power_adds, lemma_power_positive, lemma_power_shift, power};
use vstd::arithmetic::power2::{
    lemma2_to64, lemma2_to64_rest, lemma_pow2_adds, lemma_pow2_pos, lemma_pow2_unfold, pow2,
};
use vstd::prelude::*;

verus! {

impl<const F: u32, const TOP: u32> Binary<F, TOP> {
    /// The quotient of two numbers.
    pub fn over(self, other: Self) -> (r: Self)
        requires
            Self::standard(),
        ensures
            r == self.quotient(other),
    {
        let top: u64 = Self::top_position();
        let negative: bool = self.negative != other.negative;
        if self.magnitude > top || other.magnitude > top {
            return Self::make_nan();
        }
        if self.magnitude == top {
            if other.magnitude == top {
                return Self::make_nan();
            }
            return Binary { negative, magnitude: top };
        }
        if other.magnitude == top {
            return Binary { negative, magnitude: 0 };
        }
        if other.magnitude == 0 {
            if self.magnitude == 0 {
                return Self::make_nan();
            }
            return Binary { negative, magnitude: top };
        }
        if self.magnitude == 0 {
            return Binary { negative, magnitude: 0 };
        }
        let (ka, sa) = self.parts();
        let (kb, sb) = other.parts();
        let n: u32 = bit_length(ka as u128);
        proof {
            Self::lemma_limits();
            lemma2_to64_rest();
            if n > 53 {
                lemma_pow2_increases(53, (n - 1) as nat);
            }
        }
        let z: u32 = 127 - n;
        let grown: u128 = two_to(z);
        proof {
            lemma_pow2_adds(n as nat, z as nat);
            lemma_pow2_adds((n - 1) as nat, z as nat);
            let (a, c, h, w) = (ka as nat, pow2(n as nat), pow2((n - 1) as nat), grown as nat);
            assert(h * w <= a * w < c * w) by (nonlinear_arith)
                requires
                    h <= a < c,
                    w > 0,
            ;
            lemma_pow2_adds(64, 62);
            lemma_pow2_unfold(127);
            lemma2_to64();
            assert(pow2(62) == 0x4000_0000_0000_0000);
        }
        let wide: u128 = ka as u128 * grown;
        let m: u128 = wide / kb as u128;
        let rest: u128 = wide % kb as u128;
        let scale: i64 = F as i64 + TOP as i64 / 2 - 1;
        let e: i64 = sa as i64 - sb as i64 + scale - z as i64;
        let ghost x = absolute(self.value() / other.value()) * power(Self::scale() as int);
        proof {
            vstd::arithmetic::div_mod::lemma_fundamental_div_mod(wide as int, kb as int);
            let (b, q, t) = (kb as nat, m as nat, rest as nat);
            assert(q >= 2 * 0x10_0000_0000_0000) by (nonlinear_arith)
                requires
                    wide == b * q + t,
                    0 <= t < b < 0x20_0000_0000_0000,
                    wide >= 0x1_0000_0000_0000_0000 * 0x4000_0000_0000_0000,
            ;
            assert(q <= wide) by (nonlinear_arith)
                requires
                    wide == b * q + t,
                    t >= 0,
                    b >= 1,
            ;
            Self::lemma_quotient(
                self,
                other,
                ka as nat,
                sa as nat,
                kb as nat,
                sb as nat,
                z as nat,
                m as nat,
                rest as nat,
            );
        }
        let magnitude: u64 = round_scaled(F, TOP, m, e, rest != 0, Ghost(x));
        Binary { negative, magnitude }
    }

    proof fn lemma_quotient(
        a: Self,
        b: Self,
        ka: nat,
        sa: nat,
        kb: nat,
        sb: nat,
        z: nat,
        m: nat,
        rest: nat,
    )
        requires
            a.units() == ka * pow2(sa),
            b.units() == kb * pow2(sb),
            ka > 0,
            kb > 0,
            ka * pow2(z) == kb * m + rest,
            rest < kb,
        ensures
            brackets(
                m,
                sa - sb + Self::scale() - z,
                rest != 0,
                absolute(a.value() / b.value()) * power(Self::scale() as int),
            ),
            a.value() / b.value() < 0real <==> a.negative != b.negative,
    {
        Self::lemma_unit();
        let (u, g) = (power(-(Self::scale() as int)), power(Self::scale() as int));
        let (x, p) = (ka as real, pow2(sa) as real);
        let (y, q) = (kb as real, pow2(sb) as real);
        let e = sa - sb + Self::scale() - z;
        let (w, d) = (power(e), pow2(z) as real);
        lemma_power_positive(e);
        lemma_pow2_pos(sa);
        lemma_pow2_pos(sb);
        lemma_pow2_pos(z);
        // w * d * q == p * g
        lemma_power_shift(e, z);
        lemma_power_shift(e + z, sb);
        lemma_power_adds(sa as int, Self::scale() as int);
        assert((w * d) * q == p * g);
        assert((ka * pow2(sa)) as real == x * p) by (nonlinear_arith)
            requires
                x == ka as real,
                p == pow2(sa) as real,
        ;
        assert((kb * pow2(sb)) as real == y * q) by (nonlinear_arith)
            requires
                y == kb as real,
                q == pow2(sb) as real,
        ;
        let (mr, rr) = (m as real, rest as real);
        assert((ka * pow2(z)) as real == x * d) by (nonlinear_arith)
            requires
                x == ka as real,
                d == pow2(z) as real,
        ;
        assert((kb * m) as real == y * mr) by (nonlinear_arith)
            requires
                y == kb as real,
                mr == m as real,
        ;
        assert(x * d == y * mr + rr);
        let (v, t) = ((x * p) * u, (y * q) * u);
        lemma_positive_product(x, p, u);
        lemma_positive_product(y, q, u);
        lemma_quotient_signs(v, t);
        assert(absolute(a.value() / b.value()) == v / t);
        let size = (v / t) * g;
        lemma_quotient_size(x, p, y, q, u, g, w, d, v / t);
        lemma_quotient_bounds(size, x, y, d, w, mr, rr);
    }
}

} // verus!
