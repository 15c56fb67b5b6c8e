//! Binary floating-point numbers of the IEEE 754 interchange formats.
//!
//! A number is a sign and a position on the ladder of representable magnitudes.
//! Every operation returns the exact real result rounded to nearest, ties to even,
//! with the signed zeros, infinities and not-a-number results of the standard.
use crate::number::rounding::{brackets, capped, round_scaled, two_to};
use crate::number::scale::{
    exponent, lemma_parts, lemma_power_adds, lemma_power_positive, power, significand, units,
};
use vstd::arithmetic::power2::{
    lemma2_to64, lemma2_to64_rest, lemma_pow2_pos, lemma_pow2_strictly_increases, pow2,
};
use vstd::prelude::*;

verus! {

/// A number of the format with `F` fraction bits whose largest exponent field, the
/// one of infinities, is `TOP`.
#[derive(Clone, Copy, Debug)]
pub struct Binary<const F: u32, const TOP: u32> {
    pub negative: bool,
    /// The encoding without its sign bit.
    pub magnitude: u64,
}

/// Single precision.
pub type Binary32 = Binary<23, 255>;

/// Double precision.
pub type Binary64 = Binary<52, 2047>;

/// The single-precision number nearest to an integer.
pub open spec fn single(n: nat) -> Binary32 {
    Binary32::integer(n)
}

/// The double-precision number nearest to an integer.
pub open spec fn double(n: nat) -> Binary64 {
    Binary64::integer(n)
}

/// The magnitude of a real number.
pub open spec fn absolute(x: real) -> real {
    if x < 0real {
        -x
    } else {
        x
    }
}

impl<const F: u32, const TOP: u32> Binary<F, TOP> {
    /// The two formats that this module provides.
    pub open spec fn standard() -> bool {
        (F == 23 && TOP == 255) || (F == 52 && TOP == 2047)
    }

    /// The position of infinity.
    pub open spec fn limit() -> nat {
        TOP as nat * pow2(F as nat)
    }

    /// The smallest positive value is two to the power of minus this number.
    pub open spec fn scale() -> nat {
        (F + TOP as int / 2 - 1) as nat
    }

    pub open spec fn is_nan(self) -> bool {
        self.magnitude > Self::limit()
    }

    pub open spec fn is_infinite(self) -> bool {
        self.magnitude == Self::limit()
    }

    pub open spec fn is_finite(self) -> bool {
        self.magnitude < Self::limit()
    }

    pub open spec fn is_zero(self) -> bool {
        self.magnitude == 0
    }

    /// The magnitude in units of the smallest positive value.
    pub open spec fn units(self) -> nat {
        units(F as nat, self.magnitude as nat)
    }

    /// The real number that a finite number stands for. An infinity stands one step
    /// beyond the largest finite number, so that values order all but the
    /// not-a-number encodings.
    pub open spec fn value(self) -> real {
        let size = (self.units() as real) * power(-(Self::scale() as int));
        if self.negative {
            -size
        } else {
            size
        }
    }

    pub open spec fn nan() -> Self {
        Binary { negative: false, magnitude: (Self::limit() + pow2((F - 1) as nat)) as u64 }
    }

    pub open spec fn infinity(negative: bool) -> Self {
        Binary { negative, magnitude: Self::limit() as u64 }
    }

    pub open spec fn zero(negative: bool) -> Self {
        Binary { negative, magnitude: 0 }
    }

    /// The number nearest to `x`; infinite where `x` is too large for the format.
    pub open spec fn rounded(x: real) -> Self {
        Binary {
            negative: x < 0real,
            magnitude: capped(
                F as nat,
                Self::limit(),
                absolute(x) * power(Self::scale() as int),
            ) as u64,
        }
    }

    /// The number nearest to an integer.
    pub open spec fn integer(n: nat) -> Self {
        Self::rounded(n as real)
    }

    pub proof fn lemma_limits()
        requires
            Self::standard(),
        ensures
            0 < Self::limit() <= 2047 * 0x10_0000_0000_0000,
            pow2(F as nat) == if F == 23 {
                0x80_0000nat
            } else {
                0x10_0000_0000_0000nat
            },
            0 < pow2((F - 1) as nat) < pow2(F as nat),
            Self::scale() == if F == 23 {
                149nat
            } else {
                1074nat
            },
            forall|x: real|
                (capped(F as nat, Self::limit(), x) as u64) == #[trigger] capped(
                    F as nat,
                    Self::limit(),
                    x,
                ),
    {
        lemma2_to64();
        lemma2_to64_rest();
    }

    /// The position of infinity.
    pub(crate) fn top_position() -> (r: u64)
        requires
            Self::standard(),
        ensures
            r == Self::limit(),
    {
        proof {
            Self::lemma_limits();
        }
        TOP as u64 * two_to(F) as u64
    }

    pub(crate) fn make_nan() -> (r: Self)
        requires
            Self::standard(),
        ensures
            r == Self::nan(),
            r.is_nan(),
    {
        proof {
            Self::lemma_limits();
        }
        Binary { negative: false, magnitude: Self::top_position() + two_to(F - 1) as u64 }
    }

    /// The significand and the exponent of a finite number.
    pub(crate) fn parts(self) -> (r: (u64, u32))
        requires
            Self::standard(),
            self.is_finite(),
        ensures
            self.units() == r.0 * pow2(r.1 as nat),
            r.0 < 2 * pow2(F as nat),
            r.0 < 0x20_0000_0000_0000,
            r.1 < TOP,
            r.1 == 0 || r.0 >= pow2(F as nat),
            r.0 == 0 <==> self.is_zero(),
    {
        proof {
            Self::lemma_limits();
            lemma_parts(F as nat, self.magnitude as nat);
            lemma_pow2_pos(exponent(F as nat, self.magnitude as nat));
        }
        let p: u64 = two_to(F) as u64;
        let field: u64 = self.magnitude / p;
        proof {
            let (b, q) = (self.magnitude, field);
            vstd::arithmetic::div_mod::lemma_fundamental_div_mod(b as int, p as int);
            let r = b % p;
            assert(q < TOP) by (nonlinear_arith)
                requires
                    b == p * q + r,
                    0 <= r < p,
                    b < TOP * p,
            ;
        }
        if field == 0 {
            (self.magnitude, 0)
        } else {
            proof {
                let (b, q) = (self.magnitude, field);
                vstd::arithmetic::div_mod::lemma_fundamental_div_mod(b as int, p as int);
                let r = b % p;
                assert(0 <= (q - 1) * p <= b - p) by (nonlinear_arith)
                    requires
                        b == p * q + r,
                        0 <= r,
                        q >= 1,
                        p > 0,
                ;
            }
            (self.magnitude - (field - 1) * p, (field - 1) as u32)
        }
    }

    /// Whether the number is not a number.
    pub fn not_a_number(self) -> (r: bool)
        requires
            Self::standard(),
        ensures
            r == self.is_nan(),
    {
        self.magnitude > Self::top_position()
    }

    /// The number nearest to an integer.
    pub fn from_integer(negative: bool, m: u64) -> (r: Self)
        requires
            Self::standard(),
            negative ==> m > 0,
        ensures
            r == Self::rounded(
                if negative {
                    -(m as real)
                } else {
                    m as real
                },
            ),
    {
        proof {
            Self::lemma_limits();
            lemma2_to64();
            lemma_pow2_strictly_increases(64, 127);
            lemma_power_positive(Self::scale() as int);
        }
        let scale: i64 = F as i64 + TOP as i64 / 2 - 1;
        let ghost x = (m as real) * power(scale as int);
        proof {
            assert(brackets(m as nat, scale as int, false, x)) by {
                let g = power(scale as int);
                let a = m as real;
                assert((a + 1real) * g > a * g) by (nonlinear_arith)
                    requires
                        g > 0real,
                ;
            }
        }
        let magnitude: u64 = round_scaled(F, TOP, m as u128, scale, false, Ghost(x));
        Binary { negative, magnitude }
    }

    /// The sum of two numbers.
    pub open spec fn sum(self, other: Self) -> Self {
        if self.is_nan() || other.is_nan() {
            Self::nan()
        } else if self.is_infinite() && other.is_infinite() && self.negative != other.negative {
            Self::nan()
        } else if self.is_infinite() {
            self
        } else if other.is_infinite() {
            other
        } else if self.value() + other.value() == 0real {
            Self::zero(self.negative && other.negative)
        } else {
            Self::rounded(self.value() + other.value())
        }
    }

    /// The number with its sign turned.
    pub open spec fn negated(self) -> Self {
        Binary { negative: !self.negative, magnitude: self.magnitude }
    }

    /// The difference of two numbers.
    pub open spec fn difference(self, other: Self) -> Self {
        self.sum(other.negated())
    }

    /// The product of two numbers.
    pub open spec fn product(self, other: Self) -> Self {
        let negative = self.negative != other.negative;
        if self.is_nan() || other.is_nan() {
            Self::nan()
        } else if self.is_infinite() || other.is_infinite() {
            if self.is_zero() || other.is_zero() {
                Self::nan()
            } else {
                Self::infinity(negative)
            }
        } else if self.is_zero() || other.is_zero() {
            Self::zero(negative)
        } else {
            Self::rounded(self.value() * other.value())
        }
    }

    /// The quotient of two numbers.
    pub open spec fn quotient(self, other: Self) -> Self {
        let negative = self.negative != other.negative;
        if self.is_nan() || other.is_nan() {
            Self::nan()
        } else if self.is_infinite() {
            if other.is_infinite() {
                Self::nan()
            } else {
                Self::infinity(negative)
            }
        } else if other.is_infinite() {
            Self::zero(negative)
        } else if other.is_zero() {
            if self.is_zero() {
                Self::nan()
            } else {
                Self::infinity(negative)
            }
        } else if self.is_zero() {
            Self::zero(negative)
        } else {
            Self::rounded(self.value() / other.value())
        }
    }

    /// One unit times the number of units in one is one.
    pub proof fn lemma_unit()
        ensures
            power(-(Self::scale() as int)) * power(Self::scale() as int) == 1real,
            power(-(Self::scale() as int)) > 0real,
            power(Self::scale() as int) > 0real,
    {
        lemma_power_adds(-(Self::scale() as int), Self::scale() as int);
        lemma2_to64();
        lemma_power_positive(-(Self::scale() as int));
        lemma_power_positive(Self::scale() as int);
    }

    /// A whole number of units, given its sign, is measured back in units.
    pub proof fn lemma_measure(negative: bool, size: nat, x: real)
        requires
            x == if negative {
                -((size as real) * power(-(Self::scale() as int)))
            } else {
                (size as real) * power(-(Self::scale() as int))
            },
        ensures
            absolute(x) * power(Self::scale() as int) == size as real,
            x == 0real <==> size == 0,
            size > 0 ==> (x < 0real <==> negative),
    {
        Self::lemma_unit();
        let (u, g, n) = (power(-(Self::scale() as int)), power(Self::scale() as int), size as real);
        assert((n * u) * g == n) by (nonlinear_arith)
            requires
                u * g == 1real,
        ;
        assert(n * u >= 0real) by (nonlinear_arith)
            requires
                u > 0real,
                n >= 0real,
        ;
        assert(0real * u == 0real) by (nonlinear_arith);
        if size > 0 {
            assert(n * u > 0real) by (nonlinear_arith)
                requires
                    u > 0real,
                    n > 0real,
            ;
        }
    }

    /// The number of another format that is nearest to this one.
    pub open spec fn converted<const G: u32, const LAST: u32>(self) -> Binary<G, LAST> {
        if self.is_nan() {
            Binary::<G, LAST>::nan()
        } else if self.is_infinite() {
            Binary::<G, LAST>::infinity(self.negative)
        } else if self.is_zero() {
            Binary::<G, LAST>::zero(self.negative)
        } else {
            Binary::<G, LAST>::rounded(self.value())
        }
    }

}

} // verus!
