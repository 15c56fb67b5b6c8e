//! When rounding is exact, and how it keeps order.
use crate::number::binary::{absolute, Binary};
use crate::number::rounding::{
    lemma_brackets_exact, lemma_even_step, lemma_exact_rung, lemma_pow2_increases,
};
use crate::number::scale::{
    lemma_back_under, lemma_nearest_exact, lemma_nearest_exists, lemma_nearest_order, lemma_rung,
    lemma_units_above_position, lemma_units_order, lemma_units_zero, nearest, power, units,
};
use vstd::arithmetic::power2::{
    lemma2_to64, lemma_pow2_adds, lemma_pow2_pos, lemma_pow2_unfold, pow2,
};
use vstd::prelude::*;

verus! {

/// The number of binary digits of `n`.
pub open spec fn digits(n: nat) -> nat
    decreases n,
{
    if n == 0 {
        0
    } else {
        1 + digits(n / 2)
    }
}

pub proof fn lemma_digits(n: nat)
    ensures
        n < pow2(digits(n)),
        n > 0 ==> digits(n) > 0 && pow2((digits(n) - 1) as nat) <= n,
    decreases n,
{
    lemma2_to64();
    if n > 0 {
        lemma_digits(n / 2);
        lemma_pow2_unfold(digits(n));
        if n > 1 {
            lemma_pow2_unfold((digits(n) - 1) as nat);
        }
    }
}

impl<const F: u32, const TOP: u32> Binary<F, TOP> {
    /// A representable value rounds to itself.
    pub proof fn lemma_exact(self)
        requires
            Self::standard(),
            self.is_finite(),
        ensures
            Self::rounded(self.value()).magnitude == self.magnitude,
            Self::rounded(self.value()).value() == self.value(),
            Self::rounded(self.value()).is_finite(),
            !(self.is_zero() && self.negative) ==> Self::rounded(self.value()) == self,
    {
        Self::lemma_limits();
        Self::lemma_measure(self.negative, self.units(), self.value());
        lemma_nearest_exact(F as nat, self.magnitude as nat);
        lemma_units_zero(F as nat);
        lemma_units_order(F as nat, 0, self.magnitude as nat);
        if self.is_zero() {
            let u = power(-(Self::scale() as int));
            assert(0real * u == 0real) by (nonlinear_arith);
        }
    }

    /// Two finite numbers of one value are the same, but for the sign of zero.
    pub proof fn lemma_same_value(self, other: Self)
        requires
            Self::standard(),
            self.is_finite(),
            other.is_finite(),
            self.value() == other.value(),
        ensures
            self.magnitude == other.magnitude,
            !self.is_zero() ==> self == other,
    {
        self.lemma_exact();
        other.lemma_exact();
    }

    /// Every multiple of a power of two that has no more digits than a significand is
    /// representable.
    pub proof fn lemma_multiple(m: nat, e: nat)
        requires
            Self::standard(),
            m < 2 * pow2(F as nat),
            e <= TOP - 3,
        ensures
            ({
                let x = ((m * pow2(e)) as real) * power(-(Self::scale() as int));
                let r = Self::rounded(x);
                &&& r.units() == m * pow2(e)
                &&& r.value() == x
                &&& r.is_finite()
                &&& !r.negative
                &&& m < pow2(F as nat) && e > 0 ==> r.magnitude % 2 == 0
            }),
    {
        Self::lemma_limits();
        let f = F as nat;
        let size = m * pow2(e);
        let x = (size as real) * power(-(Self::scale() as int));
        Self::lemma_measure(false, size, x);
        let r = Self::rounded(x);
        let p = pow2(f);
        if m == 0 {
            assert(size == 0);
            lemma_units_zero(f);
            lemma_nearest_exact(f, 0);
        } else {
            lemma_digits(m);
            let d = digits(m);
            lemma_pow2_unfold(f + 1);
            if d > f + 1 {
                lemma_pow2_increases(f + 1, (d - 1) as nat);
            }
            let room = (f + 1 - d) as nat;
            let z = if room <= e {
                room
            } else {
                e
            };
            lemma_brackets_exact(m, e, size);
            lemma_exact_rung(f, m, e as int, size as real, z, d);
            let s = (e - z) as nat;
            let k = m * pow2(z);
            let b = s * p + k;
            let top = TOP as nat;
            assert(s * p + 2 * p <= (top - 1) * p) by (nonlinear_arith)
                requires
                    s <= top - 3,
            ;
            assert((top - 1) * p < top * p) by (nonlinear_arith)
                requires
                    p > 0,
            ;
            assert(b < Self::limit());
            assert(r.magnitude == b);
            if s > 0 {
                lemma_pow2_adds((d - 1) as nat, z);
                let (h, t) = (pow2((d - 1) as nat), pow2(z));
                assert(m * t >= h * t) by (nonlinear_arith)
                    requires
                        m >= h,
                ;
            }
            lemma_rung(f, s, k);
            lemma_pow2_adds(z, s);
            let (t, q, w) = (pow2(z), pow2(s), pow2(e));
            assert((m * t) * q == m * w) by (nonlinear_arith)
                requires
                    w == t * q,
            ;
            if m < p && e > 0 {
                if d > f {
                    lemma_pow2_increases(f, (d - 1) as nat);
                }
                lemma_pow2_unfold(z);
                let t = pow2((z - 1) as nat);
                assert(m * (2 * t) == 2 * (m * t)) by (nonlinear_arith);
                lemma_even_step(s, f, k);
            }
        }
    }

    /// The integers that the format holds exactly.
    pub proof fn lemma_integer(n: nat)
        requires
            Self::standard(),
            n < 2 * pow2(F as nat),
        ensures
            Self::rounded(n as real).value() == n as real,
            Self::rounded(n as real).units() == n * pow2(Self::scale()),
            Self::rounded(n as real).is_finite(),
            !Self::rounded(n as real).negative,
            n < pow2(F as nat) ==> Self::rounded(n as real).magnitude % 2 == 0,
            n > 0 ==> !Self::rounded(n as real).is_zero(),
    {
        Self::lemma_limits();
        Self::lemma_unit();
        let scale = Self::scale();
        Self::lemma_multiple(n, scale);
        let (a, g, u, w) = (
            n as real,
            power(scale as int),
            power(-(scale as int)),
            pow2(scale),
        );
        assert((n * w) as real == a * g) by (nonlinear_arith)
            requires
                a == n as real,
                g == w as real,
        ;
        assert((a * g) * u == a) by (nonlinear_arith)
            requires
                u * g == 1real,
        ;
        Self::lemma_value_order(Self::rounded(n as real), Self::rounded(n as real));
    }

    /// Rounding keeps order, as long as the values stay below some position.
    pub proof fn lemma_rounding_order(x: real, y: real, top: nat)
        requires
            Self::standard(),
            0real <= x <= y,
            y * power(Self::scale() as int) < units(F as nat, top) as real,
        ensures
            Self::rounded(x).value() <= Self::rounded(y).value(),
            Self::rounded(x).magnitude <= Self::rounded(y).magnitude,
    {
        Self::lemma_limits();
        Self::lemma_unit();
        let g = power(Self::scale() as int);
        assert(0real <= x * g <= y * g) by (nonlinear_arith)
            requires
                0real <= x <= y,
                g > 0real,
        ;
        lemma_nearest_exists(F as nat, x * g, top);
        lemma_nearest_exists(F as nat, y * g, top);
        lemma_nearest_order(
            F as nat,
            x * g,
            nearest(F as nat, x * g),
            y * g,
            nearest(F as nat, y * g),
        );
        Self::lemma_value_order(Self::rounded(y), Self::rounded(x));
    }

    /// The magnitude of `x` does not exceed `n` units.
    pub open spec fn at_most(x: real, n: nat) -> bool {
        absolute(x) * power(Self::scale() as int) <= n as real
    }

    /// Some whole number of units bounds the magnitude of `x`.
    pub open spec fn bounded(x: real) -> bool {
        exists|n: nat| Self::at_most(x, n)
    }

    /// Rounding keeps order.
    pub proof fn lemma_order(x: real, y: real)
        requires
            Self::standard(),
            x <= y,
            Self::bounded(x),
            Self::bounded(y),
        ensures
            Self::rounded(x).value() <= Self::rounded(y).value(),
    {
        let g = power(Self::scale() as int);
        Self::lemma_opposite(x);
        Self::lemma_opposite(y);
        if 0real <= x {
            let n = choose|n: nat| Self::at_most(y, n);
            lemma_units_above_position(F as nat, n + 1);
            Self::lemma_rounding_order(x, y, n + 1);
        } else if y <= 0real {
            let n = choose|n: nat| Self::at_most(x, n);
            lemma_units_above_position(F as nat, n + 1);
            Self::lemma_rounding_order(-y, -x, n + 1);
        } else {
            Self::lemma_value_order(Self::rounded(x), Self::rounded(x));
            Self::lemma_value_order(Self::rounded(y), Self::rounded(y));
        }
    }

    /// Opposite numbers round to opposite numbers.
    pub proof fn lemma_opposite(x: real)
        ensures
            Self::rounded(-x).value() == -Self::rounded(x).value(),
            Self::rounded(-x).magnitude == Self::rounded(x).magnitude,
    {
        if x == 0real {
            Self::lemma_unit();
            let g = power(Self::scale() as int);
            assert(0real * g == 0real) by (nonlinear_arith);
            lemma_units_zero(F as nat);
            lemma_nearest_exact(F as nat, 0);
            Self::lemma_value_order(Self::zero(false), Self::zero(false));
            assert(Self::rounded(0real).magnitude == 0);
        }
    }

    /// The value of a finite number is bounded, and so is all that is not larger.
    pub proof fn lemma_bounded(self, x: real)
        requires
            absolute(x) <= absolute(self.value()),
        ensures
            Self::bounded(x),
    {
        Self::lemma_unit();
        Self::lemma_measure(self.negative, self.units(), self.value());
        let g = power(Self::scale() as int);
        let (a, b) = (absolute(x), absolute(self.value()));
        assert(a * g <= b * g) by (nonlinear_arith)
            requires
                a <= b,
                g > 0real,
        ;
        let n = self.units();
        assert(Self::at_most(x, n));
    }

    /// Whole numbers are bounded.
    pub proof fn lemma_bounded_integer(n: nat)
        ensures
            Self::bounded(n as real),
    {
        let w = pow2(Self::scale());
        assert((n * w) as real == (n as real) * (w as real)) by (nonlinear_arith);
        assert(Self::at_most(n as real, n * w));
    }

    /// What does not exceed a finite number rounds to a finite number that does not
    /// exceed it either.
    pub proof fn lemma_within(self, x: real)
        requires
            Self::standard(),
            self.is_finite(),
            absolute(x) <= absolute(self.value()),
        ensures
            Self::bounded(x),
            Self::rounded(x).is_finite(),
            absolute(Self::rounded(x).value()) <= absolute(self.value()),
    {
        self.lemma_bounded(x);
        let b = absolute(self.value());
        self.lemma_bounded(b);
        Self::lemma_opposite(x);
        Self::lemma_value_order(self, self);
        let size = self.size();
        assert(size.value() == b);
        size.lemma_exact();
        let g = power(Self::scale() as int);
        let n = choose|n: nat| Self::at_most(b, n);
        lemma_units_above_position(F as nat, n + 1);
        Self::lemma_rounding_order(absolute(x), b, n + 1);
        Self::lemma_value_order(Self::rounded(absolute(x)), Self::rounded(absolute(x)));
    }

    /// The sum of two finite numbers has the rounded value of the exact sum.
    pub proof fn lemma_sum(a: Self, b: Self)
        requires
            Self::standard(),
            a.is_finite(),
            b.is_finite(),
        ensures
            a.sum(b).magnitude == Self::rounded(a.value() + b.value()).magnitude,
            a.sum(b).value() == Self::rounded(a.value() + b.value()).value(),
            !a.sum(b).is_nan(),
    {
        Self::lemma_limits();
        if a.value() + b.value() == 0real {
            Self::lemma_opposite(0real);
            let z = Self::zero(false);
            Self::lemma_value_order(z, z);
            Self::lemma_value_order(Self::zero(true), Self::zero(true));
            z.lemma_exact();
        }
    }

    /// The difference of two finite numbers has the rounded value of the exact one.
    pub proof fn lemma_difference(a: Self, b: Self)
        requires
            Self::standard(),
            a.is_finite(),
            b.is_finite(),
        ensures
            a.difference(b).magnitude == Self::rounded(a.value() - b.value()).magnitude,
            a.difference(b).value() == Self::rounded(a.value() - b.value()).value(),
            !a.difference(b).is_nan(),
    {
        assert(b.negated().value() == -b.value());
        Self::lemma_sum(a, b.negated());
    }

    /// The product of two finite numbers has the rounded value of the exact product.
    pub proof fn lemma_times(a: Self, b: Self)
        requires
            Self::standard(),
            a.is_finite(),
            b.is_finite(),
        ensures
            a.product(b).magnitude == Self::rounded(a.value() * b.value()).magnitude,
            a.product(b).value() == Self::rounded(a.value() * b.value()).value(),
            !a.product(b).is_nan(),
    {
        Self::lemma_limits();
        Self::lemma_value_order(a, a);
        Self::lemma_value_order(b, b);
        if a.is_zero() || b.is_zero() {
            let (x, y) = (a.value(), b.value());
            assert(x * y == 0real) by (nonlinear_arith)
                requires
                    x == 0real || y == 0real,
            ;
            let z = Self::zero(false);
            Self::lemma_value_order(z, z);
            Self::lemma_value_order(Self::zero(true), Self::zero(true));
            z.lemma_exact();
        }
    }

    /// The exact sum of two numbers is bounded.
    pub proof fn lemma_bounded_sum(a: Self, b: Self)
        ensures
            Self::bounded(a.value() + b.value()),
    {
        Self::lemma_unit();
        Self::lemma_measure(a.negative, a.units(), a.value());
        Self::lemma_measure(b.negative, b.units(), b.value());
        let g = power(Self::scale() as int);
        let (x, y) = (absolute(a.value()), absolute(b.value()));
        let z = absolute(a.value() + b.value());
        assert(z <= x + y);
        assert(z * g <= x * g + y * g) by (nonlinear_arith)
            requires
                z <= x + y,
                g > 0real,
        ;
        assert(Self::at_most(a.value() + b.value(), a.units() + b.units()));
    }

    /// The exact product of two numbers is bounded.
    pub proof fn lemma_bounded_product(a: Self, b: Self)
        ensures
            Self::bounded(a.value() * b.value()),
    {
        Self::lemma_unit();
        Self::lemma_measure(a.negative, a.units(), a.value());
        Self::lemma_measure(b.negative, b.units(), b.value());
        let g = power(Self::scale() as int);
        let (x, y) = (absolute(a.value()), absolute(b.value()));
        let z = absolute(a.value() * b.value());
        assert(z == x * y) by {
            let (v, t) = (a.value(), b.value());
            assert((-v) * t == -(v * t)) by (nonlinear_arith);
            assert(v * (-t) == -(v * t)) by (nonlinear_arith);
            assert((-v) * (-t) == v * t) by (nonlinear_arith);
            assert(x * y >= 0real) by (nonlinear_arith)
                requires
                    x >= 0real,
                    y >= 0real,
            ;
        }
        let (m, n) = (a.units(), b.units());
        lemma_pow2_pos(Self::scale());
        assert(g >= 1real);
        assert((x * y) * g == (x * g) * y) by (nonlinear_arith);
        assert(y <= y * g) by (nonlinear_arith)
            requires
                y >= 0real,
                g >= 1real,
        ;
        let (mr, nr) = (m as real, n as real);
        assert(mr * y <= mr * nr) by (nonlinear_arith)
            requires
                mr >= 0real,
                y <= nr,
        ;
        assert(mr * nr == (m * n) as real) by (nonlinear_arith)
            requires
                mr == m as real,
                nr == n as real,
        ;
        assert(Self::at_most(a.value() * b.value(), m * n));
    }

    /// Taking a length off an even position and adding it back, rounding both times,
    /// does not end up above that position.
    pub proof fn lemma_take_and_add_back(whole: Self, length: Self)
        requires
            Self::standard(),
            whole.is_finite(),
            length.is_finite(),
            !whole.negative,
            !length.negative,
            whole.magnitude % 2 == 0,
            length.value() <= whole.value(),
        ensures
            ({
                let rest = Self::rounded(whole.value() - length.value());
                &&& !rest.negative
                &&& rest.is_finite()
                &&& rest.magnitude <= whole.magnitude
                &&& Self::rounded(rest.value() + length.value()).magnitude <= whole.magnitude
            }),
    {
        Self::lemma_limits();
        Self::lemma_unit();
        let f = F as nat;
        let (u, g) = (power(-(Self::scale() as int)), power(Self::scale() as int));
        let (s, l) = (whole.units(), length.units());
        let (sr, lr) = (s as real, l as real);
        let v = whole.value() - length.value();
        assert(v == (sr - lr) * u) by (nonlinear_arith)
            requires
                v == sr * u - lr * u,
        ;
        assert(v * g == sr - lr) by (nonlinear_arith)
            requires
                v == (sr - lr) * u,
                u * g == 1real,
        ;
        assert(sr >= lr) by (nonlinear_arith)
            requires
                lr * u <= sr * u,
                u > 0real,
        ;
        let rest = Self::rounded(v);
        let x = v * g;
        let b = nearest(f, x);
        lemma_back_under(f, whole.magnitude as nat, l);
        assert((s - l) as real == x);
        assert(rest.magnitude == b);
        let h = units(f, b);
        let hr = h as real;
        let y = rest.value() + length.value();
        assert(y * g == hr + lr) by (nonlinear_arith)
            requires
                y == hr * u + lr * u,
                u * g == 1real,
        ;
        assert(y >= 0real) by (nonlinear_arith)
            requires
                y == hr * u + lr * u,
                hr >= 0real,
                lr >= 0real,
                u > 0real,
        ;
        assert(absolute(y) * g == hr + lr);
        assert((h + l) as real == hr + lr);
    }
}

} // verus!
