//! What arithmetic promises: of all numbers of the format the result is the one nearest to
//! the exact result.
use crate::number::binary::{absolute, Binary};
use crate::number::reals::lemma_divides;
use crate::number::rounding::capped;
use crate::number::scale::{
    is_nearest, lemma_nearest_exists, lemma_units_above_position, lemma_units_climb,
    lemma_units_order, lemma_units_zero, midpoint, nearest, power, units,
};
use vstd::arithmetic::power2::{lemma_pow2_pos, pow2};
use vstd::prelude::*;

verus! {

/// No other rung is closer, and of two that are equally close the even one counts.
proof fn lemma_closest(f: nat, x: real, b: nat, c: nat)
    requires
        is_nearest(f, x, b),
    ensures
        ({
            let (d, e) = (absolute(units(f, b) as real - x), absolute(units(f, c) as real - x));
            &&& d <= e
            &&& d == e && b != c ==> b % 2 == 0
        }),
{
    if c > b {
        lemma_units_climb(f, b, b + 1);
        lemma_units_order(f, b + 1, c);
        lemma_units_order(f, c, b + 1);
        assert(x <= midpoint(f, b));
    } else if c < b {
        let a = (b - 1) as nat;
        lemma_units_climb(f, a, b);
        lemma_units_order(f, c, a);
        lemma_units_order(f, a, c);
        assert(midpoint(f, a) <= x);
    }
}

impl<const F: u32, const TOP: u32> Binary<F, TOP> {
    /// The number is at least as near to `x` as another one is; where both are equally
    /// near, it is the even one.
    pub open spec fn nearer(self, x: real, other: Self) -> bool {
        let (d, e) = (absolute(self.value() - x), absolute(other.value() - x));
        &&& d <= e
        &&& d == e && self.magnitude != other.magnitude ==> self.magnitude % 2 == 0
    }

    /// Rounding goes to the nearest number of the format, and to the even one of two.
    pub proof fn rounding_goes_to_the_nearest(x: real, other: Self)
        requires
            Self::standard(),
            Self::bounded(x),
            Self::rounded(x).is_finite(),
            other.is_finite(),
        ensures
            Self::rounded(x).nearer(x, other),
    {
        Self::lemma_limits();
        Self::lemma_unit();
        let f = F as nat;
        let (u, g) = (power(-(Self::scale() as int)), power(Self::scale() as int));
        let r = Self::rounded(x);
        let s = absolute(x) * g;
        let n = choose|n: nat| Self::at_most(x, n);
        lemma_units_above_position(f, n + 1);
        assert(s >= 0real) by (nonlinear_arith)
            requires
                s == absolute(x) * g,
                absolute(x) >= 0real,
                g > 0real,
        ;
        lemma_nearest_exists(f, s, n + 1);
        let (b, c) = (nearest(f, s), other.magnitude as nat);
        assert(r.magnitude == capped(f, Self::limit(), s));
        lemma_closest(f, s, b, c);
        lemma_closest(f, s, b, 0);
        lemma_units_zero(f);
        lemma_units_order(f, 0, c);
        let (p, q) = (units(f, b) as real, units(f, c) as real);
        let t = absolute(x);
        assert(s * u == t) by (nonlinear_arith)
            requires
                s == t * g,
                u * g == 1real,
        ;
        let (d, e, h) = (absolute(p - s), absolute(q - s), q + s);
        assert(absolute(p * u - t) == d * u) by {
            lemma_scaled_distance(p, s, u);
        }
        assert(absolute(q * u - t) == e * u) by {
            lemma_scaled_distance(q, s, u);
        }
        assert(q * u + t == h * u) by (nonlinear_arith)
            requires
                h == q + s,
                s * u == t,
        ;
        assert(q * u >= 0real) by (nonlinear_arith)
            requires
                q >= 0real,
                u > 0real,
        ;
        lemma_scaled_order(d, e, u);
        lemma_scaled_order(d, h, u);
    }

    /// The results of arithmetic on finite numbers are the numbers of the format that are
    /// nearest to the exact results, wherever these are not too large for it.
    pub proof fn results_are_the_nearest(a: Self, b: Self, other: Self)
        requires
            Self::standard(),
            a.is_finite(),
            b.is_finite(),
            other.is_finite(),
        ensures
            a.sum(b).is_finite() ==> a.sum(b).nearer(a.value() + b.value(), other),
            a.difference(b).is_finite() ==> a.difference(b).nearer(a.value() - b.value(), other),
            a.product(b).is_finite() ==> a.product(b).nearer(a.value() * b.value(), other),
            a.quotient(b).is_finite() && !b.is_zero() ==> a.quotient(b).nearer(
                a.value() / b.value(),
                other,
            ),
    {
        Self::lemma_limits();
        Self::lemma_sum(a, b);
        Self::lemma_bounded_sum(a, b);
        if a.sum(b).is_finite() {
            Self::rounding_goes_to_the_nearest(a.value() + b.value(), other);
        }
        Self::lemma_difference(a, b);
        Self::lemma_bounded_sum(a, b.negated());
        if a.difference(b).is_finite() {
            Self::rounding_goes_to_the_nearest(a.value() - b.value(), other);
        }
        Self::lemma_times(a, b);
        Self::lemma_bounded_product(a, b);
        if a.product(b).is_finite() {
            Self::rounding_goes_to_the_nearest(a.value() * b.value(), other);
        }
        if a.quotient(b).is_finite() && !b.is_zero() {
            let x = a.value() / b.value();
            Self::lemma_value_order(a, a);
            Self::lemma_value_order(b, b);
            if a.is_zero() {
                let t = b.value();
                assert(0real / t == 0real) by (nonlinear_arith)
                    requires
                        t != 0real,
                ;
                Self::lemma_value_order(a.quotient(b), a.quotient(b));
            } else {
                Self::lemma_bounded_quotient(a, b);
                Self::rounding_goes_to_the_nearest(x, other);
            }
        }
    }

    /// A quotient is bounded: the divisor is at least one unit.
    proof fn lemma_bounded_quotient(a: Self, b: Self)
        requires
            Self::standard(),
            !b.is_zero(),
        ensures
            Self::bounded(a.value() / b.value()),
    {
        Self::lemma_unit();
        Self::lemma_value_order(b, b);
        Self::lemma_measure(a.negative, a.units(), a.value());
        Self::lemma_measure(b.negative, b.units(), b.value());
        let (v, t) = (a.value(), b.value());
        let (x, g) = (v / t, power(Self::scale() as int));
        lemma_divides(v, t);
        let (y, w, z) = (absolute(x), absolute(t), absolute(v));
        assert(y * w == z) by (nonlinear_arith)
            requires
                x * t == v,
                y == if x < 0real {
                    -x
                } else {
                    x
                },
                w == if t < 0real {
                    -t
                } else {
                    t
                },
                z == if v < 0real {
                    -v
                } else {
                    v
                },
        ;
        assert(w * g >= 1real);
        assert(y <= z * g) by (nonlinear_arith)
            requires
                y * w == z,
                w * g >= 1real,
                y >= 0real,
        ;
        let (m, n) = (a.units(), pow2(Self::scale()));
        assert(y * g <= (m as real) * (n as real)) by (nonlinear_arith)
            requires
                y <= m as real,
                g == n as real,
                g > 0real,
        ;
        assert((m as real) * (n as real) == (m * n) as real) by (nonlinear_arith);
        assert(Self::at_most(x, m * n));
    }

    /// Conversion goes to the nearest number of the other format, wherever the number is not
    /// too large for it, and keeps the sign, infinities and what is not a number.
    pub proof fn conversion_goes_to_the_nearest<const G: u32, const LAST: u32>(
        self,
        other: Binary<G, LAST>,
    )
        requires
            Self::standard(),
            Binary::<G, LAST>::standard(),
            other.is_finite(),
        ensures
            ({
                let r = self.converted::<G, LAST>();
                &&& self.is_nan() <==> r.is_nan()
                &&& self.is_infinite() ==> r.is_infinite()
                &&& !self.is_nan() ==> r.negative == self.negative
                &&& self.is_finite() && r.is_finite() ==> r.nearer(self.value(), other)
            }),
    {
        Self::lemma_limits();
        Binary::<G, LAST>::lemma_limits();
        Self::lemma_value_order(self, self);
        Self::lemma_unit();
        Binary::<G, LAST>::lemma_unit();
        let r = self.converted::<G, LAST>();
        let x = self.value();
        if self.is_zero() {
            Binary::<G, LAST>::lemma_value_order(r, r);
        } else if self.is_finite() {
            let (m, n) = (self.units(), pow2(Binary::<G, LAST>::scale()));
            let (t, u, g) = (
                absolute(x),
                power(-(Self::scale() as int)),
                power(Binary::<G, LAST>::scale() as int),
            );
            Self::lemma_grain();
            assert(t <= m as real) by (nonlinear_arith)
                requires
                    t == (m as real) * u,
                    0real < u <= 1real,
            ;
            assert(t * g <= (m as real) * (n as real)) by (nonlinear_arith)
                requires
                    t <= m as real,
                    g == n as real,
                    g > 0real,
            ;
            assert((m as real) * (n as real) == (m * n) as real) by (nonlinear_arith);
            assert(Binary::<G, LAST>::at_most(x, m * n));
            if r.is_finite() {
                Binary::<G, LAST>::rounding_goes_to_the_nearest(x, other);
            }
        }
    }

    /// Where there is no number to give, or none that is finite, arithmetic gives what the
    /// standard says.
    pub proof fn special_results(a: Self, b: Self)
        requires
            Self::standard(),
        ensures
            a.is_nan() || b.is_nan() ==> a.sum(b).is_nan() && a.difference(b).is_nan() && a.product(
                b,
            ).is_nan() && a.quotient(b).is_nan(),
            a.is_infinite() && b.is_infinite() && a.negative == b.negative ==> a.sum(b) == a
                && a.difference(b).is_nan() && a.quotient(b).is_nan(),
            a.is_infinite() && b.is_infinite() && a.negative != b.negative ==> a.sum(b).is_nan()
                && a.difference(b) == a && a.quotient(b).is_nan(),
            a.is_infinite() && b.is_finite() ==> a.sum(b) == a && a.difference(b) == a
                && a.quotient(b).is_infinite() && (a.quotient(b).negative <==> a.negative
                != b.negative),
            a.is_finite() && b.is_infinite() ==> a.sum(b) == b && a.quotient(b).is_zero() && (
            a.quotient(b).negative <==> a.negative != b.negative),
            a.is_infinite() && !b.is_nan() && !b.is_zero() ==> a.product(b).is_infinite() && (
            a.product(b).negative <==> a.negative != b.negative),
            a.is_infinite() && b.is_zero() ==> a.product(b).is_nan(),
            a.is_finite() && !a.is_zero() && b.is_zero() ==> a.quotient(b).is_infinite() && (
            a.quotient(b).negative <==> a.negative != b.negative),
            a.is_zero() && b.is_zero() ==> a.quotient(b).is_nan(),
    {
        Self::lemma_limits();
    }

    /// The floor of a number that is not negative is its whole part, as far as `u32` goes.
    pub proof fn floor_is_the_whole_part(self)
        requires
            Self::standard(),
            !self.is_nan(),
            self.value() >= 0real,
        ensures
            self.floor() as real <= self.value(),
            self.floor() < u32::MAX ==> self.value() < self.floor() as real + 1real,
    {
        Self::lemma_limits();
        Self::lemma_unit();
        Self::lemma_value_order(self, self);
        lemma_units_zero(F as nat);
        let (p, n) = (pow2(Self::scale()), self.units());
        lemma_pow2_pos(Self::scale());
        vstd::arithmetic::div_mod::lemma_fundamental_div_mod(n as int, p as int);
        let (w, m) = (n / p, n % p);
        let u = power(-(Self::scale() as int));
        let (x, y, k, v) = (w as real, m as real, p as real, self.value());
        assert(p * w == w * p) by (nonlinear_arith);
        assert((w * p) as real == x * k) by (nonlinear_arith)
            requires
                x == w as real,
                k == p as real,
        ;
        assert((x * k + y) * u == x + y * u) by (nonlinear_arith)
            requires
                u * k == 1real,
        ;
        assert(0real <= y * u < 1real) by (nonlinear_arith)
            requires
                0real <= y < k,
                u * k == 1real,
                u > 0real,
        ;
        if self.is_zero() {
            assert(0real * u == 0real) by (nonlinear_arith);
            vstd::arithmetic::div_mod::lemma_basic_div(0, p as int);
        }
    }

    /// The byte of a number is the integer nearest to it, the larger one of two, as far as
    /// `u8` goes.
    pub proof fn byte_is_the_nearest_integer(self)
        requires
            Self::standard(),
            !self.is_nan(),
            self.value() >= 0real,
        ensures
            self.byte() as real - 1real / 2real <= self.value(),
            self.byte() < u8::MAX ==> self.value() < self.byte() as real + 1real / 2real,
    {
        Self::lemma_limits();
        Self::lemma_unit();
        Self::lemma_value_order(self, self);
        lemma_units_zero(F as nat);
        let (p, n) = (pow2(Self::scale()), self.units());
        lemma_pow2_pos(Self::scale());
        let (a, c) = (2 * n + p, 2 * p);
        vstd::arithmetic::div_mod::lemma_fundamental_div_mod(a as int, c as int);
        let (w, m) = (a / c, a % c);
        let u = power(-(Self::scale() as int));
        let (x, y, k, s, v) = (w as real, m as real, p as real, n as real, self.value());
        assert(c * w == 2 * (w * p)) by (nonlinear_arith)
            requires
                c == 2 * p,
        ;
        assert((w * p) as real == x * k) by (nonlinear_arith)
            requires
                x == w as real,
                k == p as real,
        ;
        assert(2real * s + k == 2real * (x * k) + y);
        let d = (y - k) / 2real;
        assert(s == x * k + d);
        assert((x * k + d) * u == x + d * u) by (nonlinear_arith)
            requires
                u * k == 1real,
        ;
        assert(-1real / 2real <= d * u < 1real / 2real) by (nonlinear_arith)
            requires
                -k / 2real <= d < k / 2real,
                u * k == 1real,
                u > 0real,
        ;
        if self.is_zero() {
            assert(0real * u == 0real) by (nonlinear_arith);
            vstd::arithmetic::div_mod::lemma_basic_div(p as int, c as int);
        }
    }
}

/// A distance, scaled.
proof fn lemma_scaled_distance(p: real, s: real, u: real)
    requires
        u > 0real,
    ensures
        absolute(p * u - s * u) == absolute(p - s) * u,
{
    let d = p - s;
    assert(p * u - s * u == d * u) by (nonlinear_arith)
        requires
            d == p - s,
    ;
    assert((-d) * u == -(d * u)) by (nonlinear_arith);
    assert(d < 0real ==> d * u < 0real) by (nonlinear_arith)
        requires
            u > 0real,
    ;
    assert(d >= 0real ==> d * u >= 0real) by (nonlinear_arith)
        requires
            u > 0real,
    ;
}

/// Scaling keeps order.
proof fn lemma_scaled_order(d: real, e: real, u: real)
    requires
        u > 0real,
        d <= e,
    ensures
        d * u <= e * u,
        d * u == e * u ==> d == e,
{
    assert(d < e ==> d * u < e * u) by (nonlinear_arith)
        requires
            u > 0real,
    ;
}

} // verus!
