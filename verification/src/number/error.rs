//! How far rounding moves a number.
use crate::number::binary::{absolute, single, Binary, Binary32};
use crate::number::rounding::lemma_pow2_increases;
use crate::number::scale::{
    exponent, lemma_nearest_error, lemma_nearest_exact, lemma_nearest_exists, lemma_nearest_order,
    lemma_parts, lemma_power_shift, lemma_step_order, lemma_units_above_position,
    lemma_units_climb, lemma_units_zero, nearest, power, significand, units,
};
use vstd::arithmetic::power2::{lemma2_to64, lemma_pow2_adds, lemma_pow2_pos, pow2};
use vstd::prelude::*;

verus! {

impl<const F: u32, const TOP: u32> Binary<F, TOP> {
    /// The largest part of a number that rounding can add or take away.
    pub open spec fn grain() -> real {
        1real / (2real * (pow2(F as nat) as real))
    }

    /// The grain of either format, and that of the smallest numbers, which is finer.
    pub proof fn lemma_grain()
        requires
            Self::standard(),
        ensures
            Self::grain() == if F == 23 {
                1real / 0x100_0000 as real
            } else {
                1real / 0x20_0000_0000_0000 as real
            },
            0real < power(-(Self::scale() as int)) <= Self::grain(),
    {
        Self::lemma_limits();
        Self::lemma_unit();
        let (f, n) = (F as nat + 1, Self::scale());
        lemma_pow2_increases(f, n);
        lemma_pow2_adds(F as nat, 1);
        lemma2_to64();
        let (a, b) = (pow2(f) as real, pow2(n) as real);
        lemma_pow2_pos(f);
        assert(1real / b <= 1real / a) by (nonlinear_arith)
            requires
                0real < a <= b,
        ;
    }

    /// Rounding moves a number by no more than its grain and the smallest number.
    pub proof fn lemma_close(x: real)
        requires
            Self::standard(),
            Self::bounded(x),
            Self::rounded(x).is_finite(),
        ensures
            absolute(Self::rounded(x).value() - x) <= absolute(x) * Self::grain() + power(
                -(Self::scale() as int),
            ),
    {
        Self::lemma_limits();
        Self::lemma_unit();
        Self::lemma_opposite(absolute(x));
        let f = F as nat;
        let (u, g, p) = (
            power(-(Self::scale() as int)),
            power(Self::scale() as int),
            pow2(f) as real,
        );
        lemma_pow2_pos(f);
        let a = absolute(x);
        let y = a * g;
        assert(y >= 0real) by (nonlinear_arith)
            requires
                y == a * g,
                a >= 0real,
                g > 0real,
        ;
        let n = choose|n: nat| Self::at_most(x, n);
        lemma_units_above_position(f, n + 1);
        lemma_nearest_exists(f, y, n + 1);
        let b = nearest(f, y);
        lemma_nearest_error(f, y, b);
        let h = units(f, b) as real;
        let r = Self::rounded(a);
        let v = r.value();
        assert(absolute(a) == a);
        assert(r.magnitude == b);
        assert(v == h * u);
        assert(a == y * u) by (nonlinear_arith)
            requires
                y == a * g,
                u * g == 1real,
        ;
        let d = v - a;
        assert(d == (h - y) * u) by (nonlinear_arith)
            requires
                d == v - a,
                v == h * u,
                a == y * u,
        ;
        let c = 1real / (2real * p);
        assert(c * (2real * p) == 1real) by (nonlinear_arith)
            requires
                c == 1real / (2real * p),
                p > 0real,
        ;
        assert(c > 0real) by (nonlinear_arith)
            requires
                c * (2real * p) == 1real,
                p > 0real,
        ;
        let (k, m) = (h - y, y + p);
        lemma_scaled(k, m, p, c, u);
        lemma_scaled(-k, m, p, c, u);
        assert(2real * p * (y - h) == 2real * p * (-k));
        assert((-k) * u == -(k * u)) by (nonlinear_arith);
        assert(m * c * u == a * c + u / 2real) by (nonlinear_arith)
            requires
                m == y + p,
                a == y * u,
                c * (2real * p) == 1real,
        ;
        if x < 0real {
            assert(Self::rounded(x).value() == -v);
        }
    }
}

impl<const F: u32, const TOP: u32> Binary<F, TOP> {
    /// Two to the 64 is representable.
    proof fn lemma_top() -> (top: Self)
        requires
            Self::standard(),
        ensures
            top.is_finite(),
            !top.negative,
            top.value() == 0x1_0000_0000_0000_0000 as real,
    {
        Self::lemma_limits();
        Self::lemma_unit();
        let (scale, u, g) = (
            Self::scale(),
            power(-(Self::scale() as int)),
            power(Self::scale() as int),
        );
        lemma_pow2_adds(64, scale);
        lemma2_to64();
        Self::lemma_multiple(1, 64 + scale);
        let (w, p) = (pow2(scale), 0x1_0000_0000_0000_0000nat);
        assert(((p * w) as real) * u == p as real) by (nonlinear_arith)
            requires
                g == w as real,
                u * g == 1real,
        ;
        Self::rounded(((1 * pow2(64 + scale)) as real) * u)
    }

    /// Infinity exceeds every number of ordinary size.
    pub proof fn lemma_infinite(self)
        requires
            Self::standard(),
            self.is_infinite(),
        ensures
            absolute(self.value()) > 0x1_0000_0000_0000_0000 as real,
    {
        let top = Self::lemma_top();
        Self::lemma_value_order(top, self.size());
        Self::lemma_value_order(self, self);
        assert(self.size().value() == absolute(self.value()));
    }

    /// Rounding a number of ordinary size gives a finite number, at most two grains of
    /// that size away.
    pub proof fn lemma_near(x: real, s: real)
        requires
            Self::standard(),
            1real <= s <= 0x1_0000_0000_0000_0000 as real,
            absolute(x) <= s,
        ensures
            Self::bounded(x),
            Self::rounded(x).is_finite(),
            absolute(Self::rounded(x).value() - x) <= 2real * (s * Self::grain()),
    {
        Self::lemma_grain();
        let top = Self::lemma_top();
        top.lemma_within(x);
        Self::lemma_close(x);
        let (a, c) = (absolute(x), Self::grain());
        assert(a * c <= s * c) by (nonlinear_arith)
            requires
                a <= s,
                c > 0real,
        ;
        assert(c <= s * c) by (nonlinear_arith)
            requires
                s >= 1real,
                c > 0real,
        ;
    }
}

/// Dividing a bound by twice `p` and measuring it in units.
proof fn lemma_scaled(k: real, m: real, p: real, c: real, u: real)
    requires
        2real * p * k <= m,
        c * (2real * p) == 1real,
        c > 0real,
        u > 0real,
    ensures
        k * u <= m * c * u,
{
    assert(2real * p * k * c == k) by (nonlinear_arith)
        requires
            c * (2real * p) == 1real,
    ;
    let t = 2real * p * k;
    assert(t * c <= m * c) by (nonlinear_arith)
        requires
            t <= m,
            c > 0real,
    ;
    let (a, b) = (k, m * c);
    assert(a * u <= b * u) by (nonlinear_arith)
        requires
            a <= b,
            u > 0real,
    ;
}

/// The number two to the power of `e`.
spec fn mark(e: nat) -> Binary32 {
    single(pow2(e))
}

/// The step of the ladder at two to the power of `e`.
proof fn lemma_step_at(e: nat)
    requires
        e < 23,
    ensures
        ({
            let c = mark(e).magnitude as nat;
            &&& units(23, c) == pow2(e) * pow2(149)
            &&& units(23, c + 1) - units(23, c) == pow2(126 + e)
            &&& mark(e).is_finite()
            &&& mark(e).value() == pow2(e) as real
        }),
{
    Binary32::lemma_limits();
    lemma_pow2_increases(e, 23);
    Binary32::lemma_integer(pow2(e));
    let c = mark(e).magnitude as nat;
    lemma_parts(23, c);
    let (s, k) = (exponent(23, c), significand(23, c));
    lemma2_to64();
    let a = 126 + e;
    lemma_pow2_adds(23, a);
    lemma_pow2_adds(e, 149);
    let p = pow2(a);
    assert(k * pow2(s) == 0x80_0000 * p);
    lemma_pow2_pos(a);
    if s < a {
        lemma_pow2_increases(s, (a - 1) as nat);
        lemma_pow2_adds((a - 1) as nat, 1);
        let (q, t) = (pow2(s), pow2((a - 1) as nat));
        assert(k * q < 0x100_0000 * t) by (nonlinear_arith)
            requires
                k < 0x100_0000,
                q <= t,
                t > 0,
        ;
        assert(false);
    }
    if s > a {
        lemma_pow2_increases(a + 1, s);
        lemma_pow2_adds(a, 1);
        let (q, t) = (pow2(s), pow2(a + 1));
        assert(k * q >= 0x80_0000 * t) by (nonlinear_arith)
            requires
                k >= 0x80_0000,
                q >= t,
        ;
        assert(false);
    }
    assert((k + 1) * p == k * p + p) by (nonlinear_arith);
}

/// Rounding moves a number between zero and two to the power of `e` by no more than two
/// to the power of `e - 24`.
pub proof fn lemma_error(x: real, e: nat)
    requires
        e < 23,
        0real <= x <= pow2(e) as real,
    ensures
        Binary32::rounded(x).is_finite(),
        Binary32::rounded(x).value() >= 0real,
        x - power(e - 24) <= Binary32::rounded(x).value() <= x + power(e - 24),
{
    Binary32::lemma_limits();
    Binary32::lemma_unit();
    lemma_step_at(e);
    let r = Binary32::rounded(x);
    let c = mark(e).magnitude as nat;
    mark(e).lemma_within(x);
    Binary32::lemma_value_order(r, r);
    let (u, g) = (power(-149), power(149));
    let y = x * g;
    let limit = units(23, c) as real;
    let top = pow2(e) as real;
    assert(top * g == limit) by {
        let (w, t) = (pow2(149), pow2(e));
        assert((t * w) as real == (t as real) * (w as real)) by (nonlinear_arith);
    }
    assert(0real <= y <= limit) by (nonlinear_arith)
        requires
            y == x * g,
            0real <= x <= top,
            top * g == limit,
            g > 0real,
    ;
    let b = nearest(23, y);
    lemma_units_climb(23, c, c + 1);
    lemma_nearest_exists(23, y, c + 1);
    lemma_nearest_exact(23, c);
    lemma_nearest_order(23, y, b, limit, c);
    let h = units(23, b) as real;
    let half = (pow2(126 + e) as real) / 2real;
    if h <= y {
        lemma_step_order(23, b, c);
        assert(y - h <= half);
    } else {
        lemma_units_zero(23);
        lemma_step_order(23, (b - 1) as nat, c);
        assert(h - y <= half);
    }
    // Half a step, in values.
    lemma_power_shift(-149, 125 + e);
    lemma_pow2_adds(125 + e, 1);
    lemma2_to64();
    assert(half == pow2(125 + e) as real);
    assert(u * half == power(e - 24));
    assert(x == y * u) by (nonlinear_arith)
        requires
            y == x * g,
            u * g == 1real,
    ;
    let v = r.value();
    assert(v == h * u);
    assert(v - x == (h - y) * u) by (nonlinear_arith)
        requires
            v == h * u,
            x == y * u,
    ;
    let d = h - y;
    assert(-(half * u) <= d * u <= half * u) by (nonlinear_arith)
        requires
            -half <= d <= half,
            u > 0real,
    ;
    assert(half * u == u * half) by (nonlinear_arith);
}

} // verus!
