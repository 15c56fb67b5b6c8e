//! The ladder of representable magnitudes.
//!
//! A binary interchange format with `f` fraction bits numbers its non-negative
//! values consecutively: the bit pattern, read as an integer, is the position of
//! the value on the ladder. Measured in units of the smallest positive value of the
//! format, every rung is a whole number. Rounding to nearest picks the rung closest
//! to a real number and, between two equally close rungs, the even one.
use vstd::arithmetic::power2::{
    lemma_pow2_adds, lemma_pow2_pos, lemma_pow2_strictly_increases, lemma_pow2_unfold, pow2,
};
use vstd::prelude::*;

verus! {

/// Two to the power `e`, for any integer `e`.
pub open spec fn power(e: int) -> real {
    if e >= 0 {
        pow2(e as nat) as real
    } else {
        1real / (pow2((-e) as nat) as real)
    }
}

/// The value of rung `b`, in units of the smallest positive value.
pub open spec fn units(f: nat, b: nat) -> nat {
    let field = b / pow2(f);
    let fraction = b % pow2(f);
    if field == 0 {
        fraction
    } else {
        (pow2(f) + fraction) * pow2((field - 1) as nat)
    }
}

/// The point halfway between rung `b` and the next one.
pub open spec fn midpoint(f: nat, b: nat) -> real {
    (units(f, b) + units(f, b + 1)) as real / 2real
}

/// Rung `b` is the one that `x` rounds to: no other rung is closer, and where two
/// are equally close, `b` is the even one.
pub open spec fn is_nearest(f: nat, x: real, b: nat) -> bool {
    &&& b > 0 ==> midpoint(f, (b - 1) as nat) <= x
    &&& x <= midpoint(f, b)
    &&& b % 2 == 1 ==> midpoint(f, (b - 1) as nat) < x < midpoint(f, b)
}

/// The rung that `x` rounds to.
pub open spec fn nearest(f: nat, x: real) -> nat {
    choose|b: nat| is_nearest(f, x, b)
}

pub proof fn lemma_power_positive(e: int)
    ensures
        power(e) > 0real,
{
    if e >= 0 {
        lemma_pow2_pos(e as nat);
    } else {
        lemma_pow2_pos((-e) as nat);
        let d = pow2((-e) as nat) as real;
        assert(1real / d > 0real) by (nonlinear_arith)
            requires
                d > 0real,
        ;
    }
}

/// Multiplying by two to a power adds to the exponent.
pub proof fn lemma_power_shift(e: int, n: nat)
    ensures
        power(e) * (pow2(n) as real) == power(e + n),
{
    lemma_pow2_pos(n);
    if e >= 0 {
        lemma_pow2_adds(e as nat, n);
        let (p, q) = (pow2(e as nat), pow2(n));
        assert((p as real) * (q as real) == (p * q) as real) by (nonlinear_arith);
    } else {
        let m = (-e) as nat;
        lemma_pow2_pos(m);
        if e + n >= 0 {
            let r = (e + n) as nat;
            lemma_pow2_adds(m, r);
            assert(m + r == n);
            let (a, b, c) = (pow2(m), pow2(n), pow2(r));
            assert((a * c) as real == (a as real) * (c as real)) by (nonlinear_arith);
            let (x, y, z) = (a as real, b as real, c as real);
            assert((1real / x) * y == z) by (nonlinear_arith)
                requires
                    x > 0real,
                    y == x * z,
            ;
        } else {
            let r = (-(e + n)) as nat;
            lemma_pow2_pos(r);
            lemma_pow2_adds(n, r);
            assert(n + r == m);
            let (a, b, c) = (pow2(m), pow2(n), pow2(r));
            assert((b * c) as real == (b as real) * (c as real)) by (nonlinear_arith);
            let (x, y, z) = (a as real, b as real, c as real);
            assert((1real / x) * y == 1real / z) by (nonlinear_arith)
                requires
                    x > 0real,
                    y > 0real,
                    z > 0real,
                    x == y * z,
            ;
        }
    }
}

/// Exponents add under multiplication.
pub proof fn lemma_power_adds(a: int, b: int)
    ensures
        power(a) * power(b) == power(a + b),
{
    if b >= 0 {
        lemma_power_shift(a, b as nat);
    } else {
        let n = (-b) as nat;
        lemma_power_shift(a + b, n);
        lemma_pow2_pos(n);
        let (x, y, z) = (power(a), power(a + b), pow2(n) as real);
        assert(x * (1real / z) == y) by (nonlinear_arith)
            requires
                z > 0real,
                y * z == x,
        ;
    }
}

/// A rung named by its exponent `s` and its significand `k`.
pub proof fn lemma_rung(f: nat, s: nat, k: nat)
    requires
        k <= 2 * pow2(f),
        s == 0 || k >= pow2(f),
    ensures
        units(f, s * pow2(f) + k) == k * pow2(s),
{
    let p = pow2(f);
    let b = s * p + k;
    lemma_pow2_pos(f);
    if k < p {
        assert(b == k) by (nonlinear_arith)
            requires
                s == 0,
                b == s * p + k,
        ;
        vstd::arithmetic::div_mod::lemma_small_mod(k, p);
        vstd::arithmetic::div_mod::lemma_basic_div(k as int, p as int);
        assert(pow2(0) == 1) by {
            vstd::arithmetic::power2::lemma2_to64();
        }
    } else if k < 2 * p {
        let m = (k - p) as nat;
        assert(b == (s + 1) * p + m) by (nonlinear_arith)
            requires
                b == s * p + k,
                k == p + m,
        ;
        vstd::arithmetic::div_mod::lemma_fundamental_div_mod_converse(
            b as int,
            p as int,
            (s + 1) as int,
            m as int,
        );
    } else {
        assert(b == (s + 2) * p) by (nonlinear_arith)
            requires
                b == s * p + k,
                k == 2 * p,
        ;
        vstd::arithmetic::div_mod::lemma_fundamental_div_mod_converse(
            b as int,
            p as int,
            (s + 2) as int,
            0,
        );
        lemma_pow2_unfold(s + 1);
        let q = pow2(s);
        assert((p + 0) * (2 * q) == k * q) by (nonlinear_arith)
            requires
                k == 2 * p,
        ;
    }
}

/// The exponent of rung `b`.
pub open spec fn exponent(f: nat, b: nat) -> nat {
    let field = b / pow2(f);
    if field == 0 {
        0
    } else {
        (field - 1) as nat
    }
}

/// The significand of rung `b`.
pub open spec fn significand(f: nat, b: nat) -> nat {
    (b - exponent(f, b) * pow2(f)) as nat
}

/// Every rung is its significand times two to its exponent, and the next rung is
/// one such power further up.
pub proof fn lemma_parts(f: nat, b: nat)
    ensures
        b == exponent(f, b) * pow2(f) + significand(f, b),
        significand(f, b) < 2 * pow2(f),
        exponent(f, b) == 0 || significand(f, b) >= pow2(f),
        units(f, b) == significand(f, b) * pow2(exponent(f, b)),
        units(f, b + 1) == (significand(f, b) + 1) * pow2(exponent(f, b)),
        units(f, b + 1) > units(f, b),
{
    let p = pow2(f);
    lemma_pow2_pos(f);
    let field = b / p;
    let s = exponent(f, b);
    vstd::arithmetic::div_mod::lemma_fundamental_div_mod(b as int, p as int);
    let m = b % p;
    assert(b == field * p + m) by (nonlinear_arith)
        requires
            b == p * field + m,
    ;
    if field > 0 {
        assert(b - s * p == p + m) by (nonlinear_arith)
            requires
                b == field * p + m,
                s == field - 1,
        ;
    } else {
        assert(0 * p == 0);
    }
    let k = significand(f, b);
    lemma_rung(f, s, k);
    lemma_rung(f, s, k + 1);
    lemma_pow2_pos(s);
    let q = pow2(s);
    assert((k + 1) * q == k * q + q) by (nonlinear_arith);
}

/// The ladder climbs.
pub proof fn lemma_units_climb(f: nat, a: nat, b: nat)
    requires
        a < b,
    ensures
        units(f, a) < units(f, b),
    decreases b - a,
{
    lemma_parts(f, (b - 1) as nat);
    if a < b - 1 {
        lemma_units_climb(f, a, (b - 1) as nat);
    }
}

/// Two rungs compare as their positions do.
pub proof fn lemma_units_order(f: nat, a: nat, b: nat)
    ensures
        units(f, a) < units(f, b) <==> a < b,
        units(f, a) == units(f, b) <==> a == b,
{
    if a < b {
        lemma_units_climb(f, a, b);
    } else if b < a {
        lemma_units_climb(f, b, a);
    }
}

/// Steps do not shrink on the way up.
pub proof fn lemma_step_order(f: nat, a: nat, b: nat)
    requires
        a <= b,
    ensures
        units(f, a + 1) - units(f, a) <= units(f, b + 1) - units(f, b),
{
    lemma_parts(f, a);
    lemma_parts(f, b);
    lemma_pow2_pos(f);
    vstd::arithmetic::div_mod::lemma_div_is_ordered(a as int, b as int, pow2(f) as int);
    let (s, t) = (exponent(f, a), exponent(f, b));
    if s < t {
        lemma_pow2_strictly_increases(s, t);
    }
    let (p, q) = (pow2(s), pow2(t));
    let (j, k) = (significand(f, a), significand(f, b));
    assert((j + 1) * p == j * p + p) by (nonlinear_arith);
    assert((k + 1) * q == k * q + q) by (nonlinear_arith);
}

/// Of two rungs that `x <= y` round to, that of `x` is not above that of `y`.
pub proof fn lemma_nearest_order(f: nat, x: real, a: nat, y: real, b: nat)
    requires
        x <= y,
        is_nearest(f, x, a),
        is_nearest(f, y, b),
    ensures
        a <= b,
{
    if a > b {
        let c = (a - 1) as nat;
        lemma_units_order(f, b, c);
        lemma_units_order(f, b + 1, a);
        assert(midpoint(f, c) <= x);
        assert(y <= midpoint(f, b));
        assert(c == b);
        assert(false);
    }
}

/// At most one rung is nearest, so finding one finds the rounding.
pub proof fn lemma_nearest_is(f: nat, x: real, b: nat)
    requires
        is_nearest(f, x, b),
    ensures
        nearest(f, x) == b,
{
    let a = nearest(f, x);
    lemma_nearest_order(f, x, a, x, b);
    lemma_nearest_order(f, x, b, x, a);
}

/// A rung rounds to itself.
pub proof fn lemma_nearest_exact(f: nat, b: nat)
    ensures
        is_nearest(f, units(f, b) as real, b),
        nearest(f, units(f, b) as real) == b,
{
    lemma_parts(f, b);
    if b > 0 {
        lemma_units_climb(f, (b - 1) as nat, b);
    }
    lemma_nearest_is(f, units(f, b) as real, b);
}

/// Between two neighbouring rungs, the side of the midpoint decides.
pub proof fn lemma_nearest_between(f: nat, x: real, b: nat)
    requires
        units(f, b) as real <= x < units(f, b + 1) as real,
    ensures
        x < midpoint(f, b) ==> is_nearest(f, x, b),
        x > midpoint(f, b) ==> is_nearest(f, x, b + 1),
        x == midpoint(f, b) && b % 2 == 0 ==> is_nearest(f, x, b),
        x == midpoint(f, b) && b % 2 == 1 ==> is_nearest(f, x, b + 1),
{
    if b > 0 {
        lemma_units_climb(f, (b - 1) as nat, b);
    }
    lemma_units_climb(f, b, b + 1);
    lemma_units_climb(f, b + 1, b + 2);
}

/// Every non-negative real rounds to some rung.
pub proof fn lemma_nearest_exists(f: nat, x: real, top: nat)
    requires
        0real <= x < units(f, top) as real,
    ensures
        is_nearest(f, x, nearest(f, x)),
        nearest(f, x) <= top,
    decreases top,
{
    if top == 0 {
        lemma_units_zero(f);
    } else {
        let b = (top - 1) as nat;
        if x < units(f, b) as real {
            lemma_nearest_exists(f, x, b);
        } else {
            lemma_nearest_between(f, x, b);
            if is_nearest(f, x, b) {
                lemma_nearest_is(f, x, b);
            } else {
                lemma_nearest_is(f, x, top);
            }
        }
    }
}

pub proof fn lemma_units_zero(f: nat)
    ensures
        units(f, 0) == 0,
{
    lemma_pow2_pos(f);
    vstd::arithmetic::div_mod::lemma_small_mod(0, pow2(f));
    vstd::arithmetic::div_mod::lemma_basic_div(0, pow2(f) as int);
}

/// No rung lies below its own position.
pub proof fn lemma_units_above_position(f: nat, b: nat)
    ensures
        units(f, b) >= b,
    decreases b,
{
    lemma_units_zero(f);
    if b > 0 {
        lemma_units_above_position(f, (b - 1) as nat);
        lemma_units_climb(f, (b - 1) as nat, b);
    }
}

/// The nearest rung is never further away than half a unit and one part of the number in
/// as many as there are rungs in two octaves.
pub proof fn lemma_nearest_error(f: nat, x: real, b: nat)
    requires
        x >= 0real,
        is_nearest(f, x, b),
    ensures
        2real * (pow2(f) as real) * (units(f, b) as real - x) <= x + (pow2(f) as real),
        2real * (pow2(f) as real) * (x - units(f, b) as real) <= x + (pow2(f) as real),
{
    let p = pow2(f) as real;
    lemma_pow2_pos(f);
    lemma_units_zero(f);
    let h = units(f, b) as real;
    let c = if h <= x {
        b
    } else {
        (b - 1) as nat
    };
    lemma_parts(f, c);
    let (s, k) = (exponent(f, c), significand(f, c));
    let q = pow2(s);
    lemma_pow2_pos(s);
    assert((k + 1) * q == k * q + q) by (nonlinear_arith);
    assert(pow2(0) == 1) by {
        vstd::arithmetic::power2::lemma2_to64();
    }
    let (step, low) = (q as real, units(f, c) as real);
    assert(low <= x);
    if s > 0 {
        let w = pow2(f);
        assert(k * q >= w * q) by (nonlinear_arith)
            requires
                k >= w,
        ;
        assert((w * q) as real == p * step) by (nonlinear_arith)
            requires
                p == w as real,
                step == q as real,
        ;
        assert(p * step <= x);
    } else {
        assert(p * step == p) by (nonlinear_arith)
            requires
                step == 1real,
        ;
    }
    let d = if h <= x {
        x - h
    } else {
        h - x
    };
    assert(2real * d <= step);
    assert(2real * p * d <= p * step) by (nonlinear_arith)
        requires
            2real * d <= step,
            p > 0real,
    ;
    assert(2real * p * (-d) <= 0real) by (nonlinear_arith)
        requires
            d >= 0real,
            p > 0real,
    ;
    assert(2real * p * (h - x) == -(2real * p * (x - h))) by (nonlinear_arith);
}

/// Taking `l` units off an even rung `a` and adding them back, rounding both times,
/// does not end up above `a`.
pub proof fn lemma_back_under(f: nat, a: nat, l: nat)
    requires
        a % 2 == 0,
        l <= units(f, a),
    ensures
        ({
            let b = nearest(f, (units(f, a) - l) as real);
            &&& b <= a
            &&& nearest(f, (units(f, b) + l) as real) <= a
        }),
{
    let s = units(f, a);
    let x = (s - l) as real;
    let b = nearest(f, x);
    lemma_units_climb(f, a, a + 1);
    lemma_nearest_exists(f, x, a + 1);
    lemma_nearest_exact(f, a);
    lemma_nearest_order(f, x, b, s as real, a);
    let h = units(f, b);
    let y = (h + l) as real;
    let c = nearest(f, y);
    if h + l <= s {
        lemma_nearest_exists(f, y, a + 1);
        lemma_nearest_order(f, y, c, s as real, a);
    } else {
        lemma_units_zero(f);
        let d = (b - 1) as nat;
        lemma_step_order(f, d, a);
        assert(y <= midpoint(f, a));
        lemma_nearest_exists(f, y, a + 1);
        if c > a {
            assert(c == a + 1);
            assert(false);
        }
    }
}

} // verus!
