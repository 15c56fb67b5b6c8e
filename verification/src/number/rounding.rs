//! Rounding of exact results to the ladder of representable magnitudes.
use crate::number::scale::{
    is_nearest, lemma_nearest_between, lemma_nearest_exact, lemma_nearest_is, lemma_power_positive,
    lemma_power_shift, lemma_rung, lemma_units_zero, midpoint, nearest, power, units,
};
use vstd::arithmetic::power2::{
    lemma2_to64, lemma_pow2_adds, lemma_pow2_pos, lemma_pow2_strictly_increases, lemma_pow2_unfold,
    pow2,
};
use vstd::prelude::*;

verus! {

/// An integer `m` scaled by two to the `e` is `x`, or falls short of it by less than
/// one step of that scale; `sticky` tells the two apart.
pub open spec fn brackets(m: nat, e: int, sticky: bool, x: real) -> bool {
    &&& (m as real) * power(e) <= x < ((m + 1) as real) * power(e)
    &&& sticky <==> (m as real) * power(e) < x
}

/// The position on the ladder that `x` rounds to, `limit` standing for everything
/// from there on.
pub open spec fn capped(f: nat, limit: nat, x: real) -> nat {
    if nearest(f, x) < limit {
        nearest(f, x)
    } else {
        limit
    }
}

/// An integer, scaled, brackets itself.
pub proof fn lemma_brackets_exact(m: nat, e: nat, size: nat)
    requires
        m * pow2(e) == size,
    ensures
        brackets(m, e as int, false, size as real),
{
    let q = pow2(e);
    lemma_pow2_pos(e);
    assert((m as real) * (q as real) == (m * q) as real) by (nonlinear_arith);
    let (a, b) = (m as real, q as real);
    assert((a + 1real) * b > a * b) by (nonlinear_arith)
        requires
            b > 0real,
    ;
}

/// A scaled integer brackets what lies less than one step above it.
pub proof fn lemma_brackets_sticky(m: nat, e: nat, size: nat)
    requires
        m * pow2(e) < size < m * pow2(e) + pow2(e),
    ensures
        brackets(m, e as int, true, size as real),
{
    let q = pow2(e);
    assert((m as real) * (q as real) == (m * q) as real) by (nonlinear_arith);
    assert(((m + 1) as real) * (q as real) == (m * q + q) as real) by (nonlinear_arith);
}

proof fn lemma_shifted_one(n: u32)
    requires
        n < 128,
    ensures
        (1u128 << n) == pow2(n as nat),
    decreases n,
{
    if n == 0 {
        assert(1u128 << 0u32 == 1u128) by (bit_vector);
        lemma2_to64();
    } else {
        let p = (n - 1) as u32;
        lemma_shifted_one(p);
        lemma_pow2_unfold(n as nat);
        assert(1u128 << n == 2 * (1u128 << p)) by (bit_vector)
            requires
                0 < n < 128,
                p == n - 1,
        ;
    }
}

/// Two to the power `n`.
pub fn two_to(n: u32) -> (r: u128)
    requires
        n < 128,
    ensures
        r == pow2(n as nat),
        r > 0,
{
    proof {
        lemma_shifted_one(n);
        lemma_pow2_pos(n as nat);
    }
    1u128 << n
}

/// The number of binary digits of `m`.
pub fn bit_length(m: u128) -> (n: u32)
    ensures
        n <= 128,
        m < pow2(n as nat),
        n > 0 ==> pow2((n - 1) as nat) <= m,
        n == 0 <==> m == 0,
{
    if m == 0 {
        proof {
            lemma2_to64();
        }
        return 0;
    }
    let mut rest: u128 = m;
    let mut n: u32 = 0;
    let mut step: u32 = 64;
    proof {
        lemma2_to64();
        lemma_pow2_adds(64, 64);
        assert(pow2(128) == 0x1_0000_0000_0000_0000 * 0x1_0000_0000_0000_0000);
    }
    while step > 0
        invariant
            step == 64 || step == 32 || step == 16 || step == 8 || step == 4 || step == 2 || step
                == 1 || step == 0,
            n + 2 * step <= 128,
            rest > 0,
            step == 0 ==> n <= 127,
            step == 0 ==> rest < 2,
            step > 0 ==> rest < pow2((2 * step) as nat),
            rest * pow2(n as nat) <= m < (rest + 1) * pow2(n as nat),
        decreases step,
    {
        let p: u128 = two_to(step);
        proof {
            lemma_pow2_adds(step as nat, step as nat);
        }
        if rest >= p {
            let q: u128 = rest / p;
            proof {
                let a = pow2(n as nat);
                lemma_pow2_pos(n as nat);
                lemma_pow2_adds(step as nat, n as nat);
                let c = pow2((n + step) as nat);
                let r = rest % p;
                vstd::arithmetic::div_mod::lemma_fundamental_div_mod(rest as int, p as int);
                assert(q * c <= m < (q + 1) * c) by (nonlinear_arith)
                    requires
                        rest == p * q + r,
                        0 <= r < p,
                        c == p * a,
                        a > 0,
                        rest * a <= m < (rest + 1) * a,
                ;
                assert(q > 0) by (nonlinear_arith)
                    requires
                        rest == p * q + r,
                        0 <= r < p,
                        rest >= p,
                ;
                assert(q < p) by (nonlinear_arith)
                    requires
                        rest == p * q + r,
                        0 <= r < p,
                        rest < p * p,
                ;
            }
            rest = q;
            n = n + step;
        }
        step = step / 2;
        proof {
            lemma2_to64();
        }
    }
    proof {
        lemma_pow2_unfold((n + 1) as nat);
        assert(rest == 1);
    }
    n + 1
}

/// Dropping the last `d` binary digits of `m` and looking at what was dropped picks
/// the rung nearest to `x`.
proof fn lemma_drop(f: nat, m: nat, e: int, sticky: bool, x: real, d: nat, up: bool)
    requires
        brackets(m, e, sticky, x),
        f >= 1,
        d >= 1,
        e + d >= 0,
        m / pow2(d) < 2 * pow2(f),
        e + d == 0 || m / pow2(d) >= pow2(f),
        up <==> {
            let rest = m % pow2(d);
            let half = pow2((d - 1) as nat);
            rest > half || (rest == half && (sticky || (m / pow2(d)) % 2 == 1))
        },
    ensures
        is_nearest(
            f,
            x,
            (e + d) as nat * pow2(f) + m / pow2(d) + if up {
                1nat
            } else {
                0nat
            },
        ),
{
    let k = m / pow2(d);
    let rest = m % pow2(d);
    let half = pow2((d - 1) as nat);
    let whole = pow2(d);
    let s = (e + d) as nat;
    let p = pow2(f);
    let b = s * p + k;
    let g = power(e);
    lemma_pow2_pos(d);
    lemma_pow2_unfold(d);
    lemma_power_positive(e);
    lemma_power_shift(e, d);
    vstd::arithmetic::div_mod::lemma_fundamental_div_mod(m as int, whole as int);
    lemma_rung(f, s, k);
    lemma_rung(f, s, k + 1);
    // Everything below is a multiple of g.
    let step = pow2(s) as real;
    assert(step == g * (whole as real));
    let (kr, wr, hr, rr) = (k as real, whole as real, half as real, rest as real);
    assert(m as real == kr * wr + rr) by {
        assert((whole * k) as real == wr * kr) by (nonlinear_arith)
            requires
                wr == whole as real,
                kr == k as real,
        ;
        assert(wr * kr == kr * wr) by (nonlinear_arith);
    }
    assert((k * pow2(s)) as real == kr * step) by (nonlinear_arith)
        requires
            kr == k as real,
            step == pow2(s) as real,
    ;
    assert(((k + 1) * pow2(s)) as real == (kr + 1real) * step) by (nonlinear_arith)
        requires
            kr == k as real,
            step == pow2(s) as real,
    ;
    let low = (m as real) * g;
    let mid = (kr * wr + hr) * g;
    assert(units(f, b) as real == kr * step);
    assert(units(f, b + 1) as real == (kr + 1real) * step);
    assert(wr == 2real * hr);
    assert(midpoint(f, b) == mid) by (nonlinear_arith)
        requires
            midpoint(f, b) == (kr * step + (kr + 1real) * step) / 2real,
            step == g * wr,
            wr == 2real * hr,
            mid == (kr * wr + hr) * g,
    ;
    assert(kr * step <= x) by (nonlinear_arith)
        requires
            step == g * wr,
            (kr * wr + rr) * g <= x,
            rr >= 0real,
            g > 0real,
    ;
    assert(x < (kr + 1real) * step) by (nonlinear_arith)
        requires
            step == g * wr,
            x < (kr * wr + rr + 1real) * g,
            rr + 1real <= wr,
            g > 0real,
    ;
    lemma_nearest_between(f, x, b);
    if rest < half {
        assert(x < mid) by (nonlinear_arith)
            requires
                x < (kr * wr + rr + 1real) * g,
                rr + 1real <= hr,
                g > 0real,
                mid == (kr * wr + hr) * g,
        ;
    } else if rest > half {
        assert(x > mid) by (nonlinear_arith)
            requires
                x >= (kr * wr + rr) * g,
                rr >= hr + 1real,
                g > 0real,
                mid == (kr * wr + hr) * g,
        ;
    } else {
        assert(rr == hr);
        assert(low == mid);
        lemma_even_step(s, f, k);
    }
}

/// A rung is even where its significand is.
pub proof fn lemma_even_step(s: nat, f: nat, k: nat)
    requires
        f >= 1,
    ensures
        (s * pow2(f) + k) % 2 == k % 2,
{
    lemma_pow2_unfold(f);
    let q = pow2((f - 1) as nat);
    assert(s * pow2(f) == 2 * (s * q)) by (nonlinear_arith)
        requires
            pow2(f) == 2 * q,
    ;
}

/// The rung with exponent `s` and significand `k`, or `limit` where it lies beyond.
fn place(f: u32, top: u32, s: i64, k: u64) -> (r: u64)
    requires
        1 <= f <= 52,
        1 <= top <= 2047,
        s >= 0,
        k <= 2 * pow2(f as nat),
    ensures
        ({
            let b = s as nat * pow2(f as nat) + k as nat;
            let limit = top as nat * pow2(f as nat);
            r == if b < limit {
                b
            } else {
                limit
            }
        }),
{
    let p: u64 = two_to(f) as u64;
    proof {
        lemma2_to64();
        if f < 52 {
            lemma_pow2_strictly_increases(f as nat, 52);
        }
        vstd::arithmetic::power2::lemma2_to64_rest();
        assert(p == pow2(f as nat));
        assert(top * p <= 2047 * p) by (nonlinear_arith)
            requires
                top <= 2047,
                p > 0,
        ;
    }
    let limit: u64 = top as u64 * p;
    if s >= top as i64 {
        proof {
            assert(s * p >= top * p) by (nonlinear_arith)
                requires
                    s >= top,
                    p > 0,
            ;
        }
        return limit;
    }
    proof {
        assert(s * p <= 2046 * p) by (nonlinear_arith)
            requires
                0 <= s <= 2046,
                p > 0,
        ;
        assert(s * p >= 0) by (nonlinear_arith)
            requires
                s >= 0,
                p > 0,
        ;
    }
    let b: u64 = s as u64 * p + k;
    if b < limit {
        b
    } else {
        limit
    }
}

/// Rounds `x`, known through the integer `m` and the exponent `e`, to the ladder of
/// the format with `f` fraction bits whose exponent field `top` means infinity.
pub(crate) fn round_scaled(
    f: u32,
    top: u32,
    m: u128,
    e: i64,
    sticky: bool,
    Ghost(x): Ghost<real>,
) -> (r: u64)
    requires
        1 <= f <= 52,
        1 <= top <= 2047,
        m < pow2(127),
        -10_000 <= e <= 10_000,
        brackets(m as nat, e as int, sticky, x),
        sticky ==> m >= 2 * pow2(f as nat) || e < 0,
    ensures
        r == capped(f as nat, top as nat * pow2(f as nat), x),
{
    let n: u32 = bit_length(m);
    proof {
        if n > 127 {
            lemma_pow2_increases(127, (n - 1) as nat);
        }
        lemma_pow2_unfold((f + 1) as nat);
    }
    let excess: i64 = n as i64 - (f as i64 + 1);
    let d: i64 = if excess > -e {
        excess
    } else {
        -e
    };
    if m == 0 && !sticky {
        proof {
            let g = power(e as int);
            assert(0real * g == 0real) by (nonlinear_arith);
            lemma_units_zero(f as nat);
            lemma_nearest_exact(f as nat, 0);
            lemma_limit_positive(f as nat, top as nat);
        }
        return 0;
    }
    if d >= 1 {
        if d > n as i64 {
            proof {
                lemma_vanishes(f as nat, m as nat, e as int, sticky, x, n as nat);
                lemma_nearest_is(f as nat, x, 0);
                lemma_limit_positive(f as nat, top as nat);
            }
            return 0;
        }
        let whole: u128 = two_to(d as u32);
        let half: u128 = two_to(d as u32 - 1);
        let k: u128 = m / whole;
        let rest: u128 = m % whole;
        let s: i64 = e + d;
        proof {
            lemma_quotient_digits(m as nat, n as nat, d as nat);
            let t = (n - d) as nat;
            if t < f + 1 {
                lemma_pow2_strictly_increases(t, (f + 1) as nat);
            }
            lemma2_to64();
            lemma_pow2_increases((f + 1) as nat, 53);
            vstd::arithmetic::power2::lemma2_to64_rest();
        }
        let up: bool = rest > half || (rest == half && (sticky || k % 2 == 1));
        proof {
            lemma_drop(f as nat, m as nat, e as int, sticky, x, d as nat, up);
        }
        let k: u64 = k as u64;
        if up {
            proof {
                lemma_nearest_is(f as nat, x, s as nat * pow2(f as nat) + k as nat + 1);
            }
            place(f, top, s, k + 1)
        } else {
            proof {
                lemma_nearest_is(f as nat, x, s as nat * pow2(f as nat) + k as nat);
            }
            place(f, top, s, k)
        }
    } else {
        // Nothing is dropped: the value is a rung.
        proof {
            lemma2_to64();
            lemma_pow2_increases((f + 1) as nat, 53);
            lemma_pow2_increases(n as nat, (f + 1) as nat);
            vstd::arithmetic::power2::lemma2_to64_rest();
        }
        let room: i64 = -excess;
        let z: i64 = if room < e {
            room
        } else {
            e
        };
        let grown: u128 = two_to(z as u32);
        let s: i64 = e - z;
        proof {
            lemma_pow2_adds(n as nat, z as nat);
            lemma_pow2_increases((n + z) as nat, (f + 1) as nat);
            let (a, g) = (m as nat, grown as nat);
            let c = pow2(n as nat);
            assert(a * g <= c * g) by (nonlinear_arith)
                requires
                    a < c,
            ;
            assert(a * g < c * g) by (nonlinear_arith)
                requires
                    a < c,
                    g > 0,
            ;
        }
        let k: u128 = m * grown;
        proof {
            lemma_exact_rung(f as nat, m as nat, e as int, x, z as nat, n as nat);
        }
        place(f, top, s, k as u64)
    }
}

proof fn lemma_limit_positive(f: nat, top: nat)
    requires
        top > 0,
    ensures
        top * pow2(f) > 0,
{
    lemma_pow2_pos(f);
    let p = pow2(f);
    assert(top * p > 0) by (nonlinear_arith)
        requires
            top > 0,
            p > 0,
    ;
}

pub proof fn lemma_pow2_increases(a: nat, b: nat)
    requires
        a <= b,
    ensures
        pow2(a) <= pow2(b),
{
    if a < b {
        lemma_pow2_strictly_increases(a, b);
    }
}

/// A value below half a unit rounds to zero.
proof fn lemma_vanishes(f: nat, m: nat, e: int, sticky: bool, x: real, n: nat)
    requires
        brackets(m, e, sticky, x),
        m < pow2(n),
        -e > n,
    ensures
        is_nearest(f, x, 0),
{
    let g = power(e);
    lemma_power_positive(e);
    lemma_power_shift(e, n);
    lemma_pow2_pos((-(e + n)) as nat);
    lemma_pow2_unfold((-(e + n)) as nat);
    let q = pow2((-(e + n)) as nat) as real;
    lemma_pow2_pos((-(e + n) - 1) as nat);
    assert(q >= 2real);
    assert(1real / q <= 1real / 2real) by (nonlinear_arith)
        requires
            q >= 2real,
    ;
    let (a, c) = ((m + 1) as real, pow2(n) as real);
    assert(a * g <= c * g) by (nonlinear_arith)
        requires
            a <= c,
            g > 0real,
    ;
    assert(c * g == g * c) by (nonlinear_arith);
    lemma_units_zero(f);
    lemma_pow2_pos(f);
    lemma_rung(f, 0, 1);
    lemma2_to64();
    assert(0 * pow2(f) + 1 == 1);
    assert(units(f, 1) == 1);
    assert(midpoint(f, 0) == 1real / 2real);
}

/// Dividing an integer of `n` binary digits by two to the `d` leaves `n - d` digits.
proof fn lemma_quotient_digits(m: nat, n: nat, d: nat)
    requires
        d <= n,
        m < pow2(n),
        n > 0 ==> pow2((n - 1) as nat) <= m,
    ensures
        m / pow2(d) < pow2((n - d) as nat),
        n > d ==> m / pow2(d) >= pow2((n - d - 1) as nat),
{
    let w = pow2(d);
    let t = pow2((n - d) as nat);
    lemma_pow2_pos(d);
    lemma_pow2_adds(d, (n - d) as nat);
    vstd::arithmetic::div_mod::lemma_fundamental_div_mod(m as int, w as int);
    let (k, r) = (m / w, m % w);
    assert(k < t) by (nonlinear_arith)
        requires
            m == w * k + r,
            0 <= r < w,
            m < w * t,
    ;
    if n > d {
        let h = pow2((n - d - 1) as nat);
        lemma_pow2_adds(d, (n - d - 1) as nat);
        assert(k >= h) by (nonlinear_arith)
            requires
                m == w * k + r,
                0 <= r < w,
                m >= w * h,
        ;
    }
}

/// An integer that needs no rounding sits on a rung.
pub proof fn lemma_exact_rung(f: nat, m: nat, e: int, x: real, z: nat, n: nat)
    requires
        brackets(m, e, false, x),
        e >= 0,
        z <= e,
        n + z <= f + 1,
        z == e || n + z == f + 1,
        n > 0,
        pow2((n - 1) as nat) <= m < pow2(n),
    ensures
        m * pow2(z) <= 2 * pow2(f),
        nearest(f, x) == (e - z) as nat * pow2(f) + m * pow2(z),
{
    let k = m * pow2(z);
    let s = (e - z) as nat;
    lemma_pow2_unfold(f + 1);
    lemma_pow2_adds(n, z);
    lemma_pow2_increases(n + z, f + 1);
    lemma_pow2_pos(z);
    let (c, g) = (pow2(n), pow2(z));
    assert(m * g <= c * g) by (nonlinear_arith)
        requires
            m < c,
    ;
    lemma_pow2_adds(z, s);
    if s > 0 {
        lemma_pow2_adds((n - 1) as nat, z);
        let h = pow2((n - 1) as nat);
        assert(m * g >= h * g) by (nonlinear_arith)
            requires
                m >= h,
        ;
    }
    lemma_rung(f, s, k);
    let b = s * pow2(f) + k;
    lemma_nearest_exact(f, b);
    let (q, w) = (pow2(s), pow2(e as nat));
    assert((m * g) * q == m * w) by (nonlinear_arith)
        requires
            w == g * q,
    ;
    assert((m as real) * (w as real) == (m * w) as real) by (nonlinear_arith);
}

} // verus!
