//! Facts about products and quotients of real numbers.
use vstd::prelude::*;

verus! {

pub proof fn lemma_positive_product(x: real, p: real, u: real)
    requires
        x > 0real,
        p > 0real,
        u > 0real,
    ensures
        (x * p) * u > 0real,
{
    assert(x * p > 0real) by (nonlinear_arith)
        requires
            x > 0real,
            p > 0real,
    ;
    let y = x * p;
    assert(y * u > 0real) by (nonlinear_arith)
        requires
            y > 0real,
            u > 0real,
    ;
}

/// The size of a product, freed of one of the two units that it carries.
pub proof fn lemma_product_size(x: real, p: real, y: real, q: real, u: real, g: real)
    requires
        u * g == 1real,
    ensures
        (((x * p) * u) * ((y * q) * u)) * g == (x * y) * ((p * q) * u),
{
    let (a, b) = (x * p, y * q);
    assert((a * u) * (b * u) == ((a * b) * u) * u) by (nonlinear_arith);
    let c = (a * b) * u;
    assert((c * u) * g == c * (u * g)) by (nonlinear_arith);
    assert(c * 1real == c) by (nonlinear_arith);
    assert(x * p * b == (x * b) * p) by (nonlinear_arith);
    assert(x * (y * q) == (x * y) * q) by (nonlinear_arith);
    let m = x * y;
    assert((m * q) * p == m * (p * q)) by (nonlinear_arith);
    let w = p * q;
    assert((m * w) * u == m * (w * u)) by (nonlinear_arith);
}

/// The size of a quotient, freed of the units that both sides share.
pub proof fn lemma_quotient_size(
    x: real,
    p: real,
    y: real,
    q: real,
    u: real,
    g: real,
    w: real,
    d: real,
    s: real,
)
    requires
        q > 0real,
        u > 0real,
        s == ((x * p) * u) / ((y * q) * u),
        (y * q) * u > 0real,
        (w * d) * q == p * g,
    ensures
        (s * g) * y == (x * d) * w,
{
    lemma_divides((x * p) * u, (y * q) * u);
    let a = s * y;
    assert((a * q) * u == s * ((y * q) * u)) by (nonlinear_arith)
        requires
            a == s * y,
    ;
    lemma_cancel(a * q, x * p, u);
    assert(((s * g) * y) * q == (a * q) * g) by (nonlinear_arith)
        requires
            a == s * y,
    ;
    assert((x * p) * g == x * (p * g)) by (nonlinear_arith);
    let h = w * d;
    assert(x * (h * q) == (x * h) * q) by (nonlinear_arith);
    assert(x * (w * d) == (x * d) * w) by (nonlinear_arith);
    lemma_cancel((s * g) * y, (x * d) * w, q);
}

/// A division with remainder brackets the quotient.
pub proof fn lemma_quotient_bounds(
    size: real,
    x: real,
    y: real,
    d: real,
    w: real,
    m: real,
    r: real,
)
    requires
        size * y == (x * d) * w,
        x * d == y * m + r,
        0real <= r < y,
        w > 0real,
    ensures
        m * w <= size < (m + 1real) * w,
        r > 0real <==> m * w < size,
{
    let (a, b) = (m * w, (m + 1real) * w);
    let (c, t) = (y * w, r * w);
    assert((y * m + r) * w == a * y + t) by (nonlinear_arith)
        requires
            a == m * w,
            t == r * w,
    ;
    assert(b * y == a * y + c) by (nonlinear_arith)
        requires
            a == m * w,
            b == (m + 1real) * w,
            c == y * w,
    ;
    assert(t >= 0real) by (nonlinear_arith)
        requires
            t == r * w,
            r >= 0real,
            w > 0real,
    ;
    assert(t < c) by (nonlinear_arith)
        requires
            t == r * w,
            c == y * w,
            r < y,
            w > 0real,
    ;
    if size < a {
        assert(size * y < a * y) by (nonlinear_arith)
            requires
                size < a,
                y > 0real,
        ;
    }
    if size >= b {
        assert(size * y >= b * y) by (nonlinear_arith)
            requires
                size >= b,
                y > 0real,
        ;
    }
    if r > 0real {
        assert(t > 0real) by (nonlinear_arith)
            requires
                t == r * w,
                r > 0real,
                w > 0real,
        ;
    } else {
        assert(t == 0real) by (nonlinear_arith)
            requires
                t == r * w,
                r == 0real,
        ;
        lemma_cancel(size, a, y);
    }
}

/// The four sign combinations of a product.
pub proof fn lemma_signs(v: real, t: real)
    requires
        v > 0real,
        t > 0real,
    ensures
        v * t > 0real,
        (-v) * t == -(v * t),
        v * (-t) == -(v * t),
        (-v) * (-t) == v * t,
{
    assert(v * t > 0real && (-v) * t == -(v * t) && v * (-t) == -(v * t) && (-v) * (-t) == v * t)
        by (nonlinear_arith)
        requires
            v > 0real,
            t > 0real,
    ;
}

/// The four sign combinations of a quotient.
pub proof fn lemma_quotient_signs(v: real, t: real)
    requires
        v > 0real,
        t > 0real,
    ensures
        v / t > 0real,
        (-v) / t == -(v / t),
        v / (-t) == -(v / t),
        (-v) / (-t) == v / t,
{
    let q = v / t;
    lemma_divides(v, t);
    lemma_divides(-v, t);
    lemma_divides(v, -t);
    lemma_divides(-v, -t);
    assert((-q) * t == -(q * t)) by (nonlinear_arith);
    assert((-q) * (-t) == q * t) by (nonlinear_arith);
    assert(q * (-t) == -(q * t)) by (nonlinear_arith);
    lemma_cancel((-v) / t, -q, t);
    lemma_cancel(v / (-t), -q, -t);
    lemma_cancel((-v) / (-t), q, -t);
    if q <= 0real {
        assert(q * t <= 0real) by (nonlinear_arith)
            requires
                q <= 0real,
                t > 0real,
        ;
    }
}

pub proof fn lemma_divides(v: real, t: real)
    requires
        t != 0real,
    ensures
        (v / t) * t == v,
{
    assert((v / t) * t == v) by (nonlinear_arith)
        requires
            t != 0real,
    ;
}

pub proof fn lemma_cancel(a: real, b: real, t: real)
    requires
        t != 0real,
        a * t == b * t,
    ensures
        a == b,
{
    let d = a - b;
    assert(d * t == a * t - b * t) by (nonlinear_arith)
        requires
            d == a - b,
    ;
    if d != 0real {
        assert(d * t != 0real) by (nonlinear_arith)
            requires
                d != 0real,
                t != 0real,
        ;
    }
}

} // verus!
