//! Comparing a fraction `x / y` with the golden ratio in integers.
//!
//! `φ` is the positive root of `t² = t + 1`, so for `x ≥ 0` and `y ≥ 1`,
//! `x / y < φ` exactly when the norm `x² − xy − y²` is negative, and
//! `x / y > φ` exactly when it is positive. It is never zero: `φ` is
//! irrational.

use vstd::prelude::*;
use crate::delays::fib;

verus! {

/// The norm `x² − xy − y²` of `x − yφ`, up to sign.
pub open spec fn norm(x: int, y: int) -> int {
    x * x - x * y - y * y
}

/// `x / y < φ`.
pub open spec fn below_phi(x: int, y: int) -> bool {
    norm(x, y) < 0
}

/// `x / y > φ`.
pub open spec fn above_phi(x: int, y: int) -> bool {
    norm(x, y) > 0
}

/// `(x, y) ↦ (y, x − y)` flips the sign of the norm.
proof fn lemma_norm_flip(x: int, y: int)
    ensures
        norm(y, x - y) == -norm(x, y),
{
    assert(norm(y, x - y) == -norm(x, y)) by (nonlinear_arith);
}

/// **`φ` is irrational**: no fraction with a positive denominator has norm
/// zero.
pub proof fn lemma_norm_nonzero(x: int, y: int)
    requires
        x >= 0,
        y >= 1,
    ensures
        norm(x, y) != 0,
    decreases y,
{
    if norm(x, y) == 0 {
        if x <= y {
            assert(x * x - x * y - y * y < 0) by (nonlinear_arith) requires 0 <= x <= y, y >= 1;
        }
        assert(x > y);
        if x >= 2 * y {
            assert(x * x - x * y - y * y > 0) by (nonlinear_arith) requires x >= 2 * y, y >= 1;
        }
        assert(x - y < y);
        lemma_norm_flip(x, y);
        lemma_norm_nonzero(y, x - y);
    }
}

/// `4·norm(x, y) = (2x − y)² − 5y²`: the norm measures `2x − y` against `√5·y`.
pub proof fn lemma_norm_shifted(x: int, y: int)
    ensures
        4 * norm(x, y) == (2 * x - y) * (2 * x - y) - 5 * (y * y),
{
    assert(4 * (x * x - x * y - y * y) == (2 * x - y) * (2 * x - y) - 5 * (y * y))
        by (nonlinear_arith);
}

proof fn lemma_mul_strict(u1: int, v1: int, u2: int, v2: int)
    requires
        0 <= u1 < v1,
        0 <= u2 < v2,
    ensures
        u1 * u2 < v1 * v2,
{
    assert(u1 * u2 <= v1 * u2) by (nonlinear_arith) requires 0 <= u1 < v1, 0 <= u2;
    assert(v1 * u2 < v1 * v2) by (nonlinear_arith) requires 0 < v1, u2 < v2;
}

proof fn lemma_square_lt(p: int, q: int)
    requires
        q > 0,
        p * p < q * q,
    ensures
        p < q,
{
    if p >= q {
        assert(p * p >= q * q) by (nonlinear_arith) requires p >= q, q > 0;
    }
}

/// Below `φ`, in the shifted form.
proof fn lemma_below_shifted(x: int, y: int)
    requires
        below_phi(x, y),
    ensures
        (2 * x - y) * (2 * x - y) < 5 * (y * y),
{
    lemma_norm_shifted(x, y);
}

/// Above `φ`, in the shifted form: `2x − y` is positive and beyond `√5·y`.
proof fn lemma_above_shifted(x: int, y: int)
    requires
        x >= 0,
        y >= 1,
        above_phi(x, y),
    ensures
        2 * x - y > 0,
        (2 * x - y) * (2 * x - y) > 5 * (y * y),
{
    lemma_norm_shifted(x, y);
    let t = 2 * x - y;
    if t <= 0 {
        assert(t * t <= y * y) by (nonlinear_arith) requires -y <= t <= 0;
        assert(y * y > 0) by (nonlinear_arith) requires y >= 1;
    }
}

/// **Fractions below `φ` stay below under the mediant** `(x₁+x₂)/(y₁+y₂)`.
pub proof fn lemma_mediant_below(x1: int, y1: int, x2: int, y2: int)
    requires
        y1 >= 1,
        y2 >= 1,
        below_phi(x1, y1),
        below_phi(x2, y2),
    ensures
        below_phi(x1 + x2, y1 + y2),
{
    let t1 = 2 * x1 - y1;
    let t2 = 2 * x2 - y2;
    lemma_below_shifted(x1, y1);
    lemma_below_shifted(x2, y2);
    assert(t1 * t1 >= 0 && t2 * t2 >= 0) by (nonlinear_arith);
    lemma_mul_strict(t1 * t1, 5 * (y1 * y1), t2 * t2, 5 * (y2 * y2));
    let p = t1 * t2;
    let q = 5 * (y1 * y2);
    assert(q > 0) by (nonlinear_arith) requires y1 >= 1, y2 >= 1, q == 5 * (y1 * y2);
    assert(p * p < q * q) by (nonlinear_arith)
        requires
            (t1 * t1) * (t2 * t2) < (5 * (y1 * y1)) * (5 * (y2 * y2)),
            p == t1 * t2,
            q == 5 * (y1 * y2);
    lemma_square_lt(p, q);
    assert((t1 + t2) * (t1 + t2) < 5 * ((y1 + y2) * (y1 + y2))) by (nonlinear_arith)
        requires
            t1 * t1 < 5 * (y1 * y1),
            t2 * t2 < 5 * (y2 * y2),
            t1 * t2 < 5 * (y1 * y2);
    lemma_norm_shifted(x1 + x2, y1 + y2);
}

/// **Fractions above `φ` stay above under the mediant.**
pub proof fn lemma_mediant_above(x1: int, y1: int, x2: int, y2: int)
    requires
        x1 >= 0,
        x2 >= 0,
        y1 >= 1,
        y2 >= 1,
        above_phi(x1, y1),
        above_phi(x2, y2),
    ensures
        above_phi(x1 + x2, y1 + y2),
{
    let t1 = 2 * x1 - y1;
    let t2 = 2 * x2 - y2;
    lemma_above_shifted(x1, y1);
    lemma_above_shifted(x2, y2);
    assert(y1 * y1 >= 0 && y2 * y2 >= 0) by (nonlinear_arith);
    lemma_mul_strict(5 * (y1 * y1), t1 * t1, 5 * (y2 * y2), t2 * t2);
    let p = t1 * t2;
    let q = 5 * (y1 * y2);
    assert(p > 0) by (nonlinear_arith) requires t1 > 0, t2 > 0, p == t1 * t2;
    assert(q * q < p * p) by (nonlinear_arith)
        requires
            (5 * (y1 * y1)) * (5 * (y2 * y2)) < (t1 * t1) * (t2 * t2),
            p == t1 * t2,
            q == 5 * (y1 * y2);
    lemma_square_lt(q, p);
    assert((t1 + t2) * (t1 + t2) > 5 * ((y1 + y2) * (y1 + y2))) by (nonlinear_arith)
        requires
            t1 * t1 > 5 * (y1 * y1),
            t2 * t2 > 5 * (y2 * y2),
            t1 * t2 > 5 * (y1 * y2);
    lemma_norm_shifted(x1 + x2, y1 + y2);
}

/// **A fraction above `φ` is greater than one below it**: `x₁/y₁ > x₂/y₂`.
pub proof fn lemma_above_exceeds_below(x1: int, y1: int, x2: int, y2: int)
    requires
        x1 >= 0,
        y1 >= 1,
        y2 >= 1,
        above_phi(x1, y1),
        below_phi(x2, y2),
    ensures
        x1 * y2 > x2 * y1,
{
    let t1 = 2 * x1 - y1;
    let t2 = 2 * x2 - y2;
    lemma_above_shifted(x1, y1);
    lemma_below_shifted(x2, y2);
    let p = t1 * y2;
    let q = t2 * y1;
    assert(p > 0) by (nonlinear_arith) requires t1 > 0, y2 >= 1, p == t1 * y2;
    if q > 0 {
        assert(y1 * y1 > 0 && y2 * y2 > 0) by (nonlinear_arith) requires y1 >= 1, y2 >= 1;
        assert(q * q < p * p) by (nonlinear_arith)
            requires
                t1 * t1 > 5 * (y1 * y1),
                t2 * t2 < 5 * (y2 * y2),
                y1 * y1 > 0,
                y2 * y2 > 0,
                p == t1 * y2,
                q == t2 * y1;
        lemma_square_lt(q, p);
    }
    assert(x1 * y2 > x2 * y1) by (nonlinear_arith)
        requires
            p > q,
            p == (2 * x1 - y1) * y2,
            q == (2 * x2 - y2) * y1;
}

/// Between two fractions whose cross difference is one, every fraction has a
/// denominator at least the sum of theirs.
pub proof fn lemma_between_neighbours(p: int, q: int, a: int, b: int, c: int, d: int)
    requires
        b >= 1,
        d >= 1,
        p * b - a * q >= 1,
        c * q - p * d >= 1,
        c * b - a * d == 1,
    ensures
        q >= b + d,
{
    assert(q == b * (c * q - p * d) + d * (p * b - a * q)) by (nonlinear_arith)
        requires c * b - a * d == 1;
    assert(b * (c * q - p * d) >= b) by (nonlinear_arith) requires b >= 1, c * q - p * d >= 1;
    assert(d * (p * b - a * q) >= d) by (nonlinear_arith) requires d >= 1, p * b - a * q >= 1;
}

/// **Cassini's identity** in norm form: `F(k+1)² − F(k+1)F(k) − F(k)² = (−1)ᵏ`.
pub proof fn lemma_cassini(k: nat)
    ensures
        norm(fib(k + 1) as int, fib(k) as int) == (if k % 2 == 0 { 1int } else { -1int }),
    decreases k,
{
    if k == 0 {
        assert(fib(1) == 1 && fib(0) == 0);
        assert(norm(1, 0) == 1);
    } else {
        let j = (k - 1) as nat;
        lemma_cassini(j);
        assert(j + 1 == k);
        assert(norm(fib(k) as int, fib(j) as int) == (if j % 2 == 0 { 1int } else { -1int }));
        assert(fib(k + 1) == fib(k) + fib((k - 1) as nat));
        let x = fib(k + 1) as int;
        let y = fib(k) as int;
        lemma_norm_flip(x, y);
        assert(x - y == fib((k - 1) as nat) as int);
        assert(norm(y, x - y) == norm(fib(k) as int, fib((k - 1) as nat) as int));
        assert((k - 1) as nat % 2 == 0 <==> k % 2 == 1);
    }
}

} // verus!
