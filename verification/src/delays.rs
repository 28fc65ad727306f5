//! The plate's delay lengths: consecutive Fibonacci sample counts.
//!
//! Consecutive Fibonacci numbers are always coprime: the Fibonacci recursion
//! is exactly the worst case for Euclid's algorithm, which walks from
//! `gcd(F(n+1), F(n))` down through every earlier pair to `gcd(1, 0) = 1`.
//! Coprime lengths keep a diffusion network's echoes from coinciding.

use vstd::prelude::*;
use crate::gcd::{gcd_spec, lemma_coprime_factor, lemma_gcd_add_multiple, lemma_gcd_comm};

verus! {

/// Input diffuser lengths: F(10)…F(13) at 48 kHz, 1.1 to 4.9 ms.
pub const DIFFUSER_LEN: [usize; 4] = [55, 89, 144, 233];

/// Allpass lengths inside the tank loop: F(14)…F(17), 7.9 to 33 ms.
pub const LOOP_AP_LEN: [usize; 4] = [377, 610, 987, 1597];

/// Tank lengths: F(18)…F(21), 54 to 228 ms.
pub const TANK_LEN: [usize; 4] = [2584, 4181, 6765, 10946];

/// The Fibonacci numbers, `F(0) = 0`, `F(1) = 1`.
pub open spec fn fib(n: nat) -> nat
    decreases n,
{
    if n == 0 { 0 } else if n == 1 { 1 } else { fib((n - 1) as nat) + fib((n - 2) as nat) }
}

/// Euclid's algorithm.
pub fn gcd(a: usize, b: usize) -> (g: usize)
    ensures
        g == gcd_spec(a as nat, b as nat),
    decreases b,
{
    if b == 0 { a } else { gcd(b, a % b) }
}

proof fn lemma_fib_increasing(n: nat)
    ensures
        n >= 2 ==> fib(n) >= fib((n - 1) as nat),
        n >= 3 ==> fib(n) > fib((n - 1) as nat),
        n >= 1 ==> fib(n) >= 1,
    decreases n,
{
    if n >= 2 {
        lemma_fib_increasing((n - 1) as nat);
        lemma_fib_increasing((n - 2) as nat);
    }
}

/// **Consecutive Fibonacci numbers are coprime**, in either order.
pub proof fn lemma_consecutive_fibonacci_coprime(n: nat)
    ensures
        gcd_spec(fib(n + 1), fib(n)) == 1,
        gcd_spec(fib(n), fib(n + 1)) == 1,
    decreases n,
{
    lemma_fib_increasing(n + 1);
    lemma_fib_increasing(n);
    assert(fib(0) == 0 && fib(1) == 1);
    assert(fib(2) == 1);
    if n == 0 {
        assert(gcd_spec(1, 0) == 1);
        assert(gcd_spec(0, 1) == gcd_spec(1, 0));
    } else if n == 1 {
        assert(gcd_spec(1, 0) == 1);
        assert(gcd_spec(1, 1) == gcd_spec(1, 0));
    } else if n == 2 {
        assert(fib(3) == 2);
        assert(gcd_spec(1, 0) == 1);
        assert(gcd_spec(2, 1) == gcd_spec(1, 0));
        assert(gcd_spec(1, 2) == gcd_spec(2, 1));
    } else {
        lemma_consecutive_fibonacci_coprime((n - 1) as nat);
        let a = fib(n + 1);
        let b = fib(n);
        let c = fib((n - 1) as nat);
        assert(a == b + c);
        lemma_fib_increasing(n);
        assert(c < b);
        vstd::arithmetic::div_mod::lemma_fundamental_div_mod_converse(a as int, b as int, 1, c as int);
        assert(a % b == c);
        assert(gcd_spec(a, b) == gcd_spec(b, c));
        assert(b < a);
        vstd::arithmetic::div_mod::lemma_fundamental_div_mod_converse(b as int, a as int, 0, b as int);
        assert(b % a == b);
        assert(gcd_spec(b, a) == gcd_spec(a, b));
    }
}

proof fn lemma_fib_values()
    ensures
        fib(10) == 55, fib(11) == 89, fib(12) == 144, fib(13) == 233,
        fib(14) == 377, fib(15) == 610, fib(16) == 987, fib(17) == 1597,
        fib(18) == 2584, fib(19) == 4181, fib(20) == 6765, fib(21) == 10946,
{
    assert(fib(0) == 0 && fib(1) == 1);
    assert(fib(2) == 1);
    assert(fib(3) == 2);
    assert(fib(4) == 3);
    assert(fib(5) == 5);
    assert(fib(6) == 8);
    assert(fib(7) == 13);
    assert(fib(8) == 21);
    assert(fib(9) == 34);
    assert(fib(10) == 55);
    assert(fib(11) == 89);
    assert(fib(12) == 144);
    assert(fib(13) == 233);
    assert(fib(14) == 377);
    assert(fib(15) == 610);
    assert(fib(16) == 987);
    assert(fib(17) == 1597);
    assert(fib(18) == 2584);
    assert(fib(19) == 4181);
    assert(fib(20) == 6765);
}

/// **The three sets are runs of consecutive Fibonacci numbers**, so every
/// adjacent pair within a set is coprime.
pub proof fn lemma_delay_lengths_are_fibonacci()
    ensures
        forall|i: int| 0 <= i < 4 ==> DIFFUSER_LEN[i] as nat == #[trigger] fib((10 + i) as nat),
        forall|i: int| 0 <= i < 4 ==> LOOP_AP_LEN[i] as nat == #[trigger] fib((14 + i) as nat),
        forall|i: int| 0 <= i < 4 ==> TANK_LEN[i] as nat == #[trigger] fib((18 + i) as nat),
        forall|i: int| 0 <= i < 3 ==> gcd_spec(#[trigger] DIFFUSER_LEN[i] as nat, DIFFUSER_LEN[i + 1] as nat) == 1,
        forall|i: int| 0 <= i < 3 ==> gcd_spec(#[trigger] LOOP_AP_LEN[i] as nat, LOOP_AP_LEN[i + 1] as nat) == 1,
        forall|i: int| 0 <= i < 3 ==> gcd_spec(#[trigger] TANK_LEN[i] as nat, TANK_LEN[i + 1] as nat) == 1,
{
    lemma_fib_values();
    assert forall|i: int| 0 <= i < 3 implies gcd_spec(#[trigger] DIFFUSER_LEN[i] as nat, DIFFUSER_LEN[i + 1] as nat) == 1 by {
        lemma_consecutive_fibonacci_coprime((10 + i) as nat);
    }
    assert forall|i: int| 0 <= i < 3 implies gcd_spec(#[trigger] LOOP_AP_LEN[i] as nat, LOOP_AP_LEN[i + 1] as nat) == 1 by {
        lemma_consecutive_fibonacci_coprime((14 + i) as nat);
    }
    assert forall|i: int| 0 <= i < 3 implies gcd_spec(#[trigger] TANK_LEN[i] as nat, TANK_LEN[i + 1] as nat) == 1 by {
        lemma_consecutive_fibonacci_coprime((18 + i) as nat);
    }
}

/// The addition formula: `F(m + n) = F(m)·F(n + 1) + F(m − 1)·F(n)`.
pub proof fn lemma_fib_add(m: nat, n: nat)
    requires
        m >= 1,
    ensures
        fib(m + n) == fib(m) * fib(n + 1) + fib((m - 1) as nat) * fib(n),
    decreases n,
{
    assert(fib(0) == 0 && fib(1) == 1 && fib(2) == 1);
    if n == 0 {
        assert(fib(m) == fib(m) * 1 + fib((m - 1) as nat) * 0) by (nonlinear_arith);
    } else if n == 1 {
        assert(fib(m + 1) == fib(m) + fib((m - 1) as nat));
        assert(fib(m) * 1 + fib((m - 1) as nat) * 1 == fib(m) + fib((m - 1) as nat)) by (nonlinear_arith);
    } else {
        lemma_fib_add(m, (n - 1) as nat);
        lemma_fib_add(m, (n - 2) as nat);
        let a = fib(m);
        let b = fib((m - 1) as nat);
        assert(fib(m + n) == fib((m + n - 1) as nat) + fib((m + n - 2) as nat));
        assert(fib(n + 1) == fib(n) + fib((n - 1) as nat));
        assert(fib(n) == fib((n - 1) as nat) + fib((n - 2) as nat));
        let f1 = fib((n - 1) as nat);
        let f2 = fib((n - 2) as nat);
        assert(a * fib(n) + b * f1 + a * f1 + b * f2 == a * fib(n + 1) + b * fib(n)) by (nonlinear_arith)
            requires
                fib(n + 1) == fib(n) + f1,
                fib(n) == f1 + f2;
    }
}

/// One Euclid step on Fibonacci numbers: `gcd(F(m + n), F(n)) = gcd(F(m), F(n))`.
proof fn lemma_fib_gcd_step(m: nat, n: nat)
    ensures
        gcd_spec(fib(m + n), fib(n)) == gcd_spec(fib(m), fib(n)),
{
    if m == 0 {
        assert(fib(0) == 0);
        lemma_gcd_comm(0, fib(n));
        if fib(n) > 0 {
            assert(gcd_spec(fib(n), 0) == fib(n));
            vstd::arithmetic::div_mod::lemma_fundamental_div_mod_converse(fib(n) as int, fib(n) as int, 1, 0);
            assert(gcd_spec(fib(n), fib(n)) == gcd_spec(fib(n), 0));
        }
    } else {
        lemma_fib_add(m, n);
        // F(m + n) = F(m)·F(n + 1) + F(m − 1)·F(n).
        lemma_gcd_add_multiple(fib(m) * fib(n + 1), fib(n), fib((m - 1) as nat));
        assert(fib((m - 1) as nat) * fib(n) == fib((m - 1) as nat) * fib(n));
        lemma_consecutive_fibonacci_coprime(n);
        lemma_coprime_factor(fib(m), fib(n + 1), fib(n));
    }
}

/// `gcd(F(r + q·n), F(n)) = gcd(F(r), F(n))`.
proof fn lemma_fib_gcd_steps(r: nat, q: nat, n: nat)
    ensures
        gcd_spec(fib(r + q * n), fib(n)) == gcd_spec(fib(r), fib(n)),
    decreases q,
{
    if q == 0 {
        assert(r + q * n == r) by (nonlinear_arith) requires q == 0;
    } else {
        let q1 = (q - 1) as nat;
        assert(r + q * n == (r + q1 * n) + n) by (nonlinear_arith) requires q1 == q - 1;
        lemma_fib_gcd_step(r + q1 * n, n);
        lemma_fib_gcd_steps(r, q1, n);
    }
}

/// **`gcd(F(m), F(n)) = F(gcd(m, n))`**: Fibonacci numbers share exactly the
/// factor their indices do, so consecutive terms share none, while terms whose
/// indices share a factor cannot be coprime.
pub proof fn lemma_fibonacci_gcd(m: nat, n: nat)
    ensures
        gcd_spec(fib(m), fib(n)) == fib(gcd_spec(m, n)),
    decreases n,
{
    if n == 0 {
        assert(fib(0) == 0);
    } else {
        let q = m / n;
        let r = m % n;
        vstd::arithmetic::div_mod::lemma_fundamental_div_mod(m as int, n as int);
        assert(m == r + q * n) by (nonlinear_arith) requires m == n * q + r;
        lemma_fib_gcd_steps(r, q, n);
        lemma_gcd_comm(fib(r), fib(n));
        lemma_fibonacci_gcd(n, r);
    }
}

} // verus!
