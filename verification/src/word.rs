//! The Fibonacci word: how long each chord lasts.
//!
//! `S(1) = "0"`, `S(2) = "01"`, `S(k) = S(k-1) S(k-2)`. Each block is a prefix
//! of the next, so the blocks converge on one infinite word, and its n-th
//! symbol decides whether chord `n` is long (`0`) or short (`1`).

use vstd::prelude::*;
use crate::text::string_of;
use crate::delays::fib;
use crate::phi::{
    norm, below_phi, above_phi, lemma_norm_nonzero, lemma_norm_shifted, lemma_mediant_below,
    lemma_mediant_above, lemma_above_exceeds_below, lemma_between_neighbours, lemma_cassini,
};

verus! {

/// `|S(k)|`, the Fibonacci numbers `1, 2, 3, 5, 8, …` from `k = 1`.
pub open spec fn block_len(k: nat) -> nat
    decreases k,
{
    if k <= 1 { 1 } else { block_len((k - 1) as nat) + block_len((k - 2) as nat) }
}

/// The `p`-th symbol (1-based) of the block `S(k)`, read off the
/// concatenation rule.
pub open spec fn block_symbol(k: nat, p: int) -> u8
    decreases k,
{
    if k <= 1 {
        0
    } else if k == 2 {
        if p == 1 { 0 } else { 1 }
    } else if p <= block_len((k - 1) as nat) {
        block_symbol((k - 1) as nat, p)
    } else {
        block_symbol((k - 2) as nat, p - block_len((k - 1) as nat))
    }
}

/// The n-th symbol of the Fibonacci word, 1-based: the n-th symbol of `S(n)`,
/// which is long enough to hold it.
///
/// `n = 0` lies before the word; the closed form `2 − (⌊(n+1)φ⌋ − ⌊nφ⌋)`
/// gives 1 there, and so does this.
pub open spec fn fib_word(n: nat) -> u8 {
    if n == 0 { 1 } else { block_symbol(n, n as int) }
}

/// Blocks grow at least as fast as their index.
pub proof fn lemma_block_len_grows(k: nat)
    ensures
        block_len(k) >= 1,
        k >= 1 ==> block_len(k) >= k,
        k >= 1 ==> block_len(k) >= block_len((k - 1) as nat),
    decreases k,
{
    if k >= 2 {
        lemma_block_len_grows((k - 1) as nat);
        lemma_block_len_grows((k - 2) as nat);
    }
}

/// **Each block is a prefix of every later one**, so the word is well defined.
pub proof fn lemma_block_is_prefix(k: nat, k2: nat, p: int)
    requires
        1 <= k <= k2,
        1 <= p <= block_len(k),
    ensures
        block_symbol(k2, p) == block_symbol(k, p),
    decreases k2 - k,
{
    if k < k2 {
        lemma_block_is_prefix(k, (k2 - 1) as nat, p);
        if k2 >= 3 {
            lemma_block_len_monotone(k, (k2 - 1) as nat);
        } else {
            assert(k == 1 && k2 == 2);
        }
    }
}

proof fn lemma_block_len_monotone(k: nat, k2: nat)
    requires
        1 <= k <= k2,
    ensures
        block_len(k) <= block_len(k2),
    decreases k2 - k,
{
    if k < k2 {
        lemma_block_len_monotone(k, (k2 - 1) as nat);
        lemma_block_len_grows(k2);
    }
}

/// How many of the first `upto` symbols of `S(k)` are `sym`.
pub open spec fn count_in_block(k: nat, upto: int, sym: u8) -> nat
    decreases upto,
{
    if upto <= 0 {
        0
    } else {
        count_in_block(k, upto - 1, sym) + if block_symbol(k, upto) == sym { 1nat } else { 0nat }
    }
}

/// Counting over a prefix of `S(k)` is counting over the block it came from.
proof fn lemma_count_prefix(k: nat, t: int, sym: u8)
    requires
        k >= 3,
        0 <= t <= block_len((k - 1) as nat),
    ensures
        count_in_block(k, t, sym) == count_in_block((k - 1) as nat, t, sym),
    decreases t,
{
    if t > 0 {
        lemma_count_prefix(k, t - 1, sym);
    }
}

/// Counting past the first part of `S(k) = S(k-1) S(k-2)` counts in `S(k-2)`.
proof fn lemma_count_suffix(k: nat, j: int, sym: u8)
    requires
        k >= 3,
        0 <= j <= block_len((k - 2) as nat),
    ensures
        count_in_block(k, block_len((k - 1) as nat) + j, sym)
            == count_in_block((k - 1) as nat, block_len((k - 1) as nat) as int, sym)
                + count_in_block((k - 2) as nat, j, sym),
    decreases j,
{
    if j == 0 {
        lemma_count_prefix(k, block_len((k - 1) as nat) as int, sym);
    } else {
        lemma_count_suffix(k, j - 1, sym);
        lemma_block_len_grows((k - 1) as nat);
    }
}

/// **Block `S(k)` holds `F(k)` long steps and `F(k−1)` short ones**: the
/// counts behind a block lasting `F(k)·φ + F(k−1) = φᵏ` short steps when a
/// long step is φ short ones.
pub proof fn lemma_block_counts(k: nat)
    requires
        k >= 1,
    ensures
        count_in_block(k, block_len(k) as int, 0) == fib(k),
        count_in_block(k, block_len(k) as int, 1) == fib((k - 1) as nat),
    decreases k,
{
    assert(fib(0) == 0);
    assert(fib(1) == 1);
    assert(fib(2) == 1);
    assert(block_len(0) == 1 && block_len(1) == 1);
    if k == 1 {
        assert(count_in_block(1, 0, 0) == 0);
        assert(count_in_block(1, 0, 1) == 0);
    } else if k == 2 {
        assert(block_len(2) == 2);
        assert(count_in_block(2, 0, 0) == 0 && count_in_block(2, 0, 1) == 0);
        assert(count_in_block(2, 1, 0) == 1 && count_in_block(2, 1, 1) == 0);
    } else {
        lemma_block_counts((k - 1) as nat);
        lemma_block_counts((k - 2) as nat);
        lemma_count_suffix(k, block_len((k - 2) as nat) as int, 0);
        lemma_count_suffix(k, block_len((k - 2) as nat) as int, 1);
        assert(fib((k - 1) as nat) == fib((k - 2) as nat) + fib((k - 3) as nat));
    }
}

/// The n-th symbol of the Fibonacci word, 1-based.
///
/// Finds the first block long enough to hold position `n`, then walks the
/// concatenation rule down to a two-symbol block: exact for every `n`.
pub fn word(n: u64) -> (s: u8)
    ensures
        s == fib_word(n as nat),
{
    if n == 0 {
        return 1;
    }
    if n == 1 {
        return 0;
    }
    let target: u128 = n as u128;
    // lk = |S(k)|, lk1 = |S(k-1)|.
    let mut k: u64 = 2;
    let mut lk: u128 = 2;
    let mut lk1: u128 = 1;
    assert(block_len(1) == 1 && block_len(2) == 2) by {
        reveal_with_fuel(block_len, 3);
    }
    while lk < target
        invariant
            2 <= k <= n,
            target == n,
            lk == block_len(k as nat),
            lk1 == block_len((k - 1) as nat),
            lk1 <= lk,
        decreases n - k,
    {
        proof {
            lemma_block_len_grows(k as nat);
        }
        let next = lk + lk1;
        lk1 = lk;
        lk = next;
        k = k + 1;
        proof {
            lemma_block_len_grows((k - 1) as nat);
        }
    }
    proof {
        lemma_block_is_prefix(k as nat, n as nat, n as int);
    }
    let mut p: u128 = target;
    while k > 2
        invariant
            1 <= k <= n,
            lk == block_len(k as nat),
            k >= 2 ==> lk1 == block_len((k - 1) as nat),
            1 <= p <= lk,
            block_symbol(k as nat, p as int) == fib_word(n as nat),
        decreases k,
    {
        proof {
            lemma_block_len_grows((k - 1) as nat);
            lemma_block_len_grows((k - 2) as nat);
        }
        if p <= lk1 {
            let shorter = lk - lk1;
            lk = lk1;
            lk1 = shorter;
            k = k - 1;
        } else {
            p = p - lk1;
            let l2 = lk - lk1;
            let l3 = if k >= 4 { lk1 - l2 } else { 1 };
            lk = l2;
            lk1 = l3;
            k = k - 2;
        }
    }
    if k == 1 {
        0
    } else if p == 1 {
        0
    } else {
        1
    }
}

/// `⌊√x⌋`.
pub open spec fn is_floor_sqrt(x: nat, r: nat) -> bool {
    r * r <= x < (r + 1) * (r + 1)
}

/// `⌊√x⌋`, chosen by its defining inequality.
pub open spec fn floor_sqrt(x: nat) -> nat {
    choose|r: nat| #[trigger] is_floor_sqrt(x, r)
}

/// `⌊nφ⌋ = (n + ⌊√(5n²)⌋) / 2`.
pub open spec fn floor_n_phi(n: nat) -> nat {
    (n + floor_sqrt(5 * n * n)) / 2
}

/// The symbol the Beatty form `2 − (⌊(n+1)φ⌋ − ⌊nφ⌋)` gives.
pub open spec fn beatty_symbol(n: nat) -> int {
    2 - (floor_n_phi(n + 1) - floor_n_phi(n))
}

/// Calls `u64::isqrt`, documented to return the square root rounded down.
#[verifier::external_body]
fn isqrt(x: u64) -> (r: u64)
    ensures
        is_floor_sqrt(x as nat, r as nat),
{
    x.isqrt()
}

/// The floor square root is unique.
proof fn lemma_floor_sqrt_unique(x: nat, r: nat)
    requires
        is_floor_sqrt(x, r),
    ensures
        floor_sqrt(x) == r,
{
    let s = floor_sqrt(x);
    assert(is_floor_sqrt(x, s));
    if s < r {
        assert((s + 1) * (s + 1) <= r * r) by (nonlinear_arith) requires s < r;
    } else if s > r {
        assert((r + 1) * (r + 1) <= s * s) by (nonlinear_arith) requires r < s;
    }
}

/// Consecutive floors of `nφ` differ by one or two.
proof fn lemma_beatty_step(n: nat)
    ensures
        1 <= floor_n_phi(n + 1) - floor_n_phi(n) <= 2,
{
    let x0 = 5 * n * n;
    let m = n + 1;
    let x1 = 5 * m * m;
    let s0 = floor_sqrt(x0);
    let s1 = floor_sqrt(x1);
    assert(exists|r: nat| #[trigger] is_floor_sqrt(x0, r)) by {
        lemma_floor_sqrt_exists(x0);
    }
    assert(exists|r: nat| #[trigger] is_floor_sqrt(x1, r)) by {
        lemma_floor_sqrt_exists(x1);
    }
    assert(is_floor_sqrt(x0, s0));
    assert(is_floor_sqrt(x1, s1));
    // s0 < 2.5 n, so (s0 + 2)² still fits under 5(n + 1)².
    assert((s0 + 2) * (s0 + 2) <= x1) by (nonlinear_arith)
        requires
            s0 * s0 <= x0,
            x0 == 5 * n * n,
            x1 == 5 * m * m,
            m == n + 1;
    assert(s1 >= s0 + 2) by (nonlinear_arith)
        requires
            (s0 + 2) * (s0 + 2) <= x1,
            x1 < (s1 + 1) * (s1 + 1);
    // s0 > 5n/3 - 1, so (s0 + 4)² already overshoots 5(n + 1)².
    assert(x1 < (s0 + 4) * (s0 + 4)) by (nonlinear_arith)
        requires
            x0 < (s0 + 1) * (s0 + 1),
            x0 == 5 * n * n,
            x1 == 5 * m * m,
            m == n + 1;
    assert(s1 <= s0 + 3) by (nonlinear_arith)
        requires
            s1 * s1 <= x1,
            x1 < (s0 + 4) * (s0 + 4);
}

proof fn lemma_floor_sqrt_exists(x: nat)
    ensures
        exists|r: nat| #[trigger] is_floor_sqrt(x, r),
    decreases x,
{
    if x == 0 {
        assert(0nat * 0 <= 0 < (0nat + 1) * (0 + 1)) by (nonlinear_arith);
        assert(is_floor_sqrt(0, 0));
    } else {
        lemma_floor_sqrt_exists((x - 1) as nat);
        let r = choose|r: nat| #[trigger] is_floor_sqrt((x - 1) as nat, r);
        if x < (r + 1) * (r + 1) {
            assert(is_floor_sqrt(x, r));
        } else {
            assert(x == (r + 1) * (r + 1));
            assert(x < (r + 2) * (r + 2)) by (nonlinear_arith) requires x == (r + 1) * (r + 1);
            assert(is_floor_sqrt(x, r + 1));
        }
    }
}

/// `⌊nφ⌋` sits just below `nφ`: `⌊nφ⌋ / n < φ < (⌊nφ⌋ + 1) / n`.
proof fn lemma_floor_n_phi_brackets(n: nat)
    requires
        n >= 1,
    ensures
        floor_n_phi(n) >= 0,
        below_phi(floor_n_phi(n) as int, n as int),
        above_phi(floor_n_phi(n) as int + 1, n as int),
{
    let x = 5 * n * n;
    lemma_floor_sqrt_exists(x);
    let s = floor_sqrt(x);
    assert(is_floor_sqrt(x, s));
    let a = floor_n_phi(n) as int;
    let ni = n as int;
    let si = s as int;
    assert(2 * a <= ni + si <= 2 * a + 1);
    let t = 2 * a - ni;
    // t² < 5n²: either t is negative and at most n in size, or t ≤ s.
    if t < 0 {
        assert(t * t <= ni * ni) by (nonlinear_arith) requires -ni <= t < 0;
        assert(ni * ni < 5 * (ni * ni)) by (nonlinear_arith) requires ni >= 1;
    } else {
        assert(t * t <= si * si) by (nonlinear_arith) requires 0 <= t <= si;
    }
    assert(si * si <= 5 * (ni * ni)) by (nonlinear_arith) requires si * si <= x, x == 5 * n * n, ni == n, si == s;
    lemma_norm_shifted(a, ni);
    lemma_norm_nonzero(a, ni);
    let t2 = 2 * (a + 1) - ni;
    assert(t2 >= si + 1);
    assert(t2 * t2 >= (si + 1) * (si + 1)) by (nonlinear_arith) requires t2 >= si + 1, si >= 0;
    assert((si + 1) * (si + 1) > 5 * (ni * ni)) by (nonlinear_arith)
        requires x < (s + 1) * (s + 1), x == 5 * n * n, ni == n, si == s;
    lemma_norm_shifted(a + 1, ni);
}

/// `⌊nφ⌋` is the only `x` with `x / n < φ < (x + 1) / n`.
proof fn lemma_floor_n_phi_unique(n: nat, x: int)
    requires
        n >= 1,
        x >= 0,
        below_phi(x, n as int),
        above_phi(x + 1, n as int),
    ensures
        floor_n_phi(n) == x,
{
    lemma_floor_n_phi_brackets(n);
    let a = floor_n_phi(n) as int;
    let ni = n as int;
    if x < a {
        lemma_above_exceeds_below(x + 1, ni, a, ni);
        assert((x + 1) * ni <= a * ni) by (nonlinear_arith) requires x + 1 <= a, ni >= 1;
    } else if x > a {
        lemma_above_exceeds_below(a + 1, ni, x, ni);
        assert((a + 1) * ni <= x * ni) by (nonlinear_arith) requires a + 1 <= x, ni >= 1;
    }
}

proof fn lemma_fib_at_least(k: nat)
    ensures
        k >= 1 ==> fib(k) >= 1,
        k >= 3 ==> fib(k) >= 2,
        fib(k + 2) == fib(k + 1) + fib(k),
    decreases k,
{
    assert(fib(0) == 0);
    assert(fib(1) == 1);
    assert(fib(2) == 1);
    if k >= 2 {
        lemma_fib_at_least((k - 1) as nat);
        lemma_fib_at_least((k - 2) as nat);
    }
}

/// **Moving `F(k)` steps along moves `⌊nφ⌋` by `F(k+1)`**:
/// `⌊(m + F(k))φ⌋ = ⌊mφ⌋ + F(k+1)` for `1 ≤ m < F(k+1)`. `F(k+1)/F(k)` is the
/// closest any fraction with so small a denominator comes to `φ`, so adding
/// it cannot carry `mφ` across an integer.
pub proof fn lemma_floor_n_phi_shift(k: nat, m: nat)
    requires
        k >= 1,
        1 <= m < fib(k + 1),
    ensures
        floor_n_phi(m + fib(k)) == floor_n_phi(m) + fib(k + 1),
{
    lemma_fib_at_least(k);
    let f = fib(k) as int;
    let g = fib(k + 1) as int;
    let h = fib(k + 2) as int;
    lemma_cassini(k);
    lemma_cassini(k + 1);
    assert(h == g + f);
    lemma_floor_n_phi_brackets(m);
    let a = floor_n_phi(m) as int;
    let mi = m as int;
    let q = mi + f;
    assert(h * f - g * g == -norm(g, f)) by (nonlinear_arith) requires h == g + f;
    if k % 2 == 1 {
        // g / f < φ < h / g, neighbours.
        lemma_mediant_below(a, mi, g, f);
        let p = a + 1 + g;
        lemma_norm_nonzero(p, q);
        if !above_phi(p, q) {
            lemma_above_exceeds_below(a + 1, mi, g, f);
            lemma_above_exceeds_below(h, g, p, q);
            assert(p * f - g * q == (a + 1) * f - g * mi) by (nonlinear_arith)
                requires p == a + 1 + g, q == mi + f;
            lemma_between_neighbours(p, q, g, f, h, g);
        }
        lemma_floor_n_phi_unique(m + fib(k), a + g);
    } else {
        // h / g < φ < g / f, neighbours.
        lemma_mediant_above(a + 1, mi, g, f);
        let p = a + g;
        lemma_norm_nonzero(p, q);
        if !below_phi(p, q) {
            lemma_above_exceeds_below(p, q, h, g);
            lemma_above_exceeds_below(g, f, a, mi);
            assert(g * q - p * f == g * mi - a * f) by (nonlinear_arith)
                requires p == a + g, q == mi + f;
            assert(g * g - h * f == 1);
            lemma_between_neighbours(p, q, h, g, g, f);
        }
        lemma_floor_n_phi_unique(m + fib(k), a + g);
    }
}

proof fn lemma_block_len_is_fib(k: nat)
    ensures
        block_len(k) == fib(k + 1),
    decreases k,
{
    assert(fib(0) == 0);
    assert(fib(1) == 1);
    assert(fib(2) == 1);
    if k >= 2 {
        lemma_block_len_is_fib((k - 1) as nat);
        lemma_block_len_is_fib((k - 2) as nat);
    }
}

/// `⌊φ⌋ = 1`, `⌊2φ⌋ = 3`, `⌊3φ⌋ = 4`.
proof fn lemma_first_floors()
    ensures
        floor_n_phi(1) == 1,
        floor_n_phi(2) == 3,
        floor_n_phi(3) == 4,
{
    assert(norm(1, 1) == -1 && norm(2, 1) == 1);
    lemma_floor_n_phi_unique(1, 1);
    assert(norm(3, 2) == -1 && norm(4, 2) == 4);
    lemma_floor_n_phi_unique(2, 3);
    assert(norm(4, 3) == -5 && norm(5, 3) == 1);
    lemma_floor_n_phi_unique(3, 4);
}

/// Every symbol of every block is the Beatty symbol of its position.
proof fn lemma_block_is_beatty(k: nat, p: int)
    requires
        k >= 1,
        1 <= p <= block_len(k),
    ensures
        block_symbol(k, p) as int == beatty_symbol(p as nat),
    decreases k,
{
    lemma_first_floors();
    assert(block_len(1) == 1 && block_len(2) == 2) by {
        reveal_with_fuel(block_len, 3);
    }
    if k >= 3 {
        let l1 = block_len((k - 1) as nat);
        lemma_block_len_is_fib((k - 1) as nat);
        lemma_block_len_is_fib((k - 2) as nat);
        lemma_fib_at_least(k);
        lemma_fib_at_least((k - 1) as nat);
        assert(block_len(k) == l1 + block_len((k - 2) as nat));
        if p <= l1 {
            lemma_block_is_beatty((k - 1) as nat, p);
        } else {
            let m = (p - l1) as nat;
            lemma_block_is_beatty((k - 2) as nat, m as int);
            assert(l1 == fib(k));
            lemma_floor_n_phi_shift(k, m);
            lemma_floor_n_phi_shift(k, m + 1);
            assert(m + fib(k) == p);
            assert(m + 1 + fib(k) == p + 1);
        }
    }
}

/// **The concatenation rule and the threshold rule build the same word**:
/// the n-th symbol of the Fibonacci word is `2 − (⌊(n+1)φ⌋ − ⌊nφ⌋)`.
pub proof fn lemma_word_is_beatty(n: nat)
    ensures
        fib_word(n) as int == beatty_symbol(n),
{
    lemma_first_floors();
    if n == 0 {
        lemma_floor_n_phi_zero();
    } else {
        lemma_block_len_grows(n);
        lemma_block_is_beatty(n, n as int);
    }
}

/// A fraction below `φ` with denominator `y` has numerator at most `⌊yφ⌋`.
proof fn lemma_below_is_at_most_floor(x: int, y: nat)
    requires
        y >= 1,
        x >= 0,
        below_phi(x, y as int),
    ensures
        x <= floor_n_phi(y),
{
    lemma_floor_n_phi_brackets(y);
    let a = floor_n_phi(y) as int;
    if x > a {
        lemma_above_exceeds_below(a + 1, y as int, x, y as int);
        assert((a + 1) * y <= x * y) by (nonlinear_arith) requires a + 1 <= x, y >= 1;
    }
}

/// A fraction above `φ` with denominator `y` has numerator above `⌊yφ⌋`.
proof fn lemma_above_is_past_floor(x: int, y: nat)
    requires
        y >= 1,
        x >= 0,
        above_phi(x, y as int),
    ensures
        x > floor_n_phi(y),
{
    lemma_floor_n_phi_brackets(y);
    let a = floor_n_phi(y) as int;
    if x <= a {
        lemma_above_exceeds_below(x, y as int, a, y as int);
        assert(x * y <= a * y) by (nonlinear_arith) requires x <= a, y >= 1;
    }
}

/// `⌊(m+n)φ⌋` is `⌊mφ⌋ + ⌊nφ⌋` or one more.
pub proof fn lemma_floor_n_phi_sum(m: nat, n: nat)
    ensures
        floor_n_phi(m) + floor_n_phi(n) <= floor_n_phi(m + n) <= floor_n_phi(m) + floor_n_phi(n) + 1,
{
    lemma_floor_n_phi_zero();
    if m >= 1 && n >= 1 {
        lemma_floor_n_phi_brackets(m);
        lemma_floor_n_phi_brackets(n);
        let a = floor_n_phi(m) as int;
        let c = floor_n_phi(n) as int;
        lemma_mediant_below(a, m as int, c, n as int);
        lemma_below_is_at_most_floor(a + c, m + n);
        lemma_mediant_above(a + 1, m as int, c + 1, n as int);
        lemma_above_is_past_floor(a + c + 2, m + n);
    } else if m == 0 {
        assert(m + n == n);
    } else {
        assert(m + n == m);
    }
}

proof fn lemma_floor_n_phi_zero()
    ensures
        floor_n_phi(0) == 0,
{
    assert(0nat * 0 <= 0 < (0nat + 1) * (0 + 1)) by (nonlinear_arith);
    assert(is_floor_sqrt(0, 0));
    lemma_floor_sqrt_unique(0, 0);
    assert(5 * 0nat * 0nat == 0);
}

/// Every symbol is `0` or `1`, and is `2 − (⌊(n+1)φ⌋ − ⌊nφ⌋)`.
proof fn lemma_symbol_is_step(n: nat)
    ensures
        fib_word(n) <= 1,
        fib_word(n) as int == 2 - (floor_n_phi(n + 1) - floor_n_phi(n)),
{
    lemma_word_is_beatty(n);
    lemma_beatty_step(n);
}

/// **Short steps never come two in a row**: the word holds no `11`.
pub proof fn lemma_no_two_shorts(n: nat)
    ensures
        !(fib_word(n) == 1 && fib_word(n + 1) == 1),
{
    lemma_symbol_is_step(n);
    lemma_symbol_is_step(n + 1);
    lemma_first_floors();
    lemma_floor_n_phi_sum(n, 2);
}

/// **Long steps never come three in a row**: the word holds no `000`.
pub proof fn lemma_no_three_longs(n: nat)
    ensures
        !(fib_word(n) == 0 && fib_word(n + 1) == 0 && fib_word(n + 2) == 0),
{
    lemma_symbol_is_step(n);
    lemma_symbol_is_step(n + 1);
    lemma_symbol_is_step(n + 2);
    lemma_first_floors();
    lemma_floor_n_phi_sum(n, 3);
}

/// How many of the `len` symbols from position `i` on are `1`.
pub open spec fn ones_in(i: nat, len: nat) -> nat
    decreases len,
{
    if len == 0 {
        0
    } else {
        ones_in(i, (len - 1) as nat) + if fib_word((i + len - 1) as nat) == 1 { 1nat } else { 0nat }
    }
}

/// Counting short steps telescopes over `⌊nφ⌋`.
proof fn lemma_ones_in_closed(i: nat, len: nat)
    ensures
        ones_in(i, len) as int == 2 * len - (floor_n_phi(i + len) - floor_n_phi(i)),
    decreases len,
{
    if len > 0 {
        lemma_ones_in_closed(i, (len - 1) as nat);
        lemma_symbol_is_step((i + len - 1) as nat);
        assert((i + len - 1) as nat + 1 == i + len);
    }
}

/// **The word never drifts**: any two stretches of the same length, anywhere
/// in the word, hold the same number of short steps or differ by one.
pub proof fn lemma_word_is_balanced(i: nat, j: nat, len: nat)
    requires
        i >= 1,
        j >= 1,
    ensures
        ones_in(i, len) <= ones_in(j, len) + 1,
        ones_in(j, len) <= ones_in(i, len) + 1,
{
    lemma_ones_in_closed(i, len);
    lemma_ones_in_closed(j, len);
    lemma_floor_n_phi_sum(i, len);
    lemma_floor_n_phi_sum(j, len);
    assert(i + len == len + i && j + len == len + j);
}

/// The first `count` symbols as the characters `'0'` and `'1'`.
pub open spec fn word_prefix(count: nat) -> Seq<char> {
    Seq::new(count, |i: int| if fib_word((i + 1) as nat) == 1 { '1' } else { '0' })
}

/// The word read at `p` is block `S(k)` read at `p`, wherever `S(k)` reaches.
proof fn lemma_word_in_block(k: nat, p: nat)
    requires
        k >= 1,
        1 <= p <= block_len(k),
    ensures
        fib_word(p) == block_symbol(k, p as int),
{
    lemma_block_len_grows(p);
    if p <= k {
        lemma_block_is_prefix(p, k, p as int);
    } else {
        lemma_block_is_prefix(k, p, p as int);
    }
}

/// **The word's first `|S(k)|` symbols are its first `|S(k−1)|` followed by
/// its first `|S(k−2)|`**: `S(k) = S(k−1) S(k−2)`, read off the word itself.
pub proof fn lemma_prefix_concatenates(k: nat)
    requires
        k >= 3,
    ensures
        word_prefix(block_len(k)) == word_prefix(block_len((k - 1) as nat)) + word_prefix(block_len((k - 2) as nat)),
{
    let l1 = block_len((k - 1) as nat);
    let l2 = block_len((k - 2) as nat);
    lemma_block_len_grows((k - 1) as nat);
    lemma_block_len_grows((k - 2) as nat);
    assert(block_len(k) == l1 + l2);
    assert forall|i: int| 0 <= i < block_len(k) implies
        #[trigger] word_prefix(block_len(k))[i] == (word_prefix(l1) + word_prefix(l2))[i] by {
        lemma_word_in_block(k, (i + 1) as nat);
        if i < l1 {
            lemma_word_in_block((k - 1) as nat, (i + 1) as nat);
        } else {
            lemma_word_in_block((k - 2) as nat, (i + 1 - l1) as nat);
            assert((i - l1 + 1) as nat == (i + 1 - l1) as nat);
        }
    }
    assert(word_prefix(block_len(k)) =~= word_prefix(l1) + word_prefix(l2));
}

/// `⌊nφ⌋` by exact integer arithmetic.
fn floor_n_phi_exec(n: u64) -> (f: u64)
    requires
        5 * n * n <= u64::MAX,
    ensures
        f == floor_n_phi(n as nat),
{
    proof {
        assert(5 * n <= 5 * n * n) by (nonlinear_arith);
    }
    let sq = isqrt(5 * n * n);
    proof {
        lemma_floor_sqrt_unique((5 * n * n) as nat, sq as nat);
        assert(sq <= 3 * n) by (nonlinear_arith)
            requires
                sq * sq <= 5 * n * n;
        assert(4 * n <= 5 * n * n + 1) by (nonlinear_arith);
    }
    (n + sq) / 2
}

/// The same symbol by exact integer arithmetic on `⌊nφ⌋`: the Beatty form
/// of the word, equal to [`word`] at every `n` (see [`lemma_word_is_beatty`]).
///
/// `⌊nφ⌋ = (n + ⌊√(5n²)⌋) / 2`, and flooring the root first cannot cross the
/// halving boundary because `5n²` is never a perfect square for `n ≥ 1`.
pub fn word_exact(n: u64) -> (s: u8)
    requires
        5 * (n + 1) * (n + 1) <= u64::MAX,
    ensures
        s == beatty_symbol(n as nat),
        s == fib_word(n as nat),
        s <= 1,
{
    proof {
        lemma_word_is_beatty(n as nat);
        assert(5 * n * n <= 5 * (n + 1) * (n + 1)) by (nonlinear_arith);
        lemma_beatty_step(n as nat);
        assert(n + 1 <= 5 * (n + 1) * (n + 1)) by (nonlinear_arith);
    }
    let hi = floor_n_phi_exec(n + 1);
    let lo = floor_n_phi_exec(n);
    2 - ((hi - lo) as u8)
}

/// The first `count` symbols, `'0'` and `'1'`.
pub fn prefix(count: usize) -> (s: String)
    ensures
        s@ == word_prefix(count as nat),
{
    let mut chars: Vec<char> = Vec::new();
    let mut i: usize = 0;
    while i < count
        invariant
            i <= count,
            chars@ == Seq::new(i as nat, |j: int| if fib_word((j + 1) as nat) == 1 { '1' } else { '0' }),
        decreases count - i,
    {
        let w = word((i as u64) + 1);
        chars.push(if w == 1 { '1' } else { '0' });
        i += 1;
        assert(chars@ =~= Seq::new(i as nat, |j: int| if fib_word((j + 1) as nat) == 1 { '1' } else { '0' }));
    }
    string_of(&chars)
}

} // verus!
