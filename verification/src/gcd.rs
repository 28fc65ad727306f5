//! Greatest common divisors: Euclid's recursion and the facts about it that
//! the signature periods and the delay lengths rest on.

use vstd::prelude::*;
use vstd::arithmetic::div_mod::{lemma_fundamental_div_mod, lemma_fundamental_div_mod_converse, lemma_mod_multiples_basic};

verus! {

/// Greatest common divisor, by Euclid's recursion.
pub open spec fn gcd_spec(a: nat, b: nat) -> nat
    decreases b,
{
    if b == 0 { a } else { gcd_spec(b, a % b) }
}

/// `d` divides `x`, by a witness.
pub proof fn lemma_multiple_mod(x: nat, d: nat, k: nat)
    requires
        d > 0,
        x == d * k,
    ensures
        x % d == 0,
{
    lemma_mod_multiples_basic(k as int, d as int);
    assert(k * d == d * k) by (nonlinear_arith);
}

/// `x % d == 0` gives the quotient as a witness.
pub proof fn lemma_mod_witness(x: nat, d: nat)
    requires
        d > 0,
        x % d == 0,
    ensures
        x == d * (x / d),
{
    lemma_fundamental_div_mod(x as int, d as int);
}

/// The gcd divides both of its arguments, and is zero only for two zeros.
pub proof fn lemma_gcd_divides(a: nat, b: nat)
    ensures
        gcd_spec(a, b) == 0 ==> a == 0 && b == 0,
        gcd_spec(a, b) > 0 ==> a % gcd_spec(a, b) == 0 && b % gcd_spec(a, b) == 0,
    decreases b,
{
    let g = gcd_spec(a, b);
    if b == 0 {
        if a > 0 {
            lemma_multiple_mod(a, a, 1);
            assert(a * 0 == 0) by (nonlinear_arith);
            lemma_multiple_mod(0, a, 0);
        }
    } else {
        lemma_gcd_divides(b, a % b);
        assert(g > 0);
        lemma_mod_witness(b, g);
        lemma_mod_witness(a % b, g);
        lemma_fundamental_div_mod(a as int, b as int);
        let kb = b / g;
        let kr = (a % b) / g;
        let q = a / b;
        assert(a == g * (kb * q + kr)) by (nonlinear_arith)
            requires
                b == g * kb,
                a % b == g * kr,
                a == b * q + a % b;
        lemma_multiple_mod(a, g, kb * q + kr);
    }
}

/// Any common divisor of the arguments divides their gcd.
pub proof fn lemma_common_divisor_divides_gcd(a: nat, b: nat, d: nat)
    requires
        d > 0,
        a % d == 0,
        b % d == 0,
    ensures
        gcd_spec(a, b) % d == 0,
    decreases b,
{
    if b > 0 {
        lemma_mod_witness(a, d);
        lemma_mod_witness(b, d);
        lemma_fundamental_div_mod(a as int, b as int);
        let ka = a / d;
        let kb = b / d;
        let q = a / b;
        let r = a % b;
        assert(r == d * (ka - kb * q)) by (nonlinear_arith)
            requires
                a == d * ka,
                b == d * kb,
                a == b * q + r;
        assert(ka - kb * q >= 0) by (nonlinear_arith)
            requires
                r == d * (ka - kb * q),
                r >= 0,
                d > 0;
        lemma_multiple_mod(r, d, (ka - kb * q) as nat);
        lemma_common_divisor_divides_gcd(b, r, d);
    }
}

/// Scaling both arguments scales the gcd.
pub proof fn lemma_gcd_scale(a: nat, b: nat, t: nat)
    ensures
        gcd_spec(a * t, b * t) == gcd_spec(a, b) * t,
    decreases b,
{
    if t == 0 {
        assert(a * t == 0 && b * t == 0) by (nonlinear_arith) requires t == 0;
        assert(gcd_spec(0, 0) == 0);
    } else if b == 0 {
        assert(b * t == 0) by (nonlinear_arith) requires b == 0;
    } else {
        lemma_fundamental_div_mod(a as int, b as int);
        let q = a / b;
        let r = a % b;
        assert(a * t == q * (b * t) + r * t) by (nonlinear_arith)
            requires
                a == b * q + r;
        assert(0 <= r * t < b * t) by (nonlinear_arith)
            requires
                0 <= r < b,
                t > 0;
        lemma_fundamental_div_mod_converse((a * t) as int, (b * t) as int, q as int, (r * t) as int);
        assert(b * t > 0) by (nonlinear_arith) requires b > 0, t > 0;
        lemma_gcd_scale(b, r, t);
    }
}

/// A positive multiple is at least its divisor.
pub proof fn lemma_divisor_le(x: nat, d: nat)
    requires
        d > 0,
        x > 0,
        x % d == 0,
    ensures
        d <= x,
{
    lemma_mod_witness(x, d);
    let k = x / d;
    assert(d <= x) by (nonlinear_arith)
        requires
            x == d * k,
            x > 0,
            d > 0;
}

/// The gcd does not depend on argument order.
pub proof fn lemma_gcd_comm(a: nat, b: nat)
    ensures
        gcd_spec(a, b) == gcd_spec(b, a),
{
    if a == b {
    } else if a < b {
        lemma_fundamental_div_mod_converse(a as int, b as int, 0, a as int);
        assert(gcd_spec(a, b) == gcd_spec(b, a % b));
    } else {
        lemma_fundamental_div_mod_converse(b as int, a as int, 0, b as int);
        assert(gcd_spec(b, a) == gcd_spec(a, b % a));
    }
}

/// Two gcds that divide each other are equal.
proof fn lemma_mutual_divisors_equal(g1: nat, g2: nat)
    requires
        g1 > 0,
        g2 > 0,
        g1 % g2 == 0,
        g2 % g1 == 0,
    ensures
        g1 == g2,
{
    lemma_divisor_le(g1, g2);
    lemma_divisor_le(g2, g1);
}

/// Adding a multiple of `b` to `a` leaves `gcd(a, b)` unchanged.
pub proof fn lemma_gcd_add_multiple(a: nat, b: nat, k: nat)
    ensures
        gcd_spec(a + k * b, b) == gcd_spec(a, b),
{
    let c = a + k * b;
    let g1 = gcd_spec(c, b);
    let g2 = gcd_spec(a, b);
    lemma_gcd_divides(c, b);
    lemma_gcd_divides(a, b);
    if b == 0 {
        assert(k * b == 0) by (nonlinear_arith) requires b == 0;
    } else {
        assert(g1 > 0 && g2 > 0);
        // g2 divides c.
        lemma_mod_witness(a, g2);
        lemma_mod_witness(b, g2);
        let ka = a / g2;
        let kb = b / g2;
        assert(c == g2 * (ka + k * kb)) by (nonlinear_arith)
            requires
                a == g2 * ka,
                b == g2 * kb,
                c == a + k * b;
        lemma_multiple_mod(c, g2, ka + k * kb);
        lemma_common_divisor_divides_gcd(c, b, g2);
        // g1 divides a.
        lemma_mod_witness(c, g1);
        lemma_mod_witness(b, g1);
        let kc = c / g1;
        let kb1 = b / g1;
        assert(a == g1 * (kc - k * kb1)) by (nonlinear_arith)
            requires
                c == g1 * kc,
                b == g1 * kb1,
                c == a + k * b;
        assert(kc - k * kb1 >= 0) by (nonlinear_arith)
            requires
                a == g1 * (kc - k * kb1),
                g1 > 0;
        lemma_multiple_mod(a, g1, (kc - k * kb1) as nat);
        lemma_common_divisor_divides_gcd(a, b, g1);
        lemma_mutual_divisors_equal(g1, g2);
    }
}

/// Bézout: the gcd is an integer combination of the arguments.
pub proof fn lemma_bezout(a: nat, b: nat) -> (r: (int, int))
    ensures
        a * r.0 + b * r.1 == gcd_spec(a, b),
    decreases b,
{
    if b == 0 {
        assert(a * 1 + b * 0 == a) by (nonlinear_arith) requires b == 0;
        (1, 0)
    } else {
        let (x, y) = lemma_bezout(b, a % b);
        lemma_fundamental_div_mod(a as int, b as int);
        let q = a / b;
        let r = a % b;
        assert(a * y + b * (x - q * y) == b * x + r * y) by (nonlinear_arith)
            requires
                a == b * q + r;
        (y, x - q * y)
    }
}

/// A factor coprime to `b` can be dropped: `gcd(x·c, b) = gcd(x, b)` when
/// `gcd(c, b) = 1`.
pub proof fn lemma_coprime_factor(x: nat, c: nat, b: nat)
    requires
        gcd_spec(c, b) == 1,
    ensures
        gcd_spec(x * c, b) == gcd_spec(x, b),
{
    let g1 = gcd_spec(x * c, b);
    let g2 = gcd_spec(x, b);
    lemma_gcd_divides(x * c, b);
    lemma_gcd_divides(x, b);
    if b == 0 {
        // gcd(c, 0) = c = 1.
        assert(c == 1);
        assert(x * c == x) by (nonlinear_arith) requires c == 1;
    } else {
        assert(g1 > 0 && g2 > 0);
        // g2 divides x, so x·c.
        lemma_mod_witness(x, g2);
        let kx = x / g2;
        assert(x * c == g2 * (kx * c)) by (nonlinear_arith) requires x == g2 * kx;
        lemma_multiple_mod(x * c, g2, kx * c);
        lemma_common_divisor_divides_gcd(x * c, b, g2);
        // g1 divides x: x = x·(u·c + v·b) = u·(x·c) + (x·v)·b.
        let (u, v) = lemma_bezout(c, b);
        lemma_mod_witness(x * c, g1);
        lemma_mod_witness(b, g1);
        let k1 = (x * c) / g1;
        let k2 = b / g1;
        assert(x == g1 * (u * k1 + x * v * k2)) by (nonlinear_arith)
            requires
                c * u + b * v == 1,
                x * c == g1 * k1,
                b == g1 * k2;
        assert(u * k1 + x * v * k2 >= 0) by (nonlinear_arith)
            requires
                x == g1 * (u * k1 + x * v * k2),
                g1 > 0;
        lemma_multiple_mod(x, g1, (u * k1 + x * v * k2) as nat);
        lemma_common_divisor_divides_gcd(x, b, g1);
        lemma_mutual_divisors_equal(g1, g2);
    }
}

} // verus!
