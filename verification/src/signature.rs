//! The five-integer signature each roster entry moves by.
//!
//! Component rates are the integers normalised against the largest, so all
//! five phases realign after `max(a) / gcd(a)` base cycles. Every integer
//! signature repeats; what differs between them is how soon.

use vstd::prelude::*;
use crate::tuning::{Algorithm, Variant, ROSTER};
use crate::delays::fib;
use crate::gcd::{
    gcd_spec, lemma_common_divisor_divides_gcd, lemma_gcd_divides, lemma_gcd_scale, lemma_mod_witness,
    lemma_multiple_mod,
};

verus! {

/// `gcd` folded over a sequence from 0, as `iter().fold(0, gcd)` does.
pub open spec fn gcd_fold(xs: Seq<u32>) -> nat
    decreases xs.len(),
{
    if xs.len() == 0 { 0 } else { gcd_spec(gcd_fold(xs.drop_last()), xs.last() as nat) }
}

/// The gcd of a sequence, at least one.
pub open spec fn gcd_all_spec(xs: Seq<u32>) -> nat {
    if gcd_fold(xs) == 0 { 1 } else { gcd_fold(xs) }
}

/// The largest element, or 1 for an empty sequence.
pub open spec fn max_spec(xs: Seq<u32>) -> nat
    decreases xs.len(),
{
    if xs.len() == 0 {
        1
    } else if xs.len() == 1 {
        xs[0] as nat
    } else {
        let m = max_spec(xs.drop_last());
        if xs.last() as nat > m { xs.last() as nat } else { m }
    }
}

/// Base cycles before all components realign: `max / gcd`.
pub open spec fn period_spec(terms: Seq<u32>) -> nat {
    max_spec(terms) / gcd_all_spec(terms)
}

/// After `t` base cycles every component, running at `terms[i] / max`, has
/// completed a whole number of its own cycles.
pub open spec fn realigned(terms: Seq<u32>, t: nat) -> bool {
    forall|i: int| 0 <= i < terms.len() ==> #[trigger] ((terms[i] as nat) * t) % max_spec(terms) == 0
}

/// One entry's movement.
#[derive(Clone, Copy, Debug, PartialEq, Eq)]
pub struct Signature {
    pub terms: [u32; 5],
    pub family: &'static str,
}

impl Signature {
    /// Base cycles before all five components realign: `max / gcd`.
    pub fn period(&self) -> (p: u32)
        ensures
            p == period_spec(self.terms@),
    {
        let m = max_of(&self.terms);
        let g = gcd_all(&self.terms);
        m / g
    }
}

/// The largest element of a slice, 1 when it is empty.
fn max_of(xs: &[u32]) -> (m: u32)
    ensures
        m == max_spec(xs@),
{
    if xs.len() == 0 {
        return 1;
    }
    let mut m = xs[0];
    let mut i: usize = 1;
    while i < xs.len()
        invariant
            1 <= i <= xs.len(),
            m == max_spec(xs@.subrange(0, i as int)),
        decreases xs.len() - i,
    {
        assert(xs@.subrange(0, i + 1).drop_last() =~= xs@.subrange(0, i as int));
        if xs[i] > m {
            m = xs[i];
        }
        i += 1;
    }
    assert(xs@.subrange(0, xs.len() as int) =~= xs@);
    m
}

/// Euclid's algorithm.
fn gcd(a: u32, b: u32) -> (g: u32)
    ensures
        g == gcd_spec(a as nat, b as nat),
    decreases b,
{
    if b == 0 { a } else { gcd(b, a % b) }
}

/// The gcd of every element, at least one.
fn gcd_all(xs: &[u32]) -> (g: u32)
    ensures
        g == gcd_all_spec(xs@),
{
    let mut acc: u32 = 0;
    let mut i: usize = 0;
    while i < xs.len()
        invariant
            i <= xs.len(),
            acc == gcd_fold(xs@.subrange(0, i as int)),
        decreases xs.len() - i,
    {
        assert(xs@.subrange(0, i + 1).drop_last() =~= xs@.subrange(0, i as int));
        acc = gcd(acc, xs[i]);
        i += 1;
    }
    assert(xs@.subrange(0, xs.len() as int) =~= xs@);
    if acc == 0 { 1 } else { acc }
}

/// The fold of `gcd` over every element scaled by `t`.
pub open spec fn gcd_fold_scaled(xs: Seq<u32>, t: nat) -> nat
    decreases xs.len(),
{
    if xs.len() == 0 { 0 } else { gcd_spec(gcd_fold_scaled(xs.drop_last(), t), (xs.last() as nat) * t) }
}

proof fn lemma_fold_scaled(xs: Seq<u32>, t: nat)
    ensures
        gcd_fold_scaled(xs, t) == gcd_fold(xs) * t,
    decreases xs.len(),
{
    if xs.len() > 0 {
        lemma_fold_scaled(xs.drop_last(), t);
        lemma_gcd_scale(gcd_fold(xs.drop_last()), xs.last() as nat, t);
    } else {
        assert(0 * t == 0) by (nonlinear_arith);
    }
}

/// A divisor of every scaled element divides the scaled fold.
proof fn lemma_divisor_divides_fold_scaled(xs: Seq<u32>, t: nat, d: nat)
    requires
        d > 0,
        forall|i: int| 0 <= i < xs.len() ==> #[trigger] ((xs[i] as nat) * t) % d == 0,
    ensures
        gcd_fold_scaled(xs, t) % d == 0,
    decreases xs.len(),
{
    if xs.len() == 0 {
        assert(d * 0 == 0) by (nonlinear_arith);
        lemma_multiple_mod(0, d, 0);
    } else {
        let init = xs.drop_last();
        assert forall|i: int| 0 <= i < init.len() implies #[trigger] ((init[i] as nat) * t) % d == 0 by {
            assert(init[i] == xs[i]);
        }
        lemma_divisor_divides_fold_scaled(init, t, d);
        assert(((xs[xs.len() - 1] as nat) * t) % d == 0);
        lemma_common_divisor_divides_gcd(gcd_fold_scaled(init, t), (xs.last() as nat) * t, d);
    }
}

/// The fold divides every element, and is zero only when every element is.
proof fn lemma_fold_divides(xs: Seq<u32>)
    ensures
        gcd_fold(xs) == 0 ==> forall|i: int| 0 <= i < xs.len() ==> xs[i] == 0,
        gcd_fold(xs) > 0 ==> forall|i: int| 0 <= i < xs.len() ==> #[trigger] (xs[i] as nat) % gcd_fold(xs) == 0,
    decreases xs.len(),
{
    if xs.len() > 0 {
        let init = xs.drop_last();
        lemma_fold_divides(init);
        let f = gcd_fold(init);
        let g = gcd_fold(xs);
        lemma_gcd_divides(f, xs.last() as nat);
        if g > 0 {
            assert forall|i: int| 0 <= i < xs.len() implies #[trigger] (xs[i] as nat) % g == 0 by {
                if i == xs.len() - 1 {
                } else {
                    assert(init[i] == xs[i]);
                    if f == 0 {
                        assert(g * 0 == 0) by (nonlinear_arith);
                        lemma_multiple_mod(0, g, 0);
                    } else {
                        lemma_mod_witness(xs[i] as nat, f);
                        lemma_mod_witness(f, g);
                        let k1 = (xs[i] as nat) / f;
                        let k2 = f / g;
                        assert(xs[i] as nat == g * (k2 * k1)) by (nonlinear_arith)
                            requires
                                xs[i] as nat == f * k1,
                                f == g * k2;
                        lemma_multiple_mod(xs[i] as nat, g, k2 * k1);
                    }
                }
            }
        } else {
            assert forall|i: int| 0 <= i < xs.len() implies xs[i] == 0 by {
                if i < xs.len() - 1 {
                    assert(init[i] == xs[i]);
                }
            }
        }
    }
}

/// The maximum is one of the elements, and no element exceeds it.
proof fn lemma_max_bounds(xs: Seq<u32>)
    requires
        xs.len() > 0,
    ensures
        exists|i: int| 0 <= i < xs.len() && xs[i] as nat == max_spec(xs),
        forall|i: int| 0 <= i < xs.len() ==> xs[i] as nat <= max_spec(xs),
    decreases xs.len(),
{
    if xs.len() == 1 {
        assert(xs[0] as nat == max_spec(xs));
    } else {
        let init = xs.drop_last();
        lemma_max_bounds(init);
        let j = choose|j: int| 0 <= j < init.len() && init[j] as nat == max_spec(init);
        if xs.last() as nat > max_spec(init) {
            assert(xs[xs.len() - 1] as nat == max_spec(xs));
        } else {
            assert(xs[j] as nat == max_spec(xs));
        }
        assert forall|i: int| 0 <= i < xs.len() implies xs[i] as nat <= max_spec(xs) by {
            if i < xs.len() - 1 {
                assert(init[i] == xs[i]);
            }
        }
    }
}

/// **The period is exact.** All components realign after `max / gcd` base
/// cycles, and at no positive count before that.
pub proof fn lemma_period_is_the_first_realignment(terms: Seq<u32>)
    requires
        terms.len() > 0,
        max_spec(terms) > 0,
    ensures
        period_spec(terms) > 0,
        realigned(terms, period_spec(terms)),
        forall|t: nat| 0 < t < period_spec(terms) ==> !realigned(terms, t),
{
    let m = max_spec(terms);
    lemma_max_bounds(terms);
    lemma_fold_divides(terms);
    let j = choose|j: int| 0 <= j < terms.len() && terms[j] as nat == m;
    let g = gcd_fold(terms);
    assert(g > 0);
    assert(gcd_all_spec(terms) == g);
    assert((terms[j] as nat) % g == 0);
    lemma_mod_witness(m, g);
    let p = m / g;
    assert(m == g * p);
    assert(p > 0) by (nonlinear_arith) requires m == g * p, m > 0, g > 0;
    assert(period_spec(terms) == p);
    assert forall|i: int| 0 <= i < terms.len() implies #[trigger] ((terms[i] as nat) * p) % m == 0 by {
        let x = terms[i] as nat;
        assert(x % g == 0);
        lemma_mod_witness(x, g);
        let k = x / g;
        assert(x * p == m * k) by (nonlinear_arith) requires x == g * k, m == g * p;
        lemma_multiple_mod(x * p, m, k);
    }
    assert forall|t: nat| 0 < t < p implies !realigned(terms, t) by {
        if realigned(terms, t) {
            lemma_divisor_divides_fold_scaled(terms, t, m);
            lemma_fold_scaled(terms, t);
            assert((g * t) % m == 0) by {
                assert(gcd_fold(terms) * t == g * t);
            }
            lemma_mod_witness(g * t, m);
            let k = (g * t) / m;
            assert(t == p * k) by (nonlinear_arith) requires g * t == m * k, m == g * p, g > 0;
            assert(t >= p) by (nonlinear_arith) requires t == p * k, t > 0, p > 0;
        }
    }
}

/// The integers an entry moves by.
pub open spec fn signature_terms(algorithm: Algorithm, variant: Variant) -> Seq<u32> {
    match (algorithm, variant) {
        (Algorithm::Fm1, _) => seq![30u32, 24, 18, 12, 6],
        (Algorithm::Fm2, _) => seq![34u32, 21, 13, 8, 5],
        (Algorithm::Rm, Variant::Harmonic) => seq![29u32, 18, 11, 7, 4],
        (Algorithm::Rm, Variant::Golden) => seq![4u32, 7, 11, 18, 29],
        (Algorithm::Am, Variant::Harmonic) => seq![28u32, 21, 16, 12, 9],
        (Algorithm::Am, Variant::Golden) => seq![29u32, 22, 17, 12, 10],
        (Algorithm::Rect, Variant::Harmonic) => seq![44u32, 24, 13, 7, 4],
        (Algorithm::Rect, Variant::Golden) => seq![29u32, 12, 5, 2, 1],
    }
}

/// The integer family an entry's signature is drawn from.
pub open spec fn signature_family(algorithm: Algorithm, variant: Variant) -> Seq<char> {
    match (algorithm, variant) {
        (Algorithm::Fm1, _) => "harmonic"@,
        (Algorithm::Fm2, _) => "fibonacci"@,
        (Algorithm::Rm, Variant::Harmonic) => "lucas"@,
        (Algorithm::Rm, Variant::Golden) => "lucas mirrored"@,
        (Algorithm::Am, Variant::Harmonic) => "padovan"@,
        (Algorithm::Am, Variant::Golden) => "perrin"@,
        (Algorithm::Rect, Variant::Harmonic) => "tribonacci"@,
        (Algorithm::Rect, Variant::Golden) => "pell"@,
    }
}

/// The signature for a roster entry.
///
/// Seven sequences with `gcd = 1` and one without: the commensurate one,
/// harmonic, goes to FM I, the one entry whose partials reinforce rather than
/// beat, so the one whose movement may come back around.
pub fn signature_for(algorithm: Algorithm, variant: Variant) -> (s: Signature)
    ensures
        s.terms@ == signature_terms(algorithm, variant),
        s.family@ == signature_family(algorithm, variant),
{
    let s = match (algorithm, variant) {
        (Algorithm::Fm1, _) => Signature { terms: [30, 24, 18, 12, 6], family: "harmonic" },
        (Algorithm::Fm2, _) => Signature { terms: [34, 21, 13, 8, 5], family: "fibonacci" },
        (Algorithm::Rm, Variant::Harmonic) => Signature { terms: [29, 18, 11, 7, 4], family: "lucas" },
        (Algorithm::Rm, Variant::Golden) => Signature { terms: [4, 7, 11, 18, 29], family: "lucas mirrored" },
        (Algorithm::Am, Variant::Harmonic) => Signature { terms: [28, 21, 16, 12, 9], family: "padovan" },
        (Algorithm::Am, Variant::Golden) => Signature { terms: [29, 22, 17, 12, 10], family: "perrin" },
        (Algorithm::Rect, Variant::Harmonic) => Signature { terms: [44, 24, 13, 7, 4], family: "tribonacci" },
        (Algorithm::Rect, Variant::Golden) => Signature { terms: [29, 12, 5, 2, 1], family: "pell" },
    };
    assert(s.terms@ =~= signature_terms(algorithm, variant));
    s
}

/// Unfolds the gcd fold of a five-term sequence into its nested form.
proof fn lemma_five_terms(t: Seq<u32>)
    requires
        t.len() == 5,
    ensures
        gcd_fold(t) == gcd5(t[0] as nat, t[1] as nat, t[2] as nat, t[3] as nat, t[4] as nat),
        max_spec(t) == max5(t[0] as nat, t[1] as nat, t[2] as nat, t[3] as nat, t[4] as nat),
{
    reveal_with_fuel(gcd_fold, 6);
    let t1 = t.drop_last().drop_last().drop_last().drop_last();
    let t2 = t.drop_last().drop_last().drop_last();
    let t3 = t.drop_last().drop_last();
    let t4 = t.drop_last();
    assert(t1.drop_last() =~= Seq::<u32>::empty());
    assert(t1 =~= seq![t[0]]);
    assert(t2 =~= seq![t[0], t[1]]);
    assert(t3 =~= seq![t[0], t[1], t[2]]);
    assert(t4 =~= seq![t[0], t[1], t[2], t[3]]);
    assert(max_spec(t1) == t[0] as nat);
    assert(max_spec(t2) == max2(t[0] as nat, t[1] as nat));
    assert(max_spec(t3) == max2(max_spec(t2), t[2] as nat));
    assert(max_spec(t4) == max2(max_spec(t3), t[3] as nat));
    assert(max_spec(t) == max2(max_spec(t4), t[4] as nat));
}

/// The larger of two.
pub open spec fn max2(a: nat, b: nat) -> nat {
    if b > a { b } else { a }
}

/// The largest of five, folded from the left.
pub open spec fn max5(a: nat, b: nat, c: nat, d: nat, e: nat) -> nat {
    max2(max2(max2(max2(a, b), c), d), e)
}

/// The gcd of five, folded from 0 as the signature's own fold does.
pub open spec fn gcd5(a: nat, b: nat, c: nat, d: nat, e: nat) -> nat {
    gcd_spec(gcd_spec(gcd_spec(gcd_spec(gcd_spec(0, a), b), c), d), e)
}

/// The period of the signature `[a, b, c, d, e]` is `p`, its gcd taken by
/// folding Euclid's algorithm over the terms through `g1, g2, g3, g4, g`.
proof fn lemma_period_of(
    a: u32, b: u32, c: u32, d: u32, e: u32,
    g1: nat, g2: nat, g3: nat, g4: nat, g: nat, p: nat,
)
    requires
        gcd_spec(0, a as nat) == g1,
        gcd_spec(g1, b as nat) == g2,
        gcd_spec(g2, c as nat) == g3,
        gcd_spec(g3, d as nat) == g4,
        gcd_spec(g4, e as nat) == g,
        g > 0,
        max5(a as nat, b as nat, c as nat, d as nat, e as nat) / g == p,
    ensures
        period_spec(seq![a, b, c, d, e]) == p,
{
    lemma_five_terms(seq![a, b, c, d, e]);
}

/// The periods of the roster's signatures.
proof fn lemma_roster_periods()
    ensures
        period_spec(seq![30u32, 24, 18, 12, 6]) == 5,
        period_spec(seq![34u32, 21, 13, 8, 5]) == 34,
        period_spec(seq![29u32, 18, 11, 7, 4]) == 29,
        period_spec(seq![4u32, 7, 11, 18, 29]) == 29,
        period_spec(seq![28u32, 21, 16, 12, 9]) == 28,
        period_spec(seq![29u32, 22, 17, 12, 10]) == 29,
        period_spec(seq![44u32, 24, 13, 7, 4]) == 44,
        period_spec(seq![29u32, 12, 5, 2, 1]) == 29,
{
    reveal_with_fuel(gcd_spec, 10);
    lemma_period_of(30, 24, 18, 12, 6, 30, 6, 6, 6, 6, 5);
    lemma_period_of(34, 21, 13, 8, 5, 34, 1, 1, 1, 1, 34);
    lemma_period_of(29, 18, 11, 7, 4, 29, 1, 1, 1, 1, 29);
    lemma_period_of(4, 7, 11, 18, 29, 4, 1, 1, 1, 1, 29);
    lemma_period_of(28, 21, 16, 12, 9, 28, 7, 1, 1, 1, 28);
    lemma_period_of(29, 22, 17, 12, 10, 29, 1, 1, 1, 1, 29);
    lemma_period_of(44, 24, 13, 7, 4, 44, 4, 1, 1, 1, 44);
    lemma_period_of(29, 12, 5, 2, 1, 29, 1, 1, 1, 1, 29);
}

/// **Exactly one entry repeats soon enough to hear, and it is FM I**: its
/// period is five base cycles; every other signature runs at least 28.
pub proof fn lemma_only_fm_one_is_commensurate(algorithm: Algorithm, variant: Variant)
    ensures
        algorithm is Fm1 ==> period_spec(signature_terms(algorithm, variant)) == 5,
        !(algorithm is Fm1) ==> period_spec(signature_terms(algorithm, variant)) >= 28,
{
    lemma_roster_periods();
}

/// **Every roster entry moves by its own signature.**
pub proof fn lemma_roster_signatures_are_distinct(i: int, j: int)
    requires
        0 <= i < ROSTER.len(),
        0 <= j < ROSTER.len(),
        i != j,
    ensures
        signature_terms(ROSTER[i].0, ROSTER[i].1) != signature_terms(ROSTER[j].0, ROSTER[j].1),
{
    let a = signature_terms(ROSTER[i].0, ROSTER[i].1);
    let b = signature_terms(ROSTER[j].0, ROSTER[j].1);
    assert(a[0] != b[0] || a[1] != b[1]);
}

/// **The mirrored Lucas pair is one signature reversed**, with one period.
pub proof fn lemma_mirrored_pair_is_reversed()
    ensures
        signature_terms(Algorithm::Rm, Variant::Golden)
            == signature_terms(Algorithm::Rm, Variant::Harmonic).reverse(),
        period_spec(signature_terms(Algorithm::Rm, Variant::Golden))
            == period_spec(signature_terms(Algorithm::Rm, Variant::Harmonic)),
{
    assert(signature_terms(Algorithm::Rm, Variant::Golden)
        =~= signature_terms(Algorithm::Rm, Variant::Harmonic).reverse());
    lemma_roster_periods();
}

/// Lucas numbers: 2, 1, 3, 4, 7, 11, …
pub open spec fn lucas(n: nat) -> nat
    decreases n,
{
    if n == 0 { 2 } else if n == 1 { 1 } else { lucas((n - 1) as nat) + lucas((n - 2) as nat) }
}

/// Padovan numbers: 1, 1, 1, 2, 2, 3, 4, 5, 7, …, each the sum of the second
/// and third before it.
pub open spec fn padovan(n: nat) -> nat
    decreases n,
{
    if n <= 2 { 1 } else { padovan((n - 2) as nat) + padovan((n - 3) as nat) }
}

/// Perrin numbers: 3, 0, 2, 3, 2, 5, …, the Padovan rule from another start.
pub open spec fn perrin(n: nat) -> nat
    decreases n,
{
    if n == 0 { 3 } else if n == 1 { 0 } else if n == 2 { 2 } else {
        perrin((n - 2) as nat) + perrin((n - 3) as nat)
    }
}

/// Tribonacci numbers: 0, 0, 1, 1, 2, 4, 7, …, each the sum of the three before.
pub open spec fn tribonacci(n: nat) -> nat
    decreases n,
{
    if n <= 1 { 0 } else if n == 2 { 1 } else {
        tribonacci((n - 1) as nat) + tribonacci((n - 2) as nat) + tribonacci((n - 3) as nat)
    }
}

/// Pell numbers: 0, 1, 2, 5, 12, 29, …, each twice the one before plus the
/// one before that.
pub open spec fn pell(n: nat) -> nat
    decreases n,
{
    if n == 0 { 0 } else if n == 1 { 1 } else { 2 * pell((n - 1) as nat) + pell((n - 2) as nat) }
}

/// **Each signature is five consecutive members of the sequence its family
/// names**, largest first (the mirrored Lucas entry smallest first): harmonic
/// multiples `6·5 … 6·1`, Fibonacci `F(9) … F(5)`, Lucas `L(7) … L(3)`,
/// Padovan `P(13) … P(9)`, Perrin `P(12) … P(8)`, Tribonacci `T(9) … T(5)`,
/// Pell `P(5) … P(1)`.
pub proof fn lemma_signatures_follow_their_families(algorithm: Algorithm, variant: Variant)
    ensures
        ({
            let t = signature_terms(algorithm, variant);
            let f = signature_family(algorithm, variant);
            &&& t.len() == 5
            &&& match (algorithm, variant) {
                (Algorithm::Fm1, _) => f == "harmonic"@
                    && forall|i: int| 0 <= i < 5 ==> #[trigger] t[i] == 6 * (5 - i),
                (Algorithm::Fm2, _) => f == "fibonacci"@
                    && forall|i: int| 0 <= i < 5 ==> #[trigger] t[i] == fib((9 - i) as nat),
                (Algorithm::Rm, Variant::Harmonic) => f == "lucas"@
                    && forall|i: int| 0 <= i < 5 ==> #[trigger] t[i] == lucas((7 - i) as nat),
                (Algorithm::Rm, Variant::Golden) => f == "lucas mirrored"@
                    && forall|i: int| 0 <= i < 5 ==> #[trigger] t[i] == lucas((3 + i) as nat),
                (Algorithm::Am, Variant::Harmonic) => f == "padovan"@
                    && forall|i: int| 0 <= i < 5 ==> #[trigger] t[i] == padovan((13 - i) as nat),
                (Algorithm::Am, Variant::Golden) => f == "perrin"@
                    && forall|i: int| 0 <= i < 5 ==> #[trigger] t[i] == perrin((12 - i) as nat),
                (Algorithm::Rect, Variant::Harmonic) => f == "tribonacci"@
                    && forall|i: int| 0 <= i < 5 ==> #[trigger] t[i] == tribonacci((9 - i) as nat),
                (Algorithm::Rect, Variant::Golden) => f == "pell"@
                    && forall|i: int| 0 <= i < 5 ==> #[trigger] t[i] == pell((5 - i) as nat),
            }
        }),
{
    assert(fib(0) == 0);
    assert(fib(1) == 1);
    assert(fib(2) == 1);
    assert(fib(3) == 2);
    assert(fib(4) == 3);
    assert(fib(5) == 5);
    assert(fib(6) == 8);
    assert(fib(7) == 13);
    assert(fib(8) == 21);
    assert(fib(9) == 34);
    assert(lucas(0) == 2);
    assert(lucas(1) == 1);
    assert(lucas(2) == 3);
    assert(lucas(3) == 4);
    assert(lucas(4) == 7);
    assert(lucas(5) == 11);
    assert(lucas(6) == 18);
    assert(lucas(7) == 29);
    assert(padovan(0) == 1);
    assert(padovan(1) == 1);
    assert(padovan(2) == 1);
    assert(padovan(3) == 2);
    assert(padovan(4) == 2);
    assert(padovan(5) == 3);
    assert(padovan(6) == 4);
    assert(padovan(7) == 5);
    assert(padovan(8) == 7);
    assert(padovan(9) == 9);
    assert(padovan(10) == 12);
    assert(padovan(11) == 16);
    assert(padovan(12) == 21);
    assert(padovan(13) == 28);
    assert(perrin(0) == 3);
    assert(perrin(1) == 0);
    assert(perrin(2) == 2);
    assert(perrin(3) == 3);
    assert(perrin(4) == 2);
    assert(perrin(5) == 5);
    assert(perrin(6) == 5);
    assert(perrin(7) == 7);
    assert(perrin(8) == 10);
    assert(perrin(9) == 12);
    assert(perrin(10) == 17);
    assert(perrin(11) == 22);
    assert(perrin(12) == 29);
    assert(tribonacci(0) == 0);
    assert(tribonacci(1) == 0);
    assert(tribonacci(2) == 1);
    assert(tribonacci(3) == 1);
    assert(tribonacci(4) == 2);
    assert(tribonacci(5) == 4);
    assert(tribonacci(6) == 7);
    assert(tribonacci(7) == 13);
    assert(tribonacci(8) == 24);
    assert(tribonacci(9) == 44);
    assert(pell(0) == 0);
    assert(pell(1) == 1);
    assert(pell(2) == 2);
    assert(pell(3) == 5);
    assert(pell(4) == 12);
    assert(pell(5) == 29);
}

} // verus!
