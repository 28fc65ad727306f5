//! The engine's chord-rate decisions that are not pitch arithmetic: walking
//! the roster, and which degrees of a tuning a chord sounds.

use vstd::prelude::*;
use crate::pool::VOICES;
use crate::tuning::{Kind, ROSTER};

verus! {

/// Move `delta` entries along the roster from entry `cur`, wrapping both ways.
pub fn roster_step(cur: i32, delta: i32) -> (r: i32)
    requires
        i32::MIN <= cur + delta <= i32::MAX,
    ensures
        r == (cur + delta) % (ROSTER.len() as int),
        0 <= r < ROSTER.len(),
{
    let n: i32 = 8;
    assert(ROSTER.len() == 8);
    let x = cur + delta;
    if x >= 0 {
        x % n
    } else {
        let y: i32 = (-(x + 1)) % n;
        n - 1 - y
    }
}

/// The degree indices a chord sounds.
///
/// A chord tuning is voiced whole, as many degrees as there are voices; a
/// scale is stacked in thirds, degrees `r`, `r + 2`, `r + 4`, `r + 6` of `k`,
/// rooted where the golden rotation puts `r`.
pub open spec fn voiced_spec(kind: Kind, k: nat, r: nat) -> Seq<nat> {
    match kind {
        Kind::Chord => Seq::new(if k < VOICES { k } else { VOICES as nat }, |i: int| i as nat),
        Kind::Scale => Seq::new(4, |i: int| ((r + 2 * i) % (k as int)) as nat),
    }
}

/// The degree indices a chord sounds; see [`voiced_spec`].
pub fn voiced_degrees(kind: Kind, k: usize, r: usize) -> (v: Vec<usize>)
    requires
        k >= 1,
        r <= usize::MAX - 6,
    ensures
        v@.len() == voiced_spec(kind, k as nat, r as nat).len(),
        forall|i: int| 0 <= i < v@.len() ==> v@[i] as nat == #[trigger] voiced_spec(kind, k as nat, r as nat)[i],
        forall|i: int| 0 <= i < v@.len() ==> #[trigger] v@[i] < k,
{
    let mut v: Vec<usize> = Vec::new();
    match kind {
        Kind::Chord => {
            let m = if k < VOICES { k } else { VOICES };
            let mut i: usize = 0;
            while i < m
                invariant
                    i <= m,
                    m <= k,
                    m == (if k < VOICES { k } else { VOICES }),
                    v@.len() == i,
                    forall|j: int| 0 <= j < i ==> v@[j] == j,
                decreases m - i,
            {
                v.push(i);
                i += 1;
            }
        },
        Kind::Scale => {
            let mut s: usize = 0;
            while s < 4
                invariant
                    s <= 4,
                    r <= usize::MAX - 6,
                    k >= 1,
                    v@.len() == s,
                    forall|j: int| 0 <= j < s ==> v@[j] as int == (r + 2 * j) % (k as int),
                    forall|j: int| 0 <= j < s ==> #[trigger] v@[j] < k,
                decreases 4 - s,
            {
                v.push((r + 2 * s) % k);
                s += 1;
            }
        },
    }
    v
}

/// **A scale is stacked in thirds over all of its degrees**: four indices,
/// each a degree of the scale (below `k`), the `i`-th differing from `r + 2i`
/// by a multiple of `k`, so wrapping past the top lands where counting on would.
pub proof fn lemma_scale_is_stacked_in_thirds(k: nat, r: nat)
    requires
        k >= 1,
    ensures
        voiced_spec(Kind::Scale, k, r).len() == 4,
        forall|i: int| 0 <= i < 4 ==> {
            let d = #[trigger] voiced_spec(Kind::Scale, k, r)[i];
            &&& d < k
            &&& (r + 2 * i - d) % (k as int) == 0
        },
{
    assert forall|i: int| 0 <= i < 4 implies {
        let d = #[trigger] voiced_spec(Kind::Scale, k, r)[i];
        &&& d < k
        &&& (r + 2 * i - d) % (k as int) == 0
    } by {
        let x = r + 2 * i;
        let d = voiced_spec(Kind::Scale, k, r)[i];
        vstd::arithmetic::div_mod::lemma_fundamental_div_mod(x, k as int);
        let q = x / (k as int);
        assert(x - d == q * k) by (nonlinear_arith)
            requires
                d == x % (k as int),
                x == (k as int) * (x / (k as int)) + x % (k as int),
                q == x / (k as int);
        vstd::arithmetic::div_mod::lemma_mod_multiples_basic(q, k as int);
    }
}

/// **A chord is voiced whole, from its lowest degree up**: the first
/// `min(k, VOICES)` degrees, each once, in order.
pub proof fn lemma_chord_is_voiced_whole(k: nat)
    ensures
        voiced_spec(Kind::Chord, k, 0).len() == if k < VOICES { k } else { VOICES as nat },
        forall|i: int| 0 <= i < voiced_spec(Kind::Chord, k, 0).len() ==> #[trigger] voiced_spec(Kind::Chord, k, 0)[i] == i,
{
}

} // verus!
