//! Recognising a patch in a chat message.
//!
//! A patch is a run of `id:value` pairs, the format the instrument's SHARE
//! button puts in a URL fragment. It is recognised anywhere in a message,
//! with or without the URL around it. At least four pairs: a real patch
//! carries about sixteen, while "see you at 1:30, 2:45" parses as two.

use vstd::prelude::*;
use crate::text::string_of;
use vstd::string::StringSliceAdditionalSpecFns;

verus! {

pub open spec fn is_digit(c: u8) -> bool {
    48 <= c <= 57
}

pub open spec fn is_alnum(c: u8) -> bool {
    is_digit(c) || (65 <= c <= 90) || (97 <= c <= 122)
}

/// First index at or after `i` that is not a digit.
pub open spec fn digits_end(b: Seq<u8>, i: int) -> int
    decreases b.len() - i,
{
    if 0 <= i < b.len() && is_digit(b[i]) { digits_end(b, i + 1) } else { i }
}

/// First index at or after `i` that is neither a digit nor `.`.
pub open spec fn value_end(b: Seq<u8>, i: int) -> int
    decreases b.len() - i,
{
    if 0 <= i < b.len() && (is_digit(b[i]) || b[i] == 46) { value_end(b, i + 1) } else { i }
}

/// Whether `b[from..to]` holds a digit.
pub open spec fn has_digit(b: Seq<u8>, from: int, to: int) -> bool {
    exists|k: int| from <= k < to && #[trigger] is_digit(b[k])
}

/// An id of one or two digits starting at `i`, followed by `:`.
pub open spec fn id_ok(b: Seq<u8>, i: int) -> bool {
    let e = digits_end(b, i);
    e > i && e - i <= 2 && e < b.len() && b[e] == 58
}

/// Where the value of the pair at `i` starts, past an optional `-`.
pub open spec fn value_start(b: Seq<u8>, i: int) -> int {
    let v = digits_end(b, i) + 1;
    if 0 <= v < b.len() && b[v] == 45 { v + 1 } else { v }
}

/// Where the pair at `i` ends.
pub open spec fn pair_end(b: Seq<u8>, i: int) -> int {
    value_end(b, value_start(b, i))
}

/// A whole `id:value` pair starts at `i`: an id, and a value with a digit in it.
pub open spec fn pair_ok(b: Seq<u8>, i: int) -> bool {
    id_ok(b, i) && has_digit(b, value_start(b, i), pair_end(b, i))
}

pub proof fn lemma_digits_end_bounds(b: Seq<u8>, i: int)
    ensures
        digits_end(b, i) >= i,
        0 <= i <= b.len() ==> digits_end(b, i) <= b.len(),
        forall|k: int| i <= k < digits_end(b, i) ==> #[trigger] is_digit(b[k]),
    decreases b.len() - i,
{
    if 0 <= i < b.len() && is_digit(b[i]) {
        lemma_digits_end_bounds(b, i + 1);
    }
}

pub proof fn lemma_value_end_bounds(b: Seq<u8>, i: int)
    ensures
        value_end(b, i) >= i,
        0 <= i <= b.len() ==> value_end(b, i) <= b.len(),
    decreases b.len() - i,
{
    if 0 <= i < b.len() && (is_digit(b[i]) || b[i] == 46) {
        lemma_value_end_bounds(b, i + 1);
    }
}

pub proof fn lemma_pair_end_bounds(b: Seq<u8>, i: int)
    requires
        0 <= i,
        pair_ok(b, i),
    ensures
        i + 3 <= pair_end(b, i) <= b.len(),
{
    lemma_digits_end_bounds(b, i);
    lemma_value_end_bounds(b, value_start(b, i));
    let vs = value_start(b, i);
    let k = choose|k: int| vs <= k < pair_end(b, i) && #[trigger] is_digit(b[k]);
    assert(k < pair_end(b, i));
}

/// The run of comma-separated pairs starting at `i`, having already counted
/// `pairs` of them ending at `end`: the end of the run and its pair count.
pub open spec fn run(b: Seq<u8>, i: int, pairs: nat, end: int) -> (int, nat)
    decreases b.len() - i,
{
    if 0 <= i && pair_ok(b, i) {
        let e = pair_end(b, i);
        proof {
            lemma_pair_end_bounds(b, i);
        }
        if e < b.len() && b[e] == 44 {
            run(b, e + 1, pairs + 1, e)
        } else {
            (e, pairs + 1)
        }
    } else {
        (end, pairs)
    }
}

/// The run of pairs starting at `start`: where it ends, and how many pairs it holds.
pub open spec fn run_of_pairs_spec(b: Seq<u8>, start: int) -> (int, nat) {
    run(b, start, 0, start)
}

/// Parse `id:value(,id:value)*` starting at `start`; return (end, pair count).
///
/// An id is one or two digits; a value is an optional `-` then digits and
/// dots, at least one of them a digit.
pub fn run_of_pairs(b: &[u8], start: usize) -> (r: (usize, usize))
    ensures
        (r.0 as int, r.1 as nat) == run_of_pairs_spec(b@, start as int),
{
    let mut i = start;
    let mut pairs: usize = 0;
    let mut end = start;
    loop
        invariant
            pairs <= i,
            end <= i,
            i <= start || i <= b.len(),
            pairs > 0 ==> i <= b.len(),
            run(b@, i as int, pairs as nat, end as int) == run_of_pairs_spec(b@, start as int),
        decreases b.len() + 1 - i,
    {
        let id_start = i;
        proof {
            lemma_digits_end_bounds(b@, i as int);
        }
        while i < b.len() && 48 <= b[i] && b[i] <= 57
            invariant
                id_start <= i,
                id_start <= start || id_start <= b.len(),
                i <= id_start || i <= b.len(),
                digits_end(b@, i as int) == digits_end(b@, id_start as int),
            decreases b.len() - i,
        {
            i += 1;
        }
        if i == id_start || i - id_start > 2 || i >= b.len() || b[i] != 58 {
            assert(!id_ok(b@, id_start as int));
            return (end, pairs);
        }
        i += 1;
        if i < b.len() && b[i] == 45 {
            i += 1;
        }
        let val_start = i;
        assert(val_start == value_start(b@, id_start as int));
        let mut digits = false;
        while i < b.len() && ((48 <= b[i] && b[i] <= 57) || b[i] == 46)
            invariant
                val_start <= i <= b.len(),
                value_end(b@, i as int) == value_end(b@, val_start as int),
                digits == has_digit(b@, val_start as int, i as int),
            decreases b.len() - i,
        {
            proof {
                if digits {
                    let k = choose|k: int| val_start <= k < i && #[trigger] is_digit(b@[k]);
                    assert(val_start <= k < i + 1 && is_digit(b@[k]));
                }
                if 48 <= b[i as int] && b[i as int] <= 57 {
                    assert(is_digit(b@[i as int]));
                }
            }
            digits = digits || (48 <= b[i] && b[i] <= 57);
            i += 1;
        }
        assert(i == pair_end(b@, id_start as int));
        if !digits {
            assert(!pair_ok(b@, id_start as int));
            return (end, pairs);
        }
        assert(pair_ok(b@, id_start as int));
        pairs += 1;
        end = i;
        if i < b.len() && b[i] == 44 {
            i += 1;
        } else {
            return (end, pairs);
        }
    }
}

/// A position where a patch may start: a digit not preceded by a letter or digit.
pub open spec fn candidate(b: Seq<u8>, i: int) -> bool {
    0 <= i < b.len() && is_digit(b[i]) && (i == 0 || !is_alnum(b[i - 1]))
}

/// Whether the run `start..end` with `pairs` pairs beats the best so far:
/// four pairs at least, 400 bytes at most, and strictly longer.
pub open spec fn improves(best: Option<(int, int)>, start: int, end: int, pairs: nat) -> bool {
    pairs >= 4 && end - start <= 400 && (best matches Some(s) ==> s.1 - s.0 < end - start)
}

/// The scan over the message from `i`, carrying the best span so far.
///
/// Every candidate start is parsed, including one inside an earlier run.
pub open spec fn scan(b: Seq<u8>, i: int, best: Option<(int, int)>) -> Option<(int, int)>
    decreases b.len() - i,
{
    if i < 0 || i >= b.len() {
        best
    } else if candidate(b, i) {
        let (end, pairs) = run_of_pairs_spec(b, i);
        let next_best = if improves(best, i, end, pairs) { Some((i, end)) } else { best };
        scan(b, i + 1, next_best)
    } else {
        scan(b, i + 1, best)
    }
}

/// A patch may start at `i`: a candidate whose run holds four pairs at least
/// and spans 400 bytes at most.
pub open spec fn qualifies(b: Seq<u8>, i: int) -> bool {
    &&& candidate(b, i)
    &&& run_of_pairs_spec(b, i).1 >= 4
    &&& run_of_pairs_spec(b, i).0 - i <= 400
}

/// The length of the run starting at `i`.
pub open spec fn run_len(b: Seq<u8>, i: int) -> int {
    run_of_pairs_spec(b, i).0 - i
}

/// `best` is the longest qualifying run among the starts before `i`, the
/// earliest of them on a tie.
pub open spec fn best_before(b: Seq<u8>, i: int, best: Option<(int, int)>) -> bool {
    match best {
        None => forall|j: int| 0 <= j < i ==> !#[trigger] qualifies(b, j),
        Some(s) => {
            &&& 0 <= s.0 < i
            &&& qualifies(b, s.0)
            &&& run_of_pairs_spec(b, s.0).0 == s.1
            &&& forall|j: int| 0 <= j < i && #[trigger] qualifies(b, j) ==> run_len(b, j) <= s.1 - s.0
            &&& forall|j: int| 0 <= j < s.0 && #[trigger] qualifies(b, j) ==> run_len(b, j) < s.1 - s.0
        },
    }
}

/// The span of the patch in a message, if it holds one.
pub open spec fn patch_span(b: Seq<u8>) -> Option<(int, int)> {
    scan(b, 0, None)
}

/// Bytes read as the ASCII characters they encode.
pub open spec fn ascii_chars(b: Seq<u8>) -> Seq<char> {
    b.map_values(|x: u8| x as char)
}

/// The longest run of `id:value` pairs found anywhere in the message, or None.
///
/// At least four pairs and at most 400 bytes; the span is returned verbatim.
pub fn extract_patch(msg: &str) -> (r: Option<String>)
    ensures
        r is None <==> patch_span(msg.spec_bytes()) is None,
        r matches Some(p) ==> {
            let (s, e) = patch_span(msg.spec_bytes())->0;
            p@ == ascii_chars(msg.spec_bytes().subrange(s, e))
        },
{
    let b = msg.as_bytes();
    let mut best: Option<(usize, usize)> = None;
    let mut i: usize = 0;
    while i < b.len()
        invariant
            i <= b.len(),
            best matches Some(s) ==> s.0 <= s.1 <= b.len(),
            scan(b@, i as int, match best { Some(s) => Some((s.0 as int, s.1 as int)), None => None })
                == patch_span(b@),
        decreases b.len() - i,
    {
        if 48 <= b[i] && b[i] <= 57 && (i == 0 || !is_ascii_alnum(b[i - 1])) {
            let (end, pairs) = run_of_pairs(b, i);
            proof {
                lemma_run_bounds(b@, i as int, 0, i as int);
            }
            let longer = match best {
                None => true,
                Some((s, e)) => e - s < end - i,
            };
            if pairs >= 4 && end - i <= 400 && longer {
                best = Some((i, end));
            }
            i = i + 1;
        } else {
            i += 1;
        }
    }
    match best {
        None => None,
        Some((s, e)) => {
            let mut chars: Vec<char> = Vec::new();
            let mut k = s;
            while k < e
                invariant
                    s <= k <= e <= b.len(),
                    chars@ == ascii_chars(b@.subrange(s as int, k as int)),
                decreases e - k,
            {
                chars.push(b[k] as char);
                k += 1;
                assert(chars@ =~= ascii_chars(b@.subrange(s as int, k as int)));
            }
            Some(string_of(&chars))
        },
    }
}

/// ASCII letter or digit.
fn is_ascii_alnum(c: u8) -> (r: bool)
    ensures
        r == is_alnum(c),
{
    (48 <= c && c <= 57) || (65 <= c && c <= 90) || (97 <= c && c <= 122)
}

/// A run never ends before its start, and never past the message.
pub proof fn lemma_run_bounds(b: Seq<u8>, i: int, pairs: nat, end: int)
    requires
        0 <= i <= b.len(),
        0 <= end <= i,
    ensures
        run(b, i, pairs, end).0 >= end,
        run(b, i, pairs, end).0 <= b.len(),
        run(b, i, pairs, end).1 >= pairs,
        run(b, i, pairs, end).1 > pairs ==> run(b, i, pairs, end).0 > i,
    decreases b.len() - i,
{
    if pair_ok(b, i) {
        lemma_pair_end_bounds(b, i);
        let e = pair_end(b, i);
        if e < b.len() && b[e] == 44 {
            lemma_run_bounds(b, e + 1, pairs + 1, e);
        }
    }
}

/// **The patch is the longest run of pairs anywhere in the message**: a
/// message holds a patch exactly when some start qualifies (a candidate with
/// four pairs at least and 400 bytes at most), and then the patch is a
/// qualifying run that no other is longer than, the earliest of the longest.
pub proof fn lemma_patch_is_the_longest_run(b: Seq<u8>)
    ensures
        patch_span(b) is None <==> forall|j: int| !#[trigger] qualifies(b, j),
        patch_span(b) matches Some(s) ==> {
            &&& qualifies(b, s.0)
            &&& run_of_pairs_spec(b, s.0).0 == s.1
            &&& forall|j: int| #[trigger] qualifies(b, j) ==> run_len(b, j) <= s.1 - s.0
            &&& forall|j: int| j < s.0 && #[trigger] qualifies(b, j) ==> run_len(b, j) < s.1 - s.0
        },
{
    lemma_scan_best(b, 0, None);
    assert forall|j: int| #[trigger] qualifies(b, j) implies 0 <= j < b.len() by {}
}

proof fn lemma_scan_best(b: Seq<u8>, i: int, best: Option<(int, int)>)
    requires
        0 <= i <= b.len(),
        best_before(b, i, best),
    ensures
        best_before(b, b.len() as int, scan(b, i, best)),
    decreases b.len() - i,
{
    if i < b.len() {
        if candidate(b, i) {
            let (end, pairs) = run_of_pairs_spec(b, i);
            let next_best = if improves(best, i, end, pairs) { Some((i, end)) } else { best };
            assert(qualifies(b, i) <==> pairs >= 4 && end - i <= 400);
            assert(best_before(b, i + 1, next_best));
            lemma_scan_best(b, i + 1, next_best);
        } else {
            assert(!qualifies(b, i));
            assert(best_before(b, i + 1, best));
            lemma_scan_best(b, i + 1, best);
        }
    }
}

} // verus!
