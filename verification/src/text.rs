//! Text utilities over character sequences, shared by the modules that parse
//! and build strings.

use vstd::prelude::*;
use vstd::string::*;

verus! {

/// Calls `String::push`: the string afterwards is the old one with `c` appended.
#[verifier::external_body]
pub(crate) fn push_char(s: &mut String, c: char)
    ensures
        final(s)@ == old(s)@.push(c),
{
    s.push(c);
}

/// A string holding exactly the given characters.
pub fn string_of(chars: &[char]) -> (s: String)
    ensures
        s@ == chars@,
{
    string_of_range(chars, 0, chars.len())
}

/// A string holding `chars[from..to]`.
pub fn string_of_range(chars: &[char], from: usize, to: usize) -> (s: String)
    requires
        from <= to <= chars.len(),
    ensures
        s@ == chars@.subrange(from as int, to as int),
{
    let mut s = String::new();
    let mut i: usize = from;
    while i < to
        invariant
            from <= i <= to <= chars.len(),
            s@ == chars@.subrange(from as int, i as int),
        decreases to - i,
    {
        push_char(&mut s, chars[i]);
        assert(s@ =~= chars@.subrange(from as int, i + 1));
        i += 1;
    }
    s
}

/// The characters of a string, in order.
pub fn chars_of(s: &str) -> (v: Vec<char>)
    ensures
        v@ == s@,
{
    let mut v: Vec<char> = Vec::new();
    for c in it: s.chars()
        invariant
            v@ == it.seq().take(it.index() as int),
    {
        v.push(c);
    }
    v
}

/// A new string holding the characters of a literal or slice.
pub fn owned(s: &str) -> (r: String)
    ensures
        r@ == s@,
{
    s.to_owned()
}

/// Appends `t` to `s`.
pub fn append_str(s: &mut String, t: &str)
    ensures
        final(s)@ == old(s)@ + t@,
{
    s.append(t);
}

/// First index at or after `from` holding `c`.
pub open spec fn find_from(s: Seq<char>, c: char, from: int) -> Option<int>
    decreases s.len() - from,
{
    if from < 0 || from >= s.len() {
        None
    } else if s[from] == c {
        Some(from)
    } else {
        find_from(s, c, from + 1)
    }
}

/// First index at or after `from` where `a` is immediately followed by `b`.
pub open spec fn find_pair_from(s: Seq<char>, a: char, b: char, from: int) -> Option<int>
    decreases s.len() - from,
{
    if from < 0 || from + 1 >= s.len() {
        None
    } else if s[from] == a && s[from + 1] == b {
        Some(from)
    } else {
        find_pair_from(s, a, b, from + 1)
    }
}

pub proof fn lemma_find_from_bounds(s: Seq<char>, c: char, from: int)
    ensures
        find_from(s, c, from) matches Some(i) ==> from <= i < s.len() && s[i] == c,
    decreases s.len() - from,
{
    if 0 <= from < s.len() && s[from] != c {
        lemma_find_from_bounds(s, c, from + 1);
    }
}

pub proof fn lemma_find_pair_from_bounds(s: Seq<char>, a: char, b: char, from: int)
    ensures
        find_pair_from(s, a, b, from) matches Some(i) ==> from <= i && i + 1 < s.len(),
    decreases s.len() - from,
{
    if 0 <= from && from + 1 < s.len() && !(s[from] == a && s[from + 1] == b) {
        lemma_find_pair_from_bounds(s, a, b, from + 1);
    }
}

/// The first `c` in `s`, from `from` on.
pub fn find_char(s: &[char], c: char, from: usize) -> (r: Option<usize>)
    ensures
        r matches Some(i) ==> find_from(s@, c, from as int) == Some(i as int),
        r is None ==> find_from(s@, c, from as int) is None,
{
    let mut i = from;
    while i < s.len()
        invariant
            from <= i,
            find_from(s@, c, i as int) == find_from(s@, c, from as int),
        decreases s.len() - i,
    {
        if s[i] == c {
            return Some(i);
        }
        i += 1;
    }
    None
}

/// The first `a` immediately followed by `b` in `s`, from `from` on.
pub fn find_pair(s: &[char], a: char, b: char, from: usize) -> (r: Option<usize>)
    ensures
        r matches Some(i) ==> find_pair_from(s@, a, b, from as int) == Some(i as int),
        r is None ==> find_pair_from(s@, a, b, from as int) is None,
{
    let mut i = from;
    while i < s.len() && i + 1 < s.len()
        invariant
            from <= i,
            find_pair_from(s@, a, b, i as int) == find_pair_from(s@, a, b, from as int),
        decreases s.len() - i,
    {
        if s[i] == a && s[i + 1] == b {
            return Some(i);
        }
        i += 1;
    }
    None
}

/// Whether `pre` occurs in `s` at position `at`.
pub open spec fn occurs_at(s: Seq<char>, pre: Seq<char>, at: int) -> bool {
    0 <= at && at + pre.len() <= s.len() && s.subrange(at, at + pre.len()) == pre
}

/// Whether `pre` occurs in `s` at position `at`.
pub fn matches_at(s: &[char], pre: &[char], at: usize) -> (r: bool)
    ensures
        r == occurs_at(s@, pre@, at as int),
{
    if at > s.len() || pre.len() > s.len() - at {
        return false;
    }
    let mut k: usize = 0;
    while k < pre.len()
        invariant
            k <= pre.len(),
            at + pre.len() <= s.len(),
            forall|j: int| 0 <= j < k ==> s@[at + j] == pre@[j],
        decreases pre.len() - k,
    {
        if s[at + k] != pre[k] {
            assert(s@.subrange(at as int, at + pre.len())[k as int] != pre@[k as int]);
            return false;
        }
        k += 1;
    }
    assert(s@.subrange(at as int, at + pre.len()) =~= pre@);
    true
}

/// Unicode `White_Space`: the characters `char::is_whitespace` accepts.
pub open spec fn white_space(c: char) -> bool {
    let u = c as u32;
    (0x09 <= u <= 0x0D) || u == 0x20 || u == 0x85 || u == 0xA0 || u == 0x1680
        || (0x2000 <= u <= 0x200A) || u == 0x2028 || u == 0x2029 || u == 0x202F
        || u == 0x205F || u == 0x3000
}

/// Whether `c` has the Unicode `White_Space` property, the test that
/// `char::is_whitespace` makes, read off the property's list.
fn is_whitespace(c: char) -> (r: bool)
    ensures
        r == white_space(c),
{
    let u = c as u32;
    (0x09 <= u && u <= 0x0D) || u == 0x20 || u == 0x85 || u == 0xA0 || u == 0x1680
        || (0x2000 <= u && u <= 0x200A) || u == 0x2028 || u == 0x2029 || u == 0x202F
        || u == 0x205F || u == 0x3000
}

/// How many leading characters of `s` are white space.
pub open spec fn leading_space(s: Seq<char>, from: int) -> int
    decreases s.len() - from,
{
    if 0 <= from < s.len() && white_space(s[from]) { leading_space(s, from + 1) } else { from }
}

/// Index one past the last non-space character at or before `to`.
pub open spec fn trailing_space(s: Seq<char>, from: int, to: int) -> int
    decreases to - from,
{
    if from < to && white_space(s[to - 1]) { trailing_space(s, from, to - 1) } else { to }
}

/// `s` with leading and trailing white space removed, as `str::trim` does.
pub open spec fn trimmed(s: Seq<char>) -> Seq<char> {
    let a = leading_space(s, 0);
    s.subrange(a, trailing_space(s, a, s.len() as int))
}

pub proof fn lemma_leading_space_bounds(s: Seq<char>, from: int)
    requires
        0 <= from <= s.len(),
    ensures
        from <= leading_space(s, from) <= s.len(),
    decreases s.len() - from,
{
    if from < s.len() && white_space(s[from]) {
        lemma_leading_space_bounds(s, from + 1);
    }
}

pub proof fn lemma_trailing_space_bounds(s: Seq<char>, from: int, to: int)
    requires
        from <= to,
    ensures
        from <= trailing_space(s, from, to) <= to,
    decreases to - from,
{
    if from < to && white_space(s[to - 1]) {
        lemma_trailing_space_bounds(s, from, to - 1);
    }
}

/// The bounds of `s[from..to]` with white space trimmed from both ends.
pub fn trim_bounds(s: &[char], from: usize, to: usize) -> (r: (usize, usize))
    requires
        from <= to <= s.len(),
    ensures
        r.0 as int == leading_space(s@.subrange(from as int, to as int), 0) + from,
        r.1 as int == trailing_space(s@.subrange(from as int, to as int), r.0 - from, (to - from) as int) + from,
        from <= r.0 <= r.1 <= to,
{
    let ghost t = s@.subrange(from as int, to as int);
    let mut a = from;
    proof {
        lemma_leading_space_bounds(t, 0);
    }
    while a < to && is_whitespace(s[a])
        invariant
            from <= a <= to <= s.len(),
            t == s@.subrange(from as int, to as int),
            leading_space(t, (a - from) as int) == leading_space(t, 0),
        decreases to - a,
    {
        a += 1;
    }
    let mut b = to;
    proof {
        lemma_trailing_space_bounds(t, (a - from) as int, (to - from) as int);
    }
    while b > a && is_whitespace(s[b - 1])
        invariant
            from <= a <= b <= to <= s.len(),
            t == s@.subrange(from as int, to as int),
            trailing_space(t, (a - from) as int, (b - from) as int)
                == trailing_space(t, (a - from) as int, (to - from) as int),
        decreases b - a,
    {
        b -= 1;
    }
    (a, b)
}

/// Bytes in the UTF-8 encoding of one character.
pub open spec fn utf8_width(c: char) -> nat {
    let u = c as u32;
    if u < 0x80 { 1 } else if u < 0x800 { 2 } else if u < 0x10000 { 3 } else { 4 }
}

/// Bytes in the UTF-8 encoding of a character sequence: what `str::len` counts.
pub open spec fn utf8_len(s: Seq<char>) -> nat
    decreases s.len(),
{
    if s.len() == 0 { 0 } else { utf8_len(s.drop_last()) + utf8_width(s.last()) }
}

/// The decimal digits of `n`, most significant first.
pub open spec fn decimal(n: nat) -> Seq<char>
    decreases n,
{
    if n < 10 {
        seq![digit_char(n)]
    } else {
        decimal(n / 10).push(digit_char(n % 10))
    }
}

pub open spec fn digit_char(d: nat) -> char {
    ((d % 10) + 48) as char
}

/// A decimal digit character.
pub open spec fn is_digit_char(c: char) -> bool {
    48 <= (c as u32) <= 57
}

/// The number a string of decimal digits spells, most significant first:
/// each digit multiplies what came before by ten and adds itself.
pub open spec fn numeral_value(s: Seq<char>) -> int
    decreases s.len(),
{
    if s.len() == 0 {
        0
    } else {
        10 * numeral_value(s.drop_last()) + ((s.last() as u32) - 48)
    }
}

/// **`decimal(n)` is the base-ten numeral of `n`**: one digit at least, all
/// digits, no leading zero but for `0` itself, and reading it back gives `n`.
pub proof fn lemma_decimal_reads_back(n: nat)
    ensures
        decimal(n).len() >= 1,
        forall|i: int| 0 <= i < decimal(n).len() ==> is_digit_char(#[trigger] decimal(n)[i]),
        n > 0 ==> decimal(n)[0] != '0',
        numeral_value(decimal(n)) == n,
    decreases n,
{
    let d = n % 10;
    assert(((d % 10) + 48) as char as u32 == (d % 10) + 48);
    assert(('0' as u32) == 48);
    if n < 10 {
        assert(decimal(n) =~= seq![digit_char(n)]);
        assert(decimal(n).drop_last() =~= Seq::<char>::empty());
        assert(numeral_value(Seq::<char>::empty()) == 0);
        assert(decimal(n).last() as u32 == n + 48);
    } else {
        lemma_decimal_reads_back(n / 10);
        let s = decimal(n / 10);
        assert(decimal(n).drop_last() =~= s);
        assert(decimal(n)[0] == s[0]);
        assert(d % 10 == d);
        assert(decimal(n).last() as u32 == d + 48);
        assert(n == 10 * (n / 10) + d);
        assert forall|i: int| 0 <= i < decimal(n).len() implies is_digit_char(#[trigger] decimal(n)[i]) by {
            if i < s.len() {
                assert(decimal(n)[i] == s[i]);
            }
        }
    }
}

fn digit(d: u128) -> (c: char)
    requires
        d < 10,
    ensures
        c == digit_char(d as nat),
{
    let b: u8 = (d as u8) + 48;
    b as char
}

/// `n` written in decimal, as `u64`'s `Display` writes it.
pub fn decimal_string(n: u128) -> (s: String)
    ensures
        s@ == decimal(n as nat),
    decreases n,
{
    if n < 10 {
        let mut s = String::new();
        push_char(&mut s, digit(n));
        assert(s@ =~= decimal(n as nat));
        s
    } else {
        let mut s = decimal_string(n / 10);
        push_char(&mut s, digit(n % 10));
        s
    }
}

} // verus!
