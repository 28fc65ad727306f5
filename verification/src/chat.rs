//! Reading chat: names, IRC lines, and the lines piped in on stdin.
//!
//! Nothing here is interpreted beyond what the relay needs: who spoke, and
//! what they said.

use vstd::prelude::*;
use crate::text::{
    append_str, chars_of, find_char, find_from, find_pair, find_pair_from, lemma_find_from_bounds,
    lemma_find_pair_from_bounds, matches_at, occurs_at, owned, string_of, string_of_range,
    trim_bounds, trimmed, utf8_len,
};

verus! {

/// The characters a chat name may keep on stream: ASCII letters, digits, `_`.
pub open spec fn name_char(c: char) -> bool {
    ('0' <= c <= '9') || ('a' <= c <= 'z') || ('A' <= c <= 'Z') || c == '_'
}

/// The characters of `s` a chat name may keep, in order.
pub open spec fn kept_name_chars(s: Seq<char>) -> Seq<char> {
    s.filter(|c: char| name_char(c))
}

/// A name cut to the allowed characters and to 25 of them, or `chat`.
pub open spec fn clean_name_spec(name: Seq<char>) -> Seq<char> {
    let kept = kept_name_chars(name);
    let cut = if kept.len() > 25 { kept.take(25) } else { kept };
    if cut.len() == 0 { "chat"@ } else { cut }
}

fn is_name_char(c: char) -> (r: bool)
    ensures
        r == name_char(c),
{
    ('0' <= c && c <= '9') || ('a' <= c && c <= 'z') || ('A' <= c && c <= 'Z') || c == '_'
}

/// Chat names go on stream: keep them to the character set both Twitch and
/// sanity allow, and short.
pub fn clean_name(name: &str) -> (s: String)
    ensures
        s@ == clean_name_spec(name@),
{
    let chars = chars_of(name);
    let mut kept: Vec<char> = Vec::new();
    let mut i: usize = 0;
    while i < chars.len() && kept.len() < 25
        invariant
            i <= chars.len(),
            kept.len() <= 25,
            chars@ == name@,
            kept@ == kept_name_chars(chars@.subrange(0, i as int)),
        decreases chars.len() - i,
    {
        proof {
            reveal(Seq::filter);
            assert(chars@.subrange(0, i + 1).drop_last() =~= chars@.subrange(0, i as int));
        }
        if is_name_char(chars[i]) {
            kept.push(chars[i]);
        }
        i += 1;
    }
    proof {
        let whole = kept_name_chars(chars@);
        if i < chars.len() {
            lemma_filter_prefix(chars@, |c: char| name_char(c), i as int);
            assert(kept@.len() == 25);
            assert(whole.take(25) =~= kept@);
            if whole.len() == 25 {
                assert(whole =~= whole.take(25));
            }
        } else {
            assert(chars@.subrange(0, i as int) =~= chars@);
        }
        if kept@.len() > 0 {
            assert(clean_name_spec(name@) == kept@);
        }
    }
    if kept.len() == 0 {
        owned("chat")
    } else {
        string_of(&kept)
    }
}

/// Filtering a prefix gives a prefix of the filtered whole.
proof fn lemma_filter_prefix(s: Seq<char>, pred: spec_fn(char) -> bool, i: int)
    requires
        0 <= i <= s.len(),
    ensures
        s.subrange(0, i).filter(pred).len() <= s.filter(pred).len(),
        s.filter(pred).subrange(0, s.subrange(0, i).filter(pred).len() as int)
            == s.subrange(0, i).filter(pred),
    decreases s.len() - i,
{
    reveal(Seq::filter);
    if i < s.len() {
        lemma_filter_prefix(s, pred, i + 1);
        assert(s.subrange(0, i + 1).drop_last() =~= s.subrange(0, i));
        let a = s.subrange(0, i).filter(pred);
        let b = s.subrange(0, i + 1).filter(pred);
        let w = s.filter(pred);
        assert(w.subrange(0, a.len() as int) =~= b.subrange(0, a.len() as int));
    } else {
        assert(s.subrange(0, i) =~= s);
        assert(s.filter(pred).subrange(0, s.filter(pred).len() as int) =~= s.filter(pred));
    }
}

/// `:nick!user@host PRIVMSG #channel :message` read as (nick, message).
pub open spec fn privmsg_spec(line: Seq<char>) -> Option<(Seq<char>, Seq<char>)> {
    if line.len() == 0 || line[0] != ':' {
        None
    } else {
        let rest = line.subrange(1, line.len() as int);
        match find_from(rest, ' ', 0) {
            None => None,
            Some(sp) => {
                let prefix = rest.subrange(0, sp);
                let after = rest.subrange(sp + 1, rest.len() as int);
                if !occurs_at(after, "PRIVMSG "@, 0) {
                    None
                } else {
                    let body = after.subrange("PRIVMSG "@.len() as int, after.len() as int);
                    match find_pair_from(body, ' ', ':', 0) {
                        None => None,
                        Some(q) => {
                            let text = body.subrange(q + 2, body.len() as int);
                            let nick = match find_from(prefix, '!', 0) {
                                Some(b) => prefix.subrange(0, b),
                                None => prefix,
                            };
                            Some((nick, text))
                        },
                    }
                }
            },
        }
    }
}

/// A copy of `v[from..to]`.
fn sub_vec(v: &[char], from: usize, to: usize) -> (r: Vec<char>)
    requires
        from <= to <= v.len(),
    ensures
        r@ == v@.subrange(from as int, to as int),
{
    let mut r: Vec<char> = Vec::new();
    let mut i = from;
    while i < to
        invariant
            from <= i <= to <= v.len(),
            r@ == v@.subrange(from as int, i as int),
        decreases to - i,
    {
        r.push(v[i]);
        i += 1;
        assert(r@ =~= v@.subrange(from as int, i as int));
    }
    r
}

/// `:nick!user@host PRIVMSG #channel :message` → (nick, message)
pub fn parse_privmsg(line: &str) -> (r: Option<(String, String)>)
    ensures
        r is None <==> privmsg_spec(line@) is None,
        r matches Some(p) ==> privmsg_spec(line@) == Some((p.0@, p.1@)),
{
    let l = chars_of(line);
    if l.len() == 0 || l[0] != ':' {
        return None;
    }
    let rest = sub_vec(&l, 1, l.len());
    let sp = match find_char(&rest, ' ', 0) {
        None => return None,
        Some(sp) => sp,
    };
    proof {
        lemma_find_from_bounds(rest@, ' ', 0);
    }
    let prefix = sub_vec(&rest, 0, sp);
    let after = sub_vec(&rest, sp + 1, rest.len());
    let tag = chars_of("PRIVMSG ");
    if !matches_at(&after, &tag, 0) {
        return None;
    }
    let body = sub_vec(&after, tag.len(), after.len());
    let q = match find_pair(&body, ' ', ':', 0) {
        None => return None,
        Some(q) => q,
    };
    proof {
        lemma_find_pair_from_bounds(body@, ' ', ':', 0);
    }
    let text = string_of_range(&body, q + 2, body.len());
    let nick = match find_char(&prefix, '!', 0) {
        Some(b) => {
            proof {
                lemma_find_from_bounds(prefix@, '!', 0);
            }
            string_of_range(&prefix, 0, b)
        },
        None => string_of(&prefix),
    };
    Some((nick, text))
}

/// A line piped in on stdin, read as (speaker, message).
///
/// Blank lines are skipped. A leading `[h:mm:ss]` stamp is dropped, and a
/// `name: ` prefix of at most 40 bytes names the speaker; otherwise the whole
/// line is the message and the speaker is `chat`.
pub open spec fn chat_line_spec(raw: Seq<char>) -> Option<(Seq<char>, Seq<char>)> {
    let line = trimmed(raw);
    if line.len() == 0 {
        None
    } else {
        let line = if line[0] == '[' && find_from(line, ']', 0) is Some {
            trimmed(line.subrange(find_from(line, ']', 0)->0 + 1, line.len() as int))
        } else {
            line
        };
        match find_pair_from(line, ':', ' ', 0) {
            Some(q) if q > 0 && utf8_len(line.subrange(0, q)) <= 40 => Some(
                (line.subrange(0, q), line.subrange(q + 2, line.len() as int)),
            ),
            _ => Some(("chat"@, line)),
        }
    }
}

/// Whether `chars[from..to]` takes at most `limit` bytes in UTF-8.
fn utf8_len_at_most(chars: &[char], from: usize, to: usize, limit: usize) -> (r: bool)
    requires
        from <= to <= chars.len(),
        limit <= 1000,
    ensures
        r == (utf8_len(chars@.subrange(from as int, to as int)) <= limit),
{
    let mut n: usize = 0;
    let mut i = from;
    while i < to
        invariant
            from <= i <= to <= chars.len(),
            limit <= 1000,
            n == utf8_len(chars@.subrange(from as int, i as int)),
            n <= limit,
        decreases to - i,
    {
        let u = chars[i] as u32;
        let w: usize = if u < 0x80 { 1 } else if u < 0x800 { 2 } else if u < 0x10000 { 3 } else { 4 };
        assert(chars@.subrange(from as int, i + 1).drop_last() =~= chars@.subrange(from as int, i as int));
        n = n + w;
        i += 1;
        if n > limit {
            proof {
                lemma_utf8_len_prefix(chars@.subrange(from as int, to as int), (i - from) as int);
                assert(chars@.subrange(from as int, to as int).subrange(0, (i - from) as int)
                    =~= chars@.subrange(from as int, i as int));
            }
            return false;
        }
    }
    true
}

/// A prefix never takes more bytes than the whole.
proof fn lemma_utf8_len_prefix(s: Seq<char>, k: int)
    requires
        0 <= k <= s.len(),
    ensures
        utf8_len(s.subrange(0, k)) <= utf8_len(s),
    decreases s.len() - k,
{
    if k < s.len() {
        lemma_utf8_len_prefix(s, k + 1);
        assert(s.subrange(0, k + 1).drop_last() =~= s.subrange(0, k));
    } else {
        assert(s.subrange(0, k) =~= s);
    }
}

/// Trims `v[from..to]`, as `str::trim` does.
fn trim_vec(v: &[char], from: usize, to: usize) -> (r: Vec<char>)
    requires
        from <= to <= v.len(),
    ensures
        r@ == trimmed(v@.subrange(from as int, to as int)),
{
    let (a, b) = trim_bounds(v, from, to);
    let r = sub_vec(v, a, b);
    assert(r@ =~= v@.subrange(from as int, to as int).subrange((a - from) as int, (b - from) as int));
    r
}

/// Read one line from stdin: `[h:mm:ss] user: message`, `user: message`, or a
/// bare message. None for a blank line.
pub fn parse_chat_line(raw: &str) -> (r: Option<(String, String)>)
    ensures
        r is None <==> chat_line_spec(raw@) is None,
        r matches Some(p) ==> chat_line_spec(raw@) == Some((p.0@, p.1@)),
{
    let all = chars_of(raw);
    let first = trim_vec(&all, 0, all.len());
    assert(all@.subrange(0, all.len() as int) =~= raw@);
    if first.len() == 0 {
        return None;
    }
    let line = if first[0] == '[' {
        match find_char(&first, ']', 0) {
            Some(p) => {
                proof {
                    lemma_find_from_bounds(first@, ']', 0);
                }
                trim_vec(&first, p + 1, first.len())
            },
            None => first,
        }
    } else {
        first
    };
    match find_pair(&line, ':', ' ', 0) {
        Some(q) => {
            proof {
                lemma_find_pair_from_bounds(line@, ':', ' ', 0);
            }
            if q > 0 && utf8_len_at_most(&line, 0, q, 40) {
                return Some((string_of_range(&line, 0, q), string_of_range(&line, q + 2, line.len())));
            }
        },
        None => {},
    }
    Some((owned("chat"), string_of(&line)))
}

/// The first complete `\r\n`-terminated line of what the socket has sent so
/// far, and what is left after it.
pub open spec fn next_line_spec(acc: Seq<char>) -> Option<(Seq<char>, Seq<char>)> {
    match find_pair_from(acc, '\r', '\n', 0) {
        None => None,
        Some(p) => Some((acc.subrange(0, p), acc.subrange(p + 2, acc.len() as int))),
    }
}

/// Split the first complete line off the buffer.
pub fn next_line(acc: &str) -> (r: Option<(String, String)>)
    ensures
        r is None <==> next_line_spec(acc@) is None,
        r matches Some(p) ==> next_line_spec(acc@) == Some((p.0@, p.1@)),
{
    let a = chars_of(acc);
    match find_pair(&a, '\r', '\n', 0) {
        None => None,
        Some(p) => {
            proof {
                lemma_find_pair_from_bounds(a@, '\r', '\n', 0);
            }
            Some((string_of_range(&a, 0, p), string_of_range(&a, p + 2, a.len())))
        },
    }
}

/// What one IRC line asks of the relay.
pub enum IrcEvent {
    /// A keepalive: send this reply back.
    Pong(String),
    /// A chat message: (nick, text).
    Chat(String, String),
    /// Anything else.
    Ignore,
}

/// The reply to a `PING` line: `PONG` and whatever followed `PING`.
pub open spec fn pong_spec(line: Seq<char>) -> Seq<char> {
    "PONG"@ + line.subrange("PING"@.len() as int, line.len() as int) + "\r\n"@
}

/// Answer a keepalive, or read a chat message, or ignore the line.
pub fn irc_event(line: &str) -> (e: IrcEvent)
    ensures
        occurs_at(line@, "PING"@, 0) ==> (e matches IrcEvent::Pong(reply) && reply@ == pong_spec(line@)),
        !occurs_at(line@, "PING"@, 0) ==> match privmsg_spec(line@) {
            Some(p) => (e matches IrcEvent::Chat(from, text) && from@ == p.0 && text@ == p.1),
            None => e is Ignore,
        },
{
    let l = chars_of(line);
    let ping = chars_of("PING");
    if matches_at(&l, &ping, 0) {
        let mut reply = owned("PONG");
        let rest = string_of_range(&l, ping.len(), l.len());
        append_str(&mut reply, rest.as_str());
        append_str(&mut reply, "\r\n");
        return IrcEvent::Pong(reply);
    }
    match parse_privmsg(line) {
        Some((from, text)) => IrcEvent::Chat(from, text),
        None => IrcEvent::Ignore,
    }
}

/// Leading `#` marks removed from a channel name.
pub open spec fn hashes_end(s: Seq<char>, i: int) -> int
    decreases s.len() - i,
{
    if 0 <= i < s.len() && s[i] == '#' { hashes_end(s, i + 1) } else { i }
}

pub open spec fn ascii_lower(c: char) -> char {
    if 'A' <= c <= 'Z' { ((c as u32) + 32) as char } else { c }
}

/// The channel to join: leading `#`s dropped, ASCII letters lowercased.
pub open spec fn channel_spec(channel: Seq<char>) -> Seq<char> {
    channel.subrange(hashes_end(channel, 0), channel.len() as int).map_values(|c: char| ascii_lower(c))
}

fn lower(c: char) -> (r: char)
    ensures
        r == ascii_lower(c),
{
    if 'A' <= c && c <= 'Z' {
        let u: u8 = (c as u8) + 32;
        u as char
    } else {
        c
    }
}

proof fn lemma_hashes_end_bounds(s: Seq<char>, i: int)
    requires
        0 <= i <= s.len(),
    ensures
        i <= hashes_end(s, i) <= s.len(),
    decreases s.len() - i,
{
    if i < s.len() && s[i] == '#' {
        lemma_hashes_end_bounds(s, i + 1);
    }
}

/// The channel name as Twitch wants it: no leading `#`, lowercase.
pub fn channel_name(channel: &str) -> (r: String)
    ensures
        r@ == channel_spec(channel@),
{
    let c = chars_of(channel);
    let mut i: usize = 0;
    proof {
        lemma_hashes_end_bounds(c@, 0);
    }
    while i < c.len() && c[i] == '#'
        invariant
            i <= c.len(),
            hashes_end(c@, i as int) == hashes_end(c@, 0),
        decreases c.len() - i,
    {
        i += 1;
    }
    let start = i;
    let mut out: Vec<char> = Vec::new();
    while i < c.len()
        invariant
            start <= i <= c.len(),
            out@ == c@.subrange(start as int, i as int).map_values(|x: char| ascii_lower(x)),
        decreases c.len() - i,
    {
        out.push(lower(c[i]));
        i += 1;
        assert(out@ =~= c@.subrange(start as int, i as int).map_values(|x: char| ascii_lower(x)));
    }
    string_of(&out)
}

/// The anonymous, read-only login and join for a channel.
pub open spec fn login_spec(channel: Seq<char>) -> Seq<char> {
    "NICK justinfan61803\r\nJOIN #"@ + channel + "\r\n"@
}

/// `justinfan<digits>` is Twitch's documented anonymous, read-only login.
pub fn login_line(channel: &str) -> (r: String)
    ensures
        r@ == login_spec(channel@),
{
    let mut s = owned("NICK justinfan61803\r\nJOIN #");
    append_str(&mut s, channel);
    append_str(&mut s, "\r\n");
    s
}

/// An ASCII letter of either case, an ASCII digit, or `_`, by code point.
pub open spec fn ascii_word_char(c: char) -> bool {
    let u = c as u32;
    (48 <= u <= 57) || (65 <= u <= 90) || (97 <= u <= 122) || u == 95
}

proof fn lemma_word_char(c: char)
    ensures
        ascii_word_char(c) <==> name_char(c),
{
    assert(('0' as u32) == 48 && ('9' as u32) == 57 && ('A' as u32) == 65 && ('Z' as u32) == 90);
    assert(('a' as u32) == 97 && ('z' as u32) == 122 && ('_' as u32) == 95);
}

proof fn lemma_filter_keeps_all(s: Seq<char>)
    requires
        forall|i: int| 0 <= i < s.len() ==> ascii_word_char(#[trigger] s[i]),
    ensures
        kept_name_chars(s) == s,
    decreases s.len(),
{
    reveal(Seq::filter);
    if s.len() > 0 {
        let init = s.drop_last();
        assert forall|i: int| 0 <= i < init.len() implies ascii_word_char(#[trigger] init[i]) by {
            assert(init[i] == s[i]);
        }
        lemma_filter_keeps_all(init);
        assert(ascii_word_char(s[s.len() - 1]));
        lemma_word_char(s.last());
        assert((|c: char| name_char(c))(s.last()));
        assert(init.push(s.last()) =~= s);
    }
}

/// **A name already made of `[A-Za-z0-9_]`, one to 25 of them, goes on
/// stream unchanged.**
pub proof fn lemma_clean_name_keeps_a_clean_name(name: Seq<char>)
    requires
        1 <= name.len() <= 25,
        forall|i: int| 0 <= i < name.len() ==> ascii_word_char(#[trigger] name[i]),
    ensures
        clean_name_spec(name) == name,
{
    lemma_filter_keeps_all(name);
}

/// **What goes on stream is `chat` or at most 25 characters of
/// `[A-Za-z0-9_]`, each taken from the name.**
pub proof fn lemma_clean_name_is_clean(name: Seq<char>)
    ensures
        clean_name_spec(name) == "chat"@ || ({
            let out = clean_name_spec(name);
            &&& 1 <= out.len() <= 25
            &&& forall|i: int| 0 <= i < out.len() ==> ascii_word_char(#[trigger] out[i]) && name.contains(out[i])
        }),
{
    broadcast use vstd::seq_lib::group_filter_ensures;
    let kept = kept_name_chars(name);
    let out = clean_name_spec(name);
    if out != "chat"@ {
        assert forall|i: int| 0 <= i < out.len() implies ascii_word_char(#[trigger] out[i]) && name.contains(out[i]) by {
            assert(out[i] == kept[i]);
            assert(name_char(kept[i]));
            lemma_word_char(kept[i]);
            assert(kept.contains(kept[i]));
            name.lemma_filter_contains_rev(|c: char| name_char(c), kept[i]);
        }
    }
}

/// `find_pair_from` finds the first place `a` is followed by `b`.
proof fn lemma_find_pair_first(s: Seq<char>, a: char, b: char, from: int, q: int)
    requires
        0 <= from <= q,
        q + 1 < s.len(),
        s[q] == a,
        s[q + 1] == b,
        forall|j: int| from <= j < q ==> !(s[j] == a && #[trigger] s[j + 1] == b),
    ensures
        find_pair_from(s, a, b, from) == Some(q),
    decreases q - from,
{
    if from < q {
        assert(!(s[from] == a && s[from + 1] == b));
        lemma_find_pair_first(s, a, b, from + 1, q);
    }
}

/// **A line `name: message` that does not open with a stamp is split as it
/// stands**: the speaker is the name (not empty, at most 40 bytes, holding no
/// `": "`), the message is the rest verbatim, whatever brackets it holds.
pub proof fn lemma_named_line_splits(raw: Seq<char>, u: Seq<char>, t: Seq<char>)
    requires
        trimmed(raw) == u + ": "@ + t,
        u.len() >= 1,
        u[0] != '[',
        utf8_len(u) <= 40,
        forall|j: int| 0 <= j < u.len() - 1 ==> !(u[j] == ':' && #[trigger] u[j + 1] == ' '),
    ensures
        chat_line_spec(raw) == Some((u, t)),
{
    reveal_strlit(": ");
    let line = u + ": "@ + t;
    let q = u.len() as int;
    assert(line[0] == u[0]);
    assert(line[q] == ':' && line[q + 1] == ' ');
    assert forall|j: int| 0 <= j < q implies !(line[j] == ':' && #[trigger] line[j + 1] == ' ') by {
        assert(line[j] == u[j]);
        if j < q - 1 {
            assert(line[j + 1] == u[j + 1]);
        } else {
            assert(line[j + 1] == ':');
        }
    }
    lemma_find_pair_first(line, ':', ' ', 0, q);
    assert(line.subrange(0, q) =~= u);
    assert(line.subrange(q + 2, line.len() as int) =~= t);
}

} // verus!
