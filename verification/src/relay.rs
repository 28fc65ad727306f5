//! The relay's policy: latest wins, but a patch holds the floor; and what the
//! page is told when it polls.
//!
//! A newly arrived patch does not interrupt the current one until the hold
//! time has passed; while the floor is held, later patches replace the
//! waiting one rather than queueing. A constant stream morphs rather than
//! thrashing.

use vstd::prelude::*;
use crate::chat::{clean_name, clean_name_spec};
use crate::patch::{extract_patch, patch_span, ascii_chars};
use crate::text::{
    append_str, chars_of, decimal, decimal_string, numeral_value, is_digit_char, lemma_decimal_reads_back, find_from, find_char, matches_at, occurs_at,
    owned, string_of_range, utf8_len, lemma_find_from_bounds,
};
use vstd::string::StringSliceAdditionalSpecFns;

verus! {

/// What the page polls for. `seq` only ever moves forward, so the page can
/// tell a new patch from the one it already applied.
pub struct Current {
    pub seq: u64,
    pub hash: String,
    pub from: String,
}

/// The floor: the patch now applied, the one waiting, and when the floor
/// was last taken.
pub struct Relay {
    pub current: Current,
    /// The patch waiting for the floor, as (speaker, patch).
    pub pending: Option<(String, String)>,
    /// When the last patch was applied, in nanoseconds on the caller's clock.
    pub last_applied: Option<u128>,
}

/// Time since `then`, saturating at zero as `Instant::elapsed` does.
pub open spec fn elapsed(now: u128, then: u128) -> int {
    if now >= then { now - then } else { 0 }
}

/// Whether a waiting patch may take the instrument now.
pub open spec fn floor_open(last_applied: Option<u128>, now: u128, hold: u128) -> bool {
    match last_applied {
        None => true,
        Some(t) => elapsed(now, t) >= hold,
    }
}

impl Relay {
    /// Nothing applied yet, nothing waiting.
    pub fn new() -> (r: Relay)
        ensures
            r.current.seq == 0,
            r.current.hash@ == Seq::<char>::empty(),
            r.current.from@ == Seq::<char>::empty(),
            r.pending is None,
            r.last_applied is None,
    {
        Relay {
            current: Current { seq: 0, hash: String::new(), from: String::new() },
            pending: None,
            last_applied: None,
        }
    }

    /// A chat line arrived. If it carries a patch, the patch becomes the one
    /// waiting, replacing any earlier one: latest wins. Returns the
    /// (speaker, patch) heard, for the log.
    pub fn hear(&mut self, from: &str, text: &str) -> (heard: Option<(String, String)>)
        ensures
            final(self).current == old(self).current,
            final(self).last_applied == old(self).last_applied,
            heard is None <==> patch_span(text.spec_bytes()) is None,
            heard is None ==> final(self).pending == old(self).pending,
            heard matches Some(h) ==> {
                &&& h.0@ == clean_name_spec(from@)
                &&& h.1@ == ascii_chars(text.spec_bytes().subrange(
                    patch_span(text.spec_bytes()).unwrap().0,
                    patch_span(text.spec_bytes()).unwrap().1,
                ))
                &&& final(self).pending matches Some(p) && p.0@ == h.0@ && p.1@ == h.1@
            },
    {
        match extract_patch(text) {
            None => None,
            Some(hash) => {
                let name = clean_name(from);
                let heard = (name.clone(), hash.clone());
                self.pending = Some((name, hash));
                Some(heard)
            },
        }
    }

    /// Give the floor to the waiting patch if the hold has passed. Returns
    /// whether a patch was applied.
    pub fn tick(&mut self, now: u128, hold: u128) -> (applied: bool)
        requires
            old(self).current.seq < u64::MAX,
        ensures
            applied <==> old(self).pending is Some && floor_open(old(self).last_applied, now, hold),
            applied ==> {
                &&& final(self).current.seq == old(self).current.seq + 1
                &&& final(self).current.from@ == old(self).pending.unwrap().0@
                &&& final(self).current.hash@ == old(self).pending.unwrap().1@
                &&& final(self).pending is None
                &&& final(self).last_applied == Some(now)
            },
            !applied ==> {
                &&& final(self).current == old(self).current
                &&& final(self).pending == old(self).pending
                &&& final(self).last_applied == old(self).last_applied
            },
    {
        let open = match self.last_applied {
            None => true,
            Some(t) => {
                let gone = if now >= t { now - t } else { 0 };
                gone >= hold
            },
        };
        if !open {
            return false;
        }
        match self.pending.take() {
            None => false,
            Some((from, hash)) => {
                self.current.seq = self.current.seq + 1;
                self.current.from = from;
                self.current.hash = hash;
                self.last_applied = Some(now);
                true
            },
        }
    }
}

/// The first line of a request, as `str::lines` reads it: up to the first
/// `\n`, less a `\r` before it; empty for an empty request.
pub open spec fn first_line_spec(req: Seq<char>) -> Seq<char> {
    match find_from(req, '\n', 0) {
        None => req,
        Some(p) => if p > 0 && req[p - 1] == '\r' { req.subrange(0, p - 1) } else { req.subrange(0, p) },
    }
}

/// The headers that let a cross-origin isolated https page read the reply.
pub open spec fn cors_spec() -> Seq<char> {
    "Access-Control-Allow-Origin: *\r\nCross-Origin-Resource-Policy: cross-origin\r\nCache-Control: no-store\r\n"@
}

/// `{"seq":…,"hash":"…","from":"…"}`.
pub open spec fn patch_json(seq: u64, hash: Seq<char>, from: Seq<char>) -> Seq<char> {
    "{\"seq\":"@ + decimal(seq as nat) + ",\"hash\":\""@ + hash + "\",\"from\":\""@ + from + "\"}"@
}

/// The status line and body for a request line.
pub open spec fn route(line: Seq<char>, cur_seq: u64, hash: Seq<char>, from: Seq<char>) -> (Seq<char>, Seq<char>) {
    if occurs_at(line, "GET /patch"@, 0) {
        ("200 OK"@, patch_json(cur_seq, hash, from))
    } else if occurs_at(line, "OPTIONS"@, 0) {
        ("204 No Content"@, Seq::empty())
    } else {
        ("404 Not Found"@, Seq::empty())
    }
}

/// The whole HTTP reply to a request.
pub open spec fn response_spec(req: Seq<char>, cur_seq: u64, hash: Seq<char>, from: Seq<char>) -> Seq<char> {
    let (status, body) = route(first_line_spec(req), cur_seq, hash, from);
    "HTTP/1.1 "@ + status + "\r\n"@ + cors_spec() + "Content-Type: application/json\r\nContent-Length: "@
        + decimal(utf8_len(body)) + "\r\nConnection: close\r\n\r\n"@ + body
}

/// The first line of a request.
fn first_line(req: &[char]) -> (r: (usize, usize))
    ensures
        r.0 <= r.1 <= req.len(),
        req@.subrange(r.0 as int, r.1 as int) == first_line_spec(req@),
{
    match find_char(req, '\n', 0) {
        None => {
            assert(req@.subrange(0, req.len() as int) =~= req@);
            (0, req.len())
        },
        Some(p) => {
            proof {
                lemma_find_from_bounds(req@, '\n', 0);
            }
            if p > 0 && req[p - 1] == '\r' {
                (0, p - 1)
            } else {
                (0, p)
            }
        },
    }
}

/// Bytes in the UTF-8 encoding of a string's characters, as `str::len` counts.
fn byte_len(s: &[char]) -> (n: u128)
    ensures
        n == utf8_len(s@),
{
    let mut n: u128 = 0;
    let mut i: usize = 0;
    while i < s.len()
        invariant
            i <= s.len(),
            n == utf8_len(s@.subrange(0, i as int)),
            n <= 4 * i,
        decreases s.len() - i,
    {
        let u = s[i] as u32;
        let w: u128 = if u < 0x80 { 1 } else if u < 0x800 { 2 } else if u < 0x10000 { 3 } else { 4 };
        assert(s@.subrange(0, i + 1).drop_last() =~= s@.subrange(0, i as int));
        n = n + w;
        i += 1;
    }
    assert(s@.subrange(0, s.len() as int) =~= s@);
    n
}

/// The reply to one request from the page: the current patch on
/// `GET /patch`, an empty success on `OPTIONS` (the CORS preflight), and 404
/// for anything else.
pub fn respond(request: &str, cur: &Current) -> (r: String)
    ensures
        r@ == response_spec(request@, cur.seq, cur.hash@, cur.from@),
{
    let req = chars_of(request);
    let (a, b) = first_line(&req);
    let line = chars_of(string_of_range(&req, a, b).as_str());
    let get = chars_of("GET /patch");
    let options = chars_of("OPTIONS");
    let (status, body) = if matches_at(&line, &get, 0) {
        let mut body = owned("{\"seq\":");
        let seq = decimal_string(cur.seq as u128);
        append_str(&mut body, seq.as_str());
        append_str(&mut body, ",\"hash\":\"");
        append_str(&mut body, cur.hash.as_str());
        append_str(&mut body, "\",\"from\":\"");
        append_str(&mut body, cur.from.as_str());
        append_str(&mut body, "\"}");
        ("200 OK", body)
    } else if matches_at(&line, &options, 0) {
        ("204 No Content", String::new())
    } else {
        ("404 Not Found", String::new())
    };
    let body_chars = chars_of(body.as_str());
    let len = decimal_string(byte_len(&body_chars));
    let mut out = owned("HTTP/1.1 ");
    append_str(&mut out, status);
    append_str(&mut out, "\r\n");
    append_str(&mut out, "Access-Control-Allow-Origin: *\r\nCross-Origin-Resource-Policy: cross-origin\r\nCache-Control: no-store\r\n");
    append_str(&mut out, "Content-Type: application/json\r\nContent-Length: ");
    append_str(&mut out, len.as_str());
    append_str(&mut out, "\r\nConnection: close\r\n\r\n");
    append_str(&mut out, body.as_str());
    out
}

/// **The reply announces its body's true length**: it is a head, then
/// `Content-Length: ` and a numeral, then the end of the headers, then the
/// body, and the numeral reads back as the body's size in bytes.
pub proof fn lemma_reply_states_its_length(req: Seq<char>, cur_seq: u64, hash: Seq<char>, from: Seq<char>)
    ensures
        ({
            let body = route(first_line_spec(req), cur_seq, hash, from).1;
            exists|head: Seq<char>, digits: Seq<char>| {
                &&& response_spec(req, cur_seq, hash, from)
                    == head + "Content-Length: "@ + digits + "\r\nConnection: close\r\n\r\n"@ + body
                &&& digits.len() >= 1
                &&& forall|i: int| 0 <= i < digits.len() ==> is_digit_char(#[trigger] digits[i])
                &&& numeral_value(digits) == utf8_len(body)
            }
        }),
{
    let (status, body) = route(first_line_spec(req), cur_seq, hash, from);
    reveal_strlit("Content-Type: application/json\r\nContent-Length: ");
    reveal_strlit("Content-Type: application/json\r\n");
    reveal_strlit("Content-Length: ");
    let head = "HTTP/1.1 "@ + status + "\r\n"@ + cors_spec() + "Content-Type: application/json\r\n"@;
    let digits = decimal(utf8_len(body));
    lemma_decimal_reads_back(utf8_len(body));
    assert("Content-Type: application/json\r\nContent-Length: "@
        =~= "Content-Type: application/json\r\n"@ + "Content-Length: "@);
    assert(response_spec(req, cur_seq, hash, from)
        =~= head + "Content-Length: "@ + digits + "\r\nConnection: close\r\n\r\n"@ + body);
}

} // verus!
