//! Health checks: which kind of check to run, the request an HTTP check
//! sends, and the reading of the reply's status line.

use vstd::prelude::*;
use crate::text::same_text;

verus! {

/// How a backend's health is checked.
pub enum HealthCheckKind {
    /// The backend is healthy if it accepts a TCP connection.
    Tcp,
    /// The backend is healthy if it answers an HTTP GET with a status from
    /// 200 to 399.
    Http,
}

/// The kind of check that the configuration's `check_type` names: `"http"`
/// gives the HTTP check, and anything else the TCP check.
pub fn check_kind(check_type: &str) -> (r: HealthCheckKind)
    ensures
        r is Http <==> check_type@ == "http"@,
{
    if same_text(check_type, "http") {
        HealthCheckKind::Http
    } else {
        HealthCheckKind::Tcp
    }
}

/// The request of an HTTP check.
pub open spec fn health_request_text(path: Seq<char>, addr: Seq<char>) -> Seq<char> {
    "GET "@ + path + " HTTP/1.1\r\nHost: "@ + addr + "\r\nConnection: close\r\n\r\n"@
}

/// Builds the request of an HTTP check of the backend at `addr` for `path`.
pub fn health_check_request(path: &str, addr: &str) -> (r: String)
    ensures
        r@ == health_request_text(path@, addr@),
{
    let mut request = String::from_str("GET ");
    request.append(path);
    request.append(" HTTP/1.1\r\nHost: ");
    request.append(addr);
    request.append("\r\nConnection: close\r\n\r\n");
    request
}

/// Whether an HTTP status counts as healthy: 200 to 399.
pub open spec fn healthy_status(code: int) -> bool {
    200 <= code < 400
}

/// Whether an HTTP status counts as healthy: 200 to 399.
pub fn status_is_healthy(code: u16) -> (r: bool)
    ensures
        r == healthy_status(code as int),
        r == (200 <= code && code < 400),
{
    code >= 200 && code < 400
}

// ---------------------------------------------------------------------------
// The status line of the reply

/// The line feed byte.
pub const LF: u8 = 10;

/// Whether bytes `a b c` encode one of the three-byte white space
/// characters: U+1680, U+2000 to U+200A, U+2028, U+2029, U+202F, U+205F and
/// U+3000.
pub open spec fn three_byte_space(a: u8, b: u8, c: u8) -> bool {
    ||| (a == 0xE1 && b == 0x9A && c == 0x80)
    ||| (a == 0xE2 && b == 0x80 && ((0x80 <= c <= 0x8A) || c == 0xA8 || c == 0xA9 || c == 0xAF))
    ||| (a == 0xE2 && b == 0x81 && c == 0x9F)
    ||| (a == 0xE3 && b == 0x80 && c == 0x80)
}

/// The length in bytes of the white space character (Unicode White_Space)
/// that starts at `i`, or 0 if none does. In the reply decoded as UTF-8,
/// with each invalid byte sequence replaced by U+FFFD, these are exactly the
/// white space characters: an ASCII byte and a lead byte always start a new
/// character.
pub open spec fn ws_len(s: Seq<u8>, i: int) -> int {
    if i < 0 || i >= s.len() {
        0
    } else if s[i] == 9 || s[i] == 10 || s[i] == 11 || s[i] == 12 || s[i] == 13 || s[i] == 32 {
        1
    } else if s[i] == 0xC2 && i + 1 < s.len() && (s[i + 1] == 0x85 || s[i + 1] == 0xA0) {
        2
    } else if i + 2 < s.len() && three_byte_space(s[i], s[i + 1], s[i + 2]) {
        3
    } else {
        0
    }
}

/// The end of the first line: the position of the first line feed, or the
/// end of the reply.
pub open spec fn line_end(s: Seq<u8>, i: int) -> int
    decreases s.len() - i,
{
    if i >= s.len() {
        s.len() as int
    } else if s[i] == LF {
        i
    } else {
        line_end(s, i + 1)
    }
}

/// The first position at or after `i` that is not white space.
pub open spec fn skip_space(s: Seq<u8>, i: int) -> int
    decreases s.len() - i,
{
    if i < 0 || i >= s.len() {
        i
    } else if ws_len(s, i) > 0 {
        skip_space(s, i + ws_len(s, i))
    } else {
        i
    }
}

/// The end of the word that starts at `i`: the first white space at or
/// after `i`, or the end.
pub open spec fn word_end(s: Seq<u8>, i: int) -> int
    decreases s.len() - i,
{
    if i < 0 || i >= s.len() {
        s.len() as int
    } else if ws_len(s, i) > 0 {
        i
    } else {
        word_end(s, i + 1)
    }
}

/// The bytes of `HTTP/1.` .
pub open spec fn http1_prefix() -> Seq<u8> {
    seq![72u8, 84u8, 84u8, 80u8, 47u8, 49u8, 46u8]
}

/// Whether a word starts with `HTTP/1.1` or `HTTP/1.0`.
pub open spec fn http_version_ok(word: Seq<u8>) -> bool {
    word.len() >= 8 && word.subrange(0, 7) == http1_prefix() && (word[7] == 49 || word[7] == 48)
}

/// Whether a byte is an ASCII digit.
pub open spec fn is_digit(b: u8) -> bool {
    48 <= b <= 57
}

/// The number that a run of ASCII digits writes.
pub open spec fn digits_value(d: Seq<u8>) -> nat
    decreases d.len(),
{
    if d.len() == 0 {
        0
    } else {
        10 * digits_value(d.drop_last()) + (d.last() - 48) as nat
    }
}

/// The digits of a word that may start with a `+`.
pub open spec fn unsigned_digits(word: Seq<u8>) -> Seq<u8> {
    if word.len() > 0 && word[0] == 43 {
        word.drop_first()
    } else {
        word
    }
}

/// Whether every byte is an ASCII digit.
pub open spec fn all_digits(d: Seq<u8>) -> bool {
    forall|k: int| 0 <= k < d.len() ==> is_digit(#[trigger] d[k])
}

/// What parsing a word as a `u16` gives: an optional `+` and at least one
/// ASCII digit, with a value up to 65535.
pub open spec fn parsed_u16(word: Seq<u8>) -> Option<nat> {
    let d = unsigned_digits(word);
    if d.len() > 0 && all_digits(d) && digits_value(d) <= 65535 {
        Some(digits_value(d))
    } else {
        None
    }
}

/// Whether a status line reports a healthy backend: its first word starts
/// with `HTTP/1.1` or `HTTP/1.0`, and its second word is a status from 200
/// to 399.
pub open spec fn status_line_healthy(line: Seq<u8>) -> bool {
    let a0 = skip_space(line, 0);
    let e0 = word_end(line, a0);
    let a1 = skip_space(line, e0);
    let e1 = word_end(line, a1);
    &&& a0 < line.len()
    &&& a1 < line.len()
    &&& http_version_ok(line.subrange(a0, e0))
    &&& parsed_u16(line.subrange(a1, e1)) matches Some(code) && healthy_status(code as int)
}

/// Whether a reply to an HTTP check reports a healthy backend, by its first
/// line.
pub open spec fn reply_healthy(reply: Seq<u8>) -> bool {
    status_line_healthy(reply.subrange(0, line_end(reply, 0)))
}

/// The status word of a reply: the second word of its first line.
pub open spec fn status_word(reply: Seq<u8>) -> Seq<u8> {
    let line = reply.subrange(0, line_end(reply, 0));
    let a1 = skip_space(line, word_end(line, skip_space(line, 0)));
    line.subrange(a1, word_end(line, a1))
}

/// A reply counts as healthy only with a status from 200 to 399: the status
/// word of a healthy reply is a number in that range, and a reply whose
/// status word is a number below 200 or from 400 up is unhealthy.
pub proof fn lemma_healthy_reply_status(reply: Seq<u8>)
    ensures
        reply_healthy(reply) ==> exists|code: nat|
            parsed_u16(status_word(reply)) == Some(code) && 200 <= code && code < 400,
        parsed_u16(status_word(reply)) matches Some(code) && (code < 200 || code >= 400)
            ==> !reply_healthy(reply),
{
    if reply_healthy(reply) {
        let code = parsed_u16(status_word(reply)).unwrap();
        assert(parsed_u16(status_word(reply)) == Some(code) && 200 <= code && code < 400);
    }
}

fn ws_len_at(s: &[u8], i: usize) -> (r: usize)
    requires
        i < s@.len(),
    ensures
        r == ws_len(s@, i as int),
        r <= 3,
{
    let b = s[i];
    if b == 9 || b == 10 || b == 11 || b == 12 || b == 13 || b == 32 {
        1
    } else if b == 0xC2 && i + 1 < s.len() && (s[i + 1] == 0x85 || s[i + 1] == 0xA0) {
        2
    } else if s.len() - i > 2 {
        let c1 = s[i + 1];
        let c2 = s[i + 2];
        if (b == 0xE1 && c1 == 0x9A && c2 == 0x80) || (b == 0xE2 && c1 == 0x80 && ((0x80 <= c2
            && c2 <= 0x8A) || c2 == 0xA8 || c2 == 0xA9 || c2 == 0xAF)) || (b == 0xE2 && c1 == 0x81
            && c2 == 0x9F) || (b == 0xE3 && c1 == 0x80 && c2 == 0x80) {
            3
        } else {
            0
        }
    } else {
        0
    }
}

proof fn lemma_ws_len_bound(s: Seq<u8>, i: int)
    requires
        0 <= i < s.len(),
    ensures
        i + ws_len(s, i) <= s.len(),
{
}

fn skip_space_from(s: &[u8], start: usize) -> (r: usize)
    requires
        start <= s@.len(),
    ensures
        r == skip_space(s@, start as int),
        start <= r <= s@.len(),
{
    let mut i = start;
    while i < s.len()
        invariant
            start <= i <= s@.len(),
            skip_space(s@, start as int) == skip_space(s@, i as int),
        decreases s@.len() - i,
    {
        let w = ws_len_at(s, i);
        if w == 0 {
            return i;
        }
        proof {
            lemma_ws_len_bound(s@, i as int);
        }
        i = i + w;
    }
    i
}

fn word_end_from(s: &[u8], start: usize) -> (r: usize)
    requires
        start <= s@.len(),
    ensures
        r == word_end(s@, start as int),
        start <= r <= s@.len(),
{
    let mut i = start;
    while i < s.len()
        invariant
            start <= i <= s@.len(),
            word_end(s@, start as int) == word_end(s@, i as int),
        decreases s@.len() - i,
    {
        if ws_len_at(s, i) > 0 {
            return i;
        }
        i = i + 1;
    }
    i
}

fn has_http_version(s: &[u8], a: usize, e: usize) -> (r: bool)
    requires
        a <= e <= s@.len(),
    ensures
        r == http_version_ok(s@.subrange(a as int, e as int)),
{
    if e - a < 8 {
        return false;
    }
    let ok = s[a] == 72 && s[a + 1] == 84 && s[a + 2] == 84 && s[a + 3] == 80 && s[a + 4] == 47
        && s[a + 5] == 49 && s[a + 6] == 46 && (s[a + 7] == 49 || s[a + 7] == 48);
    proof {
        let w = s@.subrange(a as int, e as int);
        if ok {
            assert(w.subrange(0, 7) =~= http1_prefix());
        } else if w.subrange(0, 7) == http1_prefix() {
            assert(w.subrange(0, 7)[0] == 72u8);
            assert(w.subrange(0, 7)[1] == 84u8);
            assert(w.subrange(0, 7)[2] == 84u8);
            assert(w.subrange(0, 7)[3] == 80u8);
            assert(w.subrange(0, 7)[4] == 47u8);
            assert(w.subrange(0, 7)[5] == 49u8);
            assert(w.subrange(0, 7)[6] == 46u8);
        }
    }
    ok
}

fn parse_status(s: &[u8], a: usize, e: usize) -> (r: Option<u16>)
    requires
        a <= e <= s@.len(),
    ensures
        match r {
            Some(code) => parsed_u16(s@.subrange(a as int, e as int)) == Some(code as nat),
            None => parsed_u16(s@.subrange(a as int, e as int)) is None,
        },
{
    let ghost w = s@.subrange(a as int, e as int);
    let start = if a < e && s[a] == 43 {
        a + 1
    } else {
        a
    };
    let ghost d = s@.subrange(start as int, e as int);
    assert(d =~= unsigned_digits(w));
    if start == e {
        return None;
    }
    let mut value: u32 = 0;
    let mut too_big = false;
    let mut i = start;
    while i < e
        invariant
            a <= start <= i <= e <= s@.len(),
            d == s@.subrange(start as int, e as int),
            w == s@.subrange(a as int, e as int),
            d == unsigned_digits(w),
            forall|k: int| 0 <= k < i - start ==> is_digit(#[trigger] d[k]),
            !too_big ==> value == digits_value(d.take(i - start)) && value <= 65535,
            too_big ==> digits_value(d.take(i - start)) > 65535,
        decreases e - i,
    {
        let b = s[i];
        if b < 48 || b > 57 {
            assert(d[i - start] == b);
            assert(!is_digit(d[i - start]));
            return None;
        }
        proof {
            let t = d.take(i - start + 1);
            assert(t.drop_last() =~= d.take(i - start));
            assert(t.last() == b);
        }
        if !too_big {
            let next = value * 10 + (b - 48) as u32;
            if next > 65535 {
                too_big = true;
            } else {
                value = next;
            }
        }
        i = i + 1;
    }
    assert(d.take(e - start) =~= d);
    if too_big {
        None
    } else {
        Some(value as u16)
    }
}

/// Whether the reply to an HTTP check reports a healthy backend: its first
/// line (up to the first line feed) holds a first word that starts with
/// `HTTP/1.1` or `HTTP/1.0` and a second word that is a status from 200 to
/// 399. An empty reply is unhealthy.
pub fn response_is_healthy(reply: &[u8]) -> (r: bool)
    ensures
        r == reply_healthy(reply@),
{
    let n = reply.len();
    let mut end: usize = 0;
    while end < n && reply[end] != LF
        invariant
            end <= n == reply@.len(),
            line_end(reply@, 0) == line_end(reply@, end as int),
        decreases n - end,
    {
        end = end + 1;
    }
    let mut line: Vec<u8> = Vec::new();
    let mut i: usize = 0;
    while i < end
        invariant
            i <= end <= n == reply@.len(),
            line@ == reply@.subrange(0, i as int),
        decreases end - i,
    {
        line.push(reply[i]);
        assert(line@ =~= reply@.subrange(0, i + 1));
        i = i + 1;
    }
    let s = line.as_slice();
    let a0 = skip_space_from(s, 0);
    let e0 = word_end_from(s, a0);
    let a1 = skip_space_from(s, e0);
    let e1 = word_end_from(s, a1);
    if a0 >= s.len() || a1 >= s.len() {
        return false;
    }
    if !has_http_version(s, a0, e0) {
        return false;
    }
    match parse_status(s, a1, e1) {
        Some(code) => status_is_healthy(code),
        None => false,
    }
}

} // verus!
