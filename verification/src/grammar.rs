//! The wire grammar of an HTTP/1.1 response head, as a total specification
//! over byte sequences.
//!
//! A head is a status line (`HTTP/<major>.<minor> <3-digit code> <reason>\r\n`)
//! followed by zero or more header lines (`<token>:<ws><value>\r\n`) and a
//! terminating blank line. Parsing an incomplete prefix yields `More`, a
//! grammar violation yields `Bad`, and success yields the structured head and
//! the exact number of bytes consumed.

use vstd::prelude::*;
use crate::text::{latin1, u32_of_digits};

verus! {

pub open spec fn is_digit(b: u8) -> bool {
    48 <= b <= 57
}

/// Header-name bytes: printable ASCII, no space, no colon.
pub open spec fn is_token_byte(b: u8) -> bool {
    32 < b < 127 && b != 58
}

pub open spec fn is_ws(b: u8) -> bool {
    b == 32 || b == 9
}

/// First index at or after `i` holding a non-digit, or the end of `s`.
pub open spec fn digits_end(s: Seq<u8>, i: int) -> int
    decreases s.len() - i when 0 <= i <= s.len()
{
    if i >= s.len() {
        i
    } else if is_digit(s[i]) {
        digits_end(s, i + 1)
    } else {
        i
    }
}

/// First index at or after `i` holding a non-token byte, or the end of `s`.
pub open spec fn token_end(s: Seq<u8>, i: int) -> int
    decreases s.len() - i when 0 <= i <= s.len()
{
    if i >= s.len() {
        i
    } else if is_token_byte(s[i]) {
        token_end(s, i + 1)
    } else {
        i
    }
}

/// First index at or after `i` holding neither space nor tab, or the end of `s`.
pub open spec fn ws_end(s: Seq<u8>, i: int) -> int
    decreases s.len() - i when 0 <= i <= s.len()
{
    if i >= s.len() {
        i
    } else if is_ws(s[i]) {
        ws_end(s, i + 1)
    } else {
        i
    }
}

/// Index of the first CRLF pair at or after `i`, if any.
pub open spec fn find_crlf(s: Seq<u8>, i: int) -> Option<int>
    decreases s.len() - i when 0 <= i
{
    if i + 1 >= s.len() {
        None
    } else if s[i] == 13 && s[i + 1] == 10 {
        Some(i)
    } else {
        find_crlf(s, i + 1)
    }
}

/// Trailing space and tab bytes stripped.
pub open spec fn rtrim_bytes(s: Seq<u8>) -> Seq<u8>
    decreases s.len(),
{
    if s.len() > 0 && is_ws(s.last()) {
        rtrim_bytes(s.drop_last())
    } else {
        s
    }
}

pub proof fn lemma_rtrim_bytes_take(s: Seq<u8>, m: int)
    requires
        0 <= m <= s.len(),
        forall|j: int| m <= j < s.len() ==> is_ws(#[trigger] s[j]),
        m > 0 ==> !is_ws(s[m - 1]),
    ensures
        rtrim_bytes(s) == s.take(m),
    decreases s.len(),
{
    if m < s.len() {
        lemma_rtrim_bytes_take(s.drop_last(), m);
        assert(s.drop_last().take(m) =~= s.take(m));
    } else {
        assert(s.take(m) =~= s);
    }
}

pub proof fn lemma_digits_end(s: Seq<u8>, i: int)
    requires
        0 <= i <= s.len(),
    ensures
        i <= digits_end(s, i) <= s.len(),
        forall|k: int| i <= k < digits_end(s, i) ==> is_digit(#[trigger] s[k]),
        digits_end(s, i) < s.len() ==> !is_digit(s[digits_end(s, i)]),
    decreases s.len() - i,
{
    if i < s.len() && is_digit(s[i]) {
        lemma_digits_end(s, i + 1);
    }
}

pub proof fn lemma_token_end(s: Seq<u8>, i: int)
    requires
        0 <= i <= s.len(),
    ensures
        i <= token_end(s, i) <= s.len(),
        forall|k: int| i <= k < token_end(s, i) ==> is_token_byte(#[trigger] s[k]),
        token_end(s, i) < s.len() ==> !is_token_byte(s[token_end(s, i)]),
    decreases s.len() - i,
{
    if i < s.len() && is_token_byte(s[i]) {
        lemma_token_end(s, i + 1);
    }
}

pub proof fn lemma_ws_end(s: Seq<u8>, i: int)
    requires
        0 <= i <= s.len(),
    ensures
        i <= ws_end(s, i) <= s.len(),
        forall|k: int| i <= k < ws_end(s, i) ==> is_ws(#[trigger] s[k]),
        ws_end(s, i) < s.len() ==> !is_ws(s[ws_end(s, i)]),
    decreases s.len() - i,
{
    if i < s.len() && is_ws(s[i]) {
        lemma_ws_end(s, i + 1);
    }
}

pub proof fn lemma_find_crlf(s: Seq<u8>, i: int)
    requires
        0 <= i,
    ensures
        match find_crlf(s, i) {
            Some(q) => i <= q && q + 2 <= s.len() && s[q] == 13 && s[q + 1] == 10
                && forall|k: int| i <= k < q ==> !(s[k] == 13 && #[trigger] s[k + 1] == 10),
            None => forall|k: int| i <= k && k + 1 < s.len() ==> !(s[k] == 13 && #[trigger] s[k + 1] == 10),
        },
    decreases s.len() - i,
{
    if i + 1 >= s.len() {
    } else if s[i] == 13 && s[i + 1] == 10 {
    } else {
        lemma_find_crlf(s, i + 1);
    }
}

/// Outcome of parsing the status line alone; `end` is the index just past its
/// terminating CRLF.
pub enum StatusLine {
    More,
    Bad,
    Got { major: u32, minor: u32, status: u32, end: int },
}

/// `HTTP/<digits>.<digits> <exactly 3 digits> <reason up to CRLF>\r\n`.
///
/// Version digit runs that overflow a `u32` denote 0; the status code has
/// exactly three digits and always fits. The reason phrase is discarded.
pub open spec fn parse_status_line(s: Seq<u8>) -> StatusLine {
    if s.len() >= 1 && s[0] != 72 {
        StatusLine::Bad
    } else if s.len() >= 2 && s[1] != 84 {
        StatusLine::Bad
    } else if s.len() >= 3 && s[2] != 84 {
        StatusLine::Bad
    } else if s.len() >= 4 && s[3] != 80 {
        StatusLine::Bad
    } else if s.len() >= 5 && s[4] != 47 {
        StatusLine::Bad
    } else if s.len() < 5 {
        StatusLine::More
    } else {
        let d1 = digits_end(s, 5);
        if d1 == s.len() {
            StatusLine::More
        } else if d1 == 5 {
            StatusLine::Bad
        } else if s[d1] != 46 {
            StatusLine::Bad
        } else {
            let d2 = digits_end(s, d1 + 1);
            if d2 == s.len() {
                StatusLine::More
            } else if d2 == d1 + 1 {
                StatusLine::Bad
            } else if s[d2] != 32 {
                StatusLine::Bad
            } else if s.len() < d2 + 4 {
                StatusLine::More
            } else if !(is_digit(s[d2 + 1]) && is_digit(s[d2 + 2]) && is_digit(s[d2 + 3])) {
                StatusLine::Bad
            } else if s.len() < d2 + 5 {
                StatusLine::More
            } else if s[d2 + 4] != 32 {
                StatusLine::Bad
            } else {
                match find_crlf(s, d2 + 5) {
                    None => StatusLine::More,
                    Some(q) => StatusLine::Got {
                        major: u32_of_digits(latin1(s.subrange(5, d1))),
                        minor: u32_of_digits(latin1(s.subrange(d1 + 1, d2))),
                        status: u32_of_digits(latin1(s.subrange(d2 + 1, d2 + 4))),
                        end: q + 2,
                    },
                }
            }
        }
    }
}

/// One parsed header line: the name exactly as received, the value with
/// leading whitespace skipped by the grammar and trailing whitespace stripped.
/// `value` is `None` only as a sentinel for "not found" in lookups; parsed
/// headers always carry `Some`.
#[verifier::ext_equal]
pub struct SpecHeader {
    pub name: Seq<char>,
    pub value: Option<Seq<char>>,
}

/// Outcome of parsing header lines up to and including the blank line;
/// `end` is the index just past the blank line's CRLF.
pub enum HeaderLines {
    More,
    Bad,
    Got(Seq<SpecHeader>, int),
}

/// Zero or more header lines starting at `i`, terminated by a bare CRLF.
pub open spec fn parse_header_lines(s: Seq<u8>, i: int) -> HeaderLines
    decreases s.len() - i when 0 <= i <= s.len() via parse_header_lines_decreases
{
    if i >= s.len() {
        HeaderLines::More
    } else if s[i] == 13 {
        if i + 1 >= s.len() {
            HeaderLines::More
        } else if s[i + 1] == 10 {
            HeaderLines::Got(Seq::empty(), i + 2)
        } else {
            HeaderLines::Bad
        }
    } else if !is_token_byte(s[i]) {
        HeaderLines::Bad
    } else {
        let n_end = token_end(s, i);
        if n_end >= s.len() {
            HeaderLines::More
        } else if s[n_end] != 58 {
            HeaderLines::Bad
        } else {
            let v_start = ws_end(s, n_end + 1);
            match find_crlf(s, v_start) {
                None => HeaderLines::More,
                Some(q) => {
                    let h = SpecHeader {
                        name: latin1(s.subrange(i, n_end)),
                        value: Some(latin1(rtrim_bytes(s.subrange(v_start, q)))),
                    };
                    match parse_header_lines(s, q + 2) {
                        HeaderLines::More => HeaderLines::More,
                        HeaderLines::Bad => HeaderLines::Bad,
                        HeaderLines::Got(rest, end) => HeaderLines::Got(seq![h] + rest, end),
                    }
                },
            }
        }
    }
}

#[via_fn]
proof fn parse_header_lines_decreases(s: Seq<u8>, i: int) {
    if 0 <= i <= s.len() && i < s.len() && s[i] != 13 && is_token_byte(s[i]) {
        lemma_token_end(s, i);
        let n_end = token_end(s, i);
        if n_end < s.len() && s[n_end] == 58 {
            lemma_ws_end(s, n_end + 1);
            lemma_find_crlf(s, ws_end(s, n_end + 1));
        }
    }
}

/// A parsed response head: protocol version, status code, headers in wire
/// order. The reason phrase is not retained.
pub struct SpecHead {
    pub version: (u32, u32),
    pub status: u32,
    pub headers: Seq<SpecHeader>,
}

pub enum HeadParse {
    More,
    Bad,
    Got(SpecHead, int),
}

/// The whole head grammar: status line, header lines, blank line.
/// On `Got`, the `int` is the exact number of bytes consumed.
pub open spec fn parse_head(s: Seq<u8>) -> HeadParse {
    match parse_status_line(s) {
        StatusLine::More => HeadParse::More,
        StatusLine::Bad => HeadParse::Bad,
        StatusLine::Got { major, minor, status, end } => match parse_header_lines(s, end) {
            HeaderLines::More => HeadParse::More,
            HeaderLines::Bad => HeadParse::Bad,
            HeaderLines::Got(headers, hend) => HeadParse::Got(
                SpecHead { version: (major, minor), status, headers },
                hend,
            ),
        },
    }
}

pub proof fn lemma_status_line_wf(s: Seq<u8>)
    ensures
        parse_status_line(s) matches StatusLine::Got { end, .. } ==> 0 <= end <= s.len(),
{
    if s.len() >= 5 {
        lemma_digits_end(s, 5);
        let d1 = digits_end(s, 5);
        if 5 < d1 < s.len() && s[d1] == 46 {
            lemma_digits_end(s, d1 + 1);
            let d2 = digits_end(s, d1 + 1);
            if d2 < s.len() {
                lemma_find_crlf(s, d2 + 5);
            }
        }
    }
}

pub proof fn lemma_header_lines_wf(s: Seq<u8>, i: int)
    requires
        0 <= i <= s.len(),
    ensures
        parse_header_lines(s, i) matches HeaderLines::Got(_, end) ==> i + 2 <= end <= s.len(),
    decreases s.len() - i,
{
    if i < s.len() && s[i] != 13 && is_token_byte(s[i]) {
        lemma_token_end(s, i);
        let n_end = token_end(s, i);
        if n_end < s.len() && s[n_end] == 58 {
            lemma_ws_end(s, n_end + 1);
            let v_start = ws_end(s, n_end + 1);
            lemma_find_crlf(s, v_start);
            if let Some(q) = find_crlf(s, v_start) {
                lemma_header_lines_wf(s, q + 2);
            }
        }
    }
}

pub proof fn lemma_head_wf(s: Seq<u8>)
    ensures
        parse_head(s) matches HeadParse::Got(_, n) ==> 0 <= n <= s.len(),
{
    lemma_status_line_wf(s);
    if let StatusLine::Got { end, .. } = parse_status_line(s) {
        lemma_header_lines_wf(s, end);
    }
}

pub proof fn lemma_digits_end_extends(s: Seq<u8>, t: Seq<u8>, i: int)
    requires
        0 <= i <= s.len() <= t.len(),
        s == t.take(s.len() as int),
    ensures
        digits_end(s, i) < s.len() ==> digits_end(t, i) == digits_end(s, i),
    decreases s.len() - i,
{
    if i < s.len() {
        assert(t[i] == s[i]);
        if is_digit(s[i]) {
            lemma_digits_end_extends(s, t, i + 1);
        }
    }
}

pub proof fn lemma_token_end_extends(s: Seq<u8>, t: Seq<u8>, i: int)
    requires
        0 <= i <= s.len() <= t.len(),
        s == t.take(s.len() as int),
    ensures
        token_end(s, i) < s.len() ==> token_end(t, i) == token_end(s, i),
    decreases s.len() - i,
{
    if i < s.len() {
        assert(t[i] == s[i]);
        if is_token_byte(s[i]) {
            lemma_token_end_extends(s, t, i + 1);
        }
    }
}

pub proof fn lemma_ws_end_extends(s: Seq<u8>, t: Seq<u8>, i: int)
    requires
        0 <= i <= s.len() <= t.len(),
        s == t.take(s.len() as int),
    ensures
        ws_end(s, i) < s.len() ==> ws_end(t, i) == ws_end(s, i),
    decreases s.len() - i,
{
    if i < s.len() {
        assert(t[i] == s[i]);
        if is_ws(s[i]) {
            lemma_ws_end_extends(s, t, i + 1);
        }
    }
}

pub proof fn lemma_find_crlf_extends(s: Seq<u8>, t: Seq<u8>, i: int)
    requires
        0 <= i,
        s.len() <= t.len(),
        s == t.take(s.len() as int),
    ensures
        find_crlf(s, i) matches Some(q) ==> find_crlf(t, i) == Some(q),
    decreases s.len() - i,
{
    if i + 1 < s.len() {
        assert(t[i] == s[i] && t[i + 1] == s[i + 1]);
        if !(s[i] == 13 && s[i + 1] == 10) {
            lemma_find_crlf_extends(s, t, i + 1);
        }
    }
}

/// A status line already recognized or rejected in `s` is recognized or
/// rejected the same way however `s` is extended.
pub proof fn lemma_status_line_extends(s: Seq<u8>, t: Seq<u8>)
    requires
        s.len() <= t.len(),
        s == t.take(s.len() as int),
    ensures
        (parse_status_line(s) matches StatusLine::Got { major, minor, status, end }
            ==> parse_status_line(t) == (StatusLine::Got { major, minor, status, end })),
        (parse_status_line(s) is Bad ==> parse_status_line(t) is Bad),
{
    assert(forall|k: int| 0 <= k < s.len() ==> #[trigger] t[k] == s[k]);
    if s.len() >= 5 && s[0] == 72 && s[1] == 84 && s[2] == 84 && s[3] == 80 && s[4] == 47 {
        lemma_digits_end(s, 5);
        lemma_digits_end_extends(s, t, 5);
        let d1 = digits_end(s, 5);
        if d1 < s.len() && d1 > 5 && s[d1] == 46 {
            lemma_digits_end(s, d1 + 1);
            lemma_digits_end_extends(s, t, d1 + 1);
            let d2 = digits_end(s, d1 + 1);
            if d2 < s.len() && d2 > d1 + 1 && s[d2] == 32 && s.len() >= d2 + 5 {
                lemma_find_crlf_extends(s, t, d2 + 5);
                if let Some(q) = find_crlf(s, d2 + 5) {
                    assert(s.subrange(5, d1) =~= t.subrange(5, d1));
                    assert(s.subrange(d1 + 1, d2) =~= t.subrange(d1 + 1, d2));
                    assert(s.subrange(d2 + 1, d2 + 4) =~= t.subrange(d2 + 1, d2 + 4));
                }
            }
        }
    }
}

/// Header lines already recognized or rejected in `s` are recognized or
/// rejected the same way however `s` is extended.
pub proof fn lemma_header_lines_extends(s: Seq<u8>, t: Seq<u8>, i: int)
    requires
        0 <= i <= s.len() <= t.len(),
        s == t.take(s.len() as int),
    ensures
        parse_header_lines(s, i) matches HeaderLines::Got(hs, e)
            ==> parse_header_lines(t, i) == HeaderLines::Got(hs, e),
        parse_header_lines(s, i) is Bad ==> parse_header_lines(t, i) is Bad,
    decreases s.len() - i,
{
    assert(forall|k: int| 0 <= k < s.len() ==> #[trigger] t[k] == s[k]);
    if i < s.len() && s[i] != 13 && is_token_byte(s[i]) {
        lemma_token_end(s, i);
        lemma_token_end_extends(s, t, i);
        let n_end = token_end(s, i);
        if n_end < s.len() && s[n_end] == 58 {
            lemma_ws_end(s, n_end + 1);
            lemma_ws_end_extends(s, t, n_end + 1);
            let v_start = ws_end(s, n_end + 1);
            lemma_find_crlf(s, v_start);
            lemma_find_crlf_extends(s, t, v_start);
            if let Some(q) = find_crlf(s, v_start) {
                assert(v_start < s.len());
                assert(s.subrange(i, n_end) =~= t.subrange(i, n_end));
                assert(s.subrange(v_start, q) =~= t.subrange(v_start, q));
                lemma_header_lines_extends(s, t, q + 2);
            }
        }
    }
}

/// A head already recognized or rejected in `s` is recognized or rejected the
/// same way in any extension of `s`: the parse outcome is determined by the
/// consumed prefix, so decoding does not depend on how bytes are chunked.
pub proof fn lemma_parse_head_extends(s: Seq<u8>, t: Seq<u8>)
    requires
        s.len() <= t.len(),
        s == t.take(s.len() as int),
    ensures
        parse_head(s) matches HeadParse::Got(h, n) ==> parse_head(t) == HeadParse::Got(h, n),
        parse_head(s) is Bad ==> parse_head(t) is Bad,
{
    lemma_status_line_extends(s, t);
    lemma_status_line_wf(s);
    if let StatusLine::Got { end, .. } = parse_status_line(s) {
        lemma_header_lines_extends(s, t, end);
    }
}

} // verus!
