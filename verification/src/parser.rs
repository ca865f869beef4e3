//! The executable head parser, proved equivalent to the grammar in
//! [`crate::grammar`].

use vstd::prelude::*;
use crate::grammar::{
    digits_end, find_crlf, is_digit, is_token_byte, is_ws, lemma_rtrim_bytes_take, parse_head,
    parse_header_lines, parse_status_line, rtrim_bytes, token_end, ws_end, HeadParse, HeaderLines,
    SpecHeader, StatusLine,
};
use crate::response::{new_header, new_response, Header, HttpResponse, SpecResponse};
use crate::text::{
    all_digit_chars, digits_val, is_digit_char, latin1, lemma_digits_val_prefix,
    lemma_digits_val_step, push_char, u32_of_digits,
};

verus! {

/// The outcome of parsing a head from the start of a byte slice: more bytes
/// are needed, the bytes violate the grammar, or a head parsed and consumed
/// exactly the given count of bytes.
pub enum ParseResult {
    NeedMore,
    Malformed,
    Done(HttpResponse, usize),
}

/// Header-name bytes: printable, non-space, non-colon ASCII.
pub fn is_token(c: u8) -> (r: bool)
    ensures
        r == is_token_byte(c),
{
    c > 32 && c < 127 && c != 58
}

fn is_digit_x(c: u8) -> (r: bool)
    ensures
        r == is_digit(c),
{
    48 <= c && c <= 57
}

fn is_ws_x(c: u8) -> (r: bool)
    ensures
        r == is_ws(c),
{
    c == 32 || c == 9
}

fn scan_digits(s: &[u8], from: usize) -> (r: usize)
    requires
        from <= s@.len(),
    ensures
        r == digits_end(s@, from as int),
        from <= r <= s@.len(),
{
    let n = s.len();
    let mut j = from;
    while j < n && is_digit_x(s[j])
        invariant
            from <= j <= n,
            n == s@.len(),
            digits_end(s@, from as int) == digits_end(s@, j as int),
        decreases n - j,
    {
        j += 1;
    }
    j
}

fn scan_token(s: &[u8], from: usize) -> (r: usize)
    requires
        from <= s@.len(),
    ensures
        r == token_end(s@, from as int),
        from <= r <= s@.len(),
{
    let n = s.len();
    let mut j = from;
    while j < n && is_token(s[j])
        invariant
            from <= j <= n,
            n == s@.len(),
            token_end(s@, from as int) == token_end(s@, j as int),
        decreases n - j,
    {
        j += 1;
    }
    j
}

fn scan_ws(s: &[u8], from: usize) -> (r: usize)
    requires
        from <= s@.len(),
    ensures
        r == ws_end(s@, from as int),
        from <= r <= s@.len(),
{
    let n = s.len();
    let mut j = from;
    while j < n && is_ws_x(s[j])
        invariant
            from <= j <= n,
            n == s@.len(),
            ws_end(s@, from as int) == ws_end(s@, j as int),
        decreases n - j,
    {
        j += 1;
    }
    j
}

fn find_crlf_from(s: &[u8], from: usize) -> (r: Option<usize>)
    requires
        from <= s@.len(),
    ensures
        (r matches Some(q) ==> find_crlf(s@, from as int) == Some(q as int) && from <= q && q + 2
            <= s@.len()),
        (r is None ==> find_crlf(s@, from as int) is None),
{
    let n = s.len();
    let mut j = from;
    while n - j > 1
        invariant
            from <= j <= n,
            n == s@.len(),
            find_crlf(s@, from as int) == find_crlf(s@, j as int),
        decreases n - j,
    {
        if s[j] == 13 && s[j + 1] == 10 {
            return Some(j);
        }
        j += 1;
    }
    None
}

/// The characters denoted by the bytes `s[from..to]`, read byte-for-byte.
fn latin1_string(s: &[u8], from: usize, to: usize) -> (r: String)
    requires
        from <= to <= s@.len(),
    ensures
        r@ == latin1(s@.subrange(from as int, to as int)),
{
    let mut out = String::new();
    let mut j = from;
    proof {
        assert(out@ =~= latin1(s@.subrange(from as int, from as int)));
    }
    while j < to
        invariant
            from <= j <= to <= s@.len(),
            out@ == latin1(s@.subrange(from as int, j as int)),
        decreases to - j,
    {
        push_char(&mut out, s[j] as char);
        proof {
            assert(latin1(s@.subrange(from as int, j + 1)) =~= latin1(
                s@.subrange(from as int, j as int),
            ).push(s@[j as int] as char));
        }
        j += 1;
    }
    out
}

/// The `u32` denoted by the digit bytes `s[from..to]`, with 0 for values
/// that do not fit.
fn u32_from_digits(s: &[u8], from: usize, to: usize) -> (r: u32)
    requires
        from <= to <= s@.len(),
        forall|k: int| from <= k < to ==> is_digit(#[trigger] s@[k]),
    ensures
        r == u32_of_digits(latin1(s@.subrange(from as int, to as int))),
{
    let ghost ds = latin1(s@.subrange(from as int, to as int));
    proof {
        assert forall|k: int| 0 <= k < ds.len() implies is_digit_char(ds[k]) && ds[k] as int
            == s@[from + k] by {
            assert(ds[k] == s@.subrange(from as int, to as int)[k] as char);
        }
        assert(all_digit_chars(ds));
    }
    let mut acc: u64 = 0;
    let mut j = from;
    proof {
        assert(ds.take(0) =~= Seq::<char>::empty());
    }
    while j < to
        invariant
            from <= j <= to <= s@.len(),
            forall|k: int| from <= k < to ==> is_digit(#[trigger] s@[k]),
            ds == latin1(s@.subrange(from as int, to as int)),
            all_digit_chars(ds),
            ds.len() == to - from,
            forall|k: int| 0 <= k < ds.len() ==> (#[trigger] ds[k]) as int == s@[from + k],
            acc == digits_val(ds.take(j - from)),
            acc <= u32::MAX,
        decreases to - j,
    {
        proof {
            lemma_digits_val_step(ds, j - from);
        }
        acc = acc * 10 + ((s[j] - 48) as u64);
        if acc > 0xFFFF_FFFFu64 {
            proof {
                lemma_digits_val_prefix(ds, j + 1 - from);
                assert(digits_val(ds) >= digits_val(ds.take(j + 1 - from)));
            }
            return 0;
        }
        j += 1;
    }
    proof {
        assert(ds.take(to - from) =~= ds);
    }
    acc as u32
}

enum StatusOutcome {
    More,
    Bad,
    Got(u32, u32, u32, usize),
}

fn parse_status_line_exec(s: &[u8]) -> (r: StatusOutcome)
    ensures
        (r is More ==> parse_status_line(s@) is More),
        (r is Bad ==> parse_status_line(s@) is Bad),
        (r matches StatusOutcome::Got(maj, min, st, end) ==> parse_status_line(s@)
            == (StatusLine::Got { major: maj, minor: min, status: st, end: end as int }) && end
            <= s@.len()),
{
    let n = s.len();
    if n >= 1 && s[0] != 72 {
        return StatusOutcome::Bad;
    }
    if n >= 2 && s[1] != 84 {
        return StatusOutcome::Bad;
    }
    if n >= 3 && s[2] != 84 {
        return StatusOutcome::Bad;
    }
    if n >= 4 && s[3] != 80 {
        return StatusOutcome::Bad;
    }
    if n >= 5 && s[4] != 47 {
        return StatusOutcome::Bad;
    }
    if n < 5 {
        return StatusOutcome::More;
    }
    let d1 = scan_digits(s, 5);
    if d1 == n {
        return StatusOutcome::More;
    }
    if d1 == 5 {
        return StatusOutcome::Bad;
    }
    if s[d1] != 46 {
        return StatusOutcome::Bad;
    }
    let d2 = scan_digits(s, d1 + 1);
    if d2 == n {
        return StatusOutcome::More;
    }
    if d2 == d1 + 1 {
        return StatusOutcome::Bad;
    }
    if s[d2] != 32 {
        return StatusOutcome::Bad;
    }
    if n - d2 < 4 {
        return StatusOutcome::More;
    }
    if !(is_digit_x(s[d2 + 1]) && is_digit_x(s[d2 + 2]) && is_digit_x(s[d2 + 3])) {
        return StatusOutcome::Bad;
    }
    if n - d2 < 5 {
        return StatusOutcome::More;
    }
    if s[d2 + 4] != 32 {
        return StatusOutcome::Bad;
    }
    match find_crlf_from(s, d2 + 5) {
        None => StatusOutcome::More,
        Some(q) => {
            proof {
                crate::grammar::lemma_digits_end(s@, 5);
                crate::grammar::lemma_digits_end(s@, d1 + 1);
                assert forall|k: int| d2 + 1 <= k < d2 + 4 implies is_digit(#[trigger] s@[k]) by {
                    assert(k == d2 + 1 || k == d2 + 2 || k == d2 + 3);
                }
            }
            let major = u32_from_digits(s, 5, d1);
            let minor = u32_from_digits(s, d1 + 1, d2);
            let status = u32_from_digits(s, d2 + 1, d2 + 4);
            StatusOutcome::Got(major, minor, status, q + 2)
        },
    }
}

enum HeadersOutcome {
    More,
    Bad,
    Got(Vec<Header>, usize),
}

fn parse_headers_exec(s: &[u8], start: usize) -> (r: HeadersOutcome)
    requires
        start <= s@.len(),
    ensures
        (r is More ==> parse_header_lines(s@, start as int) is More),
        (r is Bad ==> parse_header_lines(s@, start as int) is Bad),
        (r matches HeadersOutcome::Got(hs, end) ==> parse_header_lines(s@, start as int)
            == HeaderLines::Got(hs@.map_values(|h: Header| h@), end as int) && end <= s@.len()),
{
    let n = s.len();
    let mut acc: Vec<Header> = Vec::new();
    let mut i = start;
    proof {
        assert(acc@.map_values(|h: Header| h@) =~= Seq::<SpecHeader>::empty());
    }
    loop
        invariant
            start <= i <= n,
            n == s@.len(),
            (match parse_header_lines(s@, i as int) {
                HeaderLines::More => parse_header_lines(s@, start as int) is More,
                HeaderLines::Bad => parse_header_lines(s@, start as int) is Bad,
                HeaderLines::Got(rest, end) => parse_header_lines(s@, start as int)
                    == HeaderLines::Got(acc@.map_values(|h: Header| h@) + rest, end),
            }),
        decreases n - i,
    {
        if i >= n {
            return HeadersOutcome::More;
        }
        if s[i] == 13 {
            if n - i < 2 {
                return HeadersOutcome::More;
            }
            if s[i + 1] == 10 {
                proof {
                    assert(acc@.map_values(|h: Header| h@) + Seq::<SpecHeader>::empty()
                        =~= acc@.map_values(|h: Header| h@));
                }
                return HeadersOutcome::Got(acc, i + 2);
            }
            return HeadersOutcome::Bad;
        }
        if !is_token(s[i]) {
            return HeadersOutcome::Bad;
        }
        let n_end = scan_token(s, i);
        if n_end == n {
            return HeadersOutcome::More;
        }
        if s[n_end] != 58 {
            return HeadersOutcome::Bad;
        }
        let v_start = scan_ws(s, n_end + 1);
        match find_crlf_from(s, v_start) {
            None => {
                return HeadersOutcome::More;
            },
            Some(q) => {
                let mut b = q;
                while b > v_start && is_ws_x(s[b - 1])
                    invariant
                        v_start <= b <= q <= n,
                        n == s@.len(),
                        forall|j: int| b <= j < q ==> is_ws(#[trigger] s@[j]),
                    decreases b,
                {
                    b -= 1;
                }
                let ghost raw = s@.subrange(v_start as int, q as int);
                proof {
                    lemma_rtrim_bytes_take(raw, b - v_start);
                    assert(raw.take(b - v_start) =~= s@.subrange(v_start as int, b as int));
                }
                let name = latin1_string(s, i, n_end);
                let value = latin1_string(s, v_start, b);
                let h = new_header(name, value);
                let ghost old_views = acc@.map_values(|hh: Header| hh@);
                acc.push(h);
                proof {
                    let hspec = SpecHeader {
                        name: latin1(s@.subrange(i as int, n_end as int)),
                        value: Some(latin1(rtrim_bytes(raw))),
                    };
                    assert(h@ =~= hspec);
                    assert(acc@.map_values(|hh: Header| hh@) =~= old_views.push(hspec));
                    if let HeaderLines::Got(rest2, e2) = parse_header_lines(s@, q + 2) {
                        assert(old_views.push(hspec) + rest2 =~= old_views + (seq![hspec]
                            + rest2));
                    }
                }
                i = q + 2;
            },
        }
    }
}

/// Parses a response head from the start of `input`.
///
/// On `Done`, the returned count is the exact number of bytes the head
/// occupied; the bytes after it belong to the body or to the next message.
/// `NeedMore` means the input is a prefix of something the grammar could
/// still accept; `Malformed` means it never can be.
pub fn response(input: &[u8]) -> (r: ParseResult)
    ensures
        (r is NeedMore ==> parse_head(input@) is More),
        (r is Malformed ==> parse_head(input@) is Bad),
        (r matches ParseResult::Done(resp, used) ==> parse_head(input@) matches HeadParse::Got(
            h,
            n,
        ) && n == used as int && used <= input@.len() && resp@ == (SpecResponse {
            version: h.version,
            status: h.status,
            headers: h.headers,
            body: Seq::<u8>::empty(),
        })),
{
    match parse_status_line_exec(input) {
        StatusOutcome::More => ParseResult::NeedMore,
        StatusOutcome::Bad => ParseResult::Malformed,
        StatusOutcome::Got(major, minor, status, end) => {
            match parse_headers_exec(input, end) {
                HeadersOutcome::More => ParseResult::NeedMore,
                HeadersOutcome::Bad => ParseResult::Malformed,
                HeadersOutcome::Got(headers, hend) => {
                    let resp = new_response((major, minor), status, headers);
                    ParseResult::Done(resp, hend)
                },
            }
        },
    }
}

} // verus!
