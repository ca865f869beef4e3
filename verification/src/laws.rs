//! The laws this library states about itself: chunking-invariance of the
//! decoder, and the round trip from serialized wire bytes back through the
//! head grammar and the decoder.

use vstd::prelude::*;
use vstd::utf8::{encode_utf8, is_ascii_chars, is_ascii_chars_encode_utf8};
use crate::grammar::{
    digits_end, find_crlf, is_digit, is_token_byte, is_ws, lemma_digits_end, lemma_find_crlf,
    lemma_rtrim_bytes_take, lemma_token_end, lemma_ws_end, parse_head, parse_header_lines,
    parse_status_line, rtrim_bytes, token_end, ws_end, HeadParse, HeaderLines, SpecHead,
    SpecHeader, StatusLine,
};
use crate::codec::{
    no_body_status, resp_of_head, spec_step, valid_content_length, wants_chunked,
    DecodeError, SpecDecoder,
};
use crate::request::{
    header_block_bytes, header_line_bytes, header_lines_bytes, request_bytes, request_line_bytes,
    SpecRequest,
};
use crate::response::{lookup, SpecResponse};
use crate::text::{
    dec_chars_of, digits_val, is_digit_char, is_ws_char, latin1,
    lemma_dec_chars_digits, lemma_dec_chars_len3, u32_of_digits,
};

verus! {

/// A character that may stand in a header name on the wire.
pub open spec fn is_token_char(c: char) -> bool {
    32 < c as int && (c as int) < 127 && c as int != 58
}

/// A name the grammar reads back exactly: non-empty, token characters only.
pub open spec fn wf_header_name(name: Seq<char>) -> bool {
    name.len() > 0 && forall|j: int| 0 <= j < name.len() ==> is_token_char(#[trigger] name[j])
}

/// A value the grammar reads back exactly: printable ASCII or tab, with no
/// leading or trailing space or tab (the grammar skips and strips those).
pub open spec fn wf_header_value(value: Seq<char>) -> bool {
    &&& forall|j: int|
        0 <= j < value.len() ==> ((#[trigger] value[j]) as int == 9 || (32 <= value[j] as int
            && (value[j] as int) < 127))
    &&& (value.len() > 0 ==> !is_ws_char(value[0]) && !is_ws_char(value[value.len() - 1]))
}

pub open spec fn wf_headers(headers: Seq<(Seq<char>, Seq<char>)>) -> bool {
    forall|j: int|
        0 <= j < headers.len() ==> wf_header_name((#[trigger] headers[j]).0) && wf_header_value(
            headers[j].1,
        )
}

/// A reason phrase the grammar can delimit: no CRLF pair inside it.
pub open spec fn no_crlf_pair(b: Seq<u8>) -> bool {
    forall|k: int| 0 <= k < b.len() - 1 ==> !(b[k] == 13 && #[trigger] b[k + 1] == 10)
}

/// ASCII characters written one byte each.
pub open spec fn ascii_bytes(cs: Seq<char>) -> Seq<u8> {
    cs.map_values(|c: char| c as u8)
}

/// The headers a serialized header block parses back to.
pub open spec fn spec_headers_of(headers: Seq<(Seq<char>, Seq<char>)>) -> Seq<SpecHeader> {
    headers.map_values(|p: (Seq<char>, Seq<char>)| SpecHeader { name: p.0, value: Some(p.1) })
}

/// For ASCII characters the UTF-8 encoding is one byte per character.
pub proof fn lemma_encode_utf8_ascii(cs: Seq<char>)
    requires
        forall|j: int|
            0 <= j < cs.len() ==> 0 <= (#[trigger] cs[j]) as int && ((cs[j]) as int) < 128,
    ensures
        encode_utf8(cs) == ascii_bytes(cs),
{
    assert forall|i: int| 0 <= i < cs.len() implies '\0' <= #[trigger] cs[i] <= '\u{7f}' by {
        assert(0 <= cs[i] as int && (cs[i] as int) < 128);
    }
    assert(is_ascii_chars(cs));
    is_ascii_chars_encode_utf8(cs);
    assert(encode_utf8(cs) =~= ascii_bytes(cs));
}

/// Reading ASCII bytes back as characters is the identity.
pub proof fn lemma_latin1_ascii_bytes(cs: Seq<char>)
    requires
        forall|j: int|
            0 <= j < cs.len() ==> 0 <= (#[trigger] cs[j]) as int && ((cs[j]) as int) < 256,
    ensures
        latin1(ascii_bytes(cs)) == cs,
{
    assert forall|j: int| 0 <= j < cs.len() implies (cs[j] as u8) as char == cs[j] by {
        assert(0 <= cs[j] as int && (cs[j] as int) < 256);
    }
    assert(latin1(ascii_bytes(cs)) =~= cs);
}

proof fn lemma_digits_end_value(s: Seq<u8>, i: int, j: int)
    requires
        0 <= i <= j < s.len(),
        forall|k: int| i <= k < j ==> is_digit(#[trigger] s[k]),
        !is_digit(s[j]),
    ensures
        digits_end(s, i) == j,
{
    lemma_digits_end(s, i);
}

proof fn lemma_token_end_value(s: Seq<u8>, i: int, j: int)
    requires
        0 <= i <= j < s.len(),
        forall|k: int| i <= k < j ==> is_token_byte(#[trigger] s[k]),
        !is_token_byte(s[j]),
    ensures
        token_end(s, i) == j,
{
    lemma_token_end(s, i);
}

proof fn lemma_ws_end_value(s: Seq<u8>, i: int, j: int)
    requires
        0 <= i <= j < s.len(),
        forall|k: int| i <= k < j ==> is_ws(#[trigger] s[k]),
        !is_ws(s[j]),
    ensures
        ws_end(s, i) == j,
{
    lemma_ws_end(s, i);
}

proof fn lemma_find_crlf_value(s: Seq<u8>, i: int, j: int)
    requires
        0 <= i <= j,
        j + 2 <= s.len(),
        forall|k: int| i <= k < j ==> #[trigger] s[k] != 13 || s[k + 1] != 10,
        s[j] == 13,
        s[j + 1] == 10,
    ensures
        find_crlf(s, i) == Some(j),
{
    lemma_find_crlf(s, i);
    if let Some(q) = find_crlf(s, i) {
        if q < j {
            assert(s[q] != 13 || s[q + 1] != 10);
        }
        if q > j {
            assert(!(s[j] == 13 && s[j + 1] == 10));
        }
    } else {
        assert(!(s[j] == 13 && s[j + 1] == 10));
    }
}

/// A serialized header block parses back to exactly its headers, wherever it
/// sits in the input and whatever bytes follow it.
#[verifier::rlimit(100)]
pub proof fn lemma_parse_serialized_headers(
    s: Seq<u8>,
    i: int,
    headers: Seq<(Seq<char>, Seq<char>)>,
)
    requires
        0 <= i,
        wf_headers(headers),
        i + header_block_bytes(headers).len() <= s.len(),
        s.subrange(i, i + header_block_bytes(headers).len() as int) == header_block_bytes(headers),
    ensures
        parse_header_lines(s, i) == HeaderLines::Got(
            spec_headers_of(headers),
            i + header_block_bytes(headers).len() as int,
        ),
    decreases headers.len(),
{
    let blk = header_block_bytes(headers);
    assert forall|k: int| 0 <= k < blk.len() implies s[i + k] == #[trigger] blk[k] by {
        assert(blk[k] == s.subrange(i, i + blk.len() as int)[k]);
    }
    if headers.len() == 0 {
        assert(header_lines_bytes(headers) =~= Seq::<u8>::empty());
        assert(blk =~= seq![13u8, 10u8]);
        assert(s[i] == 13 && s[i + 1] == 10);
        assert(spec_headers_of(headers) =~= Seq::<SpecHeader>::empty());
    } else {
        let name = headers.first().0;
        let value = headers.first().1;
        assert(headers[0] == headers.first());
        assert(wf_header_name(name) && wf_header_value(value));
        assert forall|j: int| 0 <= j < name.len() implies 0 <= (#[trigger] name[j]) as int
            && ((name[j]) as int) < 128 by {
            assert(is_token_char(name[j]));
        }
        assert forall|j: int| 0 <= j < value.len() implies 0 <= (#[trigger] value[j]) as int
            && ((value[j]) as int) < 128 by {}
        lemma_encode_utf8_ascii(name);
        lemma_encode_utf8_ascii(value);
        lemma_latin1_ascii_bytes(name);
        lemma_latin1_ascii_bytes(value);
        let nb = encode_utf8(name);
        let vb = encode_utf8(value);
        let line = header_line_bytes(name, value);
        let rest = headers.drop_first();
        let nl = name.len() as int;
        let vl = value.len() as int;
        assert(nb.len() == nl && vb.len() == vl);
        assert(line.len() == nl + 2 + vl + 2);
        assert(header_lines_bytes(headers) == line + header_lines_bytes(rest));
        assert(blk =~= line + header_block_bytes(rest));
        let colon = i + nl;
        let v_start = colon + 2;
        let q = v_start + vl;
        // the bytes of the line, region by region
        assert forall|k: int| 0 <= k < nl implies s[i + k] == (#[trigger] name[k]) as u8
            && is_token_byte(s[i + k]) by {
            assert(blk[k] == line[k]);
            assert(line[k] == nb[k]);
            assert(nb[k] == name[k] as u8);
            assert(is_token_char(name[k]));
        }
        assert(blk[nl] == line[nl] && line[nl] == 58);
        assert(blk[nl + 1] == line[nl + 1] && line[nl + 1] == 32);
        assert(s[colon] == 58 && s[colon + 1] == 32);
        assert forall|k: int| 0 <= k < vl implies s[v_start + k] == (#[trigger] value[k]) as u8
            && s[v_start + k] != 13 && s[v_start + k] != 10 by {
            assert(blk[nl + 2 + k] == line[nl + 2 + k]);
            assert(line[nl + 2 + k] == vb[k]);
            assert(vb[k] == value[k] as u8);
        }
        assert(blk[nl + 2 + vl] == line[nl + 2 + vl] && line[nl + 2 + vl] == 13);
        assert(blk[nl + 2 + vl + 1] == line[nl + 2 + vl + 1] && line[nl + 2 + vl + 1] == 10);
        assert(s[q] == 13 && s[q + 1] == 10);
        // the scanners land exactly on the region boundaries
        assert(!is_token_byte(s[colon]));
        assert forall|k: int| i <= k < colon implies is_token_byte(#[trigger] s[k]) by {
            assert(s[i + (k - i)] == name[k - i] as u8 && is_token_byte(s[i + (k - i)]));
            assert(i + (k - i) == k);
        }
        lemma_token_end_value(s, i, colon);
        assert(is_token_byte(s[i]) && s[i] != 13);
        assert(is_ws(s[colon + 1]));
        if vl > 0 {
            assert(!is_ws_char(value[0]));
            assert(s[v_start] == value[0] as u8);
            assert(!is_ws(s[v_start]));
        } else {
            assert(s[v_start] == 13);
            assert(!is_ws(s[v_start]));
        }
        lemma_ws_end_value(s, colon + 1, v_start);
        assert forall|k: int| v_start <= k < q implies #[trigger] s[k] != 13 || s[k + 1] != 10
            by {
            assert(s[v_start + (k - v_start)] == value[k - v_start] as u8 && s[v_start + (k
                - v_start)] != 13);
            assert(v_start + (k - v_start) == k);
        }
        lemma_find_crlf_value(s, v_start, q);
        // the raw value needs no trimming and reads back as itself
        let raw = s.subrange(v_start, q);
        assert(raw =~= ascii_bytes(value));
        if vl > 0 {
            assert(!is_ws_char(value[vl - 1]));
            assert(raw[vl - 1] == value[vl - 1] as u8);
            assert(!is_ws(raw[vl - 1]));
        }
        lemma_rtrim_bytes_take(raw, vl);
        assert(raw.take(vl) =~= raw);
        assert(latin1(rtrim_bytes(raw)) == value);
        assert(s.subrange(i, colon) =~= ascii_bytes(name));
        assert(latin1(s.subrange(i, colon)) == name);
        // the rest of the block parses by induction
        assert(wf_headers(rest)) by {
            assert(forall|j: int|
                0 <= j < rest.len() ==> #[trigger] rest[j] == headers[j + 1]);
        }
        let rblk = header_block_bytes(rest);
        assert(q + 2 == i + line.len());
        assert forall|k: int| 0 <= k < rblk.len() implies s.subrange(
            q + 2,
            q + 2 + rblk.len() as int,
        )[k] == #[trigger] rblk[k] by {
            assert(blk[line.len() + k] == rblk[k]);
            assert(s[q + 2 + k] == blk[line.len() + k]);
        }
        assert(s.subrange(q + 2, q + 2 + rblk.len() as int) =~= rblk);
        lemma_parse_serialized_headers(s, q + 2, rest);
        // stitch the first header onto the parsed tail
        let h = SpecHeader { name, value: Some(value) };
        assert(spec_headers_of(headers) =~= seq![h] + spec_headers_of(rest));
        assert(i + blk.len() == q + 2 + rblk.len());
    }
}

/// `HTTP/<major>.<minor> <status> <reason>\r\n`, with each number in its
/// canonical decimal digits.
pub open spec fn status_line_bytes(major: u32, minor: u32, status: u32, reason: Seq<u8>) -> Seq<
    u8,
> {
    seq![72u8, 84u8, 84u8, 80u8, 47u8] + ascii_bytes(dec_chars_of(major as nat)) + seq![46u8]
        + ascii_bytes(dec_chars_of(minor as nat)) + seq![32u8] + ascii_bytes(
        dec_chars_of(status as nat),
    ) + seq![32u8] + reason + seq![13u8, 10u8]
}

/// A whole serialized head: status line, then the header block.
pub open spec fn head_bytes(
    major: u32,
    minor: u32,
    status: u32,
    reason: Seq<u8>,
    headers: Seq<(Seq<char>, Seq<char>)>,
) -> Seq<u8> {
    status_line_bytes(major, minor, status, reason) + header_block_bytes(headers)
}

/// A serialized status line parses back to exactly its numbers, whatever
/// bytes follow it; the reason phrase is discarded.
#[verifier::rlimit(100)]
pub proof fn lemma_parse_serialized_status_line(
    s: Seq<u8>,
    major: u32,
    minor: u32,
    status: u32,
    reason: Seq<u8>,
)
    requires
        100 <= status <= 999,
        no_crlf_pair(reason),
        status_line_bytes(major, minor, status, reason).len() <= s.len(),
        s.subrange(0, status_line_bytes(major, minor, status, reason).len() as int)
            == status_line_bytes(major, minor, status, reason),
    ensures
        parse_status_line(s) == (StatusLine::Got {
            major,
            minor,
            status,
            end: status_line_bytes(major, minor, status, reason).len() as int,
        }),
{
    let sl = status_line_bytes(major, minor, status, reason);
    let mj = dec_chars_of(major as nat);
    let mn = dec_chars_of(minor as nat);
    let st = dec_chars_of(status as nat);
    lemma_dec_chars_digits(major as nat);
    lemma_dec_chars_digits(minor as nat);
    lemma_dec_chars_digits(status as nat);
    lemma_dec_chars_len3(status as nat);
    assert forall|j: int| 0 <= j < mj.len() implies 0 <= (#[trigger] mj[j]) as int && ((mj[j])
        as int) < 256 by {
        assert(is_digit_char(mj[j]));
    }
    assert forall|j: int| 0 <= j < mn.len() implies 0 <= (#[trigger] mn[j]) as int && ((mn[j])
        as int) < 256 by {
        assert(is_digit_char(mn[j]));
    }
    assert forall|j: int| 0 <= j < st.len() implies 0 <= (#[trigger] st[j]) as int && ((st[j])
        as int) < 256 by {
        assert(is_digit_char(st[j]));
    }
    lemma_latin1_ascii_bytes(mj);
    lemma_latin1_ascii_bytes(mn);
    lemma_latin1_ascii_bytes(st);
    assert forall|k: int| 0 <= k < sl.len() implies s[k] == #[trigger] sl[k] by {
        assert(sl[k] == s.subrange(0, sl.len() as int)[k]);
    }
    let ml = mj.len() as int;
    let nl = mn.len() as int;
    let rl = reason.len() as int;
    let d1 = 5 + ml;
    let d2 = d1 + 1 + nl;
    let r0 = d2 + 5;
    let q = r0 + rl;
    assert(sl.len() == q + 2);
    // peel the concatenation one layer at a time
    let a1 = seq![72u8, 84u8, 84u8, 80u8, 47u8];
    let a2 = ascii_bytes(mj);
    let a3 = seq![46u8];
    let a4 = ascii_bytes(mn);
    let a5 = seq![32u8];
    let a6 = ascii_bytes(st);
    let a7 = seq![32u8];
    let a8 = reason;
    let a9 = seq![13u8, 10u8];
    let c2 = a1 + a2;
    let c3 = c2 + a3;
    let c4 = c3 + a4;
    let c5 = c4 + a5;
    let c6 = c5 + a6;
    let c7 = c6 + a7;
    let c8 = c7 + a8;
    assert(sl == c8 + a9);
    assert(c2.len() == d1 && c3.len() == d1 + 1 && c4.len() == d2 && c5.len() == d2 + 1
        && c6.len() == d2 + 4 && c7.len() == r0 && c8.len() == q);
    assert forall|k: int| 0 <= k < q implies sl[k] == #[trigger] c8[k] by {
        assert((c8 + a9)[k] == c8[k]);
    }
    assert forall|k: int| 0 <= k < r0 implies c8[k] == #[trigger] c7[k] by {
        assert((c7 + a8)[k] == c7[k]);
    }
    assert forall|k: int| 0 <= k < d2 + 4 implies c7[k] == #[trigger] c6[k] by {
        assert((c6 + a7)[k] == c6[k]);
    }
    assert forall|k: int| 0 <= k < d2 + 1 implies c6[k] == #[trigger] c5[k] by {
        assert((c5 + a6)[k] == c5[k]);
    }
    assert forall|k: int| 0 <= k < d2 implies c5[k] == #[trigger] c4[k] by {
        assert((c4 + a5)[k] == c4[k]);
    }
    assert forall|k: int| 0 <= k < d1 + 1 implies c4[k] == #[trigger] c3[k] by {
        assert((c3 + a4)[k] == c3[k]);
    }
    assert forall|k: int| 0 <= k < d1 implies c3[k] == #[trigger] c2[k] by {
        assert((c2 + a3)[k] == c2[k]);
    }
    assert forall|k: int| 0 <= k < 5 implies c2[k] == #[trigger] a1[k] by {
        assert((a1 + a2)[k] == a1[k]);
    }
    assert(s[0] == 72 && s[1] == 84 && s[2] == 84 && s[3] == 80 && s[4] == 47);
    assert forall|k: int| 5 <= k < d1 implies #[trigger] s[k] == mj[k - 5] as u8 && is_digit(
        s[k],
    ) by {
        assert(sl[k] == c8[k] && c8[k] == c7[k] && c7[k] == c6[k] && c6[k] == c5[k] && c5[k]
            == c4[k] && c4[k] == c3[k] && c3[k] == c2[k]);
        assert((a1 + a2)[k] == a2[k - 5]);
        assert(a2[k - 5] == mj[k - 5] as u8);
        assert(is_digit_char(mj[k - 5]));
    }
    assert((c2 + a3)[d1] == a3[0]);
    assert(s[d1] == 46 && !is_digit(s[d1]));
    assert forall|k: int| d1 + 1 <= k < d2 implies #[trigger] s[k] == mn[k - d1 - 1] as u8
        && is_digit(s[k]) by {
        assert(sl[k] == c8[k] && c8[k] == c7[k] && c7[k] == c6[k] && c6[k] == c5[k] && c5[k]
            == c4[k]);
        assert((c3 + a4)[k] == a4[k - d1 - 1]);
        assert(a4[k - d1 - 1] == mn[k - d1 - 1] as u8);
        assert(is_digit_char(mn[k - d1 - 1]));
    }
    assert((c4 + a5)[d2] == a5[0]);
    assert(s[d2] == 32 && !is_digit(s[d2]));
    assert forall|k: int| d2 + 1 <= k < d2 + 4 implies #[trigger] s[k] == st[k - d2 - 1] as u8
        && is_digit(s[k]) by {
        assert(sl[k] == c8[k] && c8[k] == c7[k] && c7[k] == c6[k]);
        assert((c5 + a6)[k] == a6[k - d2 - 1]);
        assert(a6[k - d2 - 1] == st[k - d2 - 1] as u8);
        assert(is_digit_char(st[k - d2 - 1]));
    }
    assert(s[d2 + 1] == st[0] as u8 && s[d2 + 2] == st[1] as u8 && s[d2 + 3] == st[2] as u8);
    assert(is_digit(s[d2 + 1]) && is_digit(s[d2 + 2]) && is_digit(s[d2 + 3]));
    assert((c6 + a7)[d2 + 4] == a7[0]);
    assert(s[d2 + 4] == 32);
    assert forall|k: int| r0 <= k < q implies #[trigger] s[k] == reason[k - r0] by {
        assert(sl[k] == c8[k]);
        assert((c7 + a8)[k] == a8[k - r0]);
    }
    assert((c8 + a9)[q] == a9[0]);
    assert((c8 + a9)[q + 1] == a9[1]);
    assert(s[q] == 13 && s[q + 1] == 10);
    // the two digit runs end exactly at the dot and the space
    lemma_digits_end_value(s, 5, d1);
    lemma_digits_end_value(s, d1 + 1, d2);
    // the reason runs to the closing CRLF
    assert forall|k: int| r0 <= k < q implies #[trigger] s[k] != 13 || s[k + 1] != 10 by {
        if k < q - 1 {
            assert(s[k] == reason[k - r0] && s[k + 1] == reason[k - r0 + 1]);
            assert(!(reason[k - r0] == 13 && reason[k + 1 - r0] == 10));
        } else {
            assert(s[k + 1] == 13);
        }
    }
    lemma_find_crlf_value(s, r0, q);
    // the numbers read back as themselves
    assert(s.subrange(5, d1) =~= ascii_bytes(mj));
    assert(u32_of_digits(latin1(s.subrange(5, d1))) == major);
    assert(s.subrange(d1 + 1, d2) =~= ascii_bytes(mn));
    assert(u32_of_digits(latin1(s.subrange(d1 + 1, d2))) == minor);
    assert(s.subrange(d2 + 1, d2 + 4) =~= ascii_bytes(st));
    assert(u32_of_digits(latin1(s.subrange(d2 + 1, d2 + 4))) == status);
}

/// A serialized head parses back to exactly its version, status and headers,
/// whatever bytes follow it; the reason phrase is discarded.
pub proof fn theorem_head_round_trip(
    s: Seq<u8>,
    major: u32,
    minor: u32,
    status: u32,
    reason: Seq<u8>,
    headers: Seq<(Seq<char>, Seq<char>)>,
)
    requires
        100 <= status <= 999,
        no_crlf_pair(reason),
        wf_headers(headers),
        head_bytes(major, minor, status, reason, headers).len() <= s.len(),
        s.subrange(0, head_bytes(major, minor, status, reason, headers).len() as int)
            == head_bytes(major, minor, status, reason, headers),
    ensures
        parse_head(s) == HeadParse::Got(
            SpecHead { version: (major, minor), status, headers: spec_headers_of(headers) },
            head_bytes(major, minor, status, reason, headers).len() as int,
        ),
{
    let sl = status_line_bytes(major, minor, status, reason);
    let blk = header_block_bytes(headers);
    let hb = head_bytes(major, minor, status, reason, headers);
    assert forall|k: int| 0 <= k < hb.len() implies s[k] == #[trigger] hb[k] by {
        assert(hb[k] == s.subrange(0, hb.len() as int)[k]);
    }
    assert(s.subrange(0, sl.len() as int) =~= sl);
    lemma_parse_serialized_status_line(s, major, minor, status, reason);
    assert forall|k: int| 0 <= k < blk.len() implies s.subrange(
        sl.len() as int,
        sl.len() + blk.len() as int,
    )[k] == #[trigger] blk[k] by {
        assert(hb[sl.len() + k] == blk[k]);
    }
    assert(s.subrange(sl.len() as int, sl.len() + blk.len() as int) =~= blk);
    lemma_parse_serialized_headers(s, sl.len() as int, headers);
}

/// Round trip through the wire format: a serialized message whose
/// `Content-Length` names exactly its body length, fed whole to a fresh
/// decoder, decodes to exactly its version, status, headers and body, with
/// an empty buffer left behind. The reason phrase is discarded by design.
///
/// The request encoder writes its header block and body through the very
/// same serialization (`header_block_bytes`, then the raw body), so this is
/// the round trip of `encode`'s output, except for the first line: a
/// request line (`GET / HTTP/1.1`) is not a status line, and the response
/// grammar rejects it by design.
pub proof fn theorem_message_round_trip(
    major: u32,
    minor: u32,
    status: u32,
    reason: Seq<u8>,
    headers: Seq<(Seq<char>, Seq<char>)>,
    body: Seq<u8>,
)
    requires
        100 <= status <= 999,
        !no_body_status(status),
        no_crlf_pair(reason),
        wf_headers(headers),
        !wants_chunked(spec_headers_of(headers)),
        lookup(spec_headers_of(headers), "Content-Length"@) == Some(dec_chars_of(body.len())),
        body.len() <= usize::MAX,
    ensures
        spec_step(SpecDecoder::Head, head_bytes(major, minor, status, reason, headers) + body).0
            == SpecDecoder::Head,
        spec_step(SpecDecoder::Head, head_bytes(major, minor, status, reason, headers) + body).1
            == Seq::<u8>::empty(),
        spec_step(SpecDecoder::Head, head_bytes(major, minor, status, reason, headers) + body).2
            == Ok::<Option<SpecResponse>, DecodeError>(
            Some(
                SpecResponse {
                    version: (major, minor),
                    status,
                    headers: spec_headers_of(headers),
                    body,
                },
            ),
        ),
{
    let hb = head_bytes(major, minor, status, reason, headers);
    let msg = hb + body;
    assert(msg.subrange(0, hb.len() as int) =~= hb);
    theorem_head_round_trip(msg, major, minor, status, reason, headers);
    let h = SpecHead { version: (major, minor), status, headers: spec_headers_of(headers) };
    assert(parse_head(msg) == HeadParse::Got(h, hb.len() as int));
    assert(msg.skip(hb.len() as int) =~= body);
    lemma_dec_chars_digits(body.len());
    let v = dec_chars_of(body.len());
    assert(valid_content_length(v));
    let resp0 = resp_of_head(h);
    assert(resp0.body + body =~= body);
    assert((SpecResponse { body: resp0.body + body, ..resp0 }) =~= (SpecResponse {
        version: (major, minor),
        status,
        headers: spec_headers_of(headers),
        body,
    }));
}

/// Chunking-invariance of the decoder: when a feed ends with "need more
/// data", feeding the next chunk afterwards gives the same outcome as
/// having fed both chunks in one call; and unless that outcome is a fatal
/// error — fatal either way — the decoder state and the buffered bytes also
/// agree. Applied inductively over a sequence of chunks, a byte stream
/// split at arbitrary boundaries, down to one byte at a time, eventually
/// yields exactly the `Ready` responses of feeding it whole.
pub proof fn theorem_feed_chunking(st: SpecDecoder, b1: Seq<u8>, b2: Seq<u8>)
    requires
        spec_step(st, b1).2 == Ok::<Option<SpecResponse>, DecodeError>(None),
    ensures
        spec_step(spec_step(st, b1).0, spec_step(st, b1).1 + b2).2 == spec_step(st, b1 + b2).2,
        !(spec_step(st, b1 + b2).2 is Err) ==> spec_step(
            spec_step(st, b1).0,
            spec_step(st, b1).1 + b2,
        ).0 == spec_step(st, b1 + b2).0 && spec_step(spec_step(st, b1).0, spec_step(st, b1).1 + b2)
            .1 == spec_step(st, b1 + b2).1,
{
    match st {
        SpecDecoder::Head => {
            match parse_head(b1) {
                HeadParse::More => {
                    assert(spec_step(st, b1).0 == st && spec_step(st, b1).1 == b1);
                },
                HeadParse::Bad => {
                    assert(false);
                },
                HeadParse::Got(h, n) => {
                    crate::grammar::lemma_head_wf(b1);
                    assert(b1 =~= (b1 + b2).take(b1.len() as int));
                    crate::grammar::lemma_parse_head_extends(b1, b1 + b2);
                    assert(parse_head(b1 + b2) == HeadParse::Got(h, n));
                    let rest1 = b1.skip(n);
                    let restm = (b1 + b2).skip(n);
                    assert(restm =~= rest1 + b2);
                    let resp0 = resp_of_head(h);
                    if no_body_status(h.status) {
                        assert(false);
                    } else if wants_chunked(h.headers) {
                        assert(false);
                    } else {
                        match lookup(h.headers, "Content-Length"@) {
                            None => {
                                assert(false);
                            },
                            Some(v) => {
                                if !valid_content_length(v) {
                                    assert(false);
                                } else {
                                    let owed = digits_val(v);
                                    assert(rest1.len() < owed);
                                    let fed1 = SpecResponse {
                                        body: resp0.body + rest1,
                                        ..resp0
                                    };
                                    let rem1 = owed - rest1.len();
                                    assert(spec_step(st, b1).0 == (SpecDecoder::Body {
                                        resp: fed1,
                                        remaining: rem1,
                                    }));
                                    assert(spec_step(st, b1).1 =~= Seq::<u8>::empty());
                                    let r1b2 = spec_step(st, b1).1 + b2;
                                    assert(r1b2 =~= b2);
                                    if b2.len() > rem1 {
                                        assert(restm.len() > owed);
                                    } else {
                                        assert(fed1.body + r1b2 =~= resp0.body + restm);
                                        assert((SpecResponse { body: fed1.body + r1b2, ..fed1 })
                                            =~= (SpecResponse {
                                            body: resp0.body + restm,
                                            ..resp0
                                        }));
                                    }
                                }
                            },
                        }
                    }
                },
            }
        },
        SpecDecoder::Body { resp, remaining } => {
            assert(b1.len() < remaining);
            let fed1 = SpecResponse { body: resp.body + b1, ..resp };
            let rem1 = remaining - b1.len();
            assert(spec_step(st, b1).1 =~= Seq::<u8>::empty());
            let r1b2 = spec_step(st, b1).1 + b2;
            assert(r1b2 =~= b2);
            if b2.len() <= rem1 {
                assert(fed1.body + r1b2 =~= resp.body + (b1 + b2));
                assert((SpecResponse { body: fed1.body + r1b2, ..fed1 }) =~= (SpecResponse {
                    body: resp.body + (b1 + b2),
                    ..resp
                }));
            }
        },
    }
}

/// What `encode` writes is the request line followed by exactly the header
/// block and body that [`theorem_message_round_trip`] decodes: the bytes
/// after the request line are `header_block_bytes(req.headers) + req.body`.
/// The request line itself (`GET / HTTP/1.1`) is not a status line, so the
/// response grammar rejects `encode`'s output taken verbatim; prefixed by a
/// status line instead, its headers and body round-trip exactly.
pub proof fn lemma_request_bytes_shape(req: SpecRequest)
    ensures
        request_bytes(req) == request_line_bytes(req) + (header_block_bytes(req.headers)
            + req.body),
{
    assert(request_bytes(req) =~= request_line_bytes(req) + (header_block_bytes(req.headers)
        + req.body));
}

/// The concatenation of a sequence of chunks.
pub open spec fn concat_chunks(chunks: Seq<Seq<u8>>) -> Seq<u8>
    decreases chunks.len(),
{
    if chunks.len() == 0 {
        Seq::empty()
    } else {
        chunks.first() + concat_chunks(chunks.drop_first())
    }
}

/// Whether feeding the chunks one `decode` call at a time, from state `st`
/// with `buf` already buffered, answers "need more data" every time.
pub open spec fn feeds_need_more(st: SpecDecoder, buf: Seq<u8>, chunks: Seq<Seq<u8>>) -> bool
    decreases chunks.len(),
{
    chunks.len() == 0 || {
        spec_step(st, buf + chunks.first()).2 == Ok::<Option<SpecResponse>, DecodeError>(None)
            && feeds_need_more(
            spec_step(st, buf + chunks.first()).0,
            spec_step(st, buf + chunks.first()).1,
            chunks.drop_first(),
        )
    }
}

/// The decoder state and buffered bytes after those feeds.
pub open spec fn state_after_feeds(st: SpecDecoder, buf: Seq<u8>, chunks: Seq<Seq<u8>>) -> (
    SpecDecoder,
    Seq<u8>,
)
    decreases chunks.len(),
{
    if chunks.len() == 0 {
        (st, buf)
    } else {
        state_after_feeds(
            spec_step(st, buf + chunks.first()).0,
            spec_step(st, buf + chunks.first()).1,
            chunks.drop_first(),
        )
    }
}

/// Chunking-invariance over any fragmentation, by induction over
/// [`theorem_feed_chunking`]: when every earlier feed answered "need more
/// data", the feed that takes the final fragment gives the same outcome as
/// one call fed the whole byte sequence — and, unless that outcome is a
/// fatal error (fatal either way), the same decoder state and buffered
/// bytes. With the fragments of a valid message, split at any boundaries
/// down to one byte at a time, the last feed therefore returns the same
/// `Ready` response as feeding the message whole.
pub proof fn theorem_any_fragmentation(
    st: SpecDecoder,
    buf: Seq<u8>,
    chunks: Seq<Seq<u8>>,
    last: Seq<u8>,
)
    requires
        feeds_need_more(st, buf, chunks),
    ensures
        spec_step(
            state_after_feeds(st, buf, chunks).0,
            state_after_feeds(st, buf, chunks).1 + last,
        ).2 == spec_step(st, buf + concat_chunks(chunks) + last).2,
        !(spec_step(st, buf + concat_chunks(chunks) + last).2 is Err) ==> spec_step(
            state_after_feeds(st, buf, chunks).0,
            state_after_feeds(st, buf, chunks).1 + last,
        ).0 == spec_step(st, buf + concat_chunks(chunks) + last).0 && spec_step(
            state_after_feeds(st, buf, chunks).0,
            state_after_feeds(st, buf, chunks).1 + last,
        ).1 == spec_step(st, buf + concat_chunks(chunks) + last).1,
    decreases chunks.len(),
{
    if chunks.len() == 0 {
        assert(buf + concat_chunks(chunks) + last =~= buf + last);
    } else {
        let c = chunks.first();
        let st1 = spec_step(st, buf + c).0;
        let b1 = spec_step(st, buf + c).1;
        let tail = concat_chunks(chunks.drop_first()) + last;
        theorem_any_fragmentation(st1, b1, chunks.drop_first(), last);
        theorem_feed_chunking(st, buf + c, tail);
        assert(b1 + concat_chunks(chunks.drop_first()) + last =~= b1 + tail);
        assert((buf + c) + tail =~= buf + concat_chunks(chunks) + last);
    }
}

proof fn lemma_concat_snoc(cs: Seq<Seq<u8>>, c: Seq<u8>)
    ensures
        concat_chunks(cs.push(c)) == concat_chunks(cs) + c,
    decreases cs.len(),
{
    if cs.len() == 0 {
        assert(cs.push(c).first() == c);
        assert(cs.push(c).drop_first() =~= Seq::<Seq<u8>>::empty());
        assert(concat_chunks(Seq::<Seq<u8>>::empty()) =~= Seq::<u8>::empty());
        assert(concat_chunks(cs.push(c)) =~= concat_chunks(cs) + c);
    } else {
        lemma_concat_snoc(cs.drop_first(), c);
        assert(cs.push(c).first() == cs.first());
        assert(cs.push(c).drop_first() =~= cs.drop_first().push(c));
        assert(concat_chunks(cs.push(c)) =~= concat_chunks(cs) + c);
    }
}

proof fn lemma_concat_take_prefix(chunks: Seq<Seq<u8>>, k: int)
    requires
        0 <= k <= chunks.len(),
    ensures
        concat_chunks(chunks.take(k)) + concat_chunks(chunks.skip(k)) == concat_chunks(chunks),
    decreases k,
{
    if k == 0 {
        assert(chunks.take(0) =~= Seq::<Seq<u8>>::empty());
        assert(chunks.skip(0) =~= chunks);
        assert(concat_chunks(chunks.take(0)) + concat_chunks(chunks.skip(0)) =~= concat_chunks(
            chunks,
        ));
    } else {
        lemma_concat_take_prefix(chunks.drop_first(), k - 1);
        assert(chunks.take(k).first() == chunks.first());
        assert(chunks.take(k).drop_first() =~= chunks.drop_first().take(k - 1));
        assert(chunks.skip(k) =~= chunks.drop_first().skip(k - 1));
        assert(concat_chunks(chunks.take(k)) + concat_chunks(chunks.skip(k)) =~= concat_chunks(
            chunks,
        ));
    }
}

/// Appending one more chunk that also answers "need more data" extends a
/// run of such feeds, and lands in the state and buffer that feed produces.
proof fn lemma_feeds_snoc(st: SpecDecoder, buf: Seq<u8>, cs: Seq<Seq<u8>>, c: Seq<u8>)
    requires
        feeds_need_more(st, buf, cs),
        spec_step(state_after_feeds(st, buf, cs).0, state_after_feeds(st, buf, cs).1 + c).2
            == Ok::<Option<SpecResponse>, DecodeError>(None),
    ensures
        feeds_need_more(st, buf, cs.push(c)),
        state_after_feeds(st, buf, cs.push(c)).0 == spec_step(
            state_after_feeds(st, buf, cs).0,
            state_after_feeds(st, buf, cs).1 + c,
        ).0,
        state_after_feeds(st, buf, cs.push(c)).1 == spec_step(
            state_after_feeds(st, buf, cs).0,
            state_after_feeds(st, buf, cs).1 + c,
        ).1,
    decreases cs.len(),
{
    if cs.len() == 0 {
        assert(cs.push(c).first() == c);
        assert(cs.push(c).drop_first() =~= Seq::<Seq<u8>>::empty());
        assert(state_after_feeds(st, buf, cs).0 == st && state_after_feeds(st, buf, cs).1
            == buf);
        let st1 = spec_step(st, buf + c).0;
        let b1 = spec_step(st, buf + c).1;
        assert(feeds_need_more(st1, b1, Seq::<Seq<u8>>::empty()));
        assert(state_after_feeds(st1, b1, Seq::<Seq<u8>>::empty()).0 == st1);
        assert(state_after_feeds(st1, b1, Seq::<Seq<u8>>::empty()).1 == b1);
    } else {
        assert(cs.push(c).first() == cs.first());
        assert(cs.push(c).drop_first() =~= cs.drop_first().push(c));
        let st1 = spec_step(st, buf + cs.first()).0;
        let b1 = spec_step(st, buf + cs.first()).1;
        assert(state_after_feeds(st, buf, cs).0 == state_after_feeds(st1, b1, cs.drop_first()).0
            && state_after_feeds(st, buf, cs).1 == state_after_feeds(st1, b1, cs.drop_first()).1);
        lemma_feeds_snoc(st1, b1, cs.drop_first(), c);
    }
}

/// A strict prefix of a message that one feed decodes to `Ready`, consuming
/// the whole buffer, itself answers "need more data".
proof fn lemma_prefix_needs_more(whole: Seq<u8>, m: int)
    requires
        spec_step(SpecDecoder::Head, whole).1 == Seq::<u8>::empty(),
        (spec_step(SpecDecoder::Head, whole).2 matches Ok(Some(_))),
        0 <= m < whole.len(),
    ensures
        spec_step(SpecDecoder::Head, whole.take(m)).2 == Ok::<Option<SpecResponse>, DecodeError>(
            None,
        ),
{
    let p = whole.take(m);
    crate::grammar::lemma_head_wf(p);
    match parse_head(p) {
        HeadParse::More => {},
        HeadParse::Bad => {
            crate::grammar::lemma_parse_head_extends(p, whole);
            assert(false);
        },
        HeadParse::Got(h, n) => {
            crate::grammar::lemma_parse_head_extends(p, whole);
            assert(parse_head(whole) == HeadParse::Got(h, n));
            let rest_w = whole.skip(n);
            let rest_p = p.skip(n);
            assert(n <= m);
            if no_body_status(h.status) {
                // the whole feed left an empty buffer, so the head was the
                // whole message, yet the prefix is strictly shorter
                assert(rest_w.len() == 0);
                assert(false);
            } else if wants_chunked(h.headers) {
                assert(false);
            } else {
                match lookup(h.headers, "Content-Length"@) {
                    None => {
                        assert(false);
                    },
                    Some(v) => {
                        if !valid_content_length(v) {
                            assert(false);
                        } else {
                            let owed = digits_val(v);
                            assert(rest_w.len() == owed);
                            assert(rest_p.len() < owed);
                        }
                    },
                }
            }
        },
    }
}

proof fn lemma_feeds_need_more_prefixes(
    whole: Seq<u8>,
    chunks: Seq<Seq<u8>>,
    last: Seq<u8>,
    k: int,
)
    requires
        spec_step(SpecDecoder::Head, whole).1 == Seq::<u8>::empty(),
        (spec_step(SpecDecoder::Head, whole).2 matches Ok(Some(_))),
        concat_chunks(chunks) + last == whole,
        last.len() > 0,
        0 <= k <= chunks.len(),
    ensures
        feeds_need_more(SpecDecoder::Head, Seq::empty(), chunks.take(k)),
    decreases k,
{
    if k == 0 {
        assert(chunks.take(0) =~= Seq::<Seq<u8>>::empty());
    } else {
        lemma_feeds_need_more_prefixes(whole, chunks, last, k - 1);
        let pre = chunks.take(k - 1);
        let c = chunks[k - 1];
        assert(chunks.take(k) =~= pre.push(c));
        theorem_any_fragmentation(SpecDecoder::Head, Seq::empty(), pre, c);
        lemma_concat_snoc(pre, c);
        lemma_concat_take_prefix(chunks, k);
        let ctk = concat_chunks(chunks.take(k));
        assert(ctk + (concat_chunks(chunks.skip(k)) + last) =~= whole);
        assert(ctk.len() < whole.len());
        assert(whole.take(ctk.len() as int) =~= ctk);
        lemma_prefix_needs_more(whole, ctk.len() as int);
        assert(Seq::<u8>::empty() + concat_chunks(pre) + c =~= ctk);
        lemma_feeds_snoc(SpecDecoder::Head, Seq::empty(), pre, c);
    }
}

/// P1 in closed form. Take a message that a single feed to a fresh decoder
/// turns into `Ready`, consuming the whole buffer, and split it anywhere at
/// all into chunks plus a final fragment — down to one byte each. Feeding
/// the chunks one call at a time answers "need more data" every time, and
/// the feed that takes the final fragment returns the very same `Ready`
/// response, decoder state and buffer as the single feed did.
pub proof fn theorem_complete_message_chunking(
    whole: Seq<u8>,
    chunks: Seq<Seq<u8>>,
    last: Seq<u8>,
)
    requires
        spec_step(SpecDecoder::Head, whole).1 == Seq::<u8>::empty(),
        (spec_step(SpecDecoder::Head, whole).2 matches Ok(Some(_))),
        concat_chunks(chunks) + last == whole,
        last.len() > 0,
    ensures
        feeds_need_more(SpecDecoder::Head, Seq::empty(), chunks),
        spec_step(
            state_after_feeds(SpecDecoder::Head, Seq::empty(), chunks).0,
            state_after_feeds(SpecDecoder::Head, Seq::empty(), chunks).1 + last,
        ) == spec_step(SpecDecoder::Head, whole),
{
    lemma_feeds_need_more_prefixes(whole, chunks, last, chunks.len() as int);
    assert(chunks.take(chunks.len() as int) =~= chunks);
    theorem_any_fragmentation(SpecDecoder::Head, Seq::empty(), chunks, last);
    assert(Seq::<u8>::empty() + concat_chunks(chunks) + last =~= whole);
}

/// A no-body response (1xx, 204 or 304) completes the moment the blank line
/// after its head is seen: the decoder emits it with an empty body at once,
/// and every byte after the head stays in the buffer — it belongs to the
/// next message.
pub proof fn theorem_no_body_immediate(buf: Seq<u8>)
    requires
        parse_head(buf) matches HeadParse::Got(h, n) && no_body_status(h.status),
    ensures
        (parse_head(buf) matches HeadParse::Got(h, n) ==> spec_step(SpecDecoder::Head, buf).0
            == SpecDecoder::Head && spec_step(SpecDecoder::Head, buf).1 == buf.skip(n)
            && spec_step(SpecDecoder::Head, buf).2 == Ok::<Option<SpecResponse>, DecodeError>(
            Some(resp_of_head(h)),
        ) && resp_of_head(h).body == Seq::<u8>::empty()),
{
}

} // verus!
