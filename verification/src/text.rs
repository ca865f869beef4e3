//! Character-level helpers shared by the response model, the grammar and the
//! encoder: case-insensitive ASCII comparison, whitespace trimming, and
//! decimal digit runs.

use vstd::prelude::*;
use vstd::string::StrSliceExecFns;

verus! {

/// Header bytes are interpreted byte-for-byte as the character with the same
/// code (ISO-8859-1, the historical default charset of HTTP/1.1). This is a
/// deliberate choice: no UTF-8 decoding is attempted, so a header value
/// carrying multi-byte UTF-8 yields one character per byte, not the decoded
/// character. On ASCII values the two readings agree.
pub open spec fn latin1(s: Seq<u8>) -> Seq<char> {
    s.map_values(|b: u8| b as char)
}

/// ASCII upper-case letters fold to lower case; everything else is itself.
pub open spec fn lower_code(c: char) -> int {
    if 65 <= c as int <= 90 {
        c as int + 32
    } else {
        c as int
    }
}

/// Case-insensitive (ASCII) equality of two character sequences.
pub open spec fn ci_eq(a: Seq<char>, b: Seq<char>) -> bool {
    a.len() == b.len() && forall|j: int| 0 <= j < a.len() ==> lower_code(a[j]) == lower_code(b[j])
}

pub open spec fn is_ws_char(c: char) -> bool {
    c == ' ' || c == '\t'
}

pub open spec fn ltrim(s: Seq<char>) -> Seq<char>
    decreases s.len(),
{
    if s.len() > 0 && is_ws_char(s.first()) {
        ltrim(s.drop_first())
    } else {
        s
    }
}

pub open spec fn rtrim(s: Seq<char>) -> Seq<char>
    decreases s.len(),
{
    if s.len() > 0 && is_ws_char(s.last()) {
        rtrim(s.drop_last())
    } else {
        s
    }
}

/// Space and tab stripped from both ends.
pub open spec fn trim(s: Seq<char>) -> Seq<char> {
    rtrim(ltrim(s))
}

pub open spec fn is_digit_char(c: char) -> bool {
    48 <= c as int <= 57
}

pub open spec fn all_digit_chars(s: Seq<char>) -> bool {
    forall|j: int| 0 <= j < s.len() ==> is_digit_char(#[trigger] s[j])
}

/// The number a run of decimal digit characters denotes.
pub open spec fn digits_val(s: Seq<char>) -> int
    decreases s.len(),
{
    if s.len() == 0 {
        0
    } else {
        10 * digits_val(s.drop_last()) + (s.last() as int - 48)
    }
}

/// The `u32` a digit run denotes, with 0 standing in for values that do not
/// fit (version numbers are read this way).
pub open spec fn u32_of_digits(s: Seq<char>) -> u32 {
    if 0 <= digits_val(s) <= u32::MAX {
        digits_val(s) as u32
    } else {
        0
    }
}

/// The canonical decimal digit run denoting `n` (no leading zero except for 0).
pub open spec fn dec_chars_of(n: nat) -> Seq<char>
    decreases n,
{
    if n < 10 {
        seq![((48 + n) as u8) as char]
    } else {
        dec_chars_of(n / 10).push(((48 + n % 10) as u8) as char)
    }
}

pub proof fn lemma_digits_val_nonneg(s: Seq<char>)
    requires
        all_digit_chars(s),
    ensures
        digits_val(s) >= 0,
    decreases s.len(),
{
    if s.len() > 0 {
        assert(all_digit_chars(s.drop_last()));
        lemma_digits_val_nonneg(s.drop_last());
    }
}

/// Reading one more digit multiplies the value so far by ten and adds it.
pub proof fn lemma_digits_val_step(s: Seq<char>, j: int)
    requires
        0 <= j < s.len(),
    ensures
        digits_val(s.take(j + 1)) == 10 * digits_val(s.take(j)) + (s[j] as int - 48),
{
    assert(s.take(j + 1).drop_last() =~= s.take(j));
    assert(s.take(j + 1).last() == s[j]);
}

/// The value of a digit run bounds the value of each of its prefixes.
pub proof fn lemma_digits_val_prefix(s: Seq<char>, j: int)
    requires
        all_digit_chars(s),
        0 <= j <= s.len(),
    ensures
        digits_val(s.take(j)) <= digits_val(s),
    decreases s.len() - j,
{
    if j == s.len() {
        assert(s.take(j) =~= s);
    } else {
        lemma_digits_val_step(s, j);
        lemma_digits_val_nonneg(s.take(j));
        assert(all_digit_chars(s.take(j))) by {
            assert(forall|k: int| 0 <= k < j ==> s.take(j)[k] == s[k]);
        }
        lemma_digits_val_prefix(s, j + 1);
    }
}

pub proof fn lemma_dec_chars_digits(n: nat)
    ensures
        all_digit_chars(dec_chars_of(n)),
        dec_chars_of(n).len() >= 1,
        digits_val(dec_chars_of(n)) == n,
    decreases n,
{
    if n < 10 {
        let s = dec_chars_of(n);
        assert(s.len() == 1);
        assert(s[0] == ((48 + n) as u8) as char);
        assert((48 + n) as u8 == 48 + n);
        assert((((48 + n) as u8) as char) as int == 48 + n);
        assert(s.drop_last() =~= Seq::<char>::empty());
        assert(digits_val(Seq::<char>::empty()) == 0);
        assert(s.last() == s[0]);
    } else {
        lemma_dec_chars_digits(n / 10);
        let s = dec_chars_of(n);
        let p = dec_chars_of(n / 10);
        assert(s.drop_last() =~= p);
        assert(s.last() == ((48 + n % 10) as u8) as char);
        assert((48 + n % 10) as u8 == 48 + n % 10);
        assert((((48 + n % 10) as u8) as char) as int == 48 + n % 10);
        assert(forall|j: int| 0 <= j < s.len() ==> is_digit_char(#[trigger] s[j])) by {
            assert(forall|j: int| 0 <= j < p.len() ==> s[j] == p[j]);
        }
        assert(digits_val(s) == 10 * (n / 10) + n % 10);
    }
}

/// Three-digit numbers have three-character decimal runs.
pub proof fn lemma_dec_chars_len3(n: nat)
    requires
        100 <= n <= 999,
    ensures
        dec_chars_of(n).len() == 3,
{
    assert(10 <= n / 10 <= 99);
    assert(1 <= n / 10 / 10 <= 9);
    assert(dec_chars_of(n / 10 / 10).len() == 1);
    assert(dec_chars_of(n / 10).len() == 2);
}

/// Relies on `String::push`: appends the given character to the end of the
/// string.
#[verifier::external_body]
pub(crate) fn push_char(s: &mut String, c: char)
    ensures
        final(s)@ == old(s)@.push(c),
{
    s.push(c)
}

/// The ASCII-case-folded code of a character.
pub fn lower_char_code(c: char) -> (r: u32)
    ensures
        r as int == lower_code(c),
{
    let u = c as u32;
    if 65 <= u && u <= 90 {
        u + 32
    } else {
        u
    }
}

/// Case-insensitive (ASCII) equality of two strings.
pub fn eq_ignore_case(a: &str, b: &str) -> (r: bool)
    ensures
        r == ci_eq(a@, b@),
{
    let n = a.unicode_len();
    if n != b.unicode_len() {
        return false;
    }
    let mut j: usize = 0;
    while j < n
        invariant
            j <= n,
            n == a@.len(),
            n == b@.len(),
            forall|k: int| 0 <= k < j ==> lower_code(a@[k]) == lower_code(b@[k]),
        decreases n - j,
    {
        if lower_char_code(a.get_char(j)) != lower_char_code(b.get_char(j)) {
            return false;
        }
        j += 1;
    }
    true
}

pub proof fn lemma_ltrim_skip(s: Seq<char>, m: int)
    requires
        0 <= m <= s.len(),
        forall|j: int| 0 <= j < m ==> is_ws_char(#[trigger] s[j]),
        m < s.len() ==> !is_ws_char(s[m]),
    ensures
        ltrim(s) == s.skip(m),
    decreases m,
{
    if m == 0 {
        assert(s.skip(0) =~= s);
    } else {
        lemma_ltrim_skip(s.drop_first(), m - 1);
        assert(s.drop_first().skip(m - 1) =~= s.skip(m));
    }
}

pub proof fn lemma_rtrim_take(s: Seq<char>, m: int)
    requires
        0 <= m <= s.len(),
        forall|j: int| m <= j < s.len() ==> is_ws_char(#[trigger] s[j]),
        m > 0 ==> !is_ws_char(s[m - 1]),
    ensures
        rtrim(s) == s.take(m),
    decreases s.len(),
{
    if m < s.len() {
        lemma_rtrim_take(s.drop_last(), m);
        assert(s.drop_last().take(m) =~= s.take(m));
    } else {
        assert(s.take(m) =~= s);
    }
}

} // verus!
