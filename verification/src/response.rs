//! The response model: protocol version, status code, headers in wire order,
//! and a growable body buffer, with case-insensitive header queries.

use vstd::prelude::*;
use vstd::string::StrSliceExecFns;
use crate::grammar::SpecHeader;
use crate::text::{
    ci_eq, eq_ignore_case, is_ws_char, lemma_ltrim_skip, lemma_rtrim_take, lower_char_code,
    lower_code, trim,
};

verus! {

/// Representation of a header.
///
/// The value is trimmed at parsing time (trailing spaces and tabs removed;
/// leading ones are skipped by the grammar). `value` is `None` only as a
/// sentinel for "not found"; every constructed header carries `Some`.
pub struct Header {
    name: String,
    value: Option<String>,
}

impl View for Header {
    type V = SpecHeader;

    closed spec fn view(&self) -> SpecHeader {
        SpecHeader {
            name: self.name@,
            value: match self.value {
                Some(ref v) => Some(v@),
                None => None,
            },
        }
    }
}

pub fn new_header(name: String, value: String) -> (h: Header)
    ensures
        h@.name == name@,
        h@.value == Some(value@),
{
    Header { name, value: Some(value) }
}

impl Header {
    pub fn new(name: String, value: String) -> (h: Header)
        ensures
            h@.name == name@,
            h@.value == Some(value@),
    {
        new_header(name, value)
    }
}

/// The mathematical model of a response.
#[verifier::ext_equal]
pub struct SpecResponse {
    pub version: (u32, u32),
    pub status: u32,
    pub headers: Seq<SpecHeader>,
    pub body: Seq<u8>,
}

/// Representation of an HTTP response.
pub struct HttpResponse {
    version: (u32, u32),
    status: u32,
    headers: Vec<Header>,
    body: Vec<u8>,
}

impl View for HttpResponse {
    type V = SpecResponse;

    closed spec fn view(&self) -> SpecResponse {
        SpecResponse {
            version: self.version,
            status: self.status,
            headers: self.headers@.map_values(|h: Header| h@),
            body: self.body@,
        }
    }
}

pub fn new_response(version: (u32, u32), status: u32, headers: Vec<Header>) -> (r: HttpResponse)
    ensures
        r@ == (SpecResponse {
            version,
            status,
            headers: headers@.map_values(|h: Header| h@),
            body: Seq::<u8>::empty(),
        }),
{
    let r = HttpResponse { version, status, headers, body: Vec::new() };
    proof {
        assert(r@.body =~= Seq::<u8>::empty());
    }
    r
}

/// The value of the first header whose name matches case-insensitively, if
/// that header holds one.
pub open spec fn lookup(headers: Seq<SpecHeader>, name: Seq<char>) -> Option<Seq<char>>
    decreases headers.len(),
{
    if headers.len() == 0 {
        None
    } else if ci_eq(headers.first().name, name) {
        headers.first().value
    } else {
        lookup(headers.drop_first(), name)
    }
}

/// First index at or after `i` holding a comma, or the end of `v`.
pub open spec fn comma_end(v: Seq<char>, i: int) -> int
    decreases v.len() - i when 0 <= i <= v.len()
{
    if i >= v.len() {
        i
    } else if v[i] == ',' {
        i
    } else {
        comma_end(v, i + 1)
    }
}

pub proof fn lemma_comma_end(v: Seq<char>, i: int)
    requires
        0 <= i <= v.len(),
    ensures
        i <= comma_end(v, i) <= v.len(),
        forall|k: int| i <= k < comma_end(v, i) ==> #[trigger] v[k] != ',',
        comma_end(v, i) < v.len() ==> v[comma_end(v, i)] == ',',
    decreases v.len() - i,
{
    if i < v.len() && v[i] != ',' {
        lemma_comma_end(v, i + 1);
    }
}

/// Whether the comma-separated list in `v`, starting at `i`, contains an item
/// that equals `x` case-insensitively once trimmed.
pub open spec fn list_has_from(v: Seq<char>, i: int, x: Seq<char>) -> bool
    decreases v.len() - i when 0 <= i <= v.len() via list_has_from_decreases
{
    let k = comma_end(v, i);
    if ci_eq(trim(v.subrange(i, k)), x) {
        true
    } else if k >= v.len() {
        false
    } else {
        list_has_from(v, k + 1, x)
    }
}

#[via_fn]
proof fn list_has_from_decreases(v: Seq<char>, i: int, x: Seq<char>) {
    if 0 <= i <= v.len() {
        lemma_comma_end(v, i);
    }
}

/// What `is` answers: the first matching header's value equals `x`
/// case-insensitively.
pub open spec fn is_spec(headers: Seq<SpecHeader>, name: Seq<char>, x: Seq<char>) -> bool {
    match lookup(headers, name) {
        Some(v) => ci_eq(v, x),
        None => false,
    }
}

/// What `has` answers: the first matching header's value, read as a
/// comma-separated list of trimmed items, contains `x` case-insensitively.
pub open spec fn has_spec(headers: Seq<SpecHeader>, name: Seq<char>, x: Seq<char>) -> bool {
    match lookup(headers, name) {
        Some(v) => list_has_from(v, 0, x),
        None => false,
    }
}

/// Whether `pat` occurs in `v` as a contiguous (case-sensitive) substring.
pub open spec fn contains_seq(v: Seq<char>, pat: Seq<char>) -> bool {
    exists|k: int|
        0 <= k && k + pat.len() <= v.len() && #[trigger] v.subrange(k, k + pat.len()) == pat
}

impl HttpResponse {
    pub fn new(version: (u32, u32), status: u32, headers: Vec<Header>) -> (r: HttpResponse)
        ensures
            r@ == (SpecResponse {
                version,
                status,
                headers: headers@.map_values(|h: Header| h@),
                body: Seq::<u8>::empty(),
            }),
    {
        new_response(version, status, headers)
    }

    /// Returns the status code of this response.
    pub fn status(&self) -> (s: u32)
        ensures
            s == self@.status,
    {
        self.status
    }

    /// Returns the protocol version of this response.
    pub fn version(&self) -> (v: (u32, u32))
        ensures
            v == self@.version,
    {
        self.version
    }

    /// Returns the body of this response.
    pub fn body(&self) -> (b: &Vec<u8>)
        ensures
            b@ == self@.body,
    {
        &self.body
    }

    /// The number of headers.
    pub fn header_count(&self) -> (n: usize)
        ensures
            n == self@.headers.len(),
    {
        self.headers.len()
    }

    /// The name and value of the header at `i`, in wire order.
    pub fn header_at(&self, i: usize) -> (r: (String, Option<String>))
        requires
            i < self@.headers.len(),
        ensures
            r.0@ == self@.headers[i as int].name,
            (match r.1 {
                Some(v) => self@.headers[i as int].value == Some(v@),
                None => self@.headers[i as int].value is None,
            }),
    {
        let h = &self.headers[i];
        let value = match &h.value {
            Some(v) => Some(v.clone()),
            None => None,
        };
        (h.name.clone(), value)
    }

    /// Retrieves the value of the first header with the given name.
    ///
    /// Comparison is made in a case-insensitive manner.
    pub fn header_value(&self, name: &str) -> (r: Option<String>)
        ensures
            (r matches Some(v) ==> lookup(self@.headers, name@) == Some(v@)),
            (r is None ==> lookup(self@.headers, name@) is None),
    {
        let ghost hs = self@.headers;
        proof {
            assert(hs.skip(0) =~= hs);
        }
        let n = self.headers.len();
        let mut j: usize = 0;
        while j < n
            invariant
                j <= n,
                n == self.headers@.len(),
                hs == self@.headers,
                lookup(hs, name@) == lookup(hs.skip(j as int), name@),
            decreases n - j,
        {
            let h = &self.headers[j];
            proof {
                assert(hs.skip(j as int).first() == h@);
            }
            if eq_ignore_case(h.name.as_str(), name) {
                match &h.value {
                    Some(v) => {
                        return Some(v.clone());
                    },
                    None => {
                        return None;
                    },
                }
            }
            proof {
                assert(hs.skip(j as int).drop_first() =~= hs.skip(j + 1));
            }
            j += 1;
        }
        proof {
            assert(hs.skip(n as int) =~= Seq::<SpecHeader>::empty());
        }
        None
    }

    /// Returns true if this response has a header with the given `name`
    /// that matches the expected `value`.
    ///
    /// Comparisons are made in a case-insensitive manner.
    pub fn is(&self, name: &str, expected: &str) -> (r: bool)
        ensures
            r == is_spec(self@.headers, name@, expected@),
    {
        match self.header_value(name) {
            Some(v) => eq_ignore_case(v.as_str(), expected),
            None => false,
        }
    }

    /// Returns true if this response has a header with the given `name`
    /// that has a comma-separated list of values, and one of those values
    /// matches the `expected` value.
    ///
    /// Comparisons are made in a case-insensitive manner. Each value of the
    /// comma-separated list is trimmed before comparison.
    pub fn has(&self, name: &str, expected: &str) -> (r: bool)
        ensures
            r == has_spec(self@.headers, name@, expected@),
    {
        match self.header_value(name) {
            Some(v) => list_contains(v.as_str(), expected),
            None => false,
        }
    }

    /// Returns true if this response has a 1xx Informational status code.
    pub fn is_informational(&self) -> (r: bool)
        ensures
            r == (100 <= self@.status < 200),
    {
        self.status >= 100 && self.status < 200
    }

    /// Returns true if this response has a 2xx Successful status code.
    pub fn is_successful(&self) -> (r: bool)
        ensures
            r == (200 <= self@.status < 300),
    {
        self.status >= 200 && self.status < 300
    }

    /// Returns true if this response has a 3xx Redirection status code.
    pub fn is_redirection(&self) -> (r: bool)
        ensures
            r == (300 <= self@.status < 400),
    {
        self.status >= 300 && self.status < 400
    }

    /// Returns true if this response has a 4xx Client Error status code.
    pub fn is_client_error(&self) -> (r: bool)
        ensures
            r == (400 <= self@.status < 500),
    {
        self.status >= 400 && self.status < 500
    }

    /// Returns true if this response has a 5xx Server Error status code.
    pub fn is_server_error(&self) -> (r: bool)
        ensures
            r == (500 <= self@.status < 600),
    {
        self.status >= 500 && self.status < 600
    }

    /// Returns true if the first `Transfer-Encoding` header's value mentions
    /// `chunked` anywhere as a substring.
    pub fn is_chunked(&self) -> (r: bool)
        ensures
            r == (match lookup(self@.headers, "Transfer-Encoding"@) {
                Some(v) => contains_seq(v, "chunked"@),
                None => false,
            }),
    {
        match self.header_value("Transfer-Encoding") {
            Some(v) => contains_str(v.as_str(), "chunked"),
            None => false,
        }
    }

    /// Appends data to this response's body.
    pub fn append(&mut self, buf: &[u8])
        ensures
            final(self)@ == (SpecResponse { body: old(self)@.body + buf@, ..old(self)@ }),
    {
        self.body.extend_from_slice(buf);
    }
}

/// Appends data to this response's body.
pub fn append(res: &mut HttpResponse, buf: &[u8])
    ensures
        final(res)@ == (SpecResponse { body: old(res)@.body + buf@, ..old(res)@ }),
{
    res.append(buf);
}

/// Case-insensitive membership of `x` in the comma-separated list `v`,
/// with each item trimmed of spaces and tabs before comparison.
fn list_contains(v: &str, x: &str) -> (r: bool)
    ensures
        r == list_has_from(v@, 0, x@),
{
    let n = v.unicode_len();
    let mut i: usize = 0;
    loop
        invariant
            0 <= i <= n,
            n == v@.len(),
            list_has_from(v@, 0, x@) == list_has_from(v@, i as int, x@),
        decreases n - i,
    {
        // the current item runs to the next comma or the end
        let mut k: usize = i;
        while k < n && v.get_char(k) != ','
            invariant
                i <= k <= n,
                n == v@.len(),
                comma_end(v@, i as int) == comma_end(v@, k as int),
            decreases n - k,
        {
            k += 1;
        }
        proof {
            lemma_comma_end(v@, k as int);
        }
        // trim spaces and tabs off both ends of the item
        let mut a: usize = i;
        while a < k && is_ws_exec(v.get_char(a))
            invariant
                i <= a <= k <= n,
                n == v@.len(),
                forall|j: int| i <= j < a ==> is_ws_char(#[trigger] v@[j]),
            decreases k - a,
        {
            a += 1;
        }
        let mut b: usize = k;
        while b > a && is_ws_exec(v.get_char(b - 1))
            invariant
                a <= b <= k <= n,
                n == v@.len(),
                forall|j: int| b <= j < k ==> is_ws_char(#[trigger] v@[j]),
            decreases b,
        {
            b -= 1;
        }
        proof {
            let item = v@.subrange(i as int, k as int);
            lemma_ltrim_skip(item, a - i);
            lemma_rtrim_take(item.skip(a - i), b - a);
            assert(item.skip(a - i) =~= v@.subrange(a as int, k as int));
            assert(item.skip(a - i).take(b - a) =~= v@.subrange(a as int, b as int));
            assert(trim(item) == v@.subrange(a as int, b as int));
        }
        if region_ci_eq(v, a, b, x) {
            return true;
        }
        if k >= n {
            return false;
        }
        i = k + 1;
    }
}

fn is_ws_exec(c: char) -> (r: bool)
    ensures
        r == is_ws_char(c),
{
    c == ' ' || c == '\t'
}

/// Case-insensitive equality of `v[from..to]` against `x`.
fn region_ci_eq(v: &str, from: usize, to: usize, x: &str) -> (r: bool)
    requires
        from <= to <= v@.len(),
    ensures
        r == ci_eq(v@.subrange(from as int, to as int), x@),
{
    let m = x.unicode_len();
    if to - from != m {
        return false;
    }
    let mut j: usize = 0;
    while j < m
        invariant
            j <= m,
            m == x@.len(),
            from + m <= v@.len(),
            to == from + m,
            forall|k: int|
                0 <= k < j ==> lower_code(#[trigger] v@[from + k]) == lower_code(x@[k]),
        decreases m - j,
    {
        if lower_char_code(v.get_char(from + j)) != lower_char_code(x.get_char(j)) {
            assert(v@.subrange(from as int, to as int)[j as int] == v@[from + j]);
            return false;
        }
        j += 1;
    }
    assert forall|k: int| 0 <= k < m implies lower_code(
        v@.subrange(from as int, to as int)[k],
    ) == lower_code(x@[k]) by {
        assert(v@.subrange(from as int, to as int)[k] == v@[from + k]);
    }
    true
}

/// Case-sensitive substring search.
fn contains_str(v: &str, pat: &str) -> (r: bool)
    ensures
        r == contains_seq(v@, pat@),
{
    let n = v.unicode_len();
    let m = pat.unicode_len();
    if m > n {
        return false;
    }
    if m == 0 {
        assert(v@.subrange(0, 0 + pat@.len() as int) =~= pat@);
        return true;
    }
    let mut k: usize = 0;
    while k <= n - m
        invariant
            0 <= k <= n - m + 1,
            1 <= m <= n,
            n == v@.len(),
            m == pat@.len(),
            forall|j: int|
                0 <= j < k ==> #[trigger] v@.subrange(j, j + pat@.len()) != pat@,
        decreases n - k,
    {
        if region_eq(v, k, k + m, pat) {
            assert(v@.subrange(k as int, k + pat@.len()) == pat@);
            return true;
        }
        k += 1;
    }
    false
}

/// Equality of `v[from..to]` against `x`.
fn region_eq(v: &str, from: usize, to: usize, x: &str) -> (r: bool)
    requires
        from <= to <= v@.len(),
        to - from == x@.len(),
    ensures
        r == (v@.subrange(from as int, to as int) == x@),
{
    let m = x.unicode_len();
    let mut j: usize = 0;
    while j < m
        invariant
            j <= m,
            m == x@.len(),
            from + m <= v@.len(),
            to == from + m,
            forall|k: int| 0 <= k < j ==> #[trigger] v@[from + k] == x@[k],
        decreases m - j,
    {
        if v.get_char(from + j) != x.get_char(j) {
            assert(v@.subrange(from as int, to as int)[j as int] == v@[from + j]);
            return false;
        }
        j += 1;
    }
    assert forall|k: int| 0 <= k < m implies v@.subrange(from as int, to as int)[k] == x@[k] by {
        assert(v@.subrange(from as int, to as int)[k] == v@[from + k]);
    }
    assert(v@.subrange(from as int, to as int) =~= x@);
    true
}

} // verus!
