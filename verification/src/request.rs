//! The request model and its wire encoder: method, target, headers and body,
//! serialized as a request line, header lines, a blank line and the raw body.

use vstd::prelude::*;
use vstd::string::{StrSliceExecFns, StringExecFns, StringSliceAdditionalSpecFns};
use vstd::utf8::encode_utf8;
use crate::text::{dec_chars_of, push_char};

verus! {

/// Representation of an HTTP method.
pub enum Method {
    Get,
    Head,
    Post,
    Put,
    Delete,
    Connect,
    Options,
    Trace,
    Other(String),
}

impl View for Method {
    type V = Seq<char>;

    /// The token written on the request line.
    open spec fn view(&self) -> Seq<char> {
        match self {
            Method::Get => "GET"@,
            Method::Head => "HEAD"@,
            Method::Post => "POST"@,
            Method::Put => "PUT"@,
            Method::Delete => "DELETE"@,
            Method::Connect => "CONNECT"@,
            Method::Options => "OPTIONS"@,
            Method::Trace => "TRACE"@,
            Method::Other(s) => s@,
        }
    }
}

impl Method {
    /// The method token as written on the request line.
    pub fn token(&self) -> (s: String)
        ensures
            s@ == self@,
    {
        match self {
            Method::Get => String::from_str("GET"),
            Method::Head => String::from_str("HEAD"),
            Method::Post => String::from_str("POST"),
            Method::Put => String::from_str("PUT"),
            Method::Delete => String::from_str("DELETE"),
            Method::Connect => String::from_str("CONNECT"),
            Method::Options => String::from_str("OPTIONS"),
            Method::Trace => String::from_str("TRACE"),
            Method::Other(s) => s.clone(),
        }
    }
}

/// The components of a request URL, as plain values: what the encoder needs
/// from a parsed URL. `port` is only the explicitly written, non-default
/// port; `path` starts with `/` for ordinary HTTP URLs.
pub struct UrlParts {
    pub host: String,
    pub port: Option<u16>,
    pub path: String,
    pub query: Option<String>,
    pub fragment: Option<String>,
}

/// The URL string could not be parsed.
#[derive(Debug, Clone, Copy, PartialEq, Eq, Structural)]
pub enum UrlError {
    Invalid,
}

/// The mathematical model of a request.
#[verifier::ext_equal]
pub struct SpecRequest {
    pub method: Seq<char>,
    pub path: Seq<char>,
    pub query: Option<Seq<char>>,
    pub fragment: Option<Seq<char>>,
    pub headers: Seq<(Seq<char>, Seq<char>)>,
    pub body: Seq<u8>,
}

/// Representation of an HTTP request.
pub struct HttpRequest {
    method: Method,
    path: String,
    query: Option<String>,
    fragment: Option<String>,
    headers: Vec<(String, String)>,
    body: Vec<u8>,
}

pub open spec fn opt_chars(o: Option<String>) -> Option<Seq<char>> {
    match o {
        Some(s) => Some(s@),
        None => None,
    }
}

impl View for HttpRequest {
    type V = SpecRequest;

    closed spec fn view(&self) -> SpecRequest {
        SpecRequest {
            method: self.method@,
            path: self.path@,
            query: opt_chars(self.query),
            fragment: opt_chars(self.fragment),
            headers: self.headers@.map_values(|p: (String, String)| (p.0@, p.1@)),
            body: self.body@,
        }
    }
}

/// The `Host` header value: the host, with `:port` only when a non-default
/// port is explicit in the URL.
pub open spec fn host_header_value(host: Seq<char>, port: Option<u16>) -> Seq<char> {
    match port {
        Some(p) => host + seq![':'] + dec_chars_of(p as nat),
        None => host,
    }
}

/// The request that `from_url_parts` builds: the URL's components, one
/// automatic `Host` header, and no body yet.
pub open spec fn from_parts_spec(
    m: Seq<char>,
    host: Seq<char>,
    port: Option<u16>,
    path: Seq<char>,
    query: Option<Seq<char>>,
    fragment: Option<Seq<char>>,
) -> SpecRequest {
    SpecRequest {
        method: m,
        path,
        query,
        fragment,
        headers: seq![("Host"@, host_header_value(host, port))],
        body: Seq::empty(),
    }
}

/// The components of a URL as spec values: the mathematical model of
/// [`UrlParts`].
#[verifier::ext_equal]
pub struct SpecUrlParts {
    pub host: Seq<char>,
    pub port: Option<u16>,
    pub path: Seq<char>,
    pub query: Option<Seq<char>>,
    pub fragment: Option<Seq<char>>,
}

impl View for UrlParts {
    type V = SpecUrlParts;

    open spec fn view(&self) -> SpecUrlParts {
        SpecUrlParts {
            host: self.host@,
            port: self.port,
            path: self.path@,
            query: opt_chars(self.query),
            fragment: opt_chars(self.fragment),
        }
    }
}

/// The name for what `url::Url::parse` returns on a given string, projected
/// to plain values: `None` where the string is not a parseable URL, else the
/// URL's host (empty where it has none), its explicitly written non-default
/// port, and its path, query and fragment. Parsing depends on the string
/// alone, so the result carries a name; what the name is on a given string
/// is learnt only by calling the parser.
pub uninterp spec fn url_parts_of(s: Seq<char>) -> Option<SpecUrlParts>;

/// The request `new` builds once the URL's components are known.
pub open spec fn request_of_parts(m: Seq<char>, p: SpecUrlParts) -> SpecRequest {
    from_parts_spec(m, p.host, p.port, p.path, p.query, p.fragment)
}

/// Relies on `url::Url::parse` and the accessors `host_str`, `port`, `path`,
/// `query` and `fragment`: parses an absolute URL and hands its components
/// out as plain values, named [`url_parts_of`]. `port()` is documented to be
/// `None` when the port is absent or is the scheme's default, which is
/// exactly the rule the `Host` header needs.
#[verifier::external_body]
fn parse_url(s: &str) -> (r: Option<UrlParts>)
    ensures
        (r matches Some(p) ==> url_parts_of(s@) == Some(p@)),
        (r is None ==> url_parts_of(s@) is None),
{
    match url::Url::parse(s) {
        Err(_) => None,
        Ok(u) => Some(
            UrlParts {
                host: u.host_str().unwrap_or("").to_string(),
                port: u.port(),
                path: u.path().to_string(),
                query: u.query().map(|q| q.to_string()),
                fragment: u.fragment().map(|f| f.to_string()),
            },
        ),
    }
}

/// The decimal digits of `n`.
fn dec_string(n: usize) -> (s: String)
    ensures
        s@ == dec_chars_of(n as nat),
    decreases n,
{
    if n < 10 {
        let mut s = String::new();
        push_char(&mut s, (48 + n as u8) as char);
        proof {
            assert(s@ =~= dec_chars_of(n as nat));
        }
        s
    } else {
        let mut s = dec_string(n / 10);
        push_char(&mut s, (48 + (n % 10) as u8) as char);
        proof {
            assert(s@ =~= dec_chars_of(n as nat));
        }
        s
    }
}

impl HttpRequest {
    /// Builds a request from a URL's components, appending the automatic
    /// `Host` header.
    pub fn from_url_parts(method: Method, parts: UrlParts) -> (req: HttpRequest)
        ensures
            req@ == request_of_parts(method@, parts@),
    {
        let ghost host0 = parts.host@;
        let mut hv = parts.host;
        match parts.port {
            Some(p) => {
                hv.append(":");
                let ds = dec_string(p as usize);
                hv.append(ds.as_str());
                proof {
                    assert(":"@ =~= seq![':']) by {
                        reveal_strlit(":");
                    }
                    assert(hv@ =~= host0 + seq![':'] + dec_chars_of(p as nat));
                }
            },
            None => {},
        }
        let mut headers: Vec<(String, String)> = Vec::new();
        headers.push((String::from_str("Host"), hv));
        let req = HttpRequest {
            method,
            path: parts.path,
            query: parts.query,
            fragment: parts.fragment,
            headers,
            body: Vec::new(),
        };
        proof {
            assert(req@.headers =~= seq![("Host"@, host_header_value(host0, parts.port))]);
            assert(req@.body =~= Seq::<u8>::empty());
            assert(req@ =~= from_parts_spec(
                method@,
                host0,
                parts.port,
                parts.path@,
                opt_chars(parts.query),
                opt_chars(parts.fragment),
            ));
        }
        req
    }

    /// Creates a new HTTP request for the given URL, with the automatic
    /// `Host` header. It succeeds exactly when the URL parses.
    pub fn new(method: Method, url: &str) -> (r: Result<HttpRequest, UrlError>)
        ensures
            (r is Ok <==> url_parts_of(url@) is Some),
            (r matches Ok(req) ==> (url_parts_of(url@) matches Some(p) && req@
                == request_of_parts(method@, p))),
    {
        match parse_url(url) {
            None => Err(UrlError::Invalid),
            Some(parts) => {
                let req = Self::from_url_parts(method, parts);
                Ok(req)
            },
        }
    }

    /// Appends a header.
    pub fn header(self, name: &str, value: &str) -> (r: HttpRequest)
        ensures
            r@ == (SpecRequest { headers: self@.headers.push((name@, value@)), ..self@ }),
    {
        let mut me = self;
        me.headers.push((String::from_str(name), String::from_str(value)));
        proof {
            assert(me@.headers =~= self@.headers.push((name@, value@)));
            assert(me@ =~= (SpecRequest { headers: self@.headers.push((name@, value@)), ..self@ }));
        }
        me
    }

    /// Creates a GET request. It succeeds exactly when the URL parses.
    pub fn get(url: &str) -> (r: Result<HttpRequest, UrlError>)
        ensures
            (r is Ok <==> url_parts_of(url@) is Some),
            (r matches Ok(req) ==> (url_parts_of(url@) matches Some(p) && req@
                == request_of_parts("GET"@, p))),
    {
        Self::new(Method::Get, url)
    }

    /// Creates a POST request carrying `body`, with the automatic
    /// `Content-Length` header set to the exact body length. It succeeds
    /// exactly when the URL parses.
    pub fn post(url: &str, body: Vec<u8>) -> (r: Result<HttpRequest, UrlError>)
        ensures
            (r is Ok <==> url_parts_of(url@) is Some),
            (r matches Ok(req) ==> (url_parts_of(url@) matches Some(p) && req@ == (SpecRequest {
                headers: request_of_parts("POST"@, p).headers.push(
                    ("Content-Length"@, dec_chars_of(body@.len())),
                ),
                body: body@,
                ..request_of_parts("POST"@, p)
            }))),
    {
        match Self::new(Method::Post, url) {
            Err(e) => Err(e),
            Ok(req) => {
                let ghost q0 = req@;
                let len = body.len();
                let cl = dec_string(len);
                let mut req = req.header("Content-Length", cl.as_str());
                req.body = body;
                proof {
                    assert(req@ == (SpecRequest {
                        headers: q0.headers.push(("Content-Length"@, dec_chars_of(len as nat))),
                        body: req.body@,
                        ..q0
                    }));
                }
                Ok(req)
            },
        }
    }
}

/// `\r\n`.
pub open spec fn crlf_bytes() -> Seq<u8> {
    seq![13u8, 10u8]
}

/// `<name>: <value>\r\n`.
pub open spec fn header_line_bytes(name: Seq<char>, value: Seq<char>) -> Seq<u8> {
    encode_utf8(name) + seq![58u8, 32u8] + encode_utf8(value) + crlf_bytes()
}

/// Every header line, in insertion order.
pub open spec fn header_lines_bytes(headers: Seq<(Seq<char>, Seq<char>)>) -> Seq<u8>
    decreases headers.len(),
{
    if headers.len() == 0 {
        Seq::empty()
    } else {
        header_line_bytes(headers.first().0, headers.first().1) + header_lines_bytes(
            headers.drop_first(),
        )
    }
}

/// The header block: every header line, then the terminating blank line.
pub open spec fn header_block_bytes(headers: Seq<(Seq<char>, Seq<char>)>) -> Seq<u8> {
    header_lines_bytes(headers) + crlf_bytes()
}

/// `<METHOD> <path>[?query][#fragment] HTTP/1.1\r\n`.
pub open spec fn request_line_bytes(req: SpecRequest) -> Seq<u8> {
    encode_utf8(req.method) + seq![32u8] + encode_utf8(req.path) + (match req.query {
        Some(q) => seq![63u8] + encode_utf8(q),
        None => Seq::empty(),
    }) + (match req.fragment {
        Some(f) => seq![35u8] + encode_utf8(f),
        None => Seq::empty(),
    }) + seq![32u8, 72u8, 84u8, 84u8, 80u8, 47u8, 49u8, 46u8, 49u8, 13u8, 10u8]
}

/// The full wire form of a request: request line, header lines, blank line,
/// body.
pub open spec fn request_bytes(req: SpecRequest) -> Seq<u8> {
    request_line_bytes(req) + header_block_bytes(req.headers) + req.body
}

/// Growing the header prefix by one grows its serialization by that line.
pub proof fn lemma_header_lines_snoc(headers: Seq<(Seq<char>, Seq<char>)>, j: int)
    requires
        0 <= j < headers.len(),
    ensures
        header_lines_bytes(headers.take(j + 1)) == header_lines_bytes(headers.take(j))
            + header_line_bytes(headers[j].0, headers[j].1),
    decreases j,
{
    if j == 0 {
        assert(headers.take(1).first() == headers[0]);
        assert(headers.take(1).drop_first() =~= headers.take(0));
        assert(headers.take(0) =~= Seq::<(Seq<char>, Seq<char>)>::empty());
        assert(header_lines_bytes(headers.take(1)) =~= header_lines_bytes(headers.take(0))
            + header_line_bytes(headers[0].0, headers[0].1));
    } else {
        lemma_header_lines_snoc(headers.drop_first(), j - 1);
        assert(headers.take(j + 1).first() == headers[0]);
        assert(headers.take(j).first() == headers[0]);
        assert(headers.take(j + 1).drop_first() =~= headers.drop_first().take(j));
        assert(headers.take(j).drop_first() =~= headers.drop_first().take(j - 1));
        assert(headers.drop_first()[j - 1] == headers[j]);
        assert(header_lines_bytes(headers.take(j + 1)) =~= header_lines_bytes(headers.take(j))
            + header_line_bytes(headers[j].0, headers[j].1));
    }
}

impl HttpRequest {
    /// Appends the wire form of this request to `buf`.
    #[verifier::rlimit(60)]
    pub fn write_to(&self, buf: &mut Vec<u8>)
        ensures
            final(buf)@ == old(buf)@ + request_bytes(self@),
    {
        let tok = self.method.token();
        buf.extend_from_slice(tok.as_str().as_bytes());
        buf.push(32);
        buf.extend_from_slice(self.path.as_str().as_bytes());
        match &self.query {
            Some(q) => {
                buf.push(63);
                buf.extend_from_slice(q.as_str().as_bytes());
            },
            None => {},
        }
        match &self.fragment {
            Some(f) => {
                buf.push(35);
                buf.extend_from_slice(f.as_str().as_bytes());
            },
            None => {},
        }
        buf.push(32);
        buf.push(72);
        buf.push(84);
        buf.push(84);
        buf.push(80);
        buf.push(47);
        buf.push(49);
        buf.push(46);
        buf.push(49);
        buf.push(13);
        buf.push(10);
        proof {
            assert(buf@ =~= old(buf)@ + request_line_bytes(self@));
        }
        let ghost base = buf@;
        let n = self.headers.len();
        let mut j: usize = 0;
        proof {
            assert(header_lines_bytes(self@.headers.take(0)) =~= Seq::<u8>::empty());
            assert(buf@ =~= base + header_lines_bytes(self@.headers.take(0)));
        }
        while j < n
            invariant
                j <= n,
                n == self.headers@.len(),
                self@.headers.len() == n,
                buf@ == base + header_lines_bytes(self@.headers.take(j as int)),
            decreases n - j,
        {
            let pair = &self.headers[j];
            buf.extend_from_slice(pair.0.as_str().as_bytes());
            buf.push(58);
            buf.push(32);
            buf.extend_from_slice(pair.1.as_str().as_bytes());
            buf.push(13);
            buf.push(10);
            proof {
                lemma_header_lines_snoc(self@.headers, j as int);
                assert(self@.headers[j as int] == (pair.0@, pair.1@));
                assert(buf@ =~= base + header_lines_bytes(self@.headers.take(j + 1)));
            }
            j += 1;
        }
        proof {
            assert(self@.headers.take(n as int) =~= self@.headers);
        }
        buf.push(13);
        buf.push(10);
        buf.extend_from_slice(self.body.as_slice());
        proof {
            assert(buf@ =~= old(buf)@ + request_bytes(self@));
        }
    }
}

} // verus!
