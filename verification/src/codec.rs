//! The stateful decoder (framer): it parses heads, applies the body-length
//! policy, accumulates bodies, and emits one completed response per message,
//! resetting itself afterwards so one connection can carry many messages.

use vstd::prelude::*;
use vstd::string::StrSliceExecFns;
use crate::grammar::{parse_head, HeadParse, SpecHead, SpecHeader};
use crate::parser::{response, ParseResult};
use crate::request::{request_bytes, HttpRequest};
use crate::response::{has_spec, lookup, HttpResponse, SpecResponse};
use crate::text::{all_digit_chars, digits_val, is_digit_char, lemma_digits_val_prefix,
    lemma_digits_val_step};

verus! {

/// Why a `decode` call failed. Every error is fatal for the connection: the
/// decoder must not be fed again afterwards.
#[derive(Debug, Clone, Copy, PartialEq, Eq, Structural)]
pub enum DecodeError {
    /// Grammar violation in the status line or a header line.
    Malformed,
    /// A `Content-Length` value that is not a plain run of decimal digits,
    /// or that does not fit in `usize`.
    InvalidContentLength,
    /// The peer delivered more body bytes than it declared.
    ExtraneousData,
    /// The message uses `Transfer-Encoding: chunked`, which this codec does
    /// not implement.
    UnsupportedChunked,
    /// The message declares no length and is not chunked: a close-delimited
    /// body, which this codec does not implement.
    UnsupportedCloseDelimited,
}

enum DecoderState {
    AwaitingHead,
    AwaitingBody { response: HttpResponse, remaining: usize },
}

/// Codec that parses HTTP responses and encodes HTTP requests.
pub struct HttpCodec {
    state: DecoderState,
}

/// The mathematical model of the decoder: either between messages, or in the
/// middle of a body with a known number of bytes still owed.
#[verifier::ext_equal]
pub enum SpecDecoder {
    Head,
    Body { resp: SpecResponse, remaining: int },
}

impl View for HttpCodec {
    type V = SpecDecoder;

    closed spec fn view(&self) -> SpecDecoder {
        match self.state {
            DecoderState::AwaitingHead => SpecDecoder::Head,
            DecoderState::AwaitingBody { response, remaining } => SpecDecoder::Body {
                resp: response@,
                remaining: remaining as int,
            },
        }
    }
}

/// 1xx, 204 and 304 responses carry no body by protocol rule.
pub open spec fn no_body_status(status: u32) -> bool {
    100 <= status < 200 || status == 204 || status == 304
}

/// Whether the head opts into chunked framing: the first `Transfer-Encoding`
/// header's comma-separated value list contains `chunked`, case-insensitively.
pub open spec fn wants_chunked(headers: Seq<SpecHeader>) -> bool {
    has_spec(headers, "Transfer-Encoding"@, "chunked"@)
}

/// A usable `Content-Length` value: a non-empty run of decimal digits whose
/// value fits in `usize`.
pub open spec fn valid_content_length(v: Seq<char>) -> bool {
    v.len() > 0 && all_digit_chars(v) && digits_val(v) <= usize::MAX
}

/// The response a freshly parsed head denotes: its version, status and
/// headers, with an empty body.
pub open spec fn resp_of_head(h: SpecHead) -> SpecResponse {
    SpecResponse { version: h.version, status: h.status, headers: h.headers, body: Seq::empty() }
}

/// One body-accumulation step: reject bytes beyond the declared length,
/// otherwise absorb the whole buffer and emit the response once nothing
/// remains owed.
pub open spec fn spec_step_body(resp: SpecResponse, remaining: int, buf: Seq<u8>) -> (SpecDecoder,
    Seq<u8>,
    Result<Option<SpecResponse>, DecodeError>,
) {
    if buf.len() > remaining {
        (SpecDecoder::Body { resp, remaining }, buf, Err(DecodeError::ExtraneousData))
    } else {
        let fed = SpecResponse { body: resp.body + buf, ..resp };
        if buf.len() == remaining {
            (SpecDecoder::Head, Seq::empty(), Ok(Some(fed)))
        } else {
            (
                SpecDecoder::Body { resp: fed, remaining: remaining - buf.len() },
                Seq::empty(),
                Ok(None),
            )
        }
    }
}

/// What one `decode` call does: the new decoder state, the bytes left in the
/// buffer, and the outcome handed to the caller.
///
/// In the head state: an incomplete head asks for more bytes; a grammar
/// violation is `Malformed`; a parsed head has its consumed bytes dropped
/// from the buffer and the body-length policy applied. No-body statuses
/// complete at once (any remaining bytes belong to the next message);
/// chunked and close-delimited framing are unsupported; a valid
/// `Content-Length` starts body accumulation on the bytes already buffered.
pub open spec fn spec_step(st: SpecDecoder, buf: Seq<u8>) -> (SpecDecoder, Seq<u8>, Result<
    Option<SpecResponse>,
    DecodeError,
>) {
    match st {
        SpecDecoder::Head => match parse_head(buf) {
            HeadParse::More => (st, buf, Ok(None)),
            HeadParse::Bad => (st, buf, Err(DecodeError::Malformed)),
            HeadParse::Got(h, n) => {
                let rest = buf.skip(n);
                if no_body_status(h.status) {
                    (SpecDecoder::Head, rest, Ok(Some(resp_of_head(h))))
                } else if wants_chunked(h.headers) {
                    (SpecDecoder::Head, rest, Err(DecodeError::UnsupportedChunked))
                } else {
                    match lookup(h.headers, "Content-Length"@) {
                        Some(v) => if valid_content_length(v) {
                            spec_step_body(resp_of_head(h), digits_val(v), rest)
                        } else {
                            (SpecDecoder::Head, rest, Err(DecodeError::InvalidContentLength))
                        },
                        None => (
                            SpecDecoder::Head,
                            rest,
                            Err(DecodeError::UnsupportedCloseDelimited),
                        ),
                    }
                }
            },
        },
        SpecDecoder::Body { resp, remaining } => spec_step_body(resp, remaining, buf),
    }
}

/// The declared `Content-Length`, if the string is a plain run of decimal
/// digits whose value fits.
fn parse_content_length(v: &str) -> (r: Option<usize>)
    ensures
        (r matches Some(len) ==> valid_content_length(v@) && len as int == digits_val(v@)),
        (r is None ==> !valid_content_length(v@)),
{
    let n = v.unicode_len();
    if n == 0 {
        return None;
    }
    let mut acc: usize = 0;
    let mut j: usize = 0;
    proof {
        assert(v@.take(0) =~= Seq::<char>::empty());
    }
    while j < n
        invariant
            j <= n,
            n == v@.len(),
            forall|k: int| 0 <= k < j ==> is_digit_char(#[trigger] v@[k]),
            acc == digits_val(v@.take(j as int)),
        decreases n - j,
    {
        let c = v.get_char(j);
        let u = c as u32;
        if u < 48 || u > 57 {
            return None;
        }
        proof {
            lemma_digits_val_step(v@, j as int);
        }
        let step = match acc.checked_mul(10) {
            Some(m) => m.checked_add((u - 48) as usize),
            None => None,
        };
        match step {
            Some(x) => {
                acc = x;
            },
            None => {
                proof {
                    if all_digit_chars(v@) {
                        lemma_digits_val_prefix(v@, j + 1);
                    }
                }
                return None;
            },
        }
        j += 1;
    }
    proof {
        assert(v@.take(n as int) =~= v@);
    }
    Some(acc)
}

impl HttpCodec {
    /// Creates a new HTTP codec, ready for the first head.
    pub fn new() -> (c: HttpCodec)
        ensures
            c@ is Head,
    {
        HttpCodec { state: DecoderState::AwaitingHead }
    }

    /// Feeds buffered bytes to the decoder.
    ///
    /// Consumed bytes are removed from the front of `buf`; `Ok(None)` asks
    /// the caller to come back with more bytes, `Ok(Some(_))` hands out one
    /// completed response, and `Err(_)` is fatal for the connection. The
    /// exact behaviour is [`spec_step`].
    pub fn decode(&mut self, buf: &mut Vec<u8>) -> (r: Result<Option<HttpResponse>, DecodeError>)
        ensures
            ({
                let (st2, b2, out) = spec_step(old(self)@, old(buf)@);
                &&& final(self)@ == st2
                &&& final(buf)@ == b2
                &&& (match r {
                    Ok(Some(resp)) => out == Ok::<Option<SpecResponse>, DecodeError>(Some(resp@)),
                    Ok(None) => out == Ok::<Option<SpecResponse>, DecodeError>(None),
                    Err(e) => out == Err::<Option<SpecResponse>, DecodeError>(e),
                })
            }),
    {
        let mut st = DecoderState::AwaitingHead;
        core::mem::swap(&mut self.state, &mut st);
        match st {
            DecoderState::AwaitingHead => self.decode_header(buf),
            DecoderState::AwaitingBody { response, remaining } => self.decode_body(
                response,
                remaining,
                buf,
            ),
        }
    }

    /// The head half of [`Self::decode`]: parse, drop the consumed prefix,
    /// apply the body-length policy.
    fn decode_header(&mut self, buf: &mut Vec<u8>) -> (r: Result<
        Option<HttpResponse>,
        DecodeError,
    >)
        requires
            old(self)@ is Head,
        ensures
            ({
                let (st2, b2, out) = spec_step(SpecDecoder::Head, old(buf)@);
                &&& final(self)@ == st2
                &&& final(buf)@ == b2
                &&& (match r {
                    Ok(Some(resp)) => out == Ok::<Option<SpecResponse>, DecodeError>(Some(resp@)),
                    Ok(None) => out == Ok::<Option<SpecResponse>, DecodeError>(None),
                    Err(e) => out == Err::<Option<SpecResponse>, DecodeError>(e),
                })
            }),
    {
        let resp: HttpResponse;
        let used: usize;
        match response(buf.as_slice()) {
            ParseResult::NeedMore => {
                return Ok(None);
            },
            ParseResult::Malformed => {
                return Err(DecodeError::Malformed);
            },
            ParseResult::Done(r0, u0) => {
                resp = r0;
                used = u0;
            },
        }
        // drop the consumed head bytes from the front of the buffer
        let tail = buf.split_off(used);
        *buf = tail;
        proof {
            assert(buf@ =~= old(buf)@.skip(used as int));
        }
        if resp.is_informational() || resp.status() == 204 || resp.status() == 304 {
            return Ok(Some(resp));
        }
        if resp.has("Transfer-Encoding", "chunked") {
            return Err(DecodeError::UnsupportedChunked);
        }
        match resp.header_value("Content-Length") {
            Some(v) => match parse_content_length(v.as_str()) {
                Some(len) => self.decode_body(resp, len, buf),
                None => Err(DecodeError::InvalidContentLength),
            },
            None => Err(DecodeError::UnsupportedCloseDelimited),
        }
    }

    /// The body half of [`Self::decode`]: absorb buffered bytes against the
    /// count still owed.
    fn decode_body(
        &mut self,
        response: HttpResponse,
        remaining: usize,
        buf: &mut Vec<u8>,
    ) -> (r: Result<Option<HttpResponse>, DecodeError>)
        requires
            old(self)@ is Head,
        ensures
            ({
                let (st2, b2, out) = spec_step_body(response@, remaining as int, old(buf)@);
                &&& final(self)@ == st2
                &&& final(buf)@ == b2
                &&& (match r {
                    Ok(Some(resp)) => out == Ok::<Option<SpecResponse>, DecodeError>(Some(resp@)),
                    Ok(None) => out == Ok::<Option<SpecResponse>, DecodeError>(None),
                    Err(e) => out == Err::<Option<SpecResponse>, DecodeError>(e),
                })
            }),
    {
        let n = buf.len();
        if n > remaining {
            self.state = DecoderState::AwaitingBody { response, remaining };
            return Err(DecodeError::ExtraneousData);
        }
        let mut response = response;
        response.append(buf.as_slice());
        buf.clear();
        proof {
            assert(buf@ =~= Seq::<u8>::empty());
        }
        if n == remaining {
            Ok(Some(response))
        } else {
            self.state = DecoderState::AwaitingBody { response, remaining: remaining - n };
            Ok(None)
        }
    }

    /// Appends the wire form of `msg` to `buf`: request line, headers in
    /// insertion order, blank line, raw body.
    pub fn encode(&mut self, msg: HttpRequest, buf: &mut Vec<u8>)
        ensures
            final(buf)@ == old(buf)@ + request_bytes(msg@),
            final(self)@ == old(self)@,
    {
        msg.write_to(buf);
    }
}

} // verus!
