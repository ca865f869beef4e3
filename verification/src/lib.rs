//! An HTTP/1.1 response framing codec: an incremental decoder that turns an
//! arbitrarily fragmented byte stream into structured response messages, and
//! the matching request encoder that serializes a request to wire bytes.
//!
//! The decoder is a small state machine: it parses a response head (status
//! line plus header block), applies the body-length policy, accumulates the
//! body, and hands one completed response back per message, resetting
//! itself so one connection can carry many sequential messages.

pub mod text;
pub mod grammar;
pub mod response;
pub mod parser;
pub mod codec;
pub mod request;
pub mod laws;

pub use codec::{DecodeError, HttpCodec};
pub use parser::{is_token, response, ParseResult};
pub use request::{HttpRequest, Method, UrlError, UrlParts};
pub use response::{append, new_header, new_response, Header, HttpResponse};
