//! Tests of the stateful decoder and the request encoder.

use async_http_client::{DecodeError, HttpCodec, HttpRequest, Method, UrlError, UrlParts};

#[test]
fn concrete_scenario() {
    let mut codec = HttpCodec::new();
    let mut buf: Vec<u8> =
        b"HTTP/1.1 404 Not Found\r\nHost: localhost:3000 \r\nContent-Length: 5\r\n\r\n12345"
            .to_vec();
    let res = codec.decode(&mut buf).unwrap().unwrap();
    assert_eq!(res.status(), 404);
    // the trailing space of the Host value is trimmed
    assert_eq!(res.header_value("Host").unwrap(), "localhost:3000");
    assert_eq!(res.body().as_slice(), b"12345");
    assert!(buf.is_empty());
}

#[test]
fn body_across_two_feeds() {
    let mut codec = HttpCodec::new();
    let mut buf: Vec<u8> = b"HTTP/1.1 200 OK\r\nContent-Length: 5\r\n\r\n123".to_vec();
    assert!(codec.decode(&mut buf).unwrap().is_none());
    assert!(buf.is_empty());
    buf.extend_from_slice(b"45");
    let res = codec.decode(&mut buf).unwrap().unwrap();
    assert_eq!(res.body().as_slice(), b"12345");
    assert!(buf.is_empty());
}

#[test]
fn extraneous_byte_is_fatal() {
    let mut codec = HttpCodec::new();
    let mut buf: Vec<u8> = b"HTTP/1.1 200 OK\r\nContent-Length: 5\r\n\r\n123456".to_vec();
    assert!(matches!(
        codec.decode(&mut buf),
        Err(DecodeError::ExtraneousData)
    ));
}

#[test]
fn no_content_statuses_complete_at_blank_line() {
    for head in [
        &b"HTTP/1.1 204 No Content\r\nX-Info: kept\r\n\r\n"[..],
        &b"HTTP/1.1 304 Not Modified\r\nX-Info: kept\r\n\r\n"[..],
        &b"HTTP/1.1 100 Continue\r\nX-Info: kept\r\n\r\n"[..],
    ] {
        let mut codec = HttpCodec::new();
        let mut buf: Vec<u8> = head.to_vec();
        // trailing bytes belong to the next message and must stay buffered
        buf.extend_from_slice(b"HTTP/1.1 2");
        let res = codec.decode(&mut buf).unwrap().unwrap();
        assert!(res.body().is_empty());
        assert!(res.is("X-Info", "kept"));
        assert_eq!(buf, b"HTTP/1.1 2".to_vec());
    }
}

#[test]
fn one_byte_at_a_time_matches_whole_feed() {
    let msg: &[u8] = b"HTTP/1.1 200 OK\r\nContent-Type: text/plain\r\nContent-Length: 3\r\n\r\nabc";

    let mut whole_codec = HttpCodec::new();
    let mut whole_buf = msg.to_vec();
    let whole = whole_codec.decode(&mut whole_buf).unwrap().unwrap();

    let mut codec = HttpCodec::new();
    let mut buf: Vec<u8> = Vec::new();
    let mut delivered = None;
    for (i, byte) in msg.iter().enumerate() {
        buf.push(*byte);
        match codec.decode(&mut buf).unwrap() {
            Some(res) => {
                assert_eq!(i, msg.len() - 1);
                delivered = Some(res);
            }
            None => assert!(i < msg.len() - 1),
        }
    }
    let byte_wise = delivered.expect("the last byte completes the message");

    assert_eq!(byte_wise.status(), whole.status());
    assert_eq!(byte_wise.version(), whole.version());
    assert_eq!(byte_wise.body(), whole.body());
    assert_eq!(
        byte_wise.header_value("Content-Type"),
        whole.header_value("Content-Type")
    );
}

#[test]
fn keep_alive_decodes_successive_messages() {
    let mut codec = HttpCodec::new();
    let mut buf: Vec<u8> = Vec::new();
    buf.extend_from_slice(b"HTTP/1.1 200 OK\r\nContent-Length: 2\r\n\r\nhi");
    let first = codec.decode(&mut buf).unwrap().unwrap();
    assert_eq!(first.status(), 200);
    assert_eq!(first.body().as_slice(), b"hi");
    assert!(buf.is_empty());
    // the decoder has reset itself: the next message decodes on the same codec
    buf.extend_from_slice(b"HTTP/1.1 404 Not Found\r\nContent-Length: 0\r\n\r\n");
    let second = codec.decode(&mut buf).unwrap().unwrap();
    assert_eq!(second.status(), 404);
    assert!(second.body().is_empty());
    assert!(buf.is_empty());
}

#[test]
fn malformed_head_is_reported() {
    let mut codec = HttpCodec::new();
    let mut buf: Vec<u8> = b"SIP/2.0 200 OK\r\n\r\n".to_vec();
    assert!(matches!(codec.decode(&mut buf), Err(DecodeError::Malformed)));
}

#[test]
fn invalid_content_length_is_reported() {
    for value in ["abc", "5x", "", "99999999999999999999999999999"] {
        let mut codec = HttpCodec::new();
        let mut buf: Vec<u8> =
            format!("HTTP/1.1 200 OK\r\nContent-Length: {}\r\n\r\n", value).into_bytes();
        assert!(matches!(
            codec.decode(&mut buf),
            Err(DecodeError::InvalidContentLength)
        ));
    }
}

#[test]
fn chunked_framing_is_unsupported() {
    let mut codec = HttpCodec::new();
    let mut buf: Vec<u8> =
        b"HTTP/1.1 200 OK\r\nTransfer-Encoding: gzip, Chunked\r\n\r\n".to_vec();
    assert!(matches!(
        codec.decode(&mut buf),
        Err(DecodeError::UnsupportedChunked)
    ));
}

#[test]
fn close_delimited_framing_is_unsupported() {
    let mut codec = HttpCodec::new();
    let mut buf: Vec<u8> = b"HTTP/1.1 200 OK\r\nConnection: close\r\n\r\n".to_vec();
    assert!(matches!(
        codec.decode(&mut buf),
        Err(DecodeError::UnsupportedCloseDelimited)
    ));
}

#[test]
fn incomplete_head_waits_for_more() {
    let mut codec = HttpCodec::new();
    let mut buf: Vec<u8> = b"HTTP/1.1 200 OK\r\nContent-Le".to_vec();
    assert!(codec.decode(&mut buf).unwrap().is_none());
    assert_eq!(buf, b"HTTP/1.1 200 OK\r\nContent-Le".to_vec());
}

#[test]
fn encode_post_request_exact_bytes() {
    let req = HttpRequest::post("http://localhost:3000/post-test", b"abcd".to_vec())
        .unwrap()
        .header("Content-Type", "text/plain");
    let mut codec = HttpCodec::new();
    let mut buf: Vec<u8> = Vec::new();
    codec.encode(req, &mut buf);
    assert_eq!(
        buf,
        b"POST /post-test HTTP/1.1\r\nHost: localhost:3000\r\nContent-Length: 4\r\nContent-Type: text/plain\r\n\r\nabcd"
            .to_vec()
    );
}

#[test]
fn encode_get_request_with_query_and_fragment() {
    let req = HttpRequest::get("http://example.com/a/b?x=1&y=2#frag").unwrap();
    let mut codec = HttpCodec::new();
    let mut buf: Vec<u8> = Vec::new();
    codec.encode(req, &mut buf);
    // port 80 is the scheme default, so the Host header has no port
    assert_eq!(
        buf,
        b"GET /a/b?x=1&y=2#frag HTTP/1.1\r\nHost: example.com\r\n\r\n".to_vec()
    );
}

#[test]
fn encode_from_url_parts_with_explicit_port() {
    let parts = UrlParts {
        host: "example.org".to_string(),
        port: Some(8080),
        path: "/".to_string(),
        query: None,
        fragment: None,
    };
    let req = HttpRequest::from_url_parts(Method::Head, parts);
    let mut codec = HttpCodec::new();
    let mut buf: Vec<u8> = Vec::new();
    codec.encode(req, &mut buf);
    assert_eq!(buf, b"HEAD / HTTP/1.1\r\nHost: example.org:8080\r\n\r\n".to_vec());
}

#[test]
fn invalid_url_is_rejected() {
    assert_eq!(
        HttpRequest::get("not a url").map(|_| ()),
        Err(UrlError::Invalid)
    );
}

#[test]
fn encoded_headers_decode_back() {
    // the decoder reads the very layout the encoder writes for header lines
    let mut codec = HttpCodec::new();
    let mut buf: Vec<u8> =
        b"HTTP/1.1 200 OK\r\nContent-Length: 4\r\nContent-Type: text/plain\r\n\r\nabcd".to_vec();
    let res = codec.decode(&mut buf).unwrap().unwrap();
    assert_eq!(res.status(), 200);
    assert!(res.is("Content-Type", "text/plain"));
    assert_eq!(res.header_value("Content-Length").unwrap(), "4");
    assert_eq!(res.body().as_slice(), b"abcd");
    assert!(buf.is_empty());
}

#[test]
fn other_method_token_is_written_verbatim() {
    let parts = UrlParts {
        host: "h".to_string(),
        port: None,
        path: "/p".to_string(),
        query: None,
        fragment: None,
    };
    let req = HttpRequest::from_url_parts(Method::Other("PATCH".to_string()), parts);
    let mut codec = HttpCodec::new();
    let mut buf: Vec<u8> = Vec::new();
    codec.encode(req, &mut buf);
    assert_eq!(buf, b"PATCH /p HTTP/1.1\r\nHost: h\r\n\r\n".to_vec());
}
