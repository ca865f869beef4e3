//! Tests of the head parser and the response model's header queries.

use async_http_client::{new_header, new_response, Header, HttpResponse, ParseResult};

#[test]
fn test_response() {
    let input: &[u8] = b"HTTP/1.1 404 Not Found\r\n\
        Host: localhost:3000 \r\n\
        Content-Length: 5\r\n\
        Transfer-Encoding: GZIP , chunked \r\n\
        Connection: keep-alive\r\n\
        $Dumb!:  \t   \r\n\
        \r\n\
        12345";

    let result = async_http_client::response(input);

    // test parsing
    match result {
        ParseResult::Done(res, used) => {
            assert_eq!(&input[used..], &b"12345"[..]);

            // status
            assert_eq!(res.status(), 404);

            // is
            assert!(res.is("Connection", "keep-alive"));
            assert!(res.is("connection", "Keep-Alive"));
            assert!(!res.is("Connection", "close"));
            assert!(!res.is("No header", "present"));

            // trim outside, not inside. Header value represented with same case.
            assert!(res
                .header_value("transfer-encoding")
                .map_or(false, |enc| enc == "GZIP , chunked"));

            // has
            assert!(res.has("Transfer-Encoding", "chunked"));
            assert!(res.has("trAnSfeR-enCodIng", "gzip"));
            assert!(!res.has("Transfer-Encoding", "deflate"));
        }
        _ => panic!("expected a complete parse"),
    }
}

#[test]
fn truncated_head_needs_more() {
    for input in [
        &b""[..],
        &b"HTT"[..],
        &b"HTTP/1."[..],
        &b"HTTP/1.1 2"[..],
        &b"HTTP/1.1 200 OK"[..],
        &b"HTTP/1.1 200 OK\r\nHost: x"[..],
        &b"HTTP/1.1 200 OK\r\nHost: x\r\n"[..],
    ] {
        assert!(matches!(
            async_http_client::response(input),
            ParseResult::NeedMore
        ));
    }
}

#[test]
fn grammar_violations_are_malformed() {
    for input in [
        &b"XTTP/1.1 200 OK\r\n\r\n"[..],
        &b"HTTP/x.1 200 OK\r\n\r\n"[..],
        &b"HTTP/1.1 20x Early\r\n\r\n"[..],
        &b"HTTP/1.1 2000 Too Long\r\n\r\n"[..],
        &b"HTTP/1.1 200\r\n\r\n"[..],
        &b"HTTP/1.1 200 OK\r\nNo colon\r\n\r\n"[..],
    ] {
        assert!(matches!(
            async_http_client::response(input),
            ParseResult::Malformed
        ));
    }
}

#[test]
fn head_without_headers_parses() {
    let input: &[u8] = b"HTTP/1.0 200 OK\r\n\r\nrest";
    match async_http_client::response(input) {
        ParseResult::Done(res, used) => {
            assert_eq!(res.status(), 200);
            assert_eq!(res.version(), (1, 0));
            assert_eq!(&input[used..], b"rest");
        }
        _ => panic!("expected a complete parse"),
    }
}

#[test]
fn empty_header_value_is_empty_string() {
    let input: &[u8] = b"HTTP/1.1 200 OK\r\nX-Empty:\r\nY-Blank:   \t \r\n\r\n";
    match async_http_client::response(input) {
        ParseResult::Done(res, _) => {
            assert_eq!(res.header_value("X-Empty").unwrap(), "");
            assert_eq!(res.header_value("Y-Blank").unwrap(), "");
        }
        _ => panic!("expected a complete parse"),
    }
}

fn sample_response(headers: Vec<(&str, &str)>) -> HttpResponse {
    let hs: Vec<Header> = headers
        .into_iter()
        .map(|(n, v)| new_header(n.to_string(), v.to_string()))
        .collect();
    new_response((1, 1), 200, hs)
}

#[test]
fn is_and_has_distinguish_whole_and_list_matches() {
    let res = sample_response(vec![("Connection", "close"), ("Transfer-Encoding", "gzip, chunked")]);
    assert!(res.is("Connection", "close"));
    assert!(res.is("Connection", "CLOSE"));
    assert!(!res.is("Connection", "clos"));
    assert!(!res.is("Connection", "close "));
    assert!(res.has("Transfer-Encoding", "chunked"));
    assert!(res.has("Transfer-Encoding", "gzip"));

    let gzip_only = sample_response(vec![("Transfer-Encoding", "gzip")]);
    assert!(!gzip_only.has("Transfer-Encoding", "chunked"));
}

#[test]
fn lookup_returns_first_match() {
    let res = sample_response(vec![("X-Dup", "one"), ("x-dup", "two")]);
    assert_eq!(res.header_value("X-DUP").unwrap(), "one");
    assert!(res.is("X-Dup", "one"));
    assert!(!res.is("X-Dup", "two"));
}

#[test]
fn category_predicates_follow_status_ranges() {
    let cases: Vec<(u32, [bool; 5])> = vec![
        (100, [true, false, false, false, false]),
        (199, [true, false, false, false, false]),
        (200, [false, true, false, false, false]),
        (301, [false, false, true, false, false]),
        (404, [false, false, false, true, false]),
        (503, [false, false, false, false, true]),
        (600, [false, false, false, false, false]),
    ];
    for (status, expect) in cases {
        let res = HttpResponse::new((1, 1), status, Vec::new());
        assert_eq!(res.is_informational(), expect[0]);
        assert_eq!(res.is_successful(), expect[1]);
        assert_eq!(res.is_redirection(), expect[2]);
        assert_eq!(res.is_client_error(), expect[3]);
        assert_eq!(res.is_server_error(), expect[4]);
    }
}

#[test]
fn is_chunked_is_a_substring_test() {
    let res = sample_response(vec![("Transfer-Encoding", "xchunkedy")]);
    assert!(res.is_chunked());
    let res = sample_response(vec![("Transfer-Encoding", "chunk")]);
    assert!(!res.is_chunked());
    let res = sample_response(vec![("Connection", "chunked")]);
    assert!(!res.is_chunked());
}

#[test]
fn append_grows_the_body() {
    let mut res = HttpResponse::new((1, 1), 200, Vec::new());
    async_http_client::append(&mut res, b"abc");
    res.append(b"def");
    assert_eq!(res.body().as_slice(), b"abcdef");
}

#[test]
fn header_constructors_agree() {
    let a = Header::new("K".to_string(), "v".to_string());
    let _ = a;
    let res = new_response(
        (1, 1),
        200,
        vec![new_header("K".to_string(), "v".to_string())],
    );
    assert!(res.is("k", "V"));
}

#[test]
fn is_token_matches_header_name_bytes() {
    assert!(async_http_client::is_token(b'a'));
    assert!(async_http_client::is_token(b'$'));
    assert!(!async_http_client::is_token(b':'));
    assert!(!async_http_client::is_token(b' '));
    assert!(!async_http_client::is_token(127));
}

#[test]
fn headers_are_kept_in_wire_order() {
    let input: &[u8] = b"HTTP/1.1 200 OK\r\nB: 2\r\nA: 1\r\n\r\n";
    match async_http_client::response(input) {
        ParseResult::Done(res, _) => {
            assert_eq!(res.header_count(), 2);
            let (n0, v0) = res.header_at(0);
            let (n1, v1) = res.header_at(1);
            assert_eq!((n0.as_str(), v0.as_deref()), ("B", Some("2")));
            assert_eq!((n1.as_str(), v1.as_deref()), ("A", Some("1")));
        }
        _ => panic!("expected a complete parse"),
    }
}
