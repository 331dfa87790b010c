use httpfs::error::HttpParseError;
use httpfs::message::{Method, Version};
use httpfs::parse::{decode_chunked, parse_request};

#[test]
fn parses_simple_get() {
    let req = parse_request(b"GET /hello HTTP/1.1\r\nHost: example\r\n\r\n").expect("parses");
    assert!(matches!(req.method, Method::Get));
    assert_eq!(req.target, "/hello");
    assert!(matches!(req.version, Version::Http11));
    assert_eq!(req.headers.len(), 1);
    assert_eq!(req.headers[0].name, "host");
    assert_eq!(req.headers[0].value, "example");
    assert!(req.body.is_none());
}

#[test]
fn parses_http_one_zero() {
    let req = parse_request(b"GET / HTTP/1.0\r\n\r\n").expect("parses");
    assert!(matches!(req.version, Version::Http10));
}

#[test]
fn normalizes_header_names_and_keeps_duplicates() {
    let req = parse_request(
        b"GET / HTTP/1.1\r\nX-One: a\r\nx-one: b\r\nAccept: text/plain\r\n\r\n",
    )
    .expect("parses");
    let pairs: Vec<(String, String)> =
        req.headers.iter().map(|h| (h.name.clone(), h.value.clone())).collect();
    assert_eq!(
        pairs,
        vec![
            ("x-one".to_string(), "a".to_string()),
            ("x-one".to_string(), "b".to_string()),
            ("accept".to_string(), "text/plain".to_string()),
        ]
    );
}

#[test]
fn get_with_content_length_is_rejected() {
    // The body is never reached: the header alone decides.
    let err = parse_request(b"GET / HTTP/1.1\r\nContent-Length: 5\r\n\r\nhello").unwrap_err();
    assert!(matches!(err, HttpParseError::BodyNotAllowed));
}

#[test]
fn post_without_framing_is_rejected() {
    let err = parse_request(b"POST /up HTTP/1.1\r\nHost: h\r\n\r\n").unwrap_err();
    assert!(matches!(err, HttpParseError::LengthRequired));
}

#[test]
fn post_reads_content_length_body() {
    let req =
        parse_request(b"POST /up HTTP/1.1\r\nContent-Length: 5\r\n\r\nhello").expect("parses");
    assert_eq!(req.body.as_deref(), Some(&b"hello"[..]));
}

#[test]
fn post_with_zero_content_length_has_no_body() {
    let req = parse_request(b"POST /up HTTP/1.1\r\nContent-Length: 0\r\n\r\n").expect("parses");
    assert!(req.body.is_none());
}

#[test]
fn chunked_body_reassembles() {
    let (body, _) = decode_chunked(b"4\r\nWiki\r\n0\r\n\r\n", 0).expect("decodes");
    assert_eq!(body, b"Wiki");
}

#[test]
fn chunked_request_end_to_end() {
    let req = parse_request(
        b"POST /up HTTP/1.1\r\nTransfer-Encoding: chunked\r\n\r\n4\r\nWiki\r\n5\r\npedia\r\n0\r\n\r\n",
    )
    .expect("parses");
    assert_eq!(req.body.as_deref(), Some(&b"Wikipedia"[..]));
}

#[test]
fn chunked_ignores_extensions() {
    let (body, _) = decode_chunked(b"4;name=val\r\nWiki\r\n0\r\n\r\n", 0).expect("decodes");
    assert_eq!(body, b"Wiki");
}

#[test]
fn chunked_rejects_bad_digits() {
    let err = decode_chunked(b"zz\r\nWiki\r\n0\r\n\r\n", 0).unwrap_err();
    match err {
        HttpParseError::MalformedRequest(msg) => {
            assert_eq!(msg, "invalid digit found in string");
        }
        other => panic!("unexpected error: {:?}", other),
    }
}

#[test]
fn empty_input_is_end_of_stream() {
    let err = parse_request(b"").unwrap_err();
    assert!(matches!(err, HttpParseError::EndOfStream));
}

#[test]
fn truncated_headers_are_end_of_stream() {
    let err = parse_request(b"GET / HTTP/1.1\r\nHost: h\r\n").unwrap_err();
    assert!(matches!(err, HttpParseError::EndOfStream));
}

#[test]
fn unknown_method_token_is_rejected() {
    let err = parse_request(b"BREW / HTTP/1.1\r\n\r\n").unwrap_err();
    match err {
        HttpParseError::UnsupportedMethod(tok) => assert_eq!(tok, "BREW"),
        other => panic!("unexpected error: {:?}", other),
    }
}

#[test]
fn put_and_delete_parse() {
    let req = parse_request(b"PUT /x HTTP/1.1\r\n\r\n").expect("parses");
    assert!(matches!(req.method, Method::Put));
    let req = parse_request(b"DELETE /x HTTP/1.1\r\n\r\n").expect("parses");
    assert!(matches!(req.method, Method::Delete));
}

#[test]
fn unsupported_version_is_rejected() {
    let err = parse_request(b"GET / HTTP/2.0\r\n\r\n").unwrap_err();
    match err {
        HttpParseError::UnsupportedVersion(tok) => assert_eq!(tok, "HTTP/2.0"),
        other => panic!("unexpected error: {:?}", other),
    }
}

#[test]
fn missing_tokens_are_malformed() {
    let err = parse_request(b"\r\n\r\n").unwrap_err();
    match err {
        HttpParseError::MalformedRequest(msg) => assert_eq!(msg, "Method missing"),
        other => panic!("unexpected error: {:?}", other),
    }
    let err = parse_request(b"GET\r\n\r\n").unwrap_err();
    match err {
        HttpParseError::MalformedRequest(msg) => assert_eq!(msg, "URI missing"),
        other => panic!("unexpected error: {:?}", other),
    }
    let err = parse_request(b"GET /\r\n\r\n").unwrap_err();
    match err {
        HttpParseError::MalformedRequest(msg) => assert_eq!(msg, "Version missing"),
        other => panic!("unexpected error: {:?}", other),
    }
}

#[test]
fn non_numeric_content_length_is_malformed() {
    let err = parse_request(b"POST / HTTP/1.1\r\nContent-Length: abc\r\n\r\n").unwrap_err();
    match err {
        HttpParseError::MalformedRequest(msg) => {
            assert_eq!(msg, "Content-Length is not a number");
        }
        other => panic!("unexpected error: {:?}", other),
    }
}

#[test]
fn short_body_is_malformed() {
    let err = parse_request(b"POST / HTTP/1.1\r\nContent-Length: 10\r\n\r\nhi").unwrap_err();
    match err {
        HttpParseError::MalformedRequest(msg) => assert_eq!(msg, "early eof"),
        other => panic!("unexpected error: {:?}", other),
    }
}

#[test]
fn malformed_header_lines_are_rejected() {
    let err = parse_request(b"GET / HTTP/1.1\r\nNoColon\r\n\r\n").unwrap_err();
    match err {
        HttpParseError::MalformedRequest(msg) => {
            assert_eq!(msg, "Header value missing: 'NoColon'");
        }
        other => panic!("unexpected error: {:?}", other),
    }
    let err = parse_request(b"GET / HTTP/1.1\r\nBad Name: v\r\n\r\n").unwrap_err();
    match err {
        HttpParseError::MalformedRequest(msg) => {
            assert_eq!(msg, "Invalid header name: 'Bad Name: v'");
        }
        other => panic!("unexpected error: {:?}", other),
    }
}

#[test]
fn transfer_encoding_match_is_case_insensitive() {
    let req = parse_request(
        b"POST / HTTP/1.1\r\nTransfer-Encoding: CHUNKED\r\n\r\n0\r\n\r\n",
    )
    .expect("parses");
    assert_eq!(req.body.as_deref(), Some(&b""[..]));
}
