use httpfs::handlers::{created_response, not_found_response, unknown_method_response};
use httpfs::message::{Header, Response, Status, Version};
use httpfs::parse::parse_request;
use httpfs::serialize::{serialize_request, serialize_response};

#[test]
fn serializes_not_found() {
    let resp = not_found_response("/x");
    let bytes = serialize_response(&resp);
    let expected = b"HTTP/1.1 404 Not Found\r\n\
                     content-length: 20\r\n\
                     content-type: text/plain\r\n\
                     connection: close\r\n\
                     \r\n\
                     404: '/x' not found!";
    assert_eq!(bytes, expected.to_vec());
}

#[test]
fn serializes_created() {
    let resp = created_response("/new/f.txt");
    let bytes = serialize_response(&resp);
    let text = String::from_utf8(bytes).expect("ascii");
    assert!(text.starts_with("HTTP/1.1 201 Created\r\n"));
    assert!(text.ends_with("\r\n\r\n201: '/new/f.txt' created!"));
}

#[test]
fn serializes_unknown_method() {
    let bytes = serialize_response(&unknown_method_response());
    let text = String::from_utf8(bytes).expect("ascii");
    assert!(text.starts_with("HTTP/1.1 501 Not Implemented\r\n"));
    assert!(text.contains("connection: close\r\n"));
    assert!(text.ends_with("Unknown method!"));
}

#[test]
fn absent_body_serializes_nothing_after_blank_line() {
    let resp = Response {
        version: Version::Http11,
        status: Status::Okay,
        headers: vec![Header { name: "connection".to_string(), value: "close".to_string() }],
        body: None,
    };
    let bytes = serialize_response(&resp);
    assert_eq!(bytes, b"HTTP/1.1 200 OK\r\nconnection: close\r\n\r\n".to_vec());
}

/// Round trip: a serialized response's header block, re-read by the
/// request parser, yields the original ordered multimap with duplicates.
#[test]
fn header_block_round_trips_through_parser() {
    let resp = Response {
        version: Version::Http11,
        status: Status::Okay,
        headers: vec![
            Header { name: "content-length".to_string(), value: "5".to_string() },
            Header { name: "x-dup".to_string(), value: "one".to_string() },
            Header { name: "x-dup".to_string(), value: "two".to_string() },
            Header { name: "connection".to_string(), value: "close".to_string() },
        ],
        body: Some(b"hello".to_vec()),
    };
    let bytes = serialize_response(&resp);
    // Swap the status line for a request line and re-parse the rest.
    let header_start = bytes.windows(2).position(|w| w == b"\r\n").expect("status line") + 2;
    let mut request_bytes = b"HEAD /x HTTP/1.1\r\n".to_vec();
    request_bytes.extend_from_slice(&bytes[header_start..]);
    let req = parse_request(&request_bytes).expect("parses");
    let round: Vec<(String, String)> =
        req.headers.iter().map(|h| (h.name.clone(), h.value.clone())).collect();
    let original: Vec<(String, String)> =
        resp.headers.iter().map(|h| (h.name.clone(), h.value.clone())).collect();
    assert_eq!(round, original);
}

#[test]
fn renders_request_text_for_logging() {
    let req = parse_request(b"GET /a%20b?x=1 HTTP/1.0\r\nHost: h\r\nAccept: */*\r\n\r\n")
        .expect("parses");
    let text = serialize_request(&req);
    assert_eq!(
        text,
        b"GET /a%20b?x=1 HTTP/1.0\r\nhost: h\r\naccept: */*\r\n\r\n".to_vec()
    );
}
