use httpfs::error::{status_of_error, HttpParseError};
use httpfs::handlers::{
    error_response, internal_error_response, listing_response, serve_directory, serve_file,
    sort_entries, strip_body, usize_string,
};
use httpfs::message::{DirEntry, ServerFile, Status};

fn entry(name: &str, is_directory: bool, mime: &str) -> DirEntry {
    DirEntry { name: name.to_string(), is_directory, mime: mime.to_string() }
}

#[test]
fn renders_decimal() {
    assert_eq!(usize_string(0), "0");
    assert_eq!(usize_string(7), "7");
    assert_eq!(usize_string(104), "104");
    assert_eq!(usize_string(98765), "98765");
}

#[test]
fn sorts_directories_first_then_names() {
    let entries = vec![
        entry("zeta.txt", false, "text/plain"),
        entry("beta", true, "application/octet-stream"),
        entry("alpha.txt", false, "text/plain"),
        entry("delta", true, "application/octet-stream"),
    ];
    let sorted = sort_entries(entries);
    let names: Vec<&str> = sorted.iter().map(|e| e.name.as_str()).collect();
    assert_eq!(names, vec!["beta", "delta", "alpha.txt", "zeta.txt"]);
}

#[test]
fn renders_listing_lines() {
    let entries =
        vec![entry("docs", true, "application/octet-stream"), entry("a.txt", false, "text/plain")];
    let resp = listing_response(&entries);
    assert!(matches!(resp.status, Status::Okay));
    assert_eq!(resp.body.as_deref(), Some(&b"docs/ [dir]\na.txt [text/plain]"[..]));
}

#[test]
fn serves_file_with_disposition() {
    let file = ServerFile { content: b"data".to_vec(), mime: "text/plain".to_string() };
    let resp = serve_file(Some(file), "/f.txt", true);
    assert!(matches!(resp.status, Status::Okay));
    let names: Vec<&str> = resp.headers.iter().map(|h| h.name.as_str()).collect();
    assert_eq!(
        names,
        vec!["content-length", "content-type", "content-disposition", "connection"]
    );
    assert_eq!(resp.headers[2].value, "attachment");
    assert_eq!(resp.body.as_deref(), Some(&b"data"[..]));

    let file = ServerFile { content: b"data".to_vec(), mime: "text/plain".to_string() };
    let resp = serve_file(Some(file), "/f.txt", false);
    assert_eq!(resp.headers[2].value, "inline");
}

#[test]
fn missing_file_is_not_found() {
    let resp = serve_file(None, "/gone", false);
    assert!(matches!(resp.status, Status::NotFound));
    assert_eq!(resp.body.as_deref(), Some(&b"404: '/gone' not found!"[..]));
}

#[test]
fn unreadable_directory_is_not_found() {
    let resp = serve_directory(None, "root/secret");
    assert!(matches!(resp.status, Status::NotFound));
    assert_eq!(resp.body.as_deref(), Some(&b"404: 'root/secret' not found!"[..]));
}

#[test]
fn error_responses_map_statuses() {
    let cases = vec![
        (HttpParseError::MalformedRequest("x".to_string()), Status::BadRequest),
        (HttpParseError::UnsupportedMethod("BREW".to_string()), Status::NotImplemented),
        (HttpParseError::UnsupportedVersion("HTTP/9".to_string()), Status::VersionNotSupported),
        (HttpParseError::BodyNotAllowed, Status::BadRequest),
        (HttpParseError::EndOfStream, Status::BadRequest),
        (HttpParseError::LengthRequired, Status::LengthRequired),
        (HttpParseError::PayloadTooLarge, Status::PayloadTooLarge),
    ];
    for (err, status) in cases {
        let resp = error_response(&err);
        assert_eq!(resp.status.code(), status.code());
    }
}

#[test]
fn status_codes_follow_the_taxonomy() {
    assert_eq!(status_of_error(&HttpParseError::MalformedRequest("x".to_string())), 400);
    assert_eq!(status_of_error(&HttpParseError::UnsupportedMethod("B".to_string())), 501);
    assert_eq!(status_of_error(&HttpParseError::UnsupportedVersion("V".to_string())), 505);
    assert_eq!(status_of_error(&HttpParseError::BodyNotAllowed), 400);
    assert_eq!(status_of_error(&HttpParseError::EndOfStream), 400);
    assert_eq!(status_of_error(&HttpParseError::LengthRequired), 411);
    assert_eq!(status_of_error(&HttpParseError::PayloadTooLarge), 413);
}

#[test]
fn error_response_carries_diagnostic() {
    let resp = error_response(&HttpParseError::LengthRequired);
    assert_eq!(
        resp.body.as_deref(),
        Some(&b"Request parse error: Content-Length header required"[..])
    );
}

#[test]
fn internal_error_is_500_with_message() {
    let resp = internal_error_response("disk on fire");
    assert!(matches!(resp.status, Status::InternalServerError));
    assert_eq!(resp.body.as_deref(), Some(&b"Error: disk on fire"[..]));
}

#[test]
fn strip_body_keeps_headers() {
    let file = ServerFile { content: b"data".to_vec(), mime: "text/plain".to_string() };
    let full = serve_file(Some(file), "/f.txt", false);
    let full_headers: Vec<(String, String)> =
        full.headers.iter().map(|h| (h.name.clone(), h.value.clone())).collect();
    let stripped = strip_body(full);
    let stripped_headers: Vec<(String, String)> =
        stripped.headers.iter().map(|h| (h.name.clone(), h.value.clone())).collect();
    assert_eq!(stripped_headers, full_headers);
    assert!(stripped.body.is_none());
}
