//! End-to-end checks: the connection plan driven against a small in-memory
//! stand-in for the filesystem collaborator.

use std::collections::HashMap;

use httpfs::connection::{finish_fetch, finish_store, plan_request, FetchResult, Plan};
use httpfs::message::{ServerFile, Status};
use httpfs::serialize::serialize_response;

/// A tiny filesystem stand-in: file path -> contents.
struct MemFs {
    files: HashMap<String, Vec<u8>>,
}

impl MemFs {
    fn new() -> MemFs {
        MemFs { files: HashMap::new() }
    }

    fn lookup(&self, path: &str) -> FetchResult {
        // Nothing in these scenarios is a directory.
        match self.files.get(path) {
            Some(content) => FetchResult::File(Some(ServerFile {
                content: content.clone(),
                mime: "text/plain".to_string(),
            })),
            None => FetchResult::File(None),
        }
    }
}

#[test]
fn get_missing_file_yields_404_naming_it() {
    let fs = MemFs::new();
    let plan = plan_request(b"GET /missing-file HTTP/1.1\r\n\r\n", "root");
    let job = match plan {
        Plan::Fetch(job) => job,
        other => panic!("expected a fetch, got {:?}", kind(&other)),
    };
    assert_eq!(job.path.full, "root/missing-file");
    let found = fs.lookup(&job.path.full);
    let resp = finish_fetch(job, found);
    assert!(matches!(resp.status, Status::NotFound));
    assert_eq!(resp.body.as_deref(), Some(&b"404: '/missing-file' not found!"[..]));
    let bytes = serialize_response(&resp);
    assert!(bytes.starts_with(b"HTTP/1.1 404 Not Found\r\n"));
}

#[test]
fn post_creates_then_get_reads_back() {
    let mut fs = MemFs::new();

    // POST the file into a directory that does not exist yet.
    let plan = plan_request(
        b"POST /new/dir/file.txt HTTP/1.1\r\nContent-Length: 5\r\n\r\nhello",
        "root",
    );
    let job = match plan {
        Plan::Store(job) => job,
        other => panic!("expected a store, got {:?}", kind(&other)),
    };
    assert_eq!(job.path.full, "root/new/dir/file.txt");
    assert_eq!(job.content, b"hello");
    // The stand-in "creates parents" implicitly, as create_dir_all would.
    fs.files.insert(job.path.full.clone(), job.content.clone());
    let resp = finish_store(&job);
    assert!(matches!(resp.status, Status::Created));
    assert_eq!(resp.body.as_deref(), Some(&b"201: '/new/dir/file.txt' created!"[..]));

    // A subsequent GET serves the same bytes back.
    let plan = plan_request(b"GET /new/dir/file.txt HTTP/1.1\r\n\r\n", "root");
    let job = match plan {
        Plan::Fetch(job) => job,
        other => panic!("expected a fetch, got {:?}", kind(&other)),
    };
    let found = fs.lookup(&job.path.full);
    let resp = finish_fetch(job, found);
    assert!(matches!(resp.status, Status::Okay));
    assert_eq!(resp.body.as_deref(), Some(&b"hello"[..]));
}

#[test]
fn head_matches_get_headers_with_empty_body() {
    let mut fs = MemFs::new();
    fs.files.insert("root/existing-file".to_string(), b"some file bytes".to_vec());

    let get_job = match plan_request(b"GET /existing-file HTTP/1.1\r\n\r\n", "root") {
        Plan::Fetch(job) => job,
        other => panic!("expected a fetch, got {:?}", kind(&other)),
    };
    let get_resp = finish_fetch(get_job, fs.lookup("root/existing-file"));

    let head_job = match plan_request(b"HEAD /existing-file HTTP/1.1\r\n\r\n", "root") {
        Plan::Fetch(job) => job,
        other => panic!("expected a fetch, got {:?}", kind(&other)),
    };
    assert!(head_job.head_only);
    let head_resp = finish_fetch(head_job, fs.lookup("root/existing-file"));

    let get_headers: Vec<(String, String)> =
        get_resp.headers.iter().map(|h| (h.name.clone(), h.value.clone())).collect();
    let head_headers: Vec<(String, String)> =
        head_resp.headers.iter().map(|h| (h.name.clone(), h.value.clone())).collect();
    assert_eq!(head_headers, get_headers);
    // Content-Length still reflects the file's true size.
    assert_eq!(get_headers[0], ("content-length".to_string(), "15".to_string()));
    assert_eq!(get_resp.body.as_deref(), Some(&b"some file bytes"[..]));
    assert!(head_resp.body.is_none());
}

#[test]
fn traversal_cannot_escape_the_root() {
    let plan = plan_request(b"GET /../../etc/passwd HTTP/1.1\r\n\r\n", "root");
    let job = match plan {
        Plan::Fetch(job) => job,
        other => panic!("expected a fetch, got {:?}", kind(&other)),
    };
    assert_eq!(job.path.full, "root/etc/passwd");
}

#[test]
fn download_key_sets_attachment() {
    let job = match plan_request(b"GET /f.txt?download HTTP/1.1\r\n\r\n", "root") {
        Plan::Fetch(job) => job,
        other => panic!("expected a fetch, got {:?}", kind(&other)),
    };
    assert!(job.download);
    let job = match plan_request(b"GET /f.txt?other=1 HTTP/1.1\r\n\r\n", "root") {
        Plan::Fetch(job) => job,
        other => panic!("expected a fetch, got {:?}", kind(&other)),
    };
    assert!(!job.download);
}

#[test]
fn parse_failures_become_replies() {
    let resp = match plan_request(b"GET / HTTP/1.1\r\nContent-Length: 1\r\n\r\nx", "root") {
        Plan::Reply(resp) => resp,
        other => panic!("expected a reply, got {:?}", kind(&other)),
    };
    assert!(matches!(resp.status, Status::BadRequest));
    assert_eq!(
        resp.body.as_deref(),
        Some(&b"Request parse error: Body not supported for this method"[..])
    );
}

#[test]
fn parsed_but_unimplemented_methods_get_501() {
    let resp = match plan_request(b"DELETE /x HTTP/1.1\r\n\r\n", "root") {
        Plan::Reply(resp) => resp,
        other => panic!("expected a reply, got {:?}", kind(&other)),
    };
    assert!(matches!(resp.status, Status::NotImplemented));
    assert_eq!(resp.body.as_deref(), Some(&b"Unknown method!"[..]));
}

#[test]
fn undecodable_path_is_a_500() {
    let resp = match plan_request(b"GET /%FF HTTP/1.1\r\n\r\n", "root") {
        Plan::Reply(resp) => resp,
        other => panic!("expected a reply, got {:?}", kind(&other)),
    };
    assert!(matches!(resp.status, Status::InternalServerError));
}

#[test]
fn percent_encoded_paths_resolve_decoded() {
    let job = match plan_request(b"GET /my%20file.txt HTTP/1.1\r\n\r\n", "root") {
        Plan::Fetch(job) => job,
        other => panic!("expected a fetch, got {:?}", kind(&other)),
    };
    assert_eq!(job.path.full, "root/my file.txt");
    // The 404 diagnostic keeps the raw, undecoded request path.
    assert_eq!(job.raw_path, "/my%20file.txt");
}

fn kind(p: &Plan) -> &'static str {
    match p {
        Plan::Reply(_) => "reply",
        Plan::Fetch(_) => "fetch",
        Plan::Store(_) => "store",
    }
}
