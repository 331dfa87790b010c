//! The per-connection request lifecycle: parse the delivered bytes, resolve
//! the target against the served root, and dispatch by method. All
//! decisions live here; the caller performs the socket and filesystem work
//! and hands the outcomes back as plain values. Every failure becomes a
//! well-formed response: parse failures map to their status, anything
//! later becomes a generic 500.

use vstd::prelude::*;
use crate::error::SpecError;
use crate::handlers::{
    error_response, internal_error_response, not_found_response, serve_directory, serve_file,
    spec_created, spec_error_response, spec_internal_error, spec_listing_response,
    spec_not_found, spec_serve_file, spec_unknown_method, strip_body, unknown_method_response,
    created_response, entry_order,
};
use crate::message::{DirEntry, Method, Request, Response, ResponseView, ServerFile};
use crate::parse::{parse_request, spec_parse_request};
use crate::path::{
    flatten_segs, join_under, lemma_flatten_path_stays_inside, lemma_flatten_segs_wf,
    lemma_split_slash_wf, percent_decoded, resolve_path, spec_flatten_path, spec_resolved,
    split_slash, ResolvedPath,
};
use crate::query::{
    has_query_key, parse_query, spec_query_lookup, spec_target_path, spec_target_query,
    split_amp, split_target,
};

verus! {

/// Everything a GET or HEAD needs once the path is resolved.
pub struct FetchJob {
    /// The resolved filesystem path; inside the root by construction.
    pub path: ResolvedPath,
    /// The raw path part of the request-target, for the 404 diagnostic.
    pub raw_path: String,
    /// Whether the query string holds a `download` key.
    pub download: bool,
    /// HEAD: compute the same answer as GET, then drop the body.
    pub head_only: bool,
}

/// The mathematical model of a fetch job.
pub struct FetchJobView {
    pub path: Seq<char>,
    pub raw_path: Seq<char>,
    pub download: bool,
    pub head_only: bool,
}

impl View for FetchJob {
    type V = FetchJobView;

    open spec fn view(&self) -> FetchJobView {
        FetchJobView {
            path: self.path.full@,
            raw_path: self.raw_path@,
            download: self.download,
            head_only: self.head_only,
        }
    }
}

/// Everything a POST needs once the path is resolved.
pub struct StoreJob {
    /// The resolved filesystem path to write; inside the root by
    /// construction.
    pub path: ResolvedPath,
    /// The raw path part of the request-target, for the 201 body.
    pub raw_path: String,
    /// The bytes to write: the request body, or nothing when it had none.
    pub content: Vec<u8>,
}

/// The mathematical model of a store job.
pub struct StoreJobView {
    pub path: Seq<char>,
    pub raw_path: Seq<char>,
    pub content: Seq<u8>,
}

impl View for StoreJob {
    type V = StoreJobView;

    open spec fn view(&self) -> StoreJobView {
        StoreJobView { path: self.path.full@, raw_path: self.raw_path@, content: self.content@ }
    }
}

/// What one connection's bytes call for: an immediate answer, a read from
/// the filesystem, or a write to it.
pub enum Plan {
    /// Answer at once: a parse failure, a path-decoding failure, or a
    /// parsed but unimplemented method.
    Reply(Response),
    /// GET or HEAD: ask the filesystem about the path, then finish with
    /// `finish_fetch`.
    Fetch(FetchJob),
    /// POST: create the missing parent directories and write the content;
    /// finish with `finish_store`, or with `internal_error_response` when
    /// the filesystem fails.
    Store(StoreJob),
}

/// The mathematical model of a plan.
pub enum PlanView {
    Reply(ResponseView),
    Fetch(FetchJobView),
    Store(StoreJobView),
}

impl View for Plan {
    type V = PlanView;

    open spec fn view(&self) -> PlanView {
        match self {
            Plan::Reply(r) => PlanView::Reply(r@),
            Plan::Fetch(j) => PlanView::Fetch(j@),
            Plan::Store(j) => PlanView::Store(j@),
        }
    }
}

/// Whether a request-target's query holds the `download` key.
pub open spec fn spec_wants_download(target: Seq<char>) -> bool {
    match spec_target_query(target) {
        Some(q) => spec_query_lookup(split_amp(q), "download"@) is Some,
        None => false,
    }
}

/// The diagnostic for a path whose percent-decoding is not valid text;
/// caught at the connection boundary as a 500, never a 400.
pub open spec fn spec_decode_fault() -> Seq<char> {
    "invalid text in percent-encoded path"@
}

/// What the connection does with the delivered bytes. A parse failure is
/// answered with its mapped status and diagnostic; a target whose
/// percent-decoding fails is answered with a 500; GET and HEAD become a
/// fetch of the resolved path, POST a store to it, and any other parsed
/// method a plain 501.
pub open spec fn spec_plan(input: Seq<u8>, root: Seq<char>) -> PlanView {
    match spec_parse_request(input) {
        Err(e) => PlanView::Reply(spec_error_response(e)),
        Ok(req) => {
            let path_part = spec_target_path(req.target);
            match percent_decoded(path_part) {
                None => PlanView::Reply(spec_internal_error(spec_decode_fault())),
                Some(d) => {
                    let full = spec_resolved(root, d);
                    match req.method {
                        Method::Get => PlanView::Fetch(
                            FetchJobView {
                                path: full,
                                raw_path: path_part,
                                download: spec_wants_download(req.target),
                                head_only: false,
                            },
                        ),
                        Method::Head => PlanView::Fetch(
                            FetchJobView {
                                path: full,
                                raw_path: path_part,
                                download: spec_wants_download(req.target),
                                head_only: true,
                            },
                        ),
                        Method::Post => PlanView::Store(
                            StoreJobView {
                                path: full,
                                raw_path: path_part,
                                content: match req.body {
                                    Some(b) => b,
                                    None => Seq::empty(),
                                },
                            },
                        ),
                        _ => PlanView::Reply(spec_unknown_method()),
                    }
                },
            }
        },
    }
}

/// Reads one request from the connection's bytes and decides what to do:
/// exactly what the specification-level plan says for these bytes against
/// this root directory.
pub fn plan_request(input: &[u8], root: &str) -> (r: Plan)
    ensures
        r@ == spec_plan(input@, root@),
{
    let req: Request = match parse_request(input) {
        Err(e) => {
            return Plan::Reply(error_response(&e));
        },
        Ok(req) => req,
    };
    let (path_part, query) = split_target(req.target.as_str());
    let download: bool = match &query {
        Some(q) => {
            let params = parse_query(q.as_str());
            let has = has_query_key(&params, "download");
            proof {
                let pairs = split_amp(q@);
                if has {
                    let i = choose|i: int|
                        0 <= i < params@.len() && (#[trigger] params@[i]@).0 == "download"@;
                    assert(spec_query_lookup(pairs, "download"@) == Some(params@[i]@.1));
                } else {
                    if spec_query_lookup(pairs, "download"@) is Some {
                        let i = choose|i: int|
                            0 <= i < params@.len() && (#[trigger] params@[i]@).0 == "download"@;
                        assert(false);
                    }
                }
            }
            has
        },
        None => false,
    };
    assert(download == spec_wants_download(req.target@));
    let resolved = match resolve_path(root, path_part.as_str()) {
        None => {
            return Plan::Reply(
                internal_error_response("invalid text in percent-encoded path"),
            );
        },
        Some(rp) => rp,
    };
    match req.method {
        Method::Get => Plan::Fetch(
            FetchJob { path: resolved, raw_path: path_part, download, head_only: false },
        ),
        Method::Head => Plan::Fetch(
            FetchJob { path: resolved, raw_path: path_part, download, head_only: true },
        ),
        Method::Post => {
            let content: Vec<u8> = match req.body {
                Some(b) => b,
                None => Vec::new(),
            };
            Plan::Store(StoreJob { path: resolved, raw_path: path_part, content })
        },
        _ => Plan::Reply(unknown_method_response()),
    }
}

/// A path that stays inside the base directory: its segments are the
/// base's own segments followed by a tail with no `..` in it, so no
/// traversal can name anything outside the base's subtree.
pub open spec fn spec_path_inside(base: Seq<char>, full: Seq<char>) -> bool {
    exists|tail: Seq<Seq<char>>|
        split_slash(full) == split_slash(base) + tail && forall|i: int|
            0 <= i < tail.len() ==> (#[trigger] tail[i]) != seq!['.', '.']
}

/// The security boundary, end to end: whatever bytes a client sends, every
/// path the plan asks the filesystem to read or write stays inside the
/// served root directory.
pub proof fn lemma_plan_stays_inside(input: Seq<u8>, root: Seq<char>)
    ensures
        spec_plan(input, root) matches PlanView::Fetch(j) ==> spec_path_inside(root, j.path),
        spec_plan(input, root) matches PlanView::Store(j) ==> spec_path_inside(root, j.path),
{
    match spec_parse_request(input) {
        Err(_) => {},
        Ok(req) => {
            let path_part = spec_target_path(req.target);
            match percent_decoded(path_part) {
                None => {},
                Some(d) => {
                    lemma_flatten_path_stays_inside(d, root);
                    lemma_split_slash_wf(d);
                    lemma_flatten_segs_wf(split_slash(d));
                    let tail = flatten_segs(split_slash(d));
                    let full = spec_resolved(root, d);
                    assert(full == join_under(root, spec_flatten_path(d)));
                    assert(split_slash(full) =~~= split_slash(root) + tail);
                    assert forall|i: int| 0 <= i < tail.len() implies (#[trigger] tail[i])
                        != seq!['.', '.'] by {
                        assert(tail[i].len() > 0 && tail[i] != seq!['.', '.']);
                    }
                    assert(spec_path_inside(root, full));
                },
            }
        },
    }
}

/// What the filesystem collaborator found at a fetched path.
pub enum FetchResult {
    /// The path is a directory: its entries, or nothing when reading the
    /// directory failed.
    Directory(Option<Vec<DirEntry>>),
    /// The path is not a directory: the file's bytes and MIME guess, or
    /// nothing when reading failed.
    File(Option<ServerFile>),
}

/// A response with its body dropped when the request was HEAD.
pub open spec fn spec_head_adjust(head_only: bool, r: ResponseView) -> ResponseView {
    if head_only {
        ResponseView { version: r.version, status: r.status, headers: r.headers, body: None }
    } else {
        r
    }
}

/// HEAD answers with exactly the headers GET computes for the same file -
/// the Content-Length still reflecting the file's true size - and an empty
/// body.
pub proof fn lemma_head_matches_get(
    file: Option<(Seq<u8>, Seq<char>)>,
    raw_path: Seq<char>,
    download: bool,
)
    ensures
        ({
            let get = spec_head_adjust(false, spec_serve_file(file, raw_path, download));
            let head = spec_head_adjust(true, spec_serve_file(file, raw_path, download));
            &&& head.headers == get.headers
            &&& head.status == get.status
            &&& head.version == get.version
            &&& head.body is None
        }),
{
}

/// Builds the answer for a fetched path from what the filesystem found:
/// GET's answer, with the body dropped when the job was HEAD.
pub fn finish_fetch(job: FetchJob, found: FetchResult) -> (r: Response)
    ensures
        match found {
            FetchResult::File(f) => r@ == spec_head_adjust(
                job@.head_only,
                spec_serve_file(
                    match f {
                        Some(sf) => Some((sf.content@, sf.mime@)),
                        None => None,
                    },
                    job@.raw_path,
                    job@.download,
                ),
            ),
            FetchResult::Directory(opt) => match opt {
                None => r@ == spec_head_adjust(job@.head_only, spec_not_found(job@.path)),
                Some(es) => exists|sorted: Seq<DirEntry>|
                    sorted.to_multiset() == es@.to_multiset() && vstd::relations::sorted_by(
                        sorted,
                        entry_order(),
                    ) && r@ == spec_head_adjust(
                        job@.head_only,
                        #[trigger] spec_listing_response(sorted),
                    ),
            },
        },
{
    let base = match found {
        FetchResult::File(f) => serve_file(f, job.raw_path.as_str(), job.download),
        FetchResult::Directory(opt) => serve_directory(opt, job.path.full.as_str()),
    };
    if job.head_only {
        strip_body(base)
    } else {
        base
    }
}

/// Builds the POST confirmation once the filesystem wrote the content: a
/// 201 naming the raw request path. A filesystem failure is answered with
/// `internal_error_response` at the connection boundary instead.
pub fn finish_store(job: &StoreJob) -> (r: Response)
    ensures
        r@ == spec_created(job@.raw_path),
{
    created_response(job.raw_path.as_str())
}

} // verus!
