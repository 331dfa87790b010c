//! The method handlers: every response the server can produce - file and
//! directory answers for GET and HEAD, the POST confirmation, the 404 and
//! 501 answers, and the error responses of the connection boundary. Every
//! response carries Content-Length, Content-Type and `Connection: close`.

use vstd::prelude::*;
use vstd::utf8::encode_utf8;
use vstd::multiset::Multiset;
use crate::error::{HttpParseError, SpecError, spec_error_message};
use crate::message::{
    Header, Response, ResponseView, ServerFile, Status, Version, headers_view,
};
use crate::parse::{all_digits, dec_val, digit_val, is_digit};
use crate::text::{chars_to_string, string_bytes};

verus! {

/// The character of one decimal digit.
pub open spec fn digit_char(d: nat) -> char {
    ((48 + d) as u8) as char
}

/// The decimal digits of a number, most significant first.
pub open spec fn dec_digits(n: nat) -> Seq<char>
    decreases n,
{
    if n < 10 {
        seq![digit_char(n)]
    } else {
        dec_digits(n / 10) + seq![digit_char(n % 10)]
    }
}

/// A byte cast to a character keeps its value.
pub proof fn lemma_byte_char_value(b: u8)
    ensures
        (b as char) as u8 == b,
        (b as char) as int == b as int,
{
}

/// Decimal digits denote their number and are digits.
pub proof fn lemma_dec_digits(n: nat)
    ensures
        dec_digits(n).len() >= 1,
        all_digits(dec_digits(n)),
        dec_val(dec_digits(n)) == n,
    decreases n,
{
    if n < 10 {
        lemma_byte_char_value((48 + n) as u8);
        assert(is_digit(digit_char(n)));
        assert(digit_val(digit_char(n)) == n);
        assert(dec_digits(n).drop_last() =~= Seq::<char>::empty());
        assert(dec_digits(n).last() == digit_char(n));
        assert(dec_val(Seq::<char>::empty()) == 0);
        assert(dec_val(dec_digits(n)) == 10 * dec_val(Seq::<char>::empty()) + digit_val(
            digit_char(n),
        ));
    } else {
        lemma_dec_digits(n / 10);
        lemma_byte_char_value((48 + n % 10) as u8);
        assert(is_digit(digit_char(n % 10)));
        assert(digit_val(digit_char(n % 10)) == n % 10);
        let whole = dec_digits(n);
        assert(whole.drop_last() =~= dec_digits(n / 10));
        assert(whole.last() == digit_char(n % 10));
        assert(dec_val(whole) == 10 * dec_val(dec_digits(n / 10)) + digit_val(digit_char(n % 10)));
        assert(10 * (n / 10) + n % 10 == n) by (nonlinear_arith);
    }
}

/// The decimal digits of a machine integer.
pub fn dec_chars(n: usize) -> (r: Vec<char>)
    ensures
        r@ == dec_digits(n as nat),
    decreases n,
{
    if n < 10 {
        let mut v: Vec<char> = Vec::new();
        v.push((48 + n as u8) as char);
        assert(v@ =~= seq![digit_char(n as nat)]);
        v
    } else {
        let mut v = dec_chars(n / 10);
        v.push((48 + (n % 10) as u8) as char);
        assert(v@ =~= dec_digits((n / 10) as nat) + seq![digit_char((n % 10) as nat)]);
        v
    }
}

/// A machine integer rendered in decimal.
pub fn usize_string(n: usize) -> (r: String)
    ensures
        r@ == dec_digits(n as nat),
{
    let digits = dec_chars(n);
    chars_to_string(&digits)
}

/// The three headers every plain response carries: the body's byte count,
/// the content type, and the always-close connection marker.
pub open spec fn spec_std_headers(blen: nat, ctype: Seq<char>) -> Seq<(Seq<char>, Seq<char>)> {
    seq![
        ("content-length"@, dec_digits(blen)),
        ("content-type"@, ctype),
        ("connection"@, "close"@),
    ]
}

fn std_headers(blen: usize, ctype: &str) -> (r: Vec<Header>)
    ensures
        headers_view(r@) == spec_std_headers(blen as nat, ctype@),
{
    let mut v: Vec<Header> = Vec::new();
    v.push(Header { name: String::from_str("content-length"), value: usize_string(blen) });
    v.push(Header { name: String::from_str("content-type"), value: String::from_str(ctype) });
    v.push(Header { name: String::from_str("connection"), value: String::from_str("close") });
    proof {
        assert(headers_view(v@) =~= spec_std_headers(blen as nat, ctype@));
    }
    v
}

/// A plaintext response: the given status, the rendered text as body, and
/// the standard headers describing it.
pub open spec fn spec_text_response(status: Status, text: Seq<char>) -> ResponseView {
    let b = encode_utf8(text);
    ResponseView {
        version: Version::Http11,
        status,
        headers: spec_std_headers(b.len(), "text/plain"@),
        body: Some(b),
    }
}

fn text_response(status: Status, text: String) -> (r: Response)
    ensures
        r@ == spec_text_response(status, text@),
{
    let body = string_bytes(text.as_str());
    let headers = std_headers(body.len(), "text/plain");
    Response { version: Version::Http11, status, headers, body: Some(body) }
}

/// The not-found answer: a 404 whose body names what was asked for.
pub open spec fn spec_not_found(shown: Seq<char>) -> ResponseView {
    spec_text_response(Status::NotFound, "404: '"@ + shown + "' not found!"@)
}

/// Answers 404 with a plaintext body naming the missing path.
pub fn not_found_response(shown: &str) -> (r: Response)
    ensures
        r@ == spec_not_found(shown@),
{
    let mut m = String::from_str("404: '");
    m.append(shown);
    m.append("' not found!");
    text_response(Status::NotFound, m)
}

/// The POST confirmation: a 201 whose body names the created path.
pub open spec fn spec_created(shown: Seq<char>) -> ResponseView {
    spec_text_response(Status::Created, "201: '"@ + shown + "' created!"@)
}

/// Answers 201 with a plaintext body naming the path just written.
pub fn created_response(shown: &str) -> (r: Response)
    ensures
        r@ == spec_created(shown@),
{
    let mut m = String::from_str("201: '");
    m.append(shown);
    m.append("' created!");
    text_response(Status::Created, m)
}

/// The answer for a parsed but unimplemented method: a plain 501.
pub open spec fn spec_unknown_method() -> ResponseView {
    spec_text_response(Status::NotImplemented, "Unknown method!"@)
}

/// Answers 501 for a method the dispatcher does not implement.
pub fn unknown_method_response() -> (r: Response)
    ensures
        r@ == spec_unknown_method(),
{
    text_response(Status::NotImplemented, String::from_str("Unknown method!"))
}

/// The status each parse failure maps to.
pub open spec fn spec_error_status(e: SpecError) -> Status {
    match e {
        SpecError::MalformedRequest(_) => Status::BadRequest,
        SpecError::UnsupportedMethod(_) => Status::NotImplemented,
        SpecError::UnsupportedVersion(_) => Status::VersionNotSupported,
        SpecError::BodyNotAllowed => Status::BadRequest,
        SpecError::EndOfStream => Status::BadRequest,
        SpecError::LengthRequired => Status::LengthRequired,
        SpecError::PayloadTooLarge => Status::PayloadTooLarge,
    }
}

/// The answer for a request that failed to parse: the failure's status
/// code, and its description as a plaintext diagnostic body.
pub open spec fn spec_error_response(e: SpecError) -> ResponseView {
    spec_text_response(spec_error_status(e), "Request parse error: "@ + spec_error_message(e))
}

/// Maps a parse failure to its status.
pub fn error_status(e: &HttpParseError) -> (r: Status)
    ensures
        r == spec_error_status(e@),
{
    match e {
        HttpParseError::MalformedRequest(_) => Status::BadRequest,
        HttpParseError::UnsupportedMethod(_) => Status::NotImplemented,
        HttpParseError::UnsupportedVersion(_) => Status::VersionNotSupported,
        HttpParseError::BodyNotAllowed => Status::BadRequest,
        HttpParseError::EndOfStream => Status::BadRequest,
        HttpParseError::LengthRequired => Status::LengthRequired,
        HttpParseError::PayloadTooLarge => Status::PayloadTooLarge,
    }
}

/// Builds the well-formed HTTP response for a request that failed to
/// parse: every failure becomes a status code and a diagnostic body.
pub fn error_response(e: &HttpParseError) -> (r: Response)
    ensures
        r@ == spec_error_response(e@),
{
    let status = error_status(e);
    let mut m = String::from_str("Request parse error: ");
    m.append(crate::error::error_message(e).as_str());
    text_response(status, m)
}

/// The answer for a failure after parsing succeeded: a generic 500 whose
/// body carries the failure's message.
pub open spec fn spec_internal_error(msg: Seq<char>) -> ResponseView {
    spec_text_response(Status::InternalServerError, "Error: "@ + msg)
}

/// Answers 500 with the caught failure's message as plaintext body.
pub fn internal_error_response(msg: &str) -> (r: Response)
    ensures
        r@ == spec_internal_error(msg@),
{
    let mut m = String::from_str("Error: ");
    m.append(msg);
    text_response(Status::InternalServerError, m)
}

/// A served file: a 200 whose body is the file's bytes, described by the
/// collaborator's MIME guess and a disposition chosen by the `download`
/// query key.
pub open spec fn spec_file_response(content: Seq<u8>, mime: Seq<char>, download: bool) -> ResponseView {
    ResponseView {
        version: Version::Http11,
        status: Status::Okay,
        headers: seq![
            ("content-length"@, dec_digits(content.len())),
            ("content-type"@, mime),
            ("content-disposition"@, if download {
                "attachment"@
            } else {
                "inline"@
            }),
            ("connection"@, "close"@),
        ],
        body: Some(content),
    }
}

/// What GET answers for a file: the file itself when the collaborator
/// could read it, else a 404 naming the request's raw path.
pub open spec fn spec_serve_file(
    file: Option<(Seq<u8>, Seq<char>)>,
    raw_path: Seq<char>,
    download: bool,
) -> ResponseView {
    match file {
        Some(f) => spec_file_response(f.0, f.1, download),
        None => spec_not_found(raw_path),
    }
}

/// Builds the GET answer for a file the filesystem collaborator read - or
/// failed to: a missing or unreadable file is a 404 naming the raw request
/// path.
pub fn serve_file(file: Option<ServerFile>, raw_path: &str, download: bool) -> (r: Response)
    ensures
        r@ == spec_serve_file(
            match file {
                Some(f) => Some((f.content@, f.mime@)),
                None => None,
            },
            raw_path@,
            download,
        ),
{
    match file {
        None => not_found_response(raw_path),
        Some(f) => {
            let headers = file_headers(f.content.len(), &f.mime, download);
            Response {
                version: Version::Http11,
                status: Status::Okay,
                headers,
                body: Some(f.content),
            }
        },
    }
}

fn file_headers(blen: usize, mime: &String, download: bool) -> (r: Vec<Header>)
    ensures
        headers_view(r@) == seq![
            ("content-length"@, dec_digits(blen as nat)),
            ("content-type"@, mime@),
            ("content-disposition"@, if download {
                "attachment"@
            } else {
                "inline"@
            }),
            ("connection"@, "close"@),
        ],
{
    let mut v: Vec<Header> = Vec::new();
    v.push(Header { name: String::from_str("content-length"), value: usize_string(blen) });
    v.push(Header { name: String::from_str("content-type"), value: mime.clone() });
    let disposition = if download {
        String::from_str("attachment")
    } else {
        String::from_str("inline")
    };
    v.push(Header { name: String::from_str("content-disposition"), value: disposition });
    v.push(Header { name: String::from_str("connection"), value: String::from_str("close") });
    proof {
        assert(headers_view(v@) =~= seq![
            ("content-length"@, dec_digits(blen as nat)),
            ("content-type"@, mime@),
            ("content-disposition"@, if download {
                "attachment"@
            } else {
                "inline"@
            }),
            ("connection"@, "close"@),
        ]);
    }
    v
}

/// Discards a response's body while keeping every header - how HEAD reuses
/// the GET answer: the client learns size and type without the bytes.
pub fn strip_body(resp: Response) -> (r: Response)
    ensures
        r@.version == resp@.version,
        r@.status == resp@.status,
        r@.headers == resp@.headers,
        r@.body is None,
{
    Response { version: resp.version, status: resp.status, headers: resp.headers, body: None }
}

/// Every plaintext response the library builds keeps the response
/// invariant: its headers are well formed with a numeric Content-Length -
/// so the serialization round trip applies to it - and that Content-Length
/// is exactly the body's byte count.
pub proof fn lemma_text_response_well_formed(status: Status, text: Seq<char>)
    requires
        encode_utf8(text).len() <= usize::MAX,
    ensures
        ({
            let r = spec_text_response(status, text);
            &&& forall|i: int|
                0 <= i < r.headers.len() ==> crate::message::valid_header(#[trigger] r.headers[i])
            &&& forall|i: int|
                0 <= i < r.headers.len() ==> ((#[trigger] r.headers[i]).0 == "content-length"@
                    ==> crate::parse::spec_parse_usize(r.headers[i].1) is Some)
            &&& dec_val(r.headers[0].1) == encode_utf8(text).len()
        }),
{
    reveal_strlit("content-length");
    reveal_strlit("content-type");
    reveal_strlit("connection");
    reveal_strlit("text/plain");
    reveal_strlit("close");
    let n = encode_utf8(text).len();
    lemma_dec_digits(n);
    let r = spec_text_response(status, text);
    assert(r.headers.len() == 3);
    lemma_digits_are_valid_value(dec_digits(n));
    assert(crate::message::valid_header(r.headers[0]));
    assert(crate::message::valid_header(r.headers[1]));
    assert(crate::message::valid_header(r.headers[2]));
    assert(n <= usize::MAX);
    assert(crate::parse::plus_trimmed(dec_digits(n)) == dec_digits(n));
    assert(crate::parse::spec_parse_usize(dec_digits(n)) is Some);
}

/// A digit string is a well-formed header value.
proof fn lemma_digits_are_valid_value(s: Seq<char>)
    requires
        s.len() > 0,
        all_digits(s),
    ensures
        crate::message::valid_header_value(s),
{
    assert forall|i: int|
        0 <= i < s.len() implies crate::message::is_value_byte(#[trigger] s[i] as u8) && s[i]
        < 128 by {
        assert(is_digit(s[i]));
    }
    assert(is_digit(s[s.len() - 1]));
}

/// A served file's Content-Length header names exactly the file's true
/// byte count - the size a HEAD answer still reports after its body is
/// dropped.
pub proof fn lemma_file_response_content_length(
    content: Seq<u8>,
    mime: Seq<char>,
    download: bool,
)
    ensures
        spec_file_response(content, mime, download).headers[0] == (
            "content-length"@,
            dec_digits(content.len()),
        ),
        dec_val(dec_digits(content.len())) == content.len(),
        spec_file_response(content, mime, download).body == Some(content),
{
    lemma_dec_digits(content.len());
}

/// Lexicographic order on text, by code point; a prefix sorts before its
/// extensions.
pub open spec fn lex_le(a: Seq<char>, b: Seq<char>) -> bool
    decreases a.len(),
{
    if a.len() == 0 {
        true
    } else if b.len() == 0 {
        false
    } else if a[0] != b[0] {
        a[0] < b[0]
    } else {
        lex_le(a.drop_first(), b.drop_first())
    }
}

pub proof fn lemma_lex_le_total(a: Seq<char>, b: Seq<char>)
    ensures
        lex_le(a, b) || lex_le(b, a),
    decreases a.len(),
{
    if a.len() > 0 && b.len() > 0 && a[0] == b[0] {
        lemma_lex_le_total(a.drop_first(), b.drop_first());
    }
}

pub proof fn lemma_lex_le_trans(a: Seq<char>, b: Seq<char>, c: Seq<char>)
    requires
        lex_le(a, b),
        lex_le(b, c),
    ensures
        lex_le(a, c),
    decreases a.len(),
{
    if a.len() > 0 {
        assert(b.len() > 0);
        assert(c.len() > 0);
        if a[0] == b[0] && b[0] == c[0] {
            lemma_lex_le_trans(a.drop_first(), b.drop_first(), c.drop_first());
        }
    }
}

/// The listing order: directories sort before files, then names
/// lexicographically.
pub open spec fn entry_le(a: crate::message::DirEntry, b: crate::message::DirEntry) -> bool {
    if a.is_directory != b.is_directory {
        a.is_directory
    } else {
        lex_le(a.name@, b.name@)
    }
}

/// The listing order as a relation, for sortedness statements.
pub open spec fn entry_order() -> spec_fn(crate::message::DirEntry, crate::message::DirEntry) -> bool {
    |a: crate::message::DirEntry, b: crate::message::DirEntry| entry_le(a, b)
}

pub proof fn lemma_entry_le_total(a: crate::message::DirEntry, b: crate::message::DirEntry)
    ensures
        entry_le(a, b) || entry_le(b, a),
{
    lemma_lex_le_total(a.name@, b.name@);
}

pub proof fn lemma_entry_le_trans(
    a: crate::message::DirEntry,
    b: crate::message::DirEntry,
    c: crate::message::DirEntry,
)
    requires
        entry_le(a, b),
        entry_le(b, c),
    ensures
        entry_le(a, c),
{
    if a.is_directory == b.is_directory && b.is_directory == c.is_directory {
        lemma_lex_le_trans(a.name@, b.name@, c.name@);
    }
}

/// Compares two names lexicographically.
fn str_lex_le(a: &str, b: &str) -> (r: bool)
    ensures
        r == lex_le(a@, b@),
{
    let an = vstd::string::StrSliceExecFns::unicode_len(a);
    let bn = vstd::string::StrSliceExecFns::unicode_len(b);
    let mut i: usize = 0;
    proof {
        assert(a@.skip(0) =~= a@);
        assert(b@.skip(0) =~= b@);
    }
    loop
        invariant
            an == a@.len(),
            bn == b@.len(),
            0 <= i <= an,
            0 <= i <= bn,
            forall|j: int| 0 <= j < i ==> a@[j] == b@[j],
            lex_le(a@, b@) == lex_le(a@.skip(i as int), b@.skip(i as int)),
        decreases an - i,
    {
        if i == an {
            assert(a@.skip(i as int).len() == 0);
            return true;
        }
        if i == bn {
            assert(b@.skip(i as int).len() == 0 && a@.skip(i as int).len() > 0);
            return false;
        }
        let ca = vstd::string::StrSliceExecFns::get_char(a, i);
        let cb = vstd::string::StrSliceExecFns::get_char(b, i);
        proof {
            assert(a@.skip(i as int)[0] == a@[i as int]);
            assert(b@.skip(i as int)[0] == b@[i as int]);
        }
        if ca != cb {
            return ca < cb;
        }
        proof {
            assert(a@.skip(i as int).drop_first() =~= a@.skip(i + 1));
            assert(b@.skip(i as int).drop_first() =~= b@.skip(i + 1));
        }
        i += 1;
    }
}

/// Compares two entries in listing order.
fn entry_le_exec(a: &crate::message::DirEntry, b: &crate::message::DirEntry) -> (r: bool)
    ensures
        r == entry_le(*a, *b),
{
    if a.is_directory != b.is_directory {
        a.is_directory
    } else {
        str_lex_le(a.name.as_str(), b.name.as_str())
    }
}

/// Sorts directory entries for the listing: directories first, then
/// lexicographic by name; the result holds exactly the given entries.
pub fn sort_entries(v: Vec<crate::message::DirEntry>) -> (r: Vec<crate::message::DirEntry>)
    ensures
        r@.to_multiset() == v@.to_multiset(),
        vstd::relations::sorted_by(r@, entry_order()),
{
    broadcast use vstd::seq_lib::group_to_multiset_ensures;

    let mut rest = v;
    let mut out: Vec<crate::message::DirEntry> = Vec::new();
    proof {
        assert(out@.to_multiset().add(rest@.to_multiset()) =~= v@.to_multiset());
    }
    while rest.len() > 0
        invariant
            out@.to_multiset().add(rest@.to_multiset()) == v@.to_multiset(),
            vstd::relations::sorted_by(out@, entry_order()),
            forall|i: int, j: int|
                0 <= i < out@.len() && 0 <= j < rest@.len() ==> entry_le(
                    #[trigger] out@[i],
                    #[trigger] rest@[j],
                ),
        decreases rest@.len(),
    {
        // Find a least remaining entry.
        let n = rest.len();
        let mut m: usize = 0;
        let mut k: usize = 1;
        proof {
            lemma_entry_le_total(rest@[0], rest@[0]);
        }
        while k < n
            invariant
                n == rest@.len(),
                0 <= m < n,
                1 <= k <= n,
                forall|j: int| 0 <= j < k ==> entry_le(rest@[m as int], #[trigger] rest@[j]),
            decreases n - k,
        {
            if entry_le_exec(&rest[k], &rest[m]) {
                proof {
                    assert forall|j: int| 0 <= j < k + 1 implies entry_le(
                        rest@[k as int],
                        #[trigger] rest@[j],
                    ) by {
                        if j < k {
                            lemma_entry_le_trans(rest@[k as int], rest@[m as int], rest@[j]);
                        } else {
                            lemma_entry_le_total(rest@[k as int], rest@[k as int]);
                        }
                    }
                }
                m = k;
            } else {
                proof {
                    lemma_entry_le_total(rest@[m as int], rest@[k as int]);
                }
            }
            k += 1;
        }
        let ghost old_out = out@;
        let ghost old_rest = rest@;
        let x = rest.remove(m);
        out.push(x);
        proof {
            old_rest.to_multiset_ensures();
            old_out.to_multiset_ensures();
            assert(x == old_rest[m as int]);
            assert(old_rest.contains(x));
            assert(rest@ =~= old_rest.remove(m as int));
            assert(old_rest.remove(m as int).to_multiset() =~= old_rest.to_multiset().remove(
                old_rest[m as int],
            ));
            assert(rest@.to_multiset() =~= old_rest.to_multiset().remove(x));
            assert(out@.to_multiset() =~= old_out.to_multiset().insert(x));
            assert(out@.to_multiset().add(rest@.to_multiset()) =~= old_out.to_multiset().add(
                old_rest.to_multiset(),
            ));
            // The appended entry stays in order before everything left.
            assert forall|i: int, j: int|
                0 <= i < out@.len() && 0 <= j < rest@.len() implies entry_le(
                #[trigger] out@[i],
                #[trigger] rest@[j],
            ) by {
                let y = rest@[j];
                if j < m {
                    assert(y == old_rest[j]);
                } else {
                    assert(y == old_rest[j + 1]);
                }
                assert(old_rest.contains(y));
                if i < old_out.len() {
                    assert(out@[i] == old_out[i]);
                } else {
                    assert(out@[i] == x);
                }
            }
            assert forall|i: int, j: int|
                0 <= i < j < out@.len() implies (entry_order())(
                #[trigger] out@[i],
                #[trigger] out@[j],
            ) by {
                if j < old_out.len() {
                    assert(out@[i] == old_out[i] && out@[j] == old_out[j]);
                } else {
                    assert(out@[j] == x);
                    assert(old_rest.contains(x));
                    assert(out@[i] == old_out[i]);
                }
            }
        }
    }
    proof {
        assert(rest@.to_multiset() =~= Multiset::<crate::message::DirEntry>::empty());
        assert(out@.to_multiset().add(rest@.to_multiset()) =~= out@.to_multiset());
    }
    out
}

/// One line of the plaintext listing: the entry's name, a trailing slash
/// for directories, and `dir` or the MIME guess in brackets.
pub open spec fn spec_entry_line(e: crate::message::DirEntry) -> Seq<char> {
    e.name@ + (if e.is_directory {
        "/"@
    } else {
        Seq::<char>::empty()
    }) + " ["@ + (if e.is_directory {
        "dir"@
    } else {
        e.mime@
    }) + "]"@
}

/// The listing text: the entries' lines joined with line feeds.
pub open spec fn spec_listing(es: Seq<crate::message::DirEntry>) -> Seq<char>
    decreases es.len(),
{
    if es.len() == 0 {
        Seq::empty()
    } else if es.len() == 1 {
        spec_entry_line(es.first())
    } else {
        spec_entry_line(es.first()) + "\n"@ + spec_listing(es.drop_first())
    }
}

/// One more entry extends the listing by a separator and its line.
pub proof fn lemma_listing_push(es: Seq<crate::message::DirEntry>, e: crate::message::DirEntry)
    ensures
        es.len() == 0 ==> spec_listing(es.push(e)) == spec_entry_line(e),
        es.len() > 0 ==> spec_listing(es.push(e)) =~= spec_listing(es) + "\n"@ + spec_entry_line(
            e,
        ),
    decreases es.len(),
{
    if es.len() == 0 {
        assert(es.push(e).len() == 1);
        assert(es.push(e).first() == e);
    } else if es.len() == 1 {
        assert(es.push(e).first() == es.first());
        assert(es.push(e).drop_first() =~~= seq![e]);
        assert(spec_listing(seq![e]) == spec_entry_line(e));
    } else {
        lemma_listing_push(es.drop_first(), e);
        assert(es.push(e).first() == es.first());
        assert(es.push(e).drop_first() =~~= es.drop_first().push(e));
    }
}

/// Renders one entry's listing line.
fn entry_line(e: &crate::message::DirEntry) -> (r: String)
    ensures
        r@ == spec_entry_line(*e),
{
    let mut m = e.name.clone();
    if e.is_directory {
        m.append("/");
    }
    m.append(" [");
    if e.is_directory {
        m.append("dir");
    } else {
        m.append(e.mime.as_str());
    }
    m.append("]");
    proof {
        if e.is_directory {
            assert(m@ =~= spec_entry_line(*e));
        } else {
            assert(m@ =~= spec_entry_line(*e));
        }
    }
    m
}

/// The 200 answer for a directory: its sorted entries rendered as a
/// plaintext listing.
pub open spec fn spec_listing_response(es: Seq<crate::message::DirEntry>) -> ResponseView {
    spec_text_response(Status::Okay, spec_listing(es))
}

/// Builds the 200 listing answer for already-sorted entries.
pub fn listing_response(entries: &Vec<crate::message::DirEntry>) -> (r: Response)
    ensures
        r@ == spec_listing_response(entries@),
{
    let n = entries.len();
    let mut text = String::new();
    let mut i: usize = 0;
    while i < n
        invariant
            n == entries@.len(),
            0 <= i <= n,
            text@ =~= spec_listing(entries@.take(i as int)),
        decreases n - i,
    {
        proof {
            lemma_listing_push(entries@.take(i as int), entries@[i as int]);
            assert(entries@.take(i + 1) =~~= entries@.take(i as int).push(entries@[i as int]));
        }
        if i > 0 {
            text.append("\n");
        }
        let line = entry_line(&entries[i]);
        text.append(line.as_str());
        i += 1;
    }
    assert(entries@.take(n as int) =~~= entries@);
    text_response(Status::Okay, text)
}

/// Builds the GET answer for a directory: a read failure is a 404 naming
/// the resolved path; otherwise the entries are sorted - directories
/// first, then by name - and rendered as a plaintext listing.
pub fn serve_directory(entries: Option<Vec<crate::message::DirEntry>>, shown_path: &str) -> (r:
    Response)
    ensures
        match entries {
            None => r@ == spec_not_found(shown_path@),
            Some(es) => exists|sorted: Seq<crate::message::DirEntry>|
                sorted.to_multiset() == es@.to_multiset() && vstd::relations::sorted_by(
                    sorted,
                    entry_order(),
                ) && r@ == #[trigger] spec_listing_response(sorted),
        },
{
    match entries {
        None => not_found_response(shown_path),
        Some(es) => {
            let sorted = sort_entries(es);
            let r = listing_response(&sorted);
            proof {
                assert(vstd::relations::sorted_by(sorted@, entry_order()) && r@
                    == spec_listing_response(sorted@));
            }
            r
        },
    }
}

} // verus!
