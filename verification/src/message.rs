//! The wire-level data model: methods, versions, status codes, the ordered
//! header multimap, requests, responses, and the plain values exchanged with
//! the filesystem collaborator.

use vstd::prelude::*;

verus! {

/// A request method. The parser accepts all five; dispatch implements
/// GET, HEAD and POST and answers 501 for the rest.
#[derive(Clone, Copy, Debug, PartialEq, Eq, Structural)]
pub enum Method {
    Get,
    Head,
    Post,
    Put,
    Delete,
}

impl Method {
    /// The method's token on the wire.
    pub open spec fn spec_token(self) -> Seq<char> {
        match self {
            Method::Get => "GET"@,
            Method::Head => "HEAD"@,
            Method::Post => "POST"@,
            Method::Put => "PUT"@,
            Method::Delete => "DELETE"@,
        }
    }

    /// The method's token on the wire.
    pub fn token(&self) -> (r: &'static str)
        ensures
            r@ == self.spec_token(),
    {
        match self {
            Method::Get => "GET",
            Method::Head => "HEAD",
            Method::Post => "POST",
            Method::Put => "PUT",
            Method::Delete => "DELETE",
        }
    }
}

/// An HTTP version the parser accepts.
#[derive(Clone, Copy, Debug, PartialEq, Eq, Structural)]
pub enum Version {
    Http10,
    Http11,
}

impl Version {
    /// The version's label on the wire.
    pub open spec fn spec_label(self) -> Seq<char> {
        match self {
            Version::Http10 => "HTTP/1.0"@,
            Version::Http11 => "HTTP/1.1"@,
        }
    }

    /// The version's label on the wire.
    pub fn label(&self) -> (r: &'static str)
        ensures
            r@ == self.spec_label(),
    {
        match self {
            Version::Http10 => "HTTP/1.0",
            Version::Http11 => "HTTP/1.1",
        }
    }
}

/// A status code the server can answer with.
#[derive(Clone, Copy, Debug, PartialEq, Eq, Structural)]
pub enum Status {
    Okay,
    Created,
    BadRequest,
    NotFound,
    LengthRequired,
    PayloadTooLarge,
    InternalServerError,
    NotImplemented,
    VersionNotSupported,
}

impl Status {
    /// The numeric code.
    pub open spec fn spec_code(self) -> u16 {
        match self {
            Status::Okay => 200,
            Status::Created => 201,
            Status::BadRequest => 400,
            Status::NotFound => 404,
            Status::LengthRequired => 411,
            Status::PayloadTooLarge => 413,
            Status::InternalServerError => 500,
            Status::NotImplemented => 501,
            Status::VersionNotSupported => 505,
        }
    }

    /// The numeric code.
    pub fn code(&self) -> (r: u16)
        ensures
            r == self.spec_code(),
    {
        match self {
            Status::Okay => 200,
            Status::Created => 201,
            Status::BadRequest => 400,
            Status::NotFound => 404,
            Status::LengthRequired => 411,
            Status::PayloadTooLarge => 413,
            Status::InternalServerError => 500,
            Status::NotImplemented => 501,
            Status::VersionNotSupported => 505,
        }
    }

    /// The status line fragment: code and canonical reason phrase.
    pub open spec fn spec_text(self) -> Seq<char> {
        match self {
            Status::Okay => "200 OK"@,
            Status::Created => "201 Created"@,
            Status::BadRequest => "400 Bad Request"@,
            Status::NotFound => "404 Not Found"@,
            Status::LengthRequired => "411 Length Required"@,
            Status::PayloadTooLarge => "413 Payload Too Large"@,
            Status::InternalServerError => "500 Internal Server Error"@,
            Status::NotImplemented => "501 Not Implemented"@,
            Status::VersionNotSupported => "505 HTTP Version Not Supported"@,
        }
    }

    /// The status line fragment: code and canonical reason phrase.
    pub fn text(&self) -> (r: &'static str)
        ensures
            r@ == self.spec_text(),
    {
        match self {
            Status::Okay => "200 OK",
            Status::Created => "201 Created",
            Status::BadRequest => "400 Bad Request",
            Status::NotFound => "404 Not Found",
            Status::LengthRequired => "411 Length Required",
            Status::PayloadTooLarge => "413 Payload Too Large",
            Status::InternalServerError => "500 Internal Server Error",
            Status::NotImplemented => "501 Not Implemented",
            Status::VersionNotSupported => "505 HTTP Version Not Supported",
        }
    }
}

/// One header: a name normalized to lower case, and its value. Duplicates are
/// kept as separate entries, in arrival order.
#[derive(Debug, Clone)]
pub struct Header {
    pub name: String,
    pub value: String,
}

impl View for Header {
    type V = (Seq<char>, Seq<char>);

    open spec fn view(&self) -> (Seq<char>, Seq<char>) {
        (self.name@, self.value@)
    }
}

/// The ordered header multimap as a sequence of name/value pairs.
pub open spec fn headers_view(hs: Seq<Header>) -> Seq<(Seq<char>, Seq<char>)> {
    hs.map_values(|h: Header| h@)
}

/// A header name byte the wire grammar accepts: a lower-case letter, a
/// digit, or one of the token symbols. Upper-case letters are accepted on
/// the wire but normalized before a name is stored.
pub open spec fn is_name_byte(b: u8) -> bool {
    ||| 97 <= b <= 122  // a-z
    ||| 48 <= b <= 57  // 0-9
    ||| b == 33 || b == 35 || b == 36 || b == 37 || b == 38 || b == 39  // ! # $ % & '
    ||| b == 42 || b == 43 || b == 45 || b == 46  // * + - .
    ||| b == 94 || b == 95 || b == 96 || b == 124 || b == 126  // ^ _ ` | ~
}

/// A header value byte the wire grammar accepts: printable ASCII or tab.
pub open spec fn is_value_byte(b: u8) -> bool {
    b == 9 || (32 <= b <= 126)
}

/// A well-formed stored header name: nonempty, every character a valid
/// name byte (so lower-case, with no colon and no whitespace).
pub open spec fn valid_header_name(s: Seq<char>) -> bool {
    &&& s.len() > 0
    &&& forall|i: int| 0 <= i < s.len() ==> is_name_byte(#[trigger] s[i] as u8) && s[i] < 128
}

/// A well-formed stored header value: every character printable ASCII or
/// tab, and no trailing blank, so that serializing and re-parsing the header
/// line returns the value unchanged.
pub open spec fn valid_header_value(s: Seq<char>) -> bool {
    &&& forall|i: int| 0 <= i < s.len() ==> is_value_byte(#[trigger] s[i] as u8) && s[i] < 128
    &&& s.len() > 0 ==> !(s[s.len() - 1] == ' ' || s[s.len() - 1] == '\t')
}

/// A header whose serialized line parses back to the same name and value.
pub open spec fn valid_header(h: (Seq<char>, Seq<char>)) -> bool {
    &&& valid_header_name(h.0)
    &&& valid_header_value(h.1)
    &&& h.1.len() > 0
}

/// A parsed request.
#[derive(Debug)]
pub struct Request {
    pub method: Method,
    /// The raw request-target: may hold percent-encoding and a query part.
    pub target: String,
    pub version: Version,
    pub headers: Vec<Header>,
    /// Present only when the request was framed by a positive Content-Length
    /// or by chunked transfer encoding.
    pub body: Option<Vec<u8>>,
}

/// A response about to be serialized. The version is echoed as a plain
/// label and never negotiated.
#[derive(Debug)]
pub struct Response {
    pub version: Version,
    pub status: Status,
    pub headers: Vec<Header>,
    pub body: Option<Vec<u8>>,
}

impl Response {
    /// Well-formedness: every header serializes and re-parses to itself.
    pub open spec fn wf(self) -> bool {
        forall|i: int| 0 <= i < self.headers@.len() ==> valid_header(
            #[trigger] self.headers@[i]@,
        )
    }
}

/// The mathematical model of a request.
pub struct RequestView {
    pub method: Method,
    pub target: Seq<char>,
    pub version: Version,
    pub headers: Seq<(Seq<char>, Seq<char>)>,
    pub body: Option<Seq<u8>>,
}

impl View for Request {
    type V = RequestView;

    open spec fn view(&self) -> RequestView {
        RequestView {
            method: self.method,
            target: self.target@,
            version: self.version,
            headers: headers_view(self.headers@),
            body: match self.body {
                Some(b) => Some(b@),
                None => None,
            },
        }
    }
}

/// The mathematical model of a response.
pub struct ResponseView {
    pub version: Version,
    pub status: Status,
    pub headers: Seq<(Seq<char>, Seq<char>)>,
    pub body: Option<Seq<u8>>,
}

impl View for Response {
    type V = ResponseView;

    open spec fn view(&self) -> ResponseView {
        ResponseView {
            version: self.version,
            status: self.status,
            headers: headers_view(self.headers@),
            body: match self.body {
                Some(b) => Some(b@),
                None => None,
            },
        }
    }
}

/// One entry of a directory listing, as the filesystem collaborator hands
/// it in: a name, a directory flag, and the collaborator's MIME guess.
#[derive(Debug, Clone)]
pub struct DirEntry {
    pub name: String,
    pub is_directory: bool,
    pub mime: String,
}

/// A file read by the filesystem collaborator: its bytes and the
/// collaborator's MIME guess for its name.
#[derive(Debug, Clone)]
pub struct ServerFile {
    pub content: Vec<u8>,
    pub mime: String,
}

} // verus!
