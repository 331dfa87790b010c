//! The error taxonomy: every way a request can fail to parse, and the HTTP
//! status code each failure maps to.

use vstd::prelude::*;

verus! {

/// A parse-time failure. Every lower-level problem (a malformed header, a
/// non-numeric Content-Length, bytes that are not text where text is
/// expected) is normalized into `MalformedRequest` with a human-readable
/// detail string; no other error type crosses this boundary.
#[derive(Debug, Clone)]
pub enum HttpParseError {
    MalformedRequest(String),
    UnsupportedMethod(String),
    UnsupportedVersion(String),
    BodyNotAllowed,
    EndOfStream,
    LengthRequired,
    /// Reserved: a 413 mapping that no current code path raises, kept so the
    /// taxonomy covers a future maximum-body-size check.
    PayloadTooLarge,
}

/// The mathematical model of a parse failure: the same variants, with the
/// detail string seen as its characters.
pub enum SpecError {
    MalformedRequest(Seq<char>),
    UnsupportedMethod(Seq<char>),
    UnsupportedVersion(Seq<char>),
    BodyNotAllowed,
    EndOfStream,
    LengthRequired,
    PayloadTooLarge,
}

impl View for HttpParseError {
    type V = SpecError;

    open spec fn view(&self) -> SpecError {
        match self {
            HttpParseError::MalformedRequest(s) => SpecError::MalformedRequest(s@),
            HttpParseError::UnsupportedMethod(s) => SpecError::UnsupportedMethod(s@),
            HttpParseError::UnsupportedVersion(s) => SpecError::UnsupportedVersion(s@),
            HttpParseError::BodyNotAllowed => SpecError::BodyNotAllowed,
            HttpParseError::EndOfStream => SpecError::EndOfStream,
            HttpParseError::LengthRequired => SpecError::LengthRequired,
            HttpParseError::PayloadTooLarge => SpecError::PayloadTooLarge,
        }
    }
}

/// The HTTP status code that `status_of_error` assigns to each failure.
pub open spec fn spec_status_of_error(e: SpecError) -> u16 {
    match e {
        SpecError::MalformedRequest(_) => 400,
        SpecError::UnsupportedMethod(_) => 501,
        SpecError::UnsupportedVersion(_) => 505,
        SpecError::BodyNotAllowed => 400,
        SpecError::EndOfStream => 400,
        SpecError::LengthRequired => 411,
        SpecError::PayloadTooLarge => 413,
    }
}

/// Maps a parse failure to its HTTP status code.
pub fn status_of_error(e: &HttpParseError) -> (code: u16)
    ensures
        code == spec_status_of_error(e@),
{
    match e {
        HttpParseError::MalformedRequest(_) => 400,
        HttpParseError::UnsupportedMethod(_) => 501,
        HttpParseError::UnsupportedVersion(_) => 505,
        HttpParseError::BodyNotAllowed => 400,
        HttpParseError::EndOfStream => 400,
        HttpParseError::LengthRequired => 411,
        HttpParseError::PayloadTooLarge => 413,
    }
}

/// The human-readable description of each failure, as it appears in the
/// diagnostic body of an error response.
pub open spec fn spec_error_message(e: SpecError) -> Seq<char> {
    match e {
        SpecError::MalformedRequest(s) => "Request was malformed and could not be parsed: '"@ + s
            + "'"@,
        SpecError::UnsupportedMethod(s) => "Method not supported: '"@ + s + "'"@,
        SpecError::UnsupportedVersion(s) => "Version not supported: '"@ + s + "'"@,
        SpecError::BodyNotAllowed => "Body not supported for this method"@,
        SpecError::EndOfStream => "End of stream"@,
        SpecError::LengthRequired => "Content-Length header required"@,
        SpecError::PayloadTooLarge => "Payload too large"@,
    }
}

/// Renders a parse failure as its human-readable description.
pub fn error_message(e: &HttpParseError) -> (msg: String)
    ensures
        msg@ == spec_error_message(e@),
{
    match e {
        HttpParseError::MalformedRequest(s) => {
            let mut m = String::from_str("Request was malformed and could not be parsed: '");
            m.append(s.as_str());
            m.append("'");
            m
        },
        HttpParseError::UnsupportedMethod(s) => {
            let mut m = String::from_str("Method not supported: '");
            m.append(s.as_str());
            m.append("'");
            m
        },
        HttpParseError::UnsupportedVersion(s) => {
            let mut m = String::from_str("Version not supported: '");
            m.append(s.as_str());
            m.append("'");
            m
        },
        HttpParseError::BodyNotAllowed => String::from_str("Body not supported for this method"),
        HttpParseError::EndOfStream => String::from_str("End of stream"),
        HttpParseError::LengthRequired => String::from_str("Content-Length header required"),
        HttpParseError::PayloadTooLarge => String::from_str("Payload too large"),
    }
}

} // verus!
