//! A minimal HTTP/1.1 file server core: a byte-level request parser with
//! chunked-transfer decoding, an error taxonomy mapped to status codes, a
//! path canonicalizer that keeps every request inside the served root, the
//! GET/HEAD/POST handlers, a response serializer, and the per-connection
//! request lifecycle. All wire-protocol logic is verified; socket and
//! filesystem I/O live outside the library and hand plain values in and out.

pub mod connection;
pub mod error;
pub mod handlers;
pub mod message;
pub mod parse;
pub mod path;
pub mod query;
pub mod serialize;
pub mod text;
