//! Conversions between wire bytes and text. The protocol layer works on
//! bytes; request targets, header names and header values become `String`s
//! once their bytes are known to be ASCII.

use vstd::prelude::*;

verus! {

/// The characters of an ASCII byte sequence, one character per byte.
pub open spec fn bytes_to_chars(s: Seq<u8>) -> Seq<char> {
    s.map_values(|b: u8| b as char)
}

/// The bytes of an ASCII character sequence, one byte per character.
pub open spec fn chars_to_bytes(s: Seq<char>) -> Seq<u8> {
    s.map_values(|c: char| c as u8)
}

/// An ASCII string's UTF-8 encoding is one byte per character.
pub proof fn lemma_ascii_encode(s: Seq<char>)
    requires
        vstd::utf8::is_ascii_chars(s),
    ensures
        vstd::utf8::encode_utf8(s) =~= chars_to_bytes(s),
{
    vstd::utf8::is_ascii_chars_encode_utf8(s);
    let enc = vstd::utf8::encode_utf8(s);
    assert(enc =~= Seq::new(s.len(), |i| s[i] as u8));
}

/// Relies on `String::from_utf8`: a buffer of ASCII bytes is valid UTF-8 and
/// decodes to the string of exactly those characters.
#[verifier::external_body]
pub fn ascii_bytes_to_string(v: &[u8]) -> (r: String)
    requires
        forall|i: int| 0 <= i < v@.len() ==> v@[i] < 128,
    ensures
        r@ == bytes_to_chars(v@),
{
    String::from_utf8(v.to_vec()).unwrap_or_default()
}

/// The bytes of a string, via its UTF-8 encoding.
pub fn string_bytes(s: &str) -> (r: Vec<u8>)
    ensures
        r@ == vstd::utf8::encode_utf8(s@),
{
    vstd::string::StrSliceExecFns::as_bytes_vec(s)
}

/// The characters of a string, one per element.
pub fn str_chars(s: &str) -> (r: Vec<char>)
    ensures
        r@ == s@,
{
    let n = vstd::string::StrSliceExecFns::unicode_len(s);
    let mut out: Vec<char> = Vec::new();
    let mut i: usize = 0;
    while i < n
        invariant
            0 <= i <= n,
            n == s@.len(),
            out@ =~= s@.take(i as int),
        decreases n - i,
    {
        out.push(vstd::string::StrSliceExecFns::get_char(s, i));
        i += 1;
    }
    assert(s@.take(n as int) =~= s@);
    out
}

/// Copies the characters of a half-open index range.
pub fn chars_range(v: &Vec<char>, a: usize, b: usize) -> (r: Vec<char>)
    requires
        a <= b <= v@.len(),
    ensures
        r@ == v@.subrange(a as int, b as int),
{
    let mut out: Vec<char> = Vec::new();
    let mut i: usize = a;
    while i < b
        invariant
            a <= i <= b <= v@.len(),
            out@ =~= v@.subrange(a as int, i as int),
        decreases b - i,
    {
        out.push(v[i]);
        assert(out@ =~= v@.subrange(a as int, i + 1));
        i += 1;
    }
    out
}

/// Copies the bytes of a half-open index range.
pub fn bytes_range(v: &[u8], a: usize, b: usize) -> (r: Vec<u8>)
    requires
        a <= b <= v@.len(),
    ensures
        r@ == v@.subrange(a as int, b as int),
{
    let mut out: Vec<u8> = Vec::new();
    let mut i: usize = a;
    while i < b
        invariant
            a <= i <= b <= v@.len(),
            out@ =~= v@.subrange(a as int, i as int),
        decreases b - i,
    {
        out.push(v[i]);
        assert(out@ =~= v@.subrange(a as int, i + 1));
        i += 1;
    }
    out
}

/// Relies on `String`'s `FromIterator` over `char`: collecting characters
/// yields the string of exactly those characters.
#[verifier::external_body]
pub fn chars_to_string(v: &Vec<char>) -> (r: String)
    ensures
        r@ == v@,
{
    v.iter().collect()
}

/// Whether two strings hold the same characters.
pub fn str_eq(a: &str, b: &str) -> (r: bool)
    ensures
        r == (a@ == b@),
{
    let n = vstd::string::StrSliceExecFns::unicode_len(a);
    let m = vstd::string::StrSliceExecFns::unicode_len(b);
    if n != m {
        assert(a@.len() != b@.len());
        return false;
    }
    let mut i: usize = 0;
    while i < n
        invariant
            0 <= i <= n,
            n == a@.len(),
            n == b@.len(),
            forall|j: int| 0 <= j < i ==> a@[j] == b@[j],
        decreases n - i,
    {
        if vstd::string::StrSliceExecFns::get_char(a, i) != vstd::string::StrSliceExecFns::get_char(
            b,
            i,
        ) {
            return false;
        }
        i += 1;
    }
    assert(a@ =~= b@);
    true
}

/// A byte shown as itself if printable, as `?` otherwise; used only to carry
/// an unparsable token into a diagnostic message.
pub open spec fn lossy_byte(b: u8) -> u8 {
    if 32 <= b <= 126 {
        b
    } else {
        63
    }
}

/// The printable rendering of arbitrary bytes for diagnostics.
pub open spec fn spec_lossy(s: Seq<u8>) -> Seq<char> {
    bytes_to_chars(s.map_values(|b: u8| lossy_byte(b)))
}

/// Renders arbitrary bytes as printable text for a diagnostic message.
pub fn lossy_string(v: &[u8]) -> (r: String)
    ensures
        r@ == spec_lossy(v@),
{
    let mut out: Vec<u8> = Vec::new();
    let mut i: usize = 0;
    while i < v.len()
        invariant
            0 <= i <= v@.len(),
            out@ =~= v@.take(i as int).map_values(|b: u8| lossy_byte(b)),
        decreases v@.len() - i,
    {
        let b = v[i];
        if 32 <= b && b <= 126 {
            out.push(b);
        } else {
            out.push(63);
        }
        assert(v@.take(i + 1).drop_last() =~= v@.take(i as int));
        assert(out@ =~= v@.take(i + 1).map_values(|b: u8| lossy_byte(b)));
        i += 1;
    }
    assert(v@.take(v@.len() as int) =~= v@);
    let r = ascii_bytes_to_string(out.as_slice());
    r
}

} // verus!
