//! The request parser: reads one HTTP/1.1 request from a byte buffer that
//! holds everything the connection delivered, producing a structured
//! request or a parse failure. Framing follows Content-Length or chunked
//! transfer encoding; the end of the buffer stands for the end of the
//! stream.

use vstd::prelude::*;
use crate::text::{ascii_bytes_to_string, bytes_range, lossy_string, spec_lossy, bytes_to_chars};
use crate::error::{HttpParseError, SpecError};
use crate::message::{Method, Version, Header, Request, RequestView, headers_view};

verus! {

/// An ASCII whitespace byte, as `trim_end` and whitespace splitting see it.
pub open spec fn is_ws(b: u8) -> bool {
    b == 32 || 9 <= b <= 13
}

/// The number of bytes before the first occurrence of `stop` (the whole
/// length when `stop` does not occur).
pub open spec fn bytes_until(s: Seq<u8>, stop: u8) -> int
    decreases s.len(),
{
    if s.len() == 0 {
        0
    } else if s[0] == stop {
        0
    } else {
        1 + bytes_until(s.drop_first(), stop)
    }
}

pub proof fn lemma_bytes_until(s: Seq<u8>, stop: u8)
    ensures
        0 <= bytes_until(s, stop) <= s.len(),
        forall|j: int| 0 <= j < bytes_until(s, stop) ==> s[j] != stop,
        bytes_until(s, stop) < s.len() ==> s[bytes_until(s, stop)] == stop,
    decreases s.len(),
{
    if s.len() > 0 && s[0] != stop {
        lemma_bytes_until(s.drop_first(), stop);
        assert forall|j: int| 0 <= j < bytes_until(s, stop) implies s[j] != stop by {
            if j > 0 {
                assert(s.drop_first()[j - 1] == s[j]);
            }
        }
    }
}

pub proof fn lemma_bytes_until_is(s: Seq<u8>, stop: u8, k: int)
    requires
        0 <= k <= s.len(),
        forall|j: int| 0 <= j < k ==> s[j] != stop,
        k < s.len() ==> s[k] == stop,
    ensures
        bytes_until(s, stop) == k,
    decreases s.len(),
{
    if s.len() == 0 {
    } else if s[0] == stop {
        assert(k == 0);
    } else {
        assert(k != 0);
        lemma_bytes_until_is(s.drop_first(), stop, k - 1);
    }
}

/// The number of leading whitespace bytes.
pub open spec fn ws_len(s: Seq<u8>) -> int
    decreases s.len(),
{
    if s.len() > 0 && is_ws(s[0]) {
        1 + ws_len(s.drop_first())
    } else {
        0
    }
}

pub proof fn lemma_ws_len_is(s: Seq<u8>, k: int)
    requires
        0 <= k <= s.len(),
        forall|j: int| 0 <= j < k ==> is_ws(#[trigger] s[j]),
        k < s.len() ==> !is_ws(s[k]),
    ensures
        ws_len(s) == k,
    decreases s.len(),
{
    if s.len() > 0 && is_ws(s[0]) {
        assert(k != 0);
        lemma_ws_len_is(s.drop_first(), k - 1);
    } else {
        assert(k == 0);
    }
}

/// The number of leading bytes that are not whitespace.
pub open spec fn nonws_len(s: Seq<u8>) -> int
    decreases s.len(),
{
    if s.len() > 0 && !is_ws(s[0]) {
        1 + nonws_len(s.drop_first())
    } else {
        0
    }
}

pub proof fn lemma_nonws_len_is(s: Seq<u8>, k: int)
    requires
        0 <= k <= s.len(),
        forall|j: int| 0 <= j < k ==> !is_ws(#[trigger] s[j]),
        k < s.len() ==> is_ws(s[k]),
    ensures
        nonws_len(s) == k,
    decreases s.len(),
{
    if s.len() > 0 && !is_ws(s[0]) {
        assert(k != 0);
        lemma_nonws_len_is(s.drop_first(), k - 1);
    } else {
        assert(k == 0);
    }
}

/// The string with its trailing whitespace removed.
pub open spec fn trim_end_bytes(s: Seq<u8>) -> Seq<u8>
    decreases s.len(),
{
    if s.len() > 0 && is_ws(s.last()) {
        trim_end_bytes(s.drop_last())
    } else {
        s
    }
}

pub proof fn lemma_trim_end_is(s: Seq<u8>, k: int)
    requires
        0 <= k <= s.len(),
        forall|j: int| k <= j < s.len() ==> is_ws(#[trigger] s[j]),
        k > 0 ==> !is_ws(s[k - 1]),
    ensures
        trim_end_bytes(s) == s.take(k),
    decreases s.len(),
{
    if s.len() > 0 && is_ws(s.last()) {
        assert(k < s.len());
        lemma_trim_end_is(s.drop_last(), k);
        assert(s.drop_last().take(k) =~= s.take(k));
    } else {
        assert(k == s.len());
        assert(s.take(k) =~= s);
    }
}

/// The first whitespace-separated token, after leading whitespace.
pub open spec fn first_token(s: Seq<u8>) -> Seq<u8> {
    s.skip(ws_len(s)).take(nonws_len(s.skip(ws_len(s))))
}

/// What remains after the first token.
pub open spec fn after_token(s: Seq<u8>) -> Seq<u8> {
    s.skip(ws_len(s)).skip(nonws_len(s.skip(ws_len(s))))
}

/// Splits off the first whitespace-separated token; the token is empty
/// exactly when the string holds only whitespace.
fn split_first_token(s: &Vec<u8>) -> (r: (Vec<u8>, Vec<u8>))
    ensures
        r.0@ == first_token(s@),
        r.1@ == after_token(s@),
{
    let n = s.len();
    let mut a: usize = 0;
    while a < n && is_ws_exec(s[a])
        invariant
            n == s@.len(),
            0 <= a <= n,
            forall|j: int| 0 <= j < a ==> is_ws(#[trigger] s@[j]),
        decreases n - a,
    {
        a += 1;
    }
    proof {
        lemma_ws_len_is(s@, a as int);
    }
    let mut b: usize = a;
    while b < n && !is_ws_exec(s[b])
        invariant
            n == s@.len(),
            0 <= a <= b <= n,
            forall|j: int| a <= j < b ==> !is_ws(#[trigger] s@[j]),
        decreases n - b,
    {
        b += 1;
    }
    proof {
        let tail = s@.skip(a as int);
        lemma_nonws_len_is(tail, b - a);
        assert(tail.take(b - a) =~= s@.subrange(a as int, b as int));
        assert(tail.skip(b - a) =~= s@.subrange(b as int, n as int));
    }
    (bytes_range(s.as_slice(), a, b), bytes_range(s.as_slice(), b, n))
}

/// Whether a byte is ASCII whitespace.
fn is_ws_exec(b: u8) -> (r: bool)
    ensures
        r == is_ws(b),
{
    b == 32 || (9 <= b && b <= 13)
}

/// One line of the buffer starting at `pos`: up to and including the first
/// line feed, or everything left when no line feed follows.
pub open spec fn spec_line(input: Seq<u8>, pos: int) -> Seq<u8> {
    let k = bytes_until(input.skip(pos), 10);
    if pos + k < input.len() {
        input.subrange(pos, pos + k + 1)
    } else {
        input.subrange(pos, input.len() as int)
    }
}

/// Reads one line from the buffer, returning its bytes and the position
/// just past it.
fn read_line(input: &[u8], pos: usize) -> (r: (Vec<u8>, usize))
    requires
        pos <= input@.len(),
    ensures
        r.0@ == spec_line(input@, pos as int),
        r.1 == pos + r.0@.len(),
        r.1 <= input@.len(),
        pos < input@.len() ==> r.0@.len() >= 1,
{
    let n = input.len();
    let mut i: usize = pos;
    while i < n && input[i] != 10
        invariant
            n == input@.len(),
            pos <= i <= n,
            forall|j: int| pos <= j < i ==> input@[j] != 10,
        decreases n - i,
    {
        i += 1;
    }
    proof {
        let tail = input@.skip(pos as int);
        lemma_bytes_until_is(tail, 10, i - pos);
    }
    if i < n {
        // Include the line feed itself.
        bytes_range_pair(input, pos, i + 1)
    } else {
        bytes_range_pair(input, pos, n)
    }
}

/// A byte range together with its end position.
fn bytes_range_pair(input: &[u8], a: usize, b: usize) -> (r: (Vec<u8>, usize))
    requires
        a <= b <= input@.len(),
    ensures
        r.0@ == input@.subrange(a as int, b as int),
        r.1 == b,
{
    (bytes_range(input, a, b), b)
}

/// Removes trailing ASCII whitespace.
fn trim_end_exec(s: &Vec<u8>) -> (r: Vec<u8>)
    ensures
        r@ == trim_end_bytes(s@),
{
    let mut k = s.len();
    while k > 0 && is_ws_exec(s[k - 1])
        invariant
            0 <= k <= s@.len(),
            forall|j: int| k <= j < s@.len() ==> is_ws(#[trigger] s@[j]),
        decreases k,
    {
        k -= 1;
    }
    proof {
        lemma_trim_end_is(s@, k as int);
    }
    bytes_range(s.as_slice(), 0, k)
}

/// The wire bytes of each accepted method token.
pub open spec fn spec_method_of(tok: Seq<u8>) -> Option<Method> {
    if tok == seq![71u8, 69, 84] {  // GET
        Some(Method::Get)
    } else if tok == seq![72u8, 69, 65, 68] {  // HEAD
        Some(Method::Head)
    } else if tok == seq![80u8, 79, 83, 84] {  // POST
        Some(Method::Post)
    } else if tok == seq![80u8, 85, 84] {  // PUT
        Some(Method::Put)
    } else if tok == seq![68u8, 69, 76, 69, 84, 69] {  // DELETE
        Some(Method::Delete)
    } else {
        None
    }
}

/// Validates a method token against the five accepted methods.
fn method_of(tok: &Vec<u8>) -> (r: Option<Method>)
    ensures
        r == spec_method_of(tok@),
{
    if tok.len() == 3 && tok[0] == 71 && tok[1] == 69 && tok[2] == 84 {
        assert(tok@ =~= seq![71u8, 69, 84]);
        Some(Method::Get)
    } else if tok.len() == 4 && tok[0] == 72 && tok[1] == 69 && tok[2] == 65 && tok[3] == 68 {
        assert(tok@ =~= seq![72u8, 69, 65, 68]);
        Some(Method::Head)
    } else if tok.len() == 4 && tok[0] == 80 && tok[1] == 79 && tok[2] == 83 && tok[3] == 84 {
        assert(tok@ =~= seq![80u8, 79, 83, 84]);
        Some(Method::Post)
    } else if tok.len() == 3 && tok[0] == 80 && tok[1] == 85 && tok[2] == 84 {
        assert(tok@ =~= seq![80u8, 85, 84]);
        Some(Method::Put)
    } else if tok.len() == 6 && tok[0] == 68 && tok[1] == 69 && tok[2] == 76 && tok[3] == 69
        && tok[4] == 84 && tok[5] == 69 {
        assert(tok@ =~= seq![68u8, 69, 76, 69, 84, 69]);
        Some(Method::Delete)
    } else {
        proof {
            assert(tok@ != seq![71u8, 69, 84]);
            assert(tok@ != seq![72u8, 69, 65, 68]);
            assert(tok@ != seq![80u8, 79, 83, 84]);
            assert(tok@ != seq![80u8, 85, 84]);
            assert(tok@ != seq![68u8, 69, 76, 69, 84, 69]);
        }
        None
    }
}

/// The wire bytes of each accepted version token: `HTTP/1.0` or `HTTP/1.1`.
pub open spec fn spec_version_of(tok: Seq<u8>) -> Option<Version> {
    if tok == seq![72u8, 84, 84, 80, 47, 49, 46, 48] {
        Some(Version::Http10)
    } else if tok == seq![72u8, 84, 84, 80, 47, 49, 46, 49] {
        Some(Version::Http11)
    } else {
        None
    }
}

/// Validates a version token against the two accepted versions.
fn version_of(tok: &Vec<u8>) -> (r: Option<Version>)
    ensures
        r == spec_version_of(tok@),
{
    if tok.len() == 8 && tok[0] == 72 && tok[1] == 84 && tok[2] == 84 && tok[3] == 80 && tok[4]
        == 47 && tok[5] == 49 && tok[6] == 46 {
        if tok[7] == 48 {
            assert(tok@ =~= seq![72u8, 84, 84, 80, 47, 49, 46, 48]);
            return Some(Version::Http10);
        }
        if tok[7] == 49 {
            assert(tok@ =~= seq![72u8, 84, 84, 80, 47, 49, 46, 49]);
            return Some(Version::Http11);
        }
    }
    proof {
        assert(tok@ != seq![72u8, 84, 84, 80, 47, 49, 46, 48]);
        assert(tok@ != seq![72u8, 84, 84, 80, 47, 49, 46, 49]);
    }
    None
}

/// The index of the first `": "` separator, or -1 when there is none.
pub open spec fn sep_pos(s: Seq<u8>) -> int
    decreases s.len(),
{
    if s.len() < 2 {
        -1
    } else if s[0] == 58 && s[1] == 32 {
        0
    } else {
        let r = sep_pos(s.drop_first());
        if r < 0 {
            -1
        } else {
            1 + r
        }
    }
}

pub proof fn lemma_sep_pos_is(s: Seq<u8>, k: int)
    requires
        -1 <= k <= s.len() - 2 || k == -1,
        forall|j: int| 0 <= j < k ==> !(#[trigger] s[j] == 58 && s[j + 1] == 32),
        k == -1 ==> forall|j: int| 0 <= j < s.len() - 1 ==> !(#[trigger] s[j] == 58 && s[j + 1]
            == 32),
        k >= 0 ==> s[k] == 58 && s[k + 1] == 32,
    ensures
        sep_pos(s) == k,
    decreases s.len(),
{
    if s.len() < 2 {
        assert(k == -1);
    } else if s[0] == 58 && s[1] == 32 {
        assert(k == 0);
    } else {
        assert(k != 0);
        let t = s.drop_first();
        if k == -1 {
            lemma_sep_pos_is(t, -1);
        } else {
            assert(forall|j: int| 0 <= j < k - 1 ==> !(#[trigger] t[j] == 58 && t[j + 1] == 32));
            lemma_sep_pos_is(t, k - 1);
        }
    }
}

/// An upper-case letter folded to lower case; every other byte unchanged.
pub open spec fn norm_byte(b: u8) -> u8 {
    if 65 <= b <= 90 {
        (b + 32) as u8
    } else {
        b
    }
}

/// A wire header name is valid when nonempty and made of token bytes,
/// upper-case letters allowed.
pub open spec fn valid_name_bytes(s: Seq<u8>) -> bool {
    &&& s.len() > 0
    &&& forall|i: int| 0 <= i < s.len() ==> crate::message::is_name_byte(norm_byte(#[trigger] s[i]))
}

/// The stored form of a wire header name: folded to lower case.
pub open spec fn norm_name(s: Seq<u8>) -> Seq<char> {
    bytes_to_chars(s.map_values(|b: u8| norm_byte(b)))
}

/// A wire header value is valid when every byte is printable ASCII or tab.
pub open spec fn valid_value_bytes(s: Seq<u8>) -> bool {
    forall|i: int| 0 <= i < s.len() ==> crate::message::is_value_byte(#[trigger] s[i])
}

/// Which half of a header line was malformed.
#[derive(Clone, Copy, Debug, PartialEq, Eq, Structural)]
pub enum HeaderFault {
    Name,
    NoValue,
    Value,
}

/// Reading one header line: trim trailing whitespace, split at the first
/// `": "`, validate the name (folding it to lower case) and the value.
pub open spec fn spec_parse_header(line: Seq<u8>) -> Result<(Seq<char>, Seq<char>), HeaderFault> {
    let t = trim_end_bytes(line);
    let p = sep_pos(t);
    if p < 0 {
        if valid_name_bytes(t) {
            Err(HeaderFault::NoValue)
        } else {
            Err(HeaderFault::Name)
        }
    } else {
        let name = t.take(p);
        let value = t.skip(p + 2);
        if !valid_name_bytes(name) {
            Err(HeaderFault::Name)
        } else if !valid_value_bytes(value) {
            Err(HeaderFault::Value)
        } else {
            Ok((norm_name(name), bytes_to_chars(value)))
        }
    }
}

/// The diagnostic carried by a malformed header line.
pub open spec fn header_fault_msg(f: HeaderFault, t: Seq<u8>) -> Seq<char> {
    match f {
        HeaderFault::Name => "Invalid header name: '"@ + spec_lossy(t) + "'"@,
        HeaderFault::NoValue => "Header value missing: '"@ + spec_lossy(t) + "'"@,
        HeaderFault::Value => "Invalid header value: '"@ + spec_lossy(t) + "'"@,
    }
}

/// Validates name bytes and folds them to lower case; `None` when some
/// byte is not a token byte.
fn normalize_name(s: &Vec<u8>) -> (r: Option<Vec<u8>>)
    ensures
        r is Some <==> valid_name_bytes(s@),
        r matches Some(v) ==> v@ == s@.map_values(|b: u8| norm_byte(b)),
{
    if s.len() == 0 {
        return None;
    }
    let n = s.len();
    let mut out: Vec<u8> = Vec::new();
    let mut i: usize = 0;
    while i < n
        invariant
            n == s@.len(),
            0 <= i <= n,
            forall|j: int| 0 <= j < i ==> crate::message::is_name_byte(norm_byte(#[trigger] s@[j])),
            out@ =~= s@.take(i as int).map_values(|b: u8| norm_byte(b)),
        decreases n - i,
    {
        let b = s[i];
        let low: u8 = if 65 <= b && b <= 90 {
            b + 32
        } else {
            b
        };
        assert(low == norm_byte(b));
        let ok = (97 <= low && low <= 122) || (48 <= low && low <= 57) || low == 33 || low == 35
            || low == 36 || low == 37 || low == 38 || low == 39 || low == 42 || low == 43 || low
            == 45 || low == 46 || low == 94 || low == 95 || low == 96 || low == 124 || low == 126;
        if !ok {
            assert(!crate::message::is_name_byte(norm_byte(s@[i as int])));
            return None;
        }
        out.push(low);
        proof {
            assert(s@.take(i + 1).drop_last() =~= s@.take(i as int));
            assert(out@ =~= s@.take(i + 1).map_values(|b: u8| norm_byte(b)));
        }
        i += 1;
    }
    assert(s@.take(n as int) =~= s@);
    Some(out)
}

/// Whether every byte of a value is printable ASCII or tab.
fn check_value(s: &Vec<u8>) -> (r: bool)
    ensures
        r == valid_value_bytes(s@),
{
    let n = s.len();
    let mut i: usize = 0;
    while i < n
        invariant
            n == s@.len(),
            0 <= i <= n,
            forall|j: int| 0 <= j < i ==> crate::message::is_value_byte(#[trigger] s@[j]),
        decreases n - i,
    {
        let b = s[i];
        if !(b == 9 || (32 <= b && b <= 126)) {
            return false;
        }
        i += 1;
    }
    true
}

/// Parses one header line into a stored header, or the malformed-request
/// failure carrying the line's diagnostic.
fn parse_header_line(line: &Vec<u8>) -> (r: Result<Header, HttpParseError>)
    ensures
        match r {
            Ok(h) => spec_parse_header(line@) == Ok::<(Seq<char>, Seq<char>), HeaderFault>(
                (h.name@, h.value@),
            ),
            Err(e) => spec_parse_header(line@) matches Err(f) && e@ == SpecError::MalformedRequest(
                header_fault_msg(f, trim_end_bytes(line@)),
            ),
        },
{
    let t = trim_end_exec(line);
    let n = t.len();
    // Find the first ": " separator.
    let mut i: usize = 0;
    let mut sep: Option<usize> = None;
    while n > 0 && i < n - 1 && sep.is_none()
        invariant
            n == t@.len(),
            0 <= i <= n,
            sep is None ==> forall|j: int|
                0 <= j < i ==> !(#[trigger] t@[j] == 58 && t@[j + 1] == 32),
            sep matches Some(p) ==> 0 <= p && p + 1 < n && t@[p as int] == 58 && t@[p + 1] == 32
                && forall|j: int| 0 <= j < p ==> !(#[trigger] t@[j] == 58 && t@[j + 1] == 32),
        decreases n - i,
    {
        if t[i] == 58 && t[i + 1] == 32 {
            sep = Some(i);
        }
        i += 1;
    }
    match sep {
        None => {
            proof {
                lemma_sep_pos_is(t@, -1);
            }
            let msg_head = if normalize_name(&t).is_some() {
                "Header value missing: '"
            } else {
                "Invalid header name: '"
            };
            let mut m = String::from_str(msg_head);
            m.append(lossy_string(t.as_slice()).as_str());
            m.append("'");
            Err(HttpParseError::MalformedRequest(m))
        },
        Some(p) => {
            proof {
                lemma_sep_pos_is(t@, p as int);
            }
            let name_bytes = bytes_range(t.as_slice(), 0, p);
            let value_bytes = bytes_range(t.as_slice(), p + 2, n);
            assert(name_bytes@ == t@.take(p as int));
            assert(value_bytes@ == t@.skip(p + 2));
            match normalize_name(&name_bytes) {
                None => {
                    let mut m = String::from_str("Invalid header name: '");
                    m.append(lossy_string(t.as_slice()).as_str());
                    m.append("'");
                    Err(HttpParseError::MalformedRequest(m))
                },
                Some(low) => {
                    if !check_value(&value_bytes) {
                        let mut m = String::from_str("Invalid header value: '");
                        m.append(lossy_string(t.as_slice()).as_str());
                        m.append("'");
                        return Err(HttpParseError::MalformedRequest(m));
                    }
                    proof {
                        assert forall|j: int| 0 <= j < low@.len() implies #[trigger] low@[j]
                            < 128 by {
                            assert(low@[j] == norm_byte(name_bytes@[j]));
                            assert(crate::message::is_name_byte(low@[j]));
                        }
                        assert forall|j: int|
                            0 <= j < value_bytes@.len() implies #[trigger] value_bytes@[j]
                            < 128 by {
                            assert(crate::message::is_value_byte(value_bytes@[j]));
                        }
                    }
                    let name = ascii_bytes_to_string(low.as_slice());
                    let value = ascii_bytes_to_string(value_bytes.as_slice());
                    Ok(Header { name, value })
                },
            }
        },
    }
}

/// A decimal digit.
pub open spec fn is_digit(c: char) -> bool {
    '0' <= c <= '9'
}

/// The numeric value of a decimal digit.
pub open spec fn digit_val(c: char) -> int {
    c as int - 48
}

/// The number a digit string denotes.
pub open spec fn dec_val(s: Seq<char>) -> int
    decreases s.len(),
{
    if s.len() == 0 {
        0
    } else {
        10 * dec_val(s.drop_last()) + digit_val(s.last())
    }
}

/// Every character is a decimal digit.
pub open spec fn all_digits(s: Seq<char>) -> bool {
    forall|i: int| 0 <= i < s.len() ==> is_digit(#[trigger] s[i])
}

/// What parsing a string as a nonnegative integer yields: an optional `+`
/// sign, then at least one digit, and a value that fits the machine word -
/// exactly the strings the standard integer parser accepts.
/// The digits of a number token, with one optional leading `+` removed.
pub open spec fn plus_trimmed(s: Seq<char>) -> Seq<char> {
    if s.len() > 0 && s[0] == '+' {
        s.drop_first()
    } else {
        s
    }
}

pub open spec fn spec_parse_usize(s: Seq<char>) -> Option<int> {
    let t = plus_trimmed(s);
    if t.len() > 0 && all_digits(t) && dec_val(t) <= usize::MAX {
        Some(dec_val(t))
    } else {
        None
    }
}

pub proof fn lemma_dec_val_nonneg(s: Seq<char>)
    requires
        all_digits(s),
    ensures
        dec_val(s) >= 0,
    decreases s.len(),
{
    if s.len() > 0 {
        assert(all_digits(s.drop_last()));
        lemma_dec_val_nonneg(s.drop_last());
    }
}

/// A digit string is worth at least any of its prefixes.
pub proof fn lemma_dec_val_prefix(s: Seq<char>, k: int)
    requires
        all_digits(s),
        0 <= k <= s.len(),
    ensures
        dec_val(s.take(k)) <= dec_val(s),
    decreases s.len() - k,
{
    if k == s.len() {
        assert(s.take(k) =~= s);
    } else {
        assert(s.take(k + 1).drop_last() =~= s.take(k));
        assert(s.take(k + 1).last() == s[k]);
        assert(all_digits(s.take(k)));
        lemma_dec_val_nonneg(s.take(k));
        assert(dec_val(s.take(k + 1)) == 10 * dec_val(s.take(k)) + digit_val(s[k]));
        lemma_dec_val_prefix(s, k + 1);
    }
}

/// Parses a string as a nonnegative machine integer, as `Content-Length`
/// values are read: an optional `+` sign, then digits; anything else, or a
/// value too large for the machine word, is rejected.
pub fn parse_usize_str(s: &str) -> (r: Option<usize>)
    ensures
        match r {
            Some(v) => spec_parse_usize(s@) == Some(v as int),
            None => spec_parse_usize(s@) is None,
        },
{
    let chars = crate::text::str_chars(s);
    let n = chars.len();
    let start: usize = if n > 0 && chars[0] == '+' {
        1
    } else {
        0
    };
    let ghost t = plus_trimmed(s@);
    proof {
        assert(t =~= s@.skip(start as int));
    }
    if start == n {
        assert(t.len() == 0);
        return None;
    }
    let lim = usize::MAX / 10;
    let rem = usize::MAX % 10;
    proof {
        vstd::arithmetic::div_mod::lemma_fundamental_div_mod(usize::MAX as int, 10);
    }
    let mut acc: usize = 0;
    let mut i: usize = start;
    while i < n
        invariant
            start <= i <= n,
            n == s@.len(),
            chars@ == s@,
            t == plus_trimmed(s@),
            t == s@.skip(start as int),
            start < n,
            t.len() == n - start,
            all_digits(t.take(i - start)),
            acc == dec_val(t.take(i - start)),
            lim == usize::MAX / 10,
            rem == usize::MAX % 10,
            usize::MAX == 10 * lim + rem,
        decreases n - i,
    {
        let c = chars[i];
        if c < '0' || c > '9' {
            proof {
                assert(t[i - start] == s@[i as int]);
                assert(!is_digit(t[i - start]));
                assert(!all_digits(t));
            }
            return None;
        }
        let d: usize = ((c as u32) - 48) as usize;
        proof {
            assert(is_digit(s@[i as int]));
            assert(0 <= d <= 9);
        }
        let ghost grown = t.take(i - start + 1);
        proof {
            assert(grown.drop_last() =~= t.take(i - start));
            assert(grown.last() == t[i - start]);
            assert(t[i - start] == s@[i as int]);
            assert(dec_val(grown) == 10 * acc + d);
            assert(all_digits(grown));
        }
        if acc > lim || (acc == lim && d > rem) {
            proof {
                assert(dec_val(grown) > usize::MAX);
                if t.len() > 0 && all_digits(t) {
                    lemma_dec_val_prefix(t, i - start + 1);
                    assert(dec_val(t) > usize::MAX);
                }
            }
            return None;
        }
        assert(10 * acc + d <= usize::MAX);
        acc = acc * 10 + d;
        i += 1;
    }
    proof {
        assert(t.take(n - start) =~= t);
        assert(spec_parse_usize(s@) == Some(acc as int));
    }
    Some(acc)
}

/// An upper-case letter folded to lower case; every other character
/// unchanged. Applied only to ASCII text.
pub open spec fn lower_char(c: char) -> char {
    if 'A' <= c <= 'Z' {
        ((c as u8) + 32) as char
    } else {
        c
    }
}

/// Whether the text holds `chunked` as a case-insensitive substring, the
/// test that marks a Transfer-Encoding header as chunked framing.
pub open spec fn spec_has_chunked(v: Seq<char>) -> bool {
    exists|i: int|
        0 <= i && i + 7 <= v.len() && (#[trigger] v.subrange(i, i + 7)).map_values(
            |c: char| lower_char(c),
        ) == "chunked"@
}

/// Tests for `chunked` as a case-insensitive substring.
pub fn has_chunked(v: &str) -> (r: bool)
    ensures
        r == spec_has_chunked(v@),
{
    let pat = crate::text::str_chars("chunked");
    proof {
        reveal_strlit("chunked");
        assert(pat@.len() == 7);
    }
    let chars = crate::text::str_chars(v);
    let n = chars.len();
    if n < 7 {
        return false;
    }
    let mut i: usize = 0;
    while i <= n - 7
        invariant
            chars@ == v@,
            pat@ == "chunked"@,
            pat@.len() == 7,
            n == v@.len(),
            7 <= n,
            0 <= i <= n - 7 + 1,
            forall|w: int|
                0 <= w < i ==> (#[trigger] v@.subrange(w, w + 7)).map_values(
                    |c: char| lower_char(c),
                ) != ("chunked")@,
        decreases n - i,
    {
        let mut j: usize = 0;
        let mut matched = true;
        while j < 7
            invariant
                chars@ == v@,
                pat@ == "chunked"@,
                pat@.len() == 7,
                n == v@.len(),
                0 <= i <= n - 7,
                0 <= j <= 7,
                matched ==> forall|u: int|
                    0 <= u < j ==> lower_char(#[trigger] v@[i + u]) == pat@[u],
                !matched ==> exists|u: int| 0 <= u < j && lower_char(#[trigger] v@[i + u]) != pat@[u],
            decreases 7 - j,
        {
            let c = chars[i + j];
            let low: char = if 'A' <= c && c <= 'Z' {
                (((c as u32) + 32) as u8) as char
            } else {
                c
            };
            proof {
                assert(low == lower_char(v@[i + j]));
            }
            if low != pat[j] {
                matched = false;
            }
            j += 1;
        }
        let ghost window = v@.subrange(i as int, i + 7).map_values(|c: char| lower_char(c));
        if matched {
            proof {
                assert forall|u: int| 0 <= u < 7 implies window[u] == "chunked"@[u] by {
                    assert(v@.subrange(i as int, i + 7)[u] == v@[i + u]);
                }
                assert(window =~= "chunked"@);
            }
            return true;
        }
        proof {
            let u = choose|u: int| 0 <= u < 7 && lower_char(#[trigger] v@[i + u]) != pat@[u];
            assert(v@.subrange(i as int, i + 7)[u] == v@[i + u]);
            assert(window[u] != "chunked"@[u]);
            assert(window != "chunked"@);
        }
        i += 1;
    }
    proof {
        assert forall|w: int| 0 <= w && w + 7 <= v@.len() implies (#[trigger] v@.subrange(
            w,
            w + 7,
        )).map_values(|c: char| lower_char(c)) != ("chunked")@ by {
            assert(w < i);
        }
    }
    false
}

/// A hexadecimal digit byte.
pub open spec fn is_hex_digit(b: u8) -> bool {
    (48 <= b <= 57) || (65 <= b <= 70) || (97 <= b <= 102)
}

/// The numeric value of a hexadecimal digit byte.
pub open spec fn hex_digit_val(b: u8) -> int {
    if 48 <= b <= 57 {
        b - 48
    } else if 65 <= b <= 70 {
        b - 55
    } else {
        b - 87
    }
}

/// The number a hexadecimal digit string denotes.
pub open spec fn hex_val(s: Seq<u8>) -> int
    decreases s.len(),
{
    if s.len() == 0 {
        0
    } else {
        16 * hex_val(s.drop_last()) + hex_digit_val(s.last())
    }
}

/// Every byte is a hexadecimal digit.
pub open spec fn all_hex(s: Seq<u8>) -> bool {
    forall|i: int| 0 <= i < s.len() ==> is_hex_digit(#[trigger] s[i])
}

/// The digits of a hexadecimal token, with one optional leading `+` removed.
pub open spec fn hex_trimmed(s: Seq<u8>) -> Seq<u8> {
    if s.len() > 0 && s[0] == 43 {
        s.drop_first()
    } else {
        s
    }
}

/// What parsing bytes as a hexadecimal machine integer yields, as the
/// standard radix-16 parser accepts them.
pub open spec fn spec_parse_hex(s: Seq<u8>) -> Option<int> {
    let t = hex_trimmed(s);
    if t.len() > 0 && all_hex(t) && hex_val(t) <= usize::MAX {
        Some(hex_val(t))
    } else {
        None
    }
}

/// The diagnostic the standard integer parser gives for each way the
/// hexadecimal token can be rejected.
pub open spec fn spec_hex_fault(s: Seq<u8>) -> Seq<char> {
    if s.len() == 0 {
        "cannot parse integer from empty string"@
    } else if hex_trimmed(s).len() == 0 || !all_hex(hex_trimmed(s)) {
        "invalid digit found in string"@
    } else {
        "number too large to fit in target type"@
    }
}

pub proof fn lemma_hex_val_nonneg(s: Seq<u8>)
    requires
        all_hex(s),
    ensures
        hex_val(s) >= 0,
    decreases s.len(),
{
    if s.len() > 0 {
        assert(all_hex(s.drop_last()));
        lemma_hex_val_nonneg(s.drop_last());
    }
}

/// A hexadecimal digit string is worth at least any of its prefixes.
pub proof fn lemma_hex_val_prefix(s: Seq<u8>, k: int)
    requires
        all_hex(s),
        0 <= k <= s.len(),
    ensures
        hex_val(s.take(k)) <= hex_val(s),
    decreases s.len() - k,
{
    if k == s.len() {
        assert(s.take(k) =~= s);
    } else {
        assert(s.take(k + 1).drop_last() =~= s.take(k));
        assert(s.take(k + 1).last() == s[k]);
        assert(all_hex(s.take(k)));
        lemma_hex_val_nonneg(s.take(k));
        assert(hex_val(s.take(k + 1)) == 16 * hex_val(s.take(k)) + hex_digit_val(s[k]));
        lemma_hex_val_prefix(s, k + 1);
    }
}

/// Parses bytes as a hexadecimal machine integer.
fn parse_hex(s: &Vec<u8>) -> (r: Option<usize>)
    ensures
        match r {
            Some(v) => spec_parse_hex(s@) == Some(v as int),
            None => spec_parse_hex(s@) is None,
        },
{
    let n = s.len();
    let start: usize = if n > 0 && s[0] == 43 {
        1
    } else {
        0
    };
    let ghost t = hex_trimmed(s@);
    proof {
        assert(t =~= s@.skip(start as int));
    }
    if start == n {
        assert(t.len() == 0);
        return None;
    }
    let lim = usize::MAX / 16;
    let rem = usize::MAX % 16;
    proof {
        vstd::arithmetic::div_mod::lemma_fundamental_div_mod(usize::MAX as int, 16);
    }
    let mut acc: usize = 0;
    let mut i: usize = start;
    while i < n
        invariant
            start <= i <= n,
            n == s@.len(),
            t == hex_trimmed(s@),
            t == s@.skip(start as int),
            start < n,
            t.len() == n - start,
            all_hex(t.take(i - start)),
            acc == hex_val(t.take(i - start)),
            lim == usize::MAX / 16,
            rem == usize::MAX % 16,
            usize::MAX == 16 * lim + rem,
        decreases n - i,
    {
        let b = s[i];
        let d: usize;
        if 48 <= b && b <= 57 {
            d = (b - 48) as usize;
        } else if 65 <= b && b <= 70 {
            d = (b - 55) as usize;
        } else if 97 <= b && b <= 102 {
            d = (b - 87) as usize;
        } else {
            proof {
                assert(t[i - start] == s@[i as int]);
                assert(!is_hex_digit(t[i - start]));
                assert(!all_hex(t));
            }
            return None;
        }
        proof {
            assert(is_hex_digit(s@[i as int]));
            assert(d == hex_digit_val(s@[i as int]));
            assert(0 <= d <= 15);
        }
        let ghost grown = t.take(i - start + 1);
        proof {
            assert(grown.drop_last() =~= t.take(i - start));
            assert(grown.last() == t[i - start]);
            assert(t[i - start] == s@[i as int]);
            assert(hex_val(grown) == 16 * acc + d);
            assert(all_hex(grown));
        }
        if acc > lim || (acc == lim && d > rem) {
            proof {
                assert(hex_val(grown) > usize::MAX);
                if t.len() > 0 && all_hex(t) {
                    lemma_hex_val_prefix(t, i - start + 1);
                    assert(hex_val(t) > usize::MAX);
                }
            }
            return None;
        }
        assert(16 * acc + d <= usize::MAX);
        acc = acc * 16 + d;
        i += 1;
    }
    proof {
        assert(t.take(n - start) =~= t);
        assert(spec_parse_hex(s@) == Some(acc as int));
    }
    Some(acc)
}

/// The diagnostic for a rejected hexadecimal token.
fn hex_fault_string(s: &Vec<u8>) -> (r: String)
    ensures
        r@ == spec_hex_fault(s@),
{
    let n = s.len();
    if n == 0 {
        return String::from_str("cannot parse integer from empty string");
    }
    let start: usize = if s[0] == 43 {
        1
    } else {
        0
    };
    let ghost t = hex_trimmed(s@);
    proof {
        assert(t =~= s@.skip(start as int));
    }
    if start == n {
        return String::from_str("invalid digit found in string");
    }
    let mut i: usize = start;
    while i < n
        invariant
            start <= i <= n,
            n == s@.len(),
            t == hex_trimmed(s@),
            t == s@.skip(start as int),
            t.len() == n - start,
            all_hex(t.take(i - start)),
        decreases n - i,
    {
        let b = s[i];
        if !((48 <= b && b <= 57) || (65 <= b && b <= 70) || (97 <= b && b <= 102)) {
            proof {
                assert(t[i - start] == s@[i as int]);
                assert(!is_hex_digit(t[i - start]));
                assert(!all_hex(t));
            }
            return String::from_str("invalid digit found in string");
        }
        proof {
            assert(t.take(i - start + 1).drop_last() =~= t.take(i - start));
            assert(all_hex(t.take(i - start + 1)));
        }
        i += 1;
    }
    proof {
        assert(t.take(n - start) =~= t);
        assert(all_hex(t));
    }
    String::from_str("number too large to fit in target type")
}

/// The length of a chunk-size token: the bytes before the first `;` (a
/// chunk extension) or carriage return.
pub open spec fn chunk_head_len(s: Seq<u8>) -> int
    decreases s.len(),
{
    if s.len() == 0 {
        0
    } else if s[0] == 59 || s[0] == 13 {
        0
    } else {
        1 + chunk_head_len(s.drop_first())
    }
}

pub proof fn lemma_chunk_head_len_is(s: Seq<u8>, k: int)
    requires
        0 <= k <= s.len(),
        forall|j: int| 0 <= j < k ==> !(#[trigger] s[j] == 59 || s[j] == 13),
        k < s.len() ==> (s[k] == 59 || s[k] == 13),
    ensures
        chunk_head_len(s) == k,
    decreases s.len(),
{
    if s.len() == 0 {
    } else if s[0] == 59 || s[0] == 13 {
        assert(k == 0);
    } else {
        assert(k != 0);
        lemma_chunk_head_len_is(s.drop_first(), k - 1);
    }
}

pub proof fn lemma_chunk_head_len(s: Seq<u8>)
    ensures
        0 <= chunk_head_len(s) <= s.len(),
    decreases s.len(),
{
    if s.len() > 0 && !(s[0] == 59 || s[0] == 13) {
        lemma_chunk_head_len(s.drop_first());
    }
}

/// The position just past the line that starts at `pos`: past its line
/// feed, or the end of the buffer when no line feed follows.
pub open spec fn after_line(input: Seq<u8>, pos: int) -> int {
    let k = bytes_until(input.skip(pos), 10);
    if pos + k + 1 <= input.len() {
        pos + k + 1
    } else {
        input.len() as int
    }
}

pub proof fn lemma_after_line(input: Seq<u8>, pos: int)
    requires
        0 <= pos <= input.len(),
    ensures
        pos <= after_line(input, pos) <= input.len(),
{
    lemma_bytes_until(input.skip(pos), 10);
}

/// Decoding a chunked body from `pos`: each chunk is a hexadecimal size
/// line (anything from `;` on, and the rest of the line, is a discarded
/// extension), then that many body bytes and their trailing line
/// terminator; a zero size ends the body, and whatever follows it is left
/// unconsumed. The error is the diagnostic of a malformed-request failure.
pub open spec fn spec_chunks(input: Seq<u8>, pos: int, acc: Seq<u8>) -> Result<
    (Seq<u8>, int),
    Seq<char>,
>
    decreases input.len() - pos,
    when 0 <= pos <= input.len()
    via spec_chunks_dec
{
    let k = chunk_head_len(input.skip(pos));
    if pos + k >= input.len() {
        Err("early eof"@)
    } else {
        let octets = input.subrange(pos, pos + k);
        let p2 = after_line(input, pos + k + 1);
        match spec_parse_hex(octets) {
            None => Err(spec_hex_fault(octets)),
            Some(sz) => if sz == 0 {
                Ok((acc, p2))
            } else if p2 + sz > input.len() {
                Err("early eof"@)
            } else {
                let body = input.subrange(p2, p2 + sz);
                let p3 = after_line(input, p2 + sz);
                spec_chunks(input, p3, acc + body)
            },
        }
    }
}

#[via_fn]
proof fn spec_chunks_dec(input: Seq<u8>, pos: int, acc: Seq<u8>) {
    lemma_chunk_head_len(input.skip(pos));
    let k = chunk_head_len(input.skip(pos));
    if pos + k < input.len() {
        let octets = input.subrange(pos, pos + k);
        lemma_after_line(input, pos + k + 1);
        let p2 = after_line(input, pos + k + 1);
        match spec_parse_hex(octets) {
            None => {},
            Some(sz) => {
                assert(all_hex(hex_trimmed(octets)));
                lemma_hex_val_nonneg(hex_trimmed(octets));
                assert(sz >= 0);
                if sz != 0 && p2 + sz <= input.len() {
                    lemma_after_line(input, p2 + sz);
                }
            },
        }
    }
}

/// Decodes a chunked body, returning the reassembled bytes and the
/// position just past the terminal chunk.
pub fn decode_chunked(input: &[u8], pos: usize) -> (r: Result<(Vec<u8>, usize), HttpParseError>)
    requires
        pos <= input@.len(),
    ensures
        match r {
            Ok(p) => spec_chunks(input@, pos as int, Seq::empty()) == Ok::<_, Seq<char>>(
                (p.0@, p.1 as int),
            ) && p.1 <= input@.len(),
            Err(e) => spec_chunks(input@, pos as int, Seq::empty()) matches Err(msg) && e@
                == SpecError::MalformedRequest(msg),
        },
{
    let n = input.len();
    let mut body: Vec<u8> = Vec::new();
    let mut p: usize = pos;
    loop
        invariant
            n == input@.len(),
            pos <= p <= n,
            spec_chunks(input@, pos as int, Seq::empty()) == spec_chunks(input@, p as int, body@),
        decreases n - p,
    {
        // Scan the chunk-size token, up to `;` or CR.
        let mut i: usize = p;
        while i < n && input[i] != 59 && input[i] != 13
            invariant
                n == input@.len(),
                p <= i <= n,
                forall|j: int| p <= j < i ==> !(#[trigger] input@[j] == 59 || input@[j] == 13),
            decreases n - i,
        {
            i += 1;
        }
        proof {
            let tail = input@.skip(p as int);
            lemma_chunk_head_len_is(tail, i - p);
        }
        if i == n {
            return Err(HttpParseError::MalformedRequest(String::from_str("early eof")));
        }
        let octets = bytes_range(input, p, i);
        // Discard the rest of the chunk-size line.
        let p2 = skip_line(input, i + 1);
        match parse_hex(&octets) {
            None => {
                return Err(HttpParseError::MalformedRequest(hex_fault_string(&octets)));
            },
            Some(sz) => {
                if sz == 0 {
                    return Ok((body, p2));
                }
                if sz > n - p2 {
                    return Err(HttpParseError::MalformedRequest(String::from_str("early eof")));
                }
                let chunk = bytes_range(input, p2, p2 + sz);
                let ghost old_body = body@;
                let ghost old_p = p as int;
                body.append(&mut chunk.clone());
                // Discard the chunk's trailing line terminator.
                let p3 = skip_line(input, p2 + sz);
                proof {
                    assert(body@ == old_body + input@.subrange(p2 as int, p2 + sz));
                    assert(spec_chunks(input@, old_p, old_body) == spec_chunks(
                        input@,
                        p3 as int,
                        body@,
                    ));
                }
                p = p3;
            },
        }
    }
}

/// Advances past the line that starts at `pos`.
fn skip_line(input: &[u8], pos: usize) -> (r: usize)
    requires
        pos <= input@.len(),
    ensures
        r == after_line(input@, pos as int),
        pos <= r <= input@.len(),
{
    let n = input.len();
    let mut i: usize = pos;
    while i < n && input[i] != 10
        invariant
            n == input@.len(),
            pos <= i <= n,
            forall|j: int| pos <= j < i ==> input@[j] != 10,
        decreases n - i,
    {
        i += 1;
    }
    proof {
        let tail = input@.skip(pos as int);
        lemma_bytes_until_is(tail, 10, i - pos);
    }
    if i < n {
        i + 1
    } else {
        n
    }
}

/// What the header scan accumulates: the ordered header multimap and the
/// framing facts read from it.
pub struct ScanState {
    pub headers: Seq<(Seq<char>, Seq<char>)>,
    /// The value of the last Content-Length header, zero before any.
    pub content_length: int,
    /// Whether a Transfer-Encoding header named chunked framing.
    pub chunked: bool,
    /// Whether a Content-Length header appeared at all.
    pub has_cl: bool,
    /// Whether a Transfer-Encoding header appeared at all.
    pub has_te: bool,
}

/// The scan state before any header.
pub open spec fn scan_init() -> ScanState {
    ScanState {
        headers: Seq::empty(),
        content_length: 0,
        chunked: false,
        has_cl: false,
        has_te: false,
    }
}

/// One parsed header folded into the scan state. A Content-Length header
/// on a GET request is rejected at once - before any body read could be
/// attempted; on other methods its value must parse as a machine integer,
/// and the last occurrence wins. A Transfer-Encoding header whose value
/// holds `chunked` (case-insensitively) marks chunked framing. Every
/// header is appended, so duplicates and order are preserved.
pub open spec fn scan_update(st: ScanState, nv: (Seq<char>, Seq<char>), method: Method) -> Result<
    ScanState,
    SpecError,
> {
    if nv.0 == "content-length"@ {
        if method == Method::Get {
            Err(SpecError::BodyNotAllowed)
        } else {
            match spec_parse_usize(nv.1) {
                None => Err(SpecError::MalformedRequest("Content-Length is not a number"@)),
                Some(n) => Ok(
                    ScanState {
                        headers: st.headers.push(nv),
                        content_length: n,
                        chunked: st.chunked,
                        has_cl: true,
                        has_te: st.has_te,
                    },
                ),
            }
        }
    } else if nv.0 == "transfer-encoding"@ {
        Ok(
            ScanState {
                headers: st.headers.push(nv),
                content_length: st.content_length,
                chunked: st.chunked || spec_has_chunked(nv.1),
                has_cl: st.has_cl,
                has_te: true,
            },
        )
    } else {
        Ok(
            ScanState {
                headers: st.headers.push(nv),
                content_length: st.content_length,
                chunked: st.chunked,
                has_cl: st.has_cl,
                has_te: st.has_te,
            },
        )
    }
}

pub proof fn lemma_spec_line_len(input: Seq<u8>, pos: int)
    requires
        0 <= pos <= input.len(),
    ensures
        pos + spec_line(input, pos).len() <= input.len(),
        pos < input.len() ==> spec_line(input, pos).len() >= 1,
{
    lemma_bytes_until(input.skip(pos), 10);
}

/// The header section read line by line from `pos`: stops at the bare
/// `\r\n` line, fails with EndOfStream when the buffer ends first, and
/// folds each header line into the state.
pub open spec fn spec_scan(input: Seq<u8>, pos: int, method: Method, st: ScanState) -> Result<
    (ScanState, int),
    SpecError,
>
    decreases input.len() - pos,
    when 0 <= pos <= input.len()
    via spec_scan_dec
{
    if pos >= input.len() {
        Err(SpecError::EndOfStream)
    } else {
        let l = spec_line(input, pos);
        let next = pos + l.len();
        if l == seq![13u8, 10u8] {
            Ok((st, next))
        } else {
            match spec_parse_header(l) {
                Err(f) => Err(
                    SpecError::MalformedRequest(header_fault_msg(f, trim_end_bytes(l))),
                ),
                Ok(nv) => match scan_update(st, nv, method) {
                    Err(e) => Err(e),
                    Ok(st2) => spec_scan(input, next, method, st2),
                },
            }
        }
    }
}

#[via_fn]
proof fn spec_scan_dec(input: Seq<u8>, pos: int, method: Method, st: ScanState) {
    if pos < input.len() {
        lemma_spec_line_len(input, pos);
    }
}

/// A request-target token is acceptable when every byte is printable,
/// non-blank ASCII.
pub open spec fn target_ok(t: Seq<u8>) -> bool {
    forall|i: int| 0 <= i < t.len() ==> 33 <= #[trigger] t[i] <= 126
}

/// Reading one whole request from the buffer: the status line's three
/// tokens, the header section, and the framed body. The buffer's end
/// stands for the closed stream.
pub open spec fn spec_parse_request(input: Seq<u8>) -> Result<RequestView, SpecError> {
    if input.len() == 0 {
        Err(SpecError::EndOfStream)
    } else {
        let l1 = spec_line(input, 0);
        let pos1 = l1.len() as int;
        let sl = trim_end_bytes(l1);
        let t1 = first_token(sl);
        let rest1 = after_token(sl);
        let t2 = first_token(rest1);
        let rest2 = after_token(rest1);
        let t3 = first_token(rest2);
        if t1.len() == 0 {
            Err(SpecError::MalformedRequest("Method missing"@))
        } else {
            match spec_method_of(t1) {
                None => Err(SpecError::UnsupportedMethod(spec_lossy(t1))),
                Some(method) => if t2.len() == 0 {
                    Err(SpecError::MalformedRequest("URI missing"@))
                } else if !target_ok(t2) {
                    Err(
                        SpecError::MalformedRequest(
                            "Invalid request target: '"@ + spec_lossy(t2) + "'"@,
                        ),
                    )
                } else if t3.len() == 0 {
                    Err(SpecError::MalformedRequest("Version missing"@))
                } else {
                    match spec_version_of(t3) {
                        None => Err(SpecError::UnsupportedVersion(spec_lossy(t3))),
                        Some(version) => match spec_scan(input, pos1, method, scan_init()) {
                            Err(e) => Err(e),
                            Ok((st, body_pos)) => spec_finish(input, st, body_pos, method, version, t2),
                        },
                    }
                }
            }
        }
    }
}

/// The end of parsing, after the header section: a POST without framing is
/// rejected with LengthRequired; a chunked body is decoded; a positive
/// Content-Length reads exactly that many bytes; otherwise there is no
/// body at all.
pub open spec fn spec_finish(
    input: Seq<u8>,
    st: ScanState,
    body_pos: int,
    method: Method,
    version: Version,
    t2: Seq<u8>,
) -> Result<RequestView, SpecError> {
    if method == Method::Post && !st.has_cl && !st.has_te {
        Err(SpecError::LengthRequired)
    } else {
        let done = |body: Option<Seq<u8>>| Ok(
            RequestView {
                method,
                target: bytes_to_chars(t2),
                version,
                headers: st.headers,
                body,
            },
        );
        if st.chunked {
            match spec_chunks(input, body_pos, Seq::empty()) {
                Err(m) => Err(SpecError::MalformedRequest(m)),
                Ok((b, _)) => done(Some(b)),
            }
        } else if st.content_length > 0 {
            if body_pos + st.content_length <= input.len() {
                done(Some(input.subrange(body_pos, body_pos + st.content_length)))
            } else {
                Err(SpecError::MalformedRequest("early eof"@))
            }
        } else {
            done(None)
        }
    }
}

/// Parses one HTTP request from everything the connection delivered. The
/// result is exactly what the specification-level parser says for these
/// bytes: the structured request on success, and on failure the error
/// variant and diagnostic the malformed input maps to.
#[verifier::loop_isolation(false)]
pub fn parse_request(input: &[u8]) -> (r: Result<Request, HttpParseError>)
    ensures
        match r {
            Ok(req) => spec_parse_request(input@) == Ok::<RequestView, SpecError>(req@),
            Err(e) => spec_parse_request(input@) == Err::<RequestView, SpecError>(e@),
        },
{
    let n = input.len();
    if n == 0 {
        return Err(HttpParseError::EndOfStream);
    }
    let (l1, pos1) = read_line(input, 0);
    let sl = trim_end_exec(&l1);
    let (tok1, rest1) = split_first_token(&sl);
    let (tok2, rest2) = split_first_token(&rest1);
    let (tok3, _rest3) = split_first_token(&rest2);
    if tok1.len() == 0 {
        return Err(HttpParseError::MalformedRequest(String::from_str("Method missing")));
    }
    let method = match method_of(&tok1) {
        None => {
            return Err(HttpParseError::UnsupportedMethod(lossy_string(tok1.as_slice())));
        },
        Some(m) => m,
    };
    if tok2.len() == 0 {
        return Err(HttpParseError::MalformedRequest(String::from_str("URI missing")));
    }
    if !target_ok_exec(&tok2) {
        let mut m = String::from_str("Invalid request target: '");
        m.append(lossy_string(tok2.as_slice()).as_str());
        m.append("'");
        return Err(HttpParseError::MalformedRequest(m));
    }
    if tok3.len() == 0 {
        return Err(HttpParseError::MalformedRequest(String::from_str("Version missing")));
    }
    let version = match version_of(&tok3) {
        None => {
            return Err(HttpParseError::UnsupportedVersion(lossy_string(tok3.as_slice())));
        },
        Some(v) => v,
    };

    // The header section.
    let mut headers: Vec<Header> = Vec::new();
    let mut content_length: usize = 0;
    let mut chunked = false;
    let mut has_cl = false;
    let mut has_te = false;
    let mut pos = pos1;
    let mut done = false;
    proof {
        assert(headers_view(headers@) =~= Seq::<(Seq<char>, Seq<char>)>::empty());
        assert((ScanState {
            headers: headers_view(headers@),
            content_length: content_length as int,
            chunked: chunked,
            has_cl: has_cl,
            has_te: has_te,
        }) == scan_init());
    }
    while !done
        invariant
            pos1 <= pos <= n,
            !done ==> spec_scan(input@, pos1 as int, method, scan_init()) == spec_scan(
                input@,
                pos as int,
                method,
                (ScanState {
                    headers: headers_view(headers@),
                    content_length: content_length as int,
                    chunked: chunked,
                    has_cl: has_cl,
                    has_te: has_te,
                }),
            ),
            done ==> spec_scan(input@, pos1 as int, method, scan_init()) == Ok::<
                (ScanState, int),
                SpecError,
            >(
                (
                    ScanState {
                        headers: headers_view(headers@),
                        content_length: content_length as int,
                        chunked: chunked,
                        has_cl: has_cl,
                        has_te: has_te,
                    },
                    pos as int,
                ),
            ),
        decreases n - pos,
    {
        let ghost cur = ScanState {
            headers: headers_view(headers@),
            content_length: content_length as int,
            chunked: chunked,
            has_cl: has_cl,
            has_te: has_te,
        };
        if pos >= n {
            return Err(HttpParseError::EndOfStream);
        }
        let (line, next) = read_line(input, pos);
        proof {
            lemma_spec_line_len(input@, pos as int);
        }
        if line.len() == 2 && line[0] == 13 && line[1] == 10 {
            assert(line@ =~= seq![13u8, 10u8]);
            pos = next;
            done = true;
            continue;
        }
        assert(line@ != seq![13u8, 10u8]);
        match parse_header_line(&line) {
            Err(e) => {
                return Err(e);
            },
            Ok(h) => {
                let ghost nv = (h.name@, h.value@);
                if crate::text::str_eq(h.name.as_str(), "content-length") {
                    assert(nv.0 == "content-length"@);
                    if matches!(method, Method::Get) {
                        return Err(HttpParseError::BodyNotAllowed);
                    }
                    match parse_usize_str(h.value.as_str()) {
                        None => {
                            return Err(
                                HttpParseError::MalformedRequest(
                                    String::from_str("Content-Length is not a number"),
                                ),
                            );
                        },
                        Some(v) => {
                            content_length = v;
                            has_cl = true;
                        },
                    }
                } else {
                    assert(nv.0 != "content-length"@);
                    if crate::text::str_eq(h.name.as_str(), "transfer-encoding") {
                        assert(nv.0 == "transfer-encoding"@);
                        if has_chunked(h.value.as_str()) {
                            chunked = true;
                        }
                        has_te = true;
                    } else {
                        assert(nv.0 != "transfer-encoding"@);
                    }
                }
                headers.push(h);
                proof {
                    assert(headers_view(headers@) =~= cur.headers.push(nv));
                    assert(scan_update(cur, nv, method) == Ok::<ScanState, SpecError>(
                        ScanState {
                            headers: headers_view(headers@),
                            content_length: content_length as int,
                            chunked: chunked,
                            has_cl: has_cl,
                            has_te: has_te,
                        },
                    ));
                }
                pos = next;
            },
        }
    }

    // Framing and body.
    if matches!(method, Method::Post) && !has_cl && !has_te {
        return Err(HttpParseError::LengthRequired);
    }
    let body: Option<Vec<u8>>;
    if chunked {
        match decode_chunked(input, pos) {
            Err(e) => {
                return Err(e);
            },
            Ok((b, _end)) => {
                body = Some(b);
            },
        }
    } else if content_length > 0 {
        if content_length > n - pos {
            return Err(HttpParseError::MalformedRequest(String::from_str("early eof")));
        }
        body = Some(bytes_range(input, pos, pos + content_length));
    } else {
        body = None;
    }
    let target = ascii_bytes_to_string(tok2.as_slice());
    Ok(Request { method, target, version, headers, body })
}

/// The scan only appends headers, and on a GET request none of the
/// appended headers is a Content-Length header: one would have stopped the
/// scan with BodyNotAllowed.
pub proof fn lemma_scan_get_no_content_length(input: Seq<u8>, pos: int, st: ScanState)
    requires
        0 <= pos <= input.len(),
    ensures
        spec_scan(input, pos, Method::Get, st) matches Ok(r) ==> {
            &&& r.0.headers.len() >= st.headers.len()
            &&& forall|i: int| 0 <= i < st.headers.len() ==> r.0.headers[i] == st.headers[i]
            &&& forall|i: int|
                st.headers.len() <= i < r.0.headers.len() ==> (#[trigger] r.0.headers[i]).0 != (
                "content-length")@
        },
    decreases input.len() - pos,
{
    if pos < input.len() {
        let l = spec_line(input, pos);
        lemma_spec_line_len(input, pos);
        let next = pos + l.len();
        if l != seq![13u8, 10u8] {
            match spec_parse_header(l) {
                Err(_) => {},
                Ok(nv) => {
                    match scan_update(st, nv, Method::Get) {
                        Err(_) => {},
                        Ok(st2) => {
                            assert(nv.0 != "content-length"@);
                            assert(st2.headers == st.headers.push(nv));
                            lemma_scan_get_no_content_length(input, next, st2);
                            assert(spec_scan(input, pos, Method::Get, st) == spec_scan(
                                input,
                                next,
                                Method::Get,
                                st2,
                            ));
                            match spec_scan(input, next, Method::Get, st2) {
                                Err(_) => {},
                                Ok(r) => {
                                    assert forall|i: int|
                                        0 <= i < st.headers.len() implies r.0.headers[i]
                                        == st.headers[i] by {
                                        assert(r.0.headers[i] == st2.headers[i]);
                                    }
                                    assert forall|i: int|
                                        st.headers.len() <= i < r.0.headers.len() implies (
                                    #[trigger] r.0.headers[i]).0 != "content-length"@ by {
                                        if i == st.headers.len() {
                                            assert(r.0.headers[i] == st2.headers[i]);
                                            assert(st2.headers[i] == nv);
                                        }
                                    }
                                },
                            }
                        },
                    }
                },
            }
        }
    }
}

/// The framing flags follow the header multimap exactly: after a scan,
/// `has_cl` holds exactly when some appended header is named
/// content-length, and `has_te` exactly when one is named
/// transfer-encoding.
pub proof fn lemma_scan_flags(input: Seq<u8>, pos: int, method: Method, st: ScanState)
    requires
        0 <= pos <= input.len(),
    ensures
        spec_scan(input, pos, method, st) matches Ok(r) ==> {
            &&& r.0.headers.len() >= st.headers.len()
            &&& forall|i: int| 0 <= i < st.headers.len() ==> r.0.headers[i] == st.headers[i]
            &&& (r.0.has_cl <==> (st.has_cl || exists|i: int|
                st.headers.len() <= i < r.0.headers.len() && (#[trigger] r.0.headers[i]).0 == (
                "content-length")@))
            &&& (r.0.has_te <==> (st.has_te || exists|i: int|
                st.headers.len() <= i < r.0.headers.len() && (#[trigger] r.0.headers[i]).0 == (
                "transfer-encoding")@))
        },
    decreases input.len() - pos,
{
    reveal_strlit("content-length");
    reveal_strlit("transfer-encoding");
    assert("content-length"@.len() == 14);
    assert("transfer-encoding"@.len() == 17);
    if pos < input.len() {
        let l = spec_line(input, pos);
        lemma_spec_line_len(input, pos);
        let next = pos + l.len();
        if l != seq![13u8, 10u8] {
            match spec_parse_header(l) {
                Err(_) => {},
                Ok(nv) => {
                    match scan_update(st, nv, method) {
                        Err(_) => {},
                        Ok(st2) => {
                            assert(st2.headers == st.headers.push(nv));
                            lemma_scan_flags(input, next, method, st2);
                            assert(spec_scan(input, pos, method, st) == spec_scan(
                                input,
                                next,
                                method,
                                st2,
                            ));
                            match spec_scan(input, next, method, st2) {
                                Err(_) => {},
                                Ok(r) => {
                                    let base = st.headers.len() as int;
                                    assert forall|i: int|
                                        0 <= i < st.headers.len() implies r.0.headers[i]
                                        == st.headers[i] by {
                                        assert(r.0.headers[i] == st2.headers[i]);
                                    }
                                    assert(r.0.headers[base] == st2.headers[base]);
                                    assert(st2.headers[base] == nv);
                                    // has_cl, left to right
                                    if r.0.has_cl && !st.has_cl {
                                        if st2.has_cl {
                                            assert(nv.0 == "content-length"@);
                                            assert((#[trigger] r.0.headers[base]).0 == (
                                            "content-length")@);
                                        } else {
                                            let j = choose|j: int|
                                                st2.headers.len() <= j < r.0.headers.len() && (
                                                #[trigger] r.0.headers[j]).0 == "content-length"@;
                                            assert(base <= j < r.0.headers.len());
                                        }
                                    }
                                    // has_cl, right to left
                                    if !r.0.has_cl && !st.has_cl {
                                        assert(!st2.has_cl);
                                        assert(nv.0 != "content-length"@);
                                        assert forall|i: int|
                                            base <= i < r.0.headers.len() implies (
                                        #[trigger] r.0.headers[i]).0 != "content-length"@ by {
                                            if i > base {
                                                assert(!(st2.headers.len() <= i
                                                    < r.0.headers.len() && r.0.headers[i].0 == (
                                                "content-length")@));
                                            }
                                        }
                                    }
                                    // has_te, left to right
                                    if r.0.has_te && !st.has_te {
                                        if st2.has_te {
                                            assert(nv.0 == "transfer-encoding"@);
                                            assert((#[trigger] r.0.headers[base]).0 == (
                                            "transfer-encoding")@);
                                        } else {
                                            let j = choose|j: int|
                                                st2.headers.len() <= j < r.0.headers.len() && (
                                                #[trigger] r.0.headers[j]).0 == (
                                                "transfer-encoding")@;
                                            assert(base <= j < r.0.headers.len());
                                        }
                                    }
                                    // has_te, right to left
                                    if !r.0.has_te && !st.has_te {
                                        assert(!st2.has_te);
                                        assert(nv.0 != "transfer-encoding"@);
                                        assert forall|i: int|
                                            base <= i < r.0.headers.len() implies (
                                        #[trigger] r.0.headers[i]).0 != "transfer-encoding"@ by {
                                            if i > base {
                                                assert(!(st2.headers.len() <= i
                                                    < r.0.headers.len() && r.0.headers[i].0 == (
                                                "transfer-encoding")@));
                                            }
                                        }
                                    }
                                },
                            }
                        },
                    }
                },
            }
        }
    }
}

/// The blank line that ends the header section never parses as a header.
proof fn lemma_blank_line_is_no_header()
    ensures
        spec_parse_header(seq![13u8, 10u8]) is Err,
{
    let l = seq![13u8, 10u8];
    assert(is_ws(10) && is_ws(13));
    assert(l.last() == 10 && l.drop_last() =~= seq![13u8]);
    assert(seq![13u8].last() == 13 && seq![13u8].drop_last() =~= Seq::<u8>::empty());
    assert(trim_end_bytes(Seq::<u8>::empty()) =~= Seq::<u8>::empty());
    assert(trim_end_bytes(seq![13u8]) =~= Seq::<u8>::empty());
    assert(trim_end_bytes(l) =~= Seq::<u8>::empty());
    assert(sep_pos(Seq::<u8>::empty()) == -1);
    assert(!valid_name_bytes(Seq::<u8>::empty()));
}

/// The moment the header scan of a GET request meets a well-formed
/// Content-Length header, it stops with BodyNotAllowed: no later header is
/// read and no body byte is ever considered.
pub proof fn lemma_scan_get_content_length_rejected(input: Seq<u8>, pos: int, st: ScanState)
    requires
        0 <= pos < input.len(),
        spec_parse_header(spec_line(input, pos)) matches Ok(nv) && nv.0 == "content-length"@,
    ensures
        spec_scan(input, pos, Method::Get, st) == Err::<(ScanState, int), SpecError>(
            SpecError::BodyNotAllowed,
        ),
{
    let l = spec_line(input, pos);
    if l == seq![13u8, 10u8] {
        lemma_blank_line_is_no_header();
        assert(false);
    }
}

/// A GET request never parses successfully with a Content-Length header
/// among its headers: the scan rejects such a request outright.
pub proof fn lemma_get_parse_no_content_length(input: Seq<u8>)
    ensures
        spec_parse_request(input) matches Ok(req) ==> (req.method == Method::Get ==> forall|
            i: int,
        |
            0 <= i < req.headers.len() ==> (#[trigger] req.headers[i]).0 != "content-length"@),
{
    if input.len() > 0 {
        lemma_spec_line_len(input, 0);
        let l1 = spec_line(input, 0);
        let pos1 = l1.len() as int;
        lemma_scan_get_no_content_length(input, pos1, scan_init());
    }
}

/// A POST request whose header section produced neither a Content-Length
/// nor a Transfer-Encoding header is rejected with LengthRequired before
/// any body is read.
pub proof fn lemma_post_without_framing_rejected(
    input: Seq<u8>,
    st: ScanState,
    body_pos: int,
    version: Version,
    t2: Seq<u8>,
)
    requires
        !st.has_cl,
        !st.has_te,
    ensures
        spec_finish(input, st, body_pos, Method::Post, version, t2) == Err::<
            RequestView,
            SpecError,
        >(SpecError::LengthRequired),
{
}

/// A POST request parses successfully only when it carries a
/// Content-Length or Transfer-Encoding header; without one the parser
/// answers LengthRequired, never a request.
pub proof fn lemma_post_parse_has_framing(input: Seq<u8>)
    ensures
        spec_parse_request(input) matches Ok(req) ==> (req.method == Method::Post ==> exists|
            i: int,
        |
            0 <= i < req.headers.len() && ((#[trigger] req.headers[i]).0 == "content-length"@
                || req.headers[i].0 == "transfer-encoding"@)),
{
    if input.len() > 0 {
        lemma_spec_line_len(input, 0);
        let l1 = spec_line(input, 0);
        let pos1 = l1.len() as int;
        lemma_scan_flags(input, pos1, Method::Post, scan_init());
        match spec_parse_request(input) {
            Err(_) => {},
            Ok(req) => {
                if req.method == Method::Post {
                    match spec_scan(input, pos1, Method::Post, scan_init()) {
                        Err(_) => {},
                        Ok(r) => {
                            assert(scan_init().headers.len() == 0);
                            assert(!scan_init().has_cl && !scan_init().has_te);
                            assert(r.0.has_cl <==> (scan_init().has_cl || exists|i: int|
                                scan_init().headers.len() <= i < r.0.headers.len() && (
                                #[trigger] r.0.headers[i]).0 == "content-length"@));
                            assert(r.0.has_te <==> (scan_init().has_te || exists|i: int|
                                scan_init().headers.len() <= i < r.0.headers.len() && (
                                #[trigger] r.0.headers[i]).0 == "transfer-encoding"@));
                            assert(req.headers == r.0.headers);
                            assert(r.0.has_cl || r.0.has_te);
                            if r.0.has_cl {
                                let j = choose|j: int|
                                    scan_init().headers.len() <= j < r.0.headers.len() && (
                                    #[trigger] r.0.headers[j]).0 == "content-length"@;
                                assert(0 <= j < req.headers.len() && (#[trigger] req.headers[j]).0
                                    == "content-length"@);
                            } else {
                                let j = choose|j: int|
                                    scan_init().headers.len() <= j < r.0.headers.len() && (
                                    #[trigger] r.0.headers[j]).0 == "transfer-encoding"@;
                                assert(0 <= j < req.headers.len() && (#[trigger] req.headers[j]).0
                                    == "transfer-encoding"@);
                            }
                        },
                    }
                }
            },
        }
    }
}

/// Whether every byte of a request-target is printable, non-blank ASCII.
fn target_ok_exec(t: &Vec<u8>) -> (r: bool)
    ensures
        r == target_ok(t@),
{
    let n = t.len();
    let mut i: usize = 0;
    while i < n
        invariant
            n == t@.len(),
            0 <= i <= n,
            forall|j: int| 0 <= j < i ==> 33 <= #[trigger] t@[j] <= 126,
        decreases n - i,
    {
        let b = t[i];
        if b < 33 || b > 126 {
            return false;
        }
        i += 1;
    }
    true
}

} // verus!
