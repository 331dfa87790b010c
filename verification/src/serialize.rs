//! The response serializer: a structured response rendered as wire bytes,
//! the status line first, then one line per header in insertion order,
//! a blank line, and the body.

use vstd::prelude::*;
use vstd::utf8::encode_utf8;
use crate::message::{Request, RequestView, Response, ResponseView};
use crate::text::{string_bytes, chars_to_bytes, bytes_to_chars, lemma_ascii_encode};
use crate::parse::{
    lemma_trim_end_is, lemma_sep_pos_is, trim_end_bytes, norm_byte, norm_name, valid_name_bytes,
    valid_value_bytes, is_ws, spec_scan, spec_line, lemma_bytes_until_is, scan_update,
    spec_parse_header,
};

verus! {

/// The wire bytes of a response's status line: version, space, status code
/// with its reason phrase, and the line terminator.
pub open spec fn spec_status_line(r: ResponseView) -> Seq<u8> {
    encode_utf8(r.version.spec_label()) + seq![32u8] + encode_utf8(r.status.spec_text()) + seq![
        13u8,
        10u8,
    ]
}

/// The wire bytes of one header line: `name: value` and the terminator.
pub open spec fn spec_header_line(h: (Seq<char>, Seq<char>)) -> Seq<u8> {
    encode_utf8(h.0) + seq![58u8, 32u8] + encode_utf8(h.1) + seq![13u8, 10u8]
}

/// The wire bytes of the whole header block, one line per header, in
/// order, duplicates repeated.
pub open spec fn spec_header_block(hs: Seq<(Seq<char>, Seq<char>)>) -> Seq<u8>
    decreases hs.len(),
{
    if hs.len() == 0 {
        Seq::empty()
    } else {
        spec_header_line(hs.first()) + spec_header_block(hs.drop_first())
    }
}

/// Appending one header appends exactly its line.
pub proof fn lemma_header_block_push(hs: Seq<(Seq<char>, Seq<char>)>, h: (Seq<char>, Seq<char>))
    ensures
        spec_header_block(hs.push(h)) =~= spec_header_block(hs) + spec_header_line(h),
    decreases hs.len(),
{
    if hs.len() == 0 {
        assert(hs.push(h).drop_first() =~~= Seq::<(Seq<char>, Seq<char>)>::empty());
        assert(hs.push(h).first() == h);
        assert(spec_header_block(hs.push(h)) == spec_header_line(h) + spec_header_block(
            Seq::<(Seq<char>, Seq<char>)>::empty(),
        ));
        assert(spec_header_block(Seq::<(Seq<char>, Seq<char>)>::empty()) =~= Seq::<u8>::empty());
        assert(spec_header_block(hs) =~= Seq::<u8>::empty());
    } else {
        assert(hs.push(h).first() == hs.first());
        assert(hs.push(h).drop_first() =~~= hs.drop_first().push(h));
        lemma_header_block_push(hs.drop_first(), h);
        assert(spec_header_block(hs.push(h)) == spec_header_line(hs.first()) + spec_header_block(
            hs.drop_first().push(h),
        ));
        assert(spec_header_block(hs) == spec_header_line(hs.first()) + spec_header_block(
            hs.drop_first(),
        ));
    }
}

/// The body bytes: empty when the response has none.
pub open spec fn spec_body_bytes(body: Option<Seq<u8>>) -> Seq<u8> {
    match body {
        Some(b) => b,
        None => Seq::empty(),
    }
}

/// The full wire form of a response.
pub open spec fn spec_serialize_response(r: ResponseView) -> Seq<u8> {
    spec_status_line(r) + spec_header_block(r.headers) + seq![13u8, 10u8] + spec_body_bytes(r.body)
}

/// Renders a response into the bytes written to the socket: status line,
/// headers in insertion order, a blank line, then the body.
pub fn serialize_response(resp: &Response) -> (out: Vec<u8>)
    ensures
        out@ == spec_serialize_response(resp@),
{
    let mut out = string_bytes(resp.version.label());
    out.push(32);
    let mut status = string_bytes(resp.status.text());
    out.append(&mut status);
    out.push(13);
    out.push(10);
    assert(out@ =~= spec_status_line(resp@));
    let ghost sl = spec_status_line(resp@);

    let n = resp.headers.len();
    let mut i: usize = 0;
    proof {
        assert(crate::message::headers_view(resp.headers@).take(0) =~~= Seq::<
            (Seq<char>, Seq<char>),
        >::empty());
    }
    while i < n
        invariant
            n == resp.headers@.len(),
            0 <= i <= n,
            out@ =~= sl + spec_header_block(
                crate::message::headers_view(resp.headers@).take(i as int),
            ),
        decreases n - i,
    {
        let h = &resp.headers[i];
        let ghost hv = crate::message::headers_view(resp.headers@);
        let ghost before = out@;
        let mut name = string_bytes(h.name.as_str());
        out.append(&mut name);
        out.push(58);
        out.push(32);
        let mut value = string_bytes(h.value.as_str());
        out.append(&mut value);
        out.push(13);
        out.push(10);
        proof {
            assert(out@ =~= before + spec_header_line(hv[i as int]));
            lemma_header_block_push(hv.take(i as int), hv[i as int]);
            assert(hv.take(i + 1) =~~= hv.take(i as int).push(hv[i as int]));
            assert(out@ =~= sl + spec_header_block(hv.take(i + 1)));
        }
        i += 1;
    }
    proof {
        let hv = crate::message::headers_view(resp.headers@);
        assert(hv.take(n as int) =~~= hv);
    }
    out.push(13);
    out.push(10);
    match &resp.body {
        Some(b) => {
            let mut body = b.clone();
            out.append(&mut body);
        },
        None => {},
    }
    assert(out@ =~= spec_serialize_response(resp@));
    out
}

/// An ASCII character survives the trip through its byte.
pub proof fn lemma_ascii_char_round_trip(c: char)
    requires
        c < 128,
    ensures
        ((c as u8) as char) == c,
{
}

/// An ASCII character lies in the seven-bit range.
pub proof fn lemma_ascii_char_bound(c: char)
    requires
        c < 128,
    ensures
        '\0' <= c <= '\u{7f}',
{
}

/// The wire text of a request - the symmetric rendering used when the
/// verbose log shows what was received: request line, headers in arrival
/// order, and the blank line. The body is not part of the text.
pub open spec fn spec_request_text(r: RequestView) -> Seq<u8> {
    encode_utf8(r.method.spec_token()) + seq![32u8] + encode_utf8(r.target) + seq![32u8]
        + encode_utf8(r.version.spec_label()) + seq![13u8, 10u8] + spec_header_block(r.headers)
        + seq![13u8, 10u8]
}

/// Renders a request back into its wire text, for logging.
pub fn serialize_request(req: &Request) -> (out: Vec<u8>)
    ensures
        out@ == spec_request_text(req@),
{
    let mut out = string_bytes(req.method.token());
    out.push(32);
    let mut target = string_bytes(req.target.as_str());
    out.append(&mut target);
    out.push(32);
    let mut version = string_bytes(req.version.label());
    out.append(&mut version);
    out.push(13);
    out.push(10);
    let ghost sl = out@;

    let n = req.headers.len();
    let mut i: usize = 0;
    proof {
        assert(crate::message::headers_view(req.headers@).take(0) =~~= Seq::<
            (Seq<char>, Seq<char>),
        >::empty());
    }
    while i < n
        invariant
            n == req.headers@.len(),
            0 <= i <= n,
            out@ =~= sl + spec_header_block(
                crate::message::headers_view(req.headers@).take(i as int),
            ),
        decreases n - i,
    {
        let h = &req.headers[i];
        let ghost hv = crate::message::headers_view(req.headers@);
        let ghost before = out@;
        let mut name = string_bytes(h.name.as_str());
        out.append(&mut name);
        out.push(58);
        out.push(32);
        let mut value = string_bytes(h.value.as_str());
        out.append(&mut value);
        out.push(13);
        out.push(10);
        proof {
            assert(out@ =~= before + spec_header_line(hv[i as int]));
            lemma_header_block_push(hv.take(i as int), hv[i as int]);
            assert(hv.take(i + 1) =~~= hv.take(i as int).push(hv[i as int]));
            assert(out@ =~= sl + spec_header_block(hv.take(i + 1)));
        }
        i += 1;
    }
    proof {
        let hv = crate::message::headers_view(req.headers@);
        assert(hv.take(n as int) =~~= hv);
    }
    out.push(13);
    out.push(10);
    assert(out@ =~= spec_request_text(req@));
    out
}

/// ASCII characters survive the trip through their bytes.
pub proof fn lemma_ascii_chars_round_trip(s: Seq<char>)
    requires
        forall|i: int| 0 <= i < s.len() ==> #[trigger] s[i] < 128,
    ensures
        crate::text::bytes_to_chars(crate::text::chars_to_bytes(s)) =~= s,
{
    assert forall|i: int| 0 <= i < s.len() implies crate::text::bytes_to_chars(
        crate::text::chars_to_bytes(s),
    )[i] == s[i] by {
        lemma_ascii_char_round_trip(s[i]);
        assert(chars_to_bytes(s)[i] == s[i] as u8);
    }
}

/// Both halves of a well-formed header are ASCII text.
proof fn lemma_valid_header_ascii(h: (Seq<char>, Seq<char>))
    requires
        crate::message::valid_header(h),
    ensures
        vstd::utf8::is_ascii_chars(h.0),
        vstd::utf8::is_ascii_chars(h.1),
        forall|i: int| 0 <= i < h.0.len() ==> #[trigger] h.0[i] < 128,
        forall|i: int| 0 <= i < h.1.len() ==> #[trigger] h.1[i] < 128,
{
    assert forall|i: int| 0 <= i < h.0.len() implies '\0' <= #[trigger] h.0[i] <= '\u{7f}'
        && h.0[i] < 128 by {
        assert(crate::message::is_name_byte(h.0[i] as u8) && h.0[i] < 128);
        lemma_ascii_char_bound(h.0[i]);
    }
    assert forall|i: int| 0 <= i < h.1.len() implies '\0' <= #[trigger] h.1[i] <= '\u{7f}'
        && h.1[i] < 128 by {
        assert(crate::message::is_value_byte(h.1[i] as u8) && h.1[i] < 128);
        lemma_ascii_char_bound(h.1[i]);
    }
}

/// A well-formed header's serialized line parses back to exactly that
/// header: trimming strips only the terminator, the first `": "` sits
/// between name and value, and both halves validate unchanged.
pub proof fn lemma_header_line_round_trip(h: (Seq<char>, Seq<char>))
    requires
        crate::message::valid_header(h),
    ensures
        crate::parse::spec_parse_header(spec_header_line(h)) == Ok::<
            (Seq<char>, Seq<char>),
            crate::parse::HeaderFault,
        >(h),
{
    lemma_valid_header_ascii(h);
    lemma_ascii_encode(h.0);
    lemma_ascii_encode(h.1);
    let name_b = chars_to_bytes(h.0);
    let value_b = chars_to_bytes(h.1);
    let line = spec_header_line(h);
    assert(line =~= name_b + seq![58u8, 32u8] + value_b + seq![13u8, 10u8]);
    let nl = name_b.len() as int;
    let vl = value_b.len() as int;
    let k = line.len() - 2;

    // Every name byte is a token byte, hence printable and never a colon.
    assert forall|i: int| 0 <= i < nl implies crate::message::is_name_byte(
        #[trigger] name_b[i],
    ) by {
        assert(name_b[i] == h.0[i] as u8);
    }
    assert forall|i: int| 0 <= i < vl implies crate::message::is_value_byte(
        #[trigger] value_b[i],
    ) by {
        assert(value_b[i] == h.1[i] as u8);
    }

    // Trimming strips exactly the final CRLF.
    assert(line[k] == 13 && line[k + 1] == 10);
    assert(line[k - 1] == value_b[vl - 1]);
    assert(h.1[vl - 1] != ' ' && h.1[vl - 1] != '\t');
    assert(crate::message::is_value_byte(value_b[vl - 1]));
    assert(!is_ws(line[k - 1]));
    lemma_trim_end_is(line, k);
    let t = trim_end_bytes(line);
    assert(t =~= name_b + seq![58u8, 32u8] + value_b);

    // The first ": " sits right after the name.
    assert forall|j: int| 0 <= j < nl implies !(#[trigger] t[j] == 58 && t[j + 1] == 32) by {
        assert(crate::message::is_name_byte(name_b[j]));
    }
    assert(t[nl] == 58 && t[nl + 1] == 32);
    lemma_sep_pos_is(t, nl);

    assert(t.take(nl) =~= name_b);
    assert(t.skip(nl + 2) =~= value_b);
    assert(valid_name_bytes(name_b));
    assert(valid_value_bytes(value_b));
    assert(name_b.map_values(|b: u8| norm_byte(b)) =~= name_b);
    lemma_ascii_chars_round_trip(h.0);
    lemma_ascii_chars_round_trip(h.1);
    assert(norm_name(name_b) =~= h.0);
    assert(bytes_to_chars(value_b) =~= h.1);
}

/// Scanning the serialized header block of well-formed headers - placed
/// after any prefix and before the blank line and any trailing bytes -
/// appends exactly those headers, in order, to the scan state.
#[verifier::rlimit(60)]
pub proof fn lemma_header_block_scan(
    pre: Seq<u8>,
    hs: Seq<(Seq<char>, Seq<char>)>,
    suffix: Seq<u8>,
    method: crate::message::Method,
    st: crate::parse::ScanState,
)
    requires
        forall|i: int| 0 <= i < hs.len() ==> crate::message::valid_header(#[trigger] hs[i]),
        forall|i: int|
            0 <= i < hs.len() ==> ((#[trigger] hs[i]).0 == "content-length"@
                ==> crate::parse::spec_parse_usize(hs[i].1) is Some),
        method == crate::message::Method::Get ==> forall|i: int|
            0 <= i < hs.len() ==> (#[trigger] hs[i]).0 != "content-length"@,
    ensures
        crate::parse::spec_scan(
            pre + spec_header_block(hs) + seq![13u8, 10u8] + suffix,
            pre.len() as int,
            method,
            st,
        ) matches Ok(res) && res.0.headers == st.headers + hs && res.1 == pre.len()
            + spec_header_block(hs).len() + 2,
    decreases hs.len(),
{
    let input = pre + spec_header_block(hs) + seq![13u8, 10u8] + suffix;
    let pos = pre.len() as int;
    if hs.len() == 0 {
        assert(spec_header_block(hs) =~= Seq::<u8>::empty());
        assert(input[pos] == 13 && input[pos + 1] == 10);
        lemma_bytes_until_is(input.skip(pos), 10, 1);
        assert(spec_line(input, pos) =~= seq![13u8, 10u8]);
        assert(spec_scan(input, pos, method, st) == Ok::<
            (crate::parse::ScanState, int),
            crate::error::SpecError,
        >((st, pos + 2)));
        assert(st.headers + hs =~= st.headers);
    } else {
        let h = hs.first();
        let rest = hs.drop_first();
        let line_h = spec_header_line(h);
        assert(spec_header_block(hs) == line_h + spec_header_block(rest));
        lemma_valid_header_ascii(h);
        crate::text::lemma_ascii_encode(h.0);
        crate::text::lemma_ascii_encode(h.1);
        assert(line_h.len() == h.0.len() + h.1.len() + 4);

        // The first line feed after `pos` ends this header's line.
        assert forall|j: int| 0 <= j < line_h.len() - 1 implies #[trigger] line_h[j] != 10 by {
            if j < h.0.len() {
                assert(line_h[j] == h.0[j] as u8);
                assert(crate::message::is_name_byte(h.0[j] as u8));
            } else if j >= h.0.len() + 2 && j < line_h.len() - 2 {
                assert(line_h[j] == h.1[j - h.0.len() - 2] as u8);
                assert(crate::message::is_value_byte(line_h[j]));
            }
        }
        assert(line_h.last() == 10);
        assert forall|j: int| 0 <= j < line_h.len() - 1 implies #[trigger] input[pos + j]
            != 10 by {
            assert(input[pos + j] == line_h[j]);
        }
        assert(input[pos + line_h.len() - 1] == 10);
        lemma_bytes_until_is(input.skip(pos), 10, line_h.len() - 1);
        assert(spec_line(input, pos) =~= line_h);
        assert(line_h.len() > 2);
        assert(line_h != seq![13u8, 10u8]);

        lemma_header_line_round_trip(h);
        assert(spec_parse_header(line_h) == Ok::<
            (Seq<char>, Seq<char>),
            crate::parse::HeaderFault,
        >(h));
        let up = scan_update(st, h, method);
        assert(up is Ok);
        let st2 = up->Ok_0;
        assert(st2.headers == st.headers.push(h));

        let pre2 = pre + line_h;
        assert(forall|i: int| 0 <= i < rest.len() ==> rest[i] == hs[i + 1]);
        lemma_header_block_scan(pre2, rest, suffix, method, st2);
        let input2 = pre2 + spec_header_block(rest) + seq![13u8, 10u8] + suffix;
        assert(input2 =~= input);
        assert(st2.headers + rest =~= st.headers + hs);
        assert(spec_scan(input, pos, method, st) == spec_scan(
            input,
            pos + line_h.len(),
            method,
            st2,
        ));
    }
}

/// Round trip: serializing a response and re-scanning its header block, as
/// the request parser scans a header section, yields back exactly the
/// response's ordered header multimap - order and duplicates preserved.
/// It holds for every response whose headers are well formed, whose
/// Content-Length values are numeric, and - when re-read as a GET request -
/// that carries no Content-Length header at all.
pub proof fn lemma_response_round_trip(r: ResponseView, method: crate::message::Method)
    requires
        forall|i: int| 0 <= i < r.headers.len() ==> crate::message::valid_header(
            #[trigger] r.headers[i],
        ),
        forall|i: int|
            0 <= i < r.headers.len() ==> ((#[trigger] r.headers[i]).0 == "content-length"@
                ==> crate::parse::spec_parse_usize(r.headers[i].1) is Some),
        method == crate::message::Method::Get ==> forall|i: int|
            0 <= i < r.headers.len() ==> (#[trigger] r.headers[i]).0 != "content-length"@,
    ensures
        crate::parse::spec_scan(
            spec_serialize_response(r),
            spec_status_line(r).len() as int,
            method,
            crate::parse::scan_init(),
        ) matches Ok(res) && res.0.headers == r.headers,
{
    lemma_header_block_scan(
        spec_status_line(r),
        r.headers,
        spec_body_bytes(r.body),
        method,
        crate::parse::scan_init(),
    );
    let input = spec_status_line(r) + spec_header_block(r.headers) + seq![13u8, 10u8]
        + spec_body_bytes(r.body);
    assert(input =~= spec_serialize_response(r));
    assert(crate::parse::scan_init().headers + r.headers =~= r.headers);
}

} // verus!
