//! Response finishing (encoding, default headers) and serialization.
use vstd::prelude::*;
use vstd::utf8::*;
use crate::body::HttpBody;
use crate::encoding::{
    ContentEncoding, compress, determine_content_encoding, encoded, encoding_name, negotiate,
};
use crate::headers::{
    Fields, HttpHeaders, has_name, inserted, lemma_inserted_unique, lemma_lookup_other, lookup,
    unique_names,
};
use crate::text::fold_name;
use crate::number::{decimal, decimal_text, push_decimal};
use crate::status::{HttpStatus, reason_phrase};

verus! {

broadcast use {encode_utf8_valid_utf8, encode_utf8_decode_utf8, decode_utf8_encode_utf8};

/// A response as a handler builds it.
pub struct HttpResponse {
    pub status: HttpStatus,
    pub headers: HttpHeaders,
    pub body: Option<HttpBody>,
}

/// A response as the contracts see it.
pub struct ResponseView {
    pub status: u16,
    pub headers: Fields,
    pub body: Option<Seq<u8>>,
}

impl View for HttpResponse {
    type V = ResponseView;

    open spec fn view(&self) -> ResponseView {
        ResponseView {
            status: self.status@,
            headers: self.headers@,
            body: match self.body {
                Some(b) => Some(b.bytes()),
                None => None,
            },
        }
    }
}

/// Why a response could not be produced or sent.
#[derive(Clone, Copy, Debug, PartialEq, Eq, Structural)]
pub enum ResponseError {
    /// The encoder failed on the body.
    CompressionFailure,
    /// Writing to the stream failed.
    StreamWriteFailure,
}

/// The number of body bytes, zero for no body.
pub open spec fn body_len(body: Option<Seq<u8>>) -> nat {
    match body {
        Some(b) => b.len(),
        None => 0,
    }
}

/// The response after its body is put under `e`, with `content-encoding`
/// naming it; a response without a body, or under no encoding, is kept.
pub open spec fn with_encoding(v: ResponseView, e: ContentEncoding) -> ResponseView {
    match v.body {
        Some(b) => if e != ContentEncoding::Identity {
            ResponseView {
                status: v.status,
                headers: inserted(v.headers, "content-encoding"@, encoding_name(e)),
                body: Some(encoded(e, b)),
            }
        } else {
            v
        },
        None => v,
    }
}

/// The response with `content-type: text/plain` unless it has a content type.
pub open spec fn with_content_type(v: ResponseView) -> ResponseView {
    if has_name(v.headers, "content-type"@) {
        v
    } else {
        ResponseView {
            status: v.status,
            headers: inserted(v.headers, "content-type"@, "text/plain"@),
            body: v.body,
        }
    }
}

/// The response with `content-length` set to its body's byte count.
pub open spec fn with_content_length(v: ResponseView) -> ResponseView {
    ResponseView {
        status: v.status,
        headers: inserted(v.headers, "content-length"@, decode_utf8(decimal(body_len(v.body)))),
        body: v.body,
    }
}

/// The response as it goes on the wire under encoding `e`.
pub open spec fn finished(v: ResponseView, e: ContentEncoding) -> ResponseView {
    with_content_length(with_content_type(with_encoding(v, e)))
}

/// `HTTP/1.1 <code> <reason>\r\n`.
pub open spec fn status_line(code: u16) -> Seq<u8> {
    encode_utf8("HTTP/1.1 "@) + decimal(code as nat) + seq![0x20u8] + encode_utf8(reason_phrase(code))
        + seq![0x0du8, 0x0au8]
}

/// `<name>: <value>\r\n`.
pub open spec fn field_line(f: (Seq<char>, Seq<char>)) -> Seq<u8> {
    encode_utf8(f.0) + seq![0x3au8, 0x20u8] + encode_utf8(f.1) + seq![0x0du8, 0x0au8]
}

/// The field lines of a header block, in order.
pub open spec fn header_block(h: Fields) -> Seq<u8>
    decreases h.len(),
{
    if h.len() == 0 {
        Seq::empty()
    } else {
        header_block(h.drop_last()) + field_line(h.last())
    }
}

/// The bytes of a response: status line, field lines, an empty line, the body.
pub open spec fn response_bytes(v: ResponseView) -> Seq<u8> {
    status_line(v.status) + header_block(v.headers) + seq![0x0du8, 0x0au8] + match v.body {
        Some(b) => b,
        None => Seq::empty(),
    }
}

/// Sets `content-encoding` to the name of `e`, unless `e` is no encoding.
pub fn set_content_encoding_header(response: &mut HttpResponse, e: ContentEncoding)
    requires
        old(response).headers.wf(),
    ensures
        final(response).headers.wf(),
        final(response).status@ == old(response).status@,
        final(response).body == old(response).body,
        final(response)@.headers == if e == ContentEncoding::Identity {
            old(response)@.headers
        } else {
            inserted(old(response)@.headers, "content-encoding"@, encoding_name(e))
        },
{
    if e == ContentEncoding::Identity {
        return;
    }
    let name = String::from_str("content-encoding");
    let value = String::from_str(e.name());
    response.headers.insert(name, value);
}

/// Puts the body under `e` as bytes and names the encoding in
/// `content-encoding`; a response without a body, or under no encoding, is
/// left alone. A failed encoder would be reported, never passed over.
pub fn compress_body(response: &mut HttpResponse, e: ContentEncoding) -> (r: Result<
    (),
    ResponseError,
>)
    requires
        old(response).headers.wf(),
    ensures
        final(response).headers.wf(),
        r is Ok,
        final(response)@ == with_encoding(old(response)@, e),
        e != ContentEncoding::Identity && old(response)@.body is Some ==> (final(response).body matches Some(HttpBody::Binary(_))),
        e == ContentEncoding::Identity || old(response)@.body is None ==> final(response).body
            == old(response).body,
{
    if e == ContentEncoding::Identity {
        return Ok(());
    }
    let compressed = match &response.body {
        None => {
            return Ok(());
        },
        Some(body) => compress(e, body.as_bytes()),
    };
    match compressed {
        None => Err(ResponseError::CompressionFailure),
        Some(bytes) => {
            response.body = Some(HttpBody::Binary(bytes));
            set_content_encoding_header(response, e);
            Ok(())
        },
    }
}

/// The number of body bytes.
pub fn determine_content_length(body: &Option<HttpBody>) -> (r: usize)
    ensures
        r == body_len(
            match body {
                Some(b) => Some(b.bytes()),
                None => None,
            },
        ),
{
    match body {
        None => 0,
        Some(b) => b.as_bytes().len(),
    }
}

/// Sets `content-length` to the body's byte count.
pub fn set_content_length_header(response: &mut HttpResponse)
    requires
        old(response).headers.wf(),
    ensures
        final(response).headers.wf(),
        final(response)@ == with_content_length(old(response)@),
{
    let n = determine_content_length(&response.body);
    let name = String::from_str("content-length");
    let value = decimal_text(n);
    response.headers.insert(name, value);
}

/// Sets `content-type: text/plain` unless the response has a content type.
pub fn set_content_type_header(response: &mut HttpResponse)
    requires
        old(response).headers.wf(),
    ensures
        final(response).headers.wf(),
        final(response)@ == with_content_type(old(response)@),
{
    if response.headers.get("content-type").is_some() {
        return;
    }
    let name = String::from_str("content-type");
    let value = String::from_str("text/plain");
    response.headers.insert(name, value);
}

/// Appends the status line.
pub fn send_status_line(out: &mut Vec<u8>, status: &HttpStatus)
    ensures
        final(out)@ == old(out)@ + status_line(status@),
{
    out.extend_from_slice("HTTP/1.1 ".as_bytes());
    push_decimal(status.code() as usize, out);
    out.push(0x20);
    out.extend_from_slice(status.reason().as_bytes());
    out.push(0x0d);
    out.push(0x0a);
    assert(final(out)@ =~= old(out)@ + status_line(status@));
}

/// Appends the field lines and the empty line that ends them.
pub fn send_headers(out: &mut Vec<u8>, headers: &HttpHeaders)
    ensures
        final(out)@ == old(out)@ + header_block(headers@) + seq![0x0du8, 0x0au8],
{
    let mut i: usize = 0;
    while i < headers.len()
        invariant
            i <= headers@.len(),
            out@ == old(out)@ + header_block(headers@.subrange(0, i as int)),
        decreases headers@.len() - i,
    {
        let ghost before = out@;
        out.extend_from_slice(headers.name(i).as_str().as_bytes());
        out.push(0x3a);
        out.push(0x20);
        out.extend_from_slice(headers.value(i).as_str().as_bytes());
        out.push(0x0d);
        out.push(0x0a);
        proof {
            let h = headers@.subrange(0, i + 1);
            assert(h.drop_last() =~= headers@.subrange(0, i as int));
            assert(out@ =~= before + field_line(h.last()));
        }
        i = i + 1;
    }
    assert(headers@.subrange(0, i as int) =~= headers@);
    out.push(0x0d);
    out.push(0x0a);
    assert(final(out)@ =~= old(out)@ + header_block(headers@) + seq![0x0du8, 0x0au8]);
}

/// Appends the body bytes, if any.
pub fn send_body(out: &mut Vec<u8>, body: &Option<HttpBody>)
    ensures
        final(out)@ == old(out)@ + match body {
            Some(b) => b.bytes(),
            None => Seq::empty(),
        },
{
    match body {
        None => {
            assert(final(out)@ =~= old(out)@ + Seq::<u8>::empty());
        },
        Some(b) => {
            out.extend_from_slice(b.as_bytes());
        },
    }
}

/// The bytes of a response, written as it stands.
pub fn serialize(response: &HttpResponse) -> (r: Vec<u8>)
    ensures
        r@ == response_bytes(response@),
{
    let mut out: Vec<u8> = Vec::new();
    send_status_line(&mut out, &response.status);
    send_headers(&mut out, &response.headers);
    send_body(&mut out, &response.body);
    assert(out@ =~= response_bytes(response@));
    out
}

/// The bytes that answer a request with `response`: the body is compressed
/// under the encoding negotiated from `request_headers`, `content-type`
/// defaults to `text/plain`, `content-length` gives the body's byte count.
pub fn send(request_headers: &HttpHeaders, response: HttpResponse) -> (r: Result<
    Vec<u8>,
    ResponseError,
>)
    requires
        request_headers.wf(),
        response.headers.wf(),
    ensures
        r matches Ok(bytes) && bytes@ == response_bytes(
            finished(response@, negotiate(request_headers@)),
        ),
{
    let mut response = response;
    let e = determine_content_encoding(request_headers);
    match compress_body(&mut response, e) {
        Err(x) => {
            return Err(x);
        },
        Ok(()) => {},
    }
    set_content_type_header(&mut response);
    set_content_length_header(&mut response);
    Ok(serialize(&response))
}

/// The names of the headers this layer sets differ, case aside.
proof fn lemma_names_distinct()
    ensures
        fold_name("content-encoding"@) != fold_name("content-type"@),
        fold_name("content-encoding"@) != fold_name("content-length"@),
        fold_name("content-type"@) != fold_name("content-length"@),
{
    reveal_strlit("content-encoding");
    reveal_strlit("content-type");
    reveal_strlit("content-length");
    assert(is_ascii_chars("content-encoding"@));
    assert(is_ascii_chars("content-type"@));
    assert(is_ascii_chars("content-length"@));
    is_ascii_chars_encode_utf8("content-encoding"@);
    is_ascii_chars_encode_utf8("content-type"@);
    is_ascii_chars_encode_utf8("content-length"@);
    assert(fold_name("content-encoding"@).len() == 16);
    assert(fold_name("content-type"@).len() == 12);
    assert(fold_name("content-length"@).len() == 14);
}

/// Under gzip or deflate, a response with a body goes out with the encoded
/// body, `content-encoding` naming the encoding, and a `content-length`
/// that counts the encoded bytes, not the uncompressed ones.
pub proof fn lemma_encoded_response_headers(v: ResponseView, e: ContentEncoding)
    requires
        unique_names(v.headers),
        e != ContentEncoding::Identity,
        v.body is Some,
    ensures
        finished(v, e).body == Some(encoded(e, v.body.unwrap())),
        lookup(finished(v, e).headers, "content-encoding"@) == Some(encoding_name(e)),
        lookup(finished(v, e).headers, "content-length"@) == Some(
            decode_utf8(decimal(encoded(e, v.body.unwrap()).len())),
        ),
{
    lemma_names_distinct();
    let a = with_encoding(v, e);
    let b = with_content_type(a);
    lemma_inserted_unique(v.headers, "content-encoding"@, encoding_name(e));
    if !has_name(a.headers, "content-type"@) {
        lemma_lookup_other(a.headers, "content-type"@, "text/plain"@, "content-encoding"@);
        lemma_inserted_unique(a.headers, "content-type"@, "text/plain"@);
    }
    lemma_lookup_other(
        b.headers,
        "content-length"@,
        decode_utf8(decimal(body_len(b.body))),
        "content-encoding"@,
    );
    lemma_inserted_unique(b.headers, "content-length"@, decode_utf8(decimal(body_len(b.body))));
}

/// A response without a body goes out with `content-length: 0` and nothing
/// after the empty line that ends the headers.
pub proof fn lemma_empty_response(v: ResponseView, e: ContentEncoding)
    requires
        unique_names(v.headers),
        v.body is None,
    ensures
        lookup(finished(v, e).headers, "content-length"@) == Some("0"@),
        response_bytes(finished(v, e)) == status_line(v.status) + header_block(
            finished(v, e).headers,
        ) + seq![0x0du8, 0x0au8],
{
    let b = with_content_type(with_encoding(v, e));
    if !has_name(v.headers, "content-type"@) {
        lemma_inserted_unique(v.headers, "content-type"@, "text/plain"@);
    }
    lemma_inserted_unique(b.headers, "content-length"@, decode_utf8(decimal(0)));
    reveal_strlit("0");
    assert(is_ascii_chars("0"@));
    is_ascii_chars_encode_utf8("0"@);
    assert(encode_utf8("0"@) =~= decimal(0));
    assert(response_bytes(finished(v, e)) =~= status_line(v.status) + header_block(
        finished(v, e).headers,
    ) + seq![0x0du8, 0x0au8]);
}

} // verus!
