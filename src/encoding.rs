//! Content-encoding negotiation and body compression.
use vstd::prelude::*;
use vstd::utf8::*;
use std::io::Write;
use crate::headers::{Fields, HttpHeaders, lookup};
use crate::text::{lowercase_text, lowered, split_byte, split_text, text_eq, trim, trimmed};

verus! {

broadcast use {encode_utf8_valid_utf8, encode_utf8_decode_utf8, decode_utf8_encode_utf8};

/// The encoding applied to a response body.
#[derive(Clone, Copy, Debug, PartialEq, Eq, Structural)]
pub enum ContentEncoding {
    /// No compression.
    Identity,
    Deflate,
    Gzip,
}

/// The `Content-Encoding` value that names an encoding.
pub open spec fn encoding_name(e: ContentEncoding) -> Seq<char> {
    match e {
        ContentEncoding::Gzip => "gzip"@,
        ContentEncoding::Deflate => "deflate"@,
        ContentEncoding::Identity => "identity"@,
    }
}

impl ContentEncoding {
    /// The lowercase name of the encoding, as `Content-Encoding` carries it.
    pub fn name(&self) -> (r: &'static str)
        ensures
            r@ == encoding_name(*self),
    {
        match self {
            ContentEncoding::Gzip => "gzip",
            ContentEncoding::Deflate => "deflate",
            ContentEncoding::Identity => "identity",
        }
    }
}

/// The encoding one token of `Accept-Encoding` asks for: the token is
/// trimmed and lowercased, then must be exactly `gzip` or `deflate`.
pub open spec fn token_encoding(token: Seq<char>) -> ContentEncoding {
    let word = lowered(trimmed(token));
    if word == "gzip"@ {
        ContentEncoding::Gzip
    } else if word == "deflate"@ {
        ContentEncoding::Deflate
    } else {
        ContentEncoding::Identity
    }
}

/// The encoding of the first token that names one, in the client's order.
pub open spec fn first_encoding(tokens: Seq<Seq<char>>) -> ContentEncoding
    decreases tokens.len(),
{
    if tokens.len() == 0 {
        ContentEncoding::Identity
    } else if token_encoding(tokens[0]) != ContentEncoding::Identity {
        token_encoding(tokens[0])
    } else {
        first_encoding(tokens.drop_first())
    }
}

/// The comma-separated tokens of a header value.
pub open spec fn accept_tokens(value: Seq<char>) -> Seq<Seq<char>> {
    split_byte(encode_utf8(value), 0x2c).map_values(|t: Seq<u8>| decode_utf8(t))
}

/// The encoding negotiated from a request's headers.
pub open spec fn negotiate(h: Fields) -> ContentEncoding {
    match lookup(h, "accept-encoding"@) {
        None => ContentEncoding::Identity,
        Some(v) => first_encoding(accept_tokens(v)),
    }
}

/// The encoding that one `Accept-Encoding` token asks for.
fn encoding_of_token(token: &str) -> (r: ContentEncoding)
    ensures
        r == token_encoding(token@),
{
    let word = lowercase_text(trim(token));
    if text_eq(word.as_str(), "gzip") {
        ContentEncoding::Gzip
    } else if text_eq(word.as_str(), "deflate") {
        ContentEncoding::Deflate
    } else {
        ContentEncoding::Identity
    }
}

/// Chooses the response encoding from the request's `Accept-Encoding`: the
/// first listed token that is `gzip` or `deflate` wins; none when the header
/// is absent or no token matches.
pub fn determine_content_encoding(request_headers: &HttpHeaders) -> (r: ContentEncoding)
    requires
        request_headers.wf(),
    ensures
        r == negotiate(request_headers@),
{
    let value = match request_headers.get("accept-encoding") {
        None => {
            return ContentEncoding::Identity;
        },
        Some(v) => v,
    };
    let tokens = split_text(value.as_str().as_bytes(), 0x2c);
    let ghost all = accept_tokens(value@);
    assert(tokens@.len() == all.len());
    assert(all.subrange(0, all.len() as int) =~= all);
    let mut i: usize = 0;
    while i < tokens.len()
        invariant
            i <= tokens@.len(),
            tokens@.len() == all.len(),
            negotiate(request_headers@) == first_encoding(all),
            forall|k: int| 0 <= k < all.len() ==> #[trigger] all[k] == tokens@[k]@,
            first_encoding(all) == first_encoding(all.subrange(i as int, all.len() as int)),
        decreases tokens@.len() - i,
    {
        let ghost rest = all.subrange(i as int, all.len() as int);
        assert(rest[0] == all[i as int]);
        let e = encoding_of_token(tokens[i].as_str());
        if e != ContentEncoding::Identity {
            return e;
        }
        assert(rest.drop_first() =~= all.subrange(i + 1, all.len() as int));
        i = i + 1;
    }
    assert(all.subrange(i as int, all.len() as int).len() == 0);
    ContentEncoding::Identity
}

/// What flate2's gzip encoder makes of some bytes at the default level.
pub uninterp spec fn gzip_of(data: Seq<u8>) -> Seq<u8>;

/// What flate2's raw deflate encoder makes of some bytes at the default level.
pub uninterp spec fn deflate_of(data: Seq<u8>) -> Seq<u8>;

/// Relies on flate2's `write::GzEncoder` at `Compression::default()`: the
/// whole input written and the stream finished gives the gzip stream of the
/// input. Its header has mtime 0 and OS byte 255, so the stream depends on
/// the input alone. The encoder fails only when the writer underneath fails
/// or on misuse of the compressor; writing into a `Vec` never fails, so it
/// succeeds.
#[verifier::external_body]
fn gzip(data: &[u8]) -> (r: Option<Vec<u8>>)
    ensures
        r is Some,
        r matches Some(v) ==> v@ == gzip_of(data@),
{
    let mut encoder = flate2::write::GzEncoder::new(Vec::new(), flate2::Compression::default());
    match encoder.write_all(data) {
        Ok(()) => encoder.finish().ok(),
        Err(_) => None,
    }
}

/// Relies on flate2's `write::DeflateEncoder` at `Compression::default()`:
/// the whole input written and the stream finished gives the raw deflate
/// stream of the input. As for gzip, it fails only when the writer
/// underneath fails, which a `Vec` never does, so it succeeds.
#[verifier::external_body]
fn deflate(data: &[u8]) -> (r: Option<Vec<u8>>)
    ensures
        r is Some,
        r matches Some(v) ==> v@ == deflate_of(data@),
{
    let mut encoder = flate2::write::DeflateEncoder::new(Vec::new(), flate2::Compression::default());
    match encoder.write_all(data) {
        Ok(()) => encoder.finish().ok(),
        Err(_) => None,
    }
}

/// Bytes under an encoding other than none.
pub open spec fn encoded(e: ContentEncoding, data: Seq<u8>) -> Seq<u8> {
    match e {
        ContentEncoding::Gzip => gzip_of(data),
        ContentEncoding::Deflate => deflate_of(data),
        ContentEncoding::Identity => data,
    }
}

/// Compresses `data` under `e`; `None` would stand for a failed encoder.
pub fn compress(e: ContentEncoding, data: &[u8]) -> (r: Option<Vec<u8>>)
    ensures
        r is Some,
        r matches Some(v) ==> v@ == encoded(e, data@),
{
    match e {
        ContentEncoding::Gzip => gzip(data),
        ContentEncoding::Deflate => deflate(data),
        ContentEncoding::Identity => {
            let mut v: Vec<u8> = Vec::new();
            v.extend_from_slice(data);
            assert(v@ =~= data@);
            Some(v)
        },
    }
}

} // verus!
