use std::io::Read;

use http_server::body::HttpBody;
use http_server::encoding::{compress, determine_content_encoding, ContentEncoding};
use http_server::headers::HttpHeaders;
use http_server::request::parse;
use http_server::response::{send, serialize, HttpResponse};
use http_server::status::HttpStatus;

fn headers_with(pairs: &[(&str, &str)]) -> HttpHeaders {
    let mut h = HttpHeaders::new();
    for (k, v) in pairs {
        h.insert(k.to_string(), v.to_string());
    }
    h
}

fn accept(value: Option<&str>) -> ContentEncoding {
    match value {
        Some(v) => determine_content_encoding(&headers_with(&[("accept-encoding", v)])),
        None => determine_content_encoding(&HttpHeaders::new()),
    }
}

fn split_response(bytes: &[u8]) -> (String, Vec<u8>) {
    let end = bytes.windows(4).position(|w| w == b"\r\n\r\n").unwrap() + 4;
    (String::from_utf8(bytes[..end].to_vec()).unwrap(), bytes[end..].to_vec())
}

fn text_response(body: &str) -> HttpResponse {
    HttpResponse {
        status: HttpStatus::ok(),
        headers: HttpHeaders::new(),
        body: Some(HttpBody::Text(body.to_string())),
    }
}

#[test]
fn first_listed_encoding_wins() {
    assert_eq!(accept(Some("deflate, gzip")), ContentEncoding::Deflate);
}

#[test]
fn unknown_encoding_is_skipped() {
    assert_eq!(accept(Some("br, gzip")), ContentEncoding::Gzip);
}

#[test]
fn no_matching_encoding_gives_identity() {
    assert_eq!(accept(Some("br")), ContentEncoding::Identity);
    assert_eq!(accept(Some("gzip;q=1.0")), ContentEncoding::Identity);
    assert_eq!(accept(Some("")), ContentEncoding::Identity);
}

#[test]
fn absent_header_gives_identity() {
    assert_eq!(accept(None), ContentEncoding::Identity);
}

#[test]
fn encoding_tokens_are_trimmed_and_lowercased() {
    assert_eq!(accept(Some("br,  GZIP  ")), ContentEncoding::Gzip);
    assert_eq!(accept(Some("\tDeflate")), ContentEncoding::Deflate);
}

#[test]
fn accept_encoding_name_is_case_insensitive() {
    let h = headers_with(&[("Accept-Encoding", "gzip")]);
    assert_eq!(determine_content_encoding(&h), ContentEncoding::Gzip);
}

#[test]
fn gzip_response_names_encoding_and_counts_compressed_bytes() {
    let body = "hello hello hello hello hello hello";
    let req = headers_with(&[("accept-encoding", "gzip")]);
    let bytes = send(&req, text_response(body)).unwrap();
    let (head, payload) = split_response(&bytes);
    assert!(head.contains("content-encoding: gzip\r\n"));
    assert!(head.contains(&format!("content-length: {}\r\n", payload.len())));
    assert_ne!(payload.len(), body.len());
    let mut out = Vec::new();
    flate2::read::GzDecoder::new(&payload[..]).read_to_end(&mut out).unwrap();
    assert_eq!(out, body.as_bytes());
}

#[test]
fn deflate_response_names_encoding_and_counts_compressed_bytes() {
    let body = "abcabcabcabcabcabcabcabcabcabcabc";
    let req = headers_with(&[("accept-encoding", "deflate")]);
    let bytes = send(&req, text_response(body)).unwrap();
    let (head, payload) = split_response(&bytes);
    assert!(head.contains("content-encoding: deflate\r\n"));
    assert!(head.contains(&format!("content-length: {}\r\n", payload.len())));
    let mut out = Vec::new();
    flate2::read::DeflateDecoder::new(&payload[..]).read_to_end(&mut out).unwrap();
    assert_eq!(out, body.as_bytes());
}

#[test]
fn gzip_round_trip() {
    let data: Vec<u8> = (0..2000u32).map(|i| (i * 7 % 251) as u8).collect();
    let packed = compress(ContentEncoding::Gzip, &data).unwrap();
    assert_ne!(packed, data);
    let mut out = Vec::new();
    flate2::read::GzDecoder::new(&packed[..]).read_to_end(&mut out).unwrap();
    assert_eq!(out, data);
}

#[test]
fn deflate_round_trip() {
    let data = b"the quick brown fox jumps over the lazy dog".repeat(20);
    let packed = compress(ContentEncoding::Deflate, &data).unwrap();
    assert!(packed.len() < data.len());
    let mut out = Vec::new();
    flate2::read::DeflateDecoder::new(&packed[..]).read_to_end(&mut out).unwrap();
    assert_eq!(out, data);
}

#[test]
fn identity_compression_keeps_bytes() {
    assert_eq!(compress(ContentEncoding::Identity, b"abc").unwrap(), b"abc".to_vec());
}

#[test]
fn gzip_of_empty_body() {
    let req = headers_with(&[("accept-encoding", "gzip")]);
    let bytes = send(&req, text_response("")).unwrap();
    let (head, payload) = split_response(&bytes);
    assert!(head.contains("content-encoding: gzip\r\n"));
    assert!(!payload.is_empty());
}

#[test]
fn response_without_body_has_zero_length() {
    let req = headers_with(&[("accept-encoding", "gzip")]);
    let resp = HttpResponse { status: HttpStatus::not_found(), headers: HttpHeaders::new(), body: None };
    let bytes = send(&req, resp).unwrap();
    assert_eq!(
        bytes,
        b"HTTP/1.1 404 Not Found\r\ncontent-type: text/plain\r\ncontent-length: 0\r\n\r\n".to_vec()
    );
}

#[test]
fn end_to_end_plain_text() {
    let (req, _) = parse(b"GET /x HTTP/1.1\r\nHost: a\r\n\r\n").unwrap();
    let bytes = send(&req.headers, text_response("hi")).unwrap();
    assert_eq!(
        bytes,
        b"HTTP/1.1 200 OK\r\ncontent-type: text/plain\r\ncontent-length: 2\r\n\r\nhi".to_vec()
    );
}

#[test]
fn handler_content_type_is_kept() {
    let resp = HttpResponse {
        status: HttpStatus::ok(),
        headers: headers_with(&[("Content-Type", "application/octet-stream")]),
        body: Some(HttpBody::Binary(vec![1, 2, 3])),
    };
    let bytes = send(&HttpHeaders::new(), resp).unwrap();
    let mut expected =
        b"HTTP/1.1 200 OK\r\nContent-Type: application/octet-stream\r\ncontent-length: 3\r\n\r\n".to_vec();
    expected.extend_from_slice(&[1, 2, 3]);
    assert_eq!(bytes, expected);
}

#[test]
fn handler_content_length_is_replaced() {
    let resp = HttpResponse {
        status: HttpStatus::created(),
        headers: headers_with(&[("Content-Length", "99")]),
        body: Some(HttpBody::Text("abcd".to_string())),
    };
    let bytes = send(&HttpHeaders::new(), resp).unwrap();
    assert_eq!(
        bytes,
        b"HTTP/1.1 201 Created\r\ncontent-length: 4\r\ncontent-type: text/plain\r\n\r\nabcd".to_vec()
    );
}

#[test]
fn status_lines() {
    let cases = [
        (HttpStatus::ok(), "HTTP/1.1 200 OK\r\n"),
        (HttpStatus::created(), "HTTP/1.1 201 Created\r\n"),
        (HttpStatus::bad_request(), "HTTP/1.1 400 Bad Request\r\n"),
        (HttpStatus::not_found(), "HTTP/1.1 404 Not Found\r\n"),
        (HttpStatus::method_not_allowed(), "HTTP/1.1 405 Method Not Allowed\r\n"),
        (HttpStatus::internal_server_error(), "HTTP/1.1 500 Internal Server Error\r\n"),
    ];
    for (status, line) in cases {
        let code = status.code();
        let resp = HttpResponse { status, headers: HttpHeaders::new(), body: None };
        let bytes = serialize(&resp);
        assert_eq!(bytes, format!("{}\r\n", line).into_bytes(), "code {}", code);
    }
}

#[test]
fn serialize_keeps_header_order_and_casing() {
    let resp = HttpResponse {
        status: HttpStatus::ok(),
        headers: headers_with(&[("X-One", "1"), ("x-two", "2")]),
        body: Some(HttpBody::Binary(b"zz".to_vec())),
    };
    assert_eq!(serialize(&resp), b"HTTP/1.1 200 OK\r\nX-One: 1\r\nx-two: 2\r\n\r\nzz".to_vec());
}

#[test]
fn headers_replace_in_place() {
    let mut h = headers_with(&[("A", "1"), ("B", "2")]);
    h.insert("a".to_string(), "3".to_string());
    assert_eq!(h.len(), 2);
    assert_eq!(h.name(0), "a");
    assert_eq!(h.value(0), "3");
    assert_eq!(h.get("A").map(|s| s.as_str()), Some("3"));
    assert_eq!(h.get("b").map(|s| s.as_str()), Some("2"));
    assert_eq!(h.get("c"), None);
}

#[test]
fn body_bytes_of_text_and_binary() {
    assert_eq!(HttpBody::Text("héllo".to_string()).as_bytes(), "héllo".as_bytes());
    assert_eq!(HttpBody::Binary(vec![0, 255]).as_bytes(), &[0, 255]);
}
