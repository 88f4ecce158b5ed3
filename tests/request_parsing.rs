use http_server::request::{parse, HttpRequest, ParseError, RequestParser, Stage};

fn parsed(input: &[u8]) -> (HttpRequest, usize) {
    match parse(input) {
        Ok(r) => r,
        Err(e) => panic!("unexpected parse error {:?}", e),
    }
}

fn header(req: &HttpRequest, name: &str) -> Option<String> {
    req.headers.get(name).cloned()
}

#[test]
fn request_line_yields_method_and_path() {
    let input = b"GET /index.html HTTP/1.1\r\n\r\n";
    let (req, n) = parsed(input);
    assert_eq!(req.method, "GET");
    assert_eq!(req.path, "/index.html");
    assert_eq!(n, input.len());
    assert!(req.body.is_none());
    assert_eq!(req.headers.len(), 0);
}

#[test]
fn request_line_with_bare_newline() {
    let (req, _) = parsed(b"POST /files/a HTTP/1.1\nHost: x\n\n");
    assert_eq!(req.method, "POST");
    assert_eq!(req.path, "/files/a");
    assert_eq!(header(&req, "host"), Some("x".to_string()));
}

#[test]
fn request_line_with_no_space_fails() {
    assert_eq!(
        parse(b"GET\r\n\r\n").err(),
        Some(ParseError::MalformedRequestLine("GET".to_string()))
    );
}

#[test]
fn request_line_with_one_space_fails() {
    assert_eq!(
        parse(b"GET /\r\n\r\n").err(),
        Some(ParseError::MalformedRequestLine("GET /".to_string()))
    );
}

#[test]
fn request_line_with_three_spaces_fails() {
    assert_eq!(
        parse(b"GET / HTTP/1.1 extra\r\n\r\n").err(),
        Some(ParseError::MalformedRequestLine("GET / HTTP/1.1 extra".to_string()))
    );
    assert_eq!(
        parse(b"GET  / HTTP/1.1\r\n\r\n").err(),
        Some(ParseError::MalformedRequestLine("GET  / HTTP/1.1".to_string()))
    );
}

#[test]
fn request_line_with_empty_method_or_path_fails() {
    assert_eq!(
        parse(b" / HTTP/1.1\r\n\r\n").err(),
        Some(ParseError::MalformedRequestLine(" / HTTP/1.1".to_string()))
    );
    assert_eq!(
        parse(b"GET  HTTP/1.1\r\n\r\n").err(),
        Some(ParseError::MalformedRequestLine("GET  HTTP/1.1".to_string()))
    );
}

#[test]
fn empty_stream_fails() {
    assert_eq!(parse(b"").err(), Some(ParseError::MalformedRequestLine(String::new())));
}

#[test]
fn request_line_not_utf8_fails() {
    assert_eq!(
        parse(b"GET /\xff HTTP/1.1\r\n\r\n").err(),
        Some(ParseError::InvalidHeaderEncoding)
    );
}

#[test]
fn header_line_not_utf8_fails() {
    assert_eq!(
        parse(b"GET / HTTP/1.1\r\nX-A: \xc3\x28\r\n\r\n").err(),
        Some(ParseError::InvalidHeaderEncoding)
    );
}

#[test]
fn header_keys_are_case_insensitive() {
    let (upper, n1) = parsed(b"POST / HTTP/1.1\r\nContent-Length: 5\r\n\r\nhello");
    let (lower, n2) = parsed(b"POST / HTTP/1.1\r\ncontent-length: 5\r\n\r\nhello");
    assert_eq!(upper.headers.len(), 1);
    assert_eq!(lower.headers.len(), 1);
    assert_eq!(upper.headers.name(0), "content-length");
    assert_eq!(lower.headers.name(0), "content-length");
    assert_eq!(upper.headers.value(0), lower.headers.value(0));
    assert_eq!(upper.body.as_ref().unwrap().as_bytes(), lower.body.as_ref().unwrap().as_bytes());
    assert_eq!(n1, n2);
    assert_eq!(header(&upper, "CONTENT-LENGTH"), Some("5".to_string()));
}

#[test]
fn header_line_without_separator_is_skipped() {
    let (req, _) = parsed(b"GET / HTTP/1.1\r\nBogus line\r\nHost: a\r\n\r\n");
    assert_eq!(req.headers.len(), 1);
    assert_eq!(header(&req, "host"), Some("a".to_string()));
}

#[test]
fn header_line_with_two_separators_is_skipped() {
    let (req, _) = parsed(b"GET / HTTP/1.1\r\nX-A: b: c\r\nHost: a\r\n\r\n");
    assert_eq!(req.headers.len(), 1);
    assert_eq!(header(&req, "x-a"), None);
}

#[test]
fn repeated_header_keeps_last_value() {
    let (req, _) = parsed(b"GET / HTTP/1.1\r\nX-A: 1\r\nHost: h\r\nx-a: 2\r\n\r\n");
    assert_eq!(req.headers.len(), 2);
    assert_eq!(req.headers.name(0), "x-a");
    assert_eq!(req.headers.value(0), "2");
    assert_eq!(req.headers.name(1), "host");
}

#[test]
fn end_of_stream_in_a_header_line_fails() {
    assert_eq!(
        parse(b"GET / HTTP/1.1\r\nHost: a").err(),
        Some(ParseError::StreamReadFailure)
    );
}

#[test]
fn end_of_stream_in_the_request_line_fails() {
    assert_eq!(parse(b"GET / HTTP/1.1").err(), Some(ParseError::StreamReadFailure));
    let mut p = RequestParser::new();
    assert_eq!(p.take_line(b"GET / HTTP/1.1\r"), Err(ParseError::StreamReadFailure));
}

#[test]
fn end_of_stream_after_a_header_line_ends_headers() {
    let input = b"GET / HTTP/1.1\r\nHost: a\r\n";
    let (req, n) = parsed(input);
    assert_eq!(header(&req, "host"), Some("a".to_string()));
    assert_eq!(n, input.len());
}

#[test]
fn body_is_binary() {
    let (req, _) = parsed(b"POST /x HTTP/1.1\r\nContent-Length: 2\r\n\r\nok");
    assert!(matches!(req.body, Some(http_server::body::HttpBody::Binary(_))));
}

#[test]
fn body_of_exact_length_is_taken_whole() {
    let input = b"POST /x HTTP/1.1\r\nContent-Length: 5\r\n\r\nhello";
    let (req, n) = parsed(input);
    assert_eq!(req.body.as_ref().unwrap().as_bytes(), b"hello");
    assert_eq!(n, input.len());
}

#[test]
fn body_takes_only_the_announced_bytes() {
    let input = b"POST /x HTTP/1.1\r\nContent-Length: 5\r\n\r\nhello world";
    let (req, n) = parsed(input);
    assert_eq!(req.body.as_ref().unwrap().as_bytes(), b"hello");
    assert_eq!(&input[n..], b" world");
}

#[test]
fn short_body_fails() {
    assert_eq!(
        parse(b"POST /x HTTP/1.1\r\nContent-Length: 10\r\n\r\nhello").err(),
        Some(ParseError::BodyReadTruncated)
    );
}

#[test]
fn zero_content_length_gives_empty_body() {
    let (req, _) = parsed(b"POST /x HTTP/1.1\r\nContent-Length: 0\r\n\r\n");
    assert_eq!(req.body.as_ref().unwrap().as_bytes(), b"");
}

#[test]
fn content_length_with_plus_sign() {
    let (req, _) = parsed(b"POST /x HTTP/1.1\r\nContent-Length: +3\r\n\r\nabc");
    assert_eq!(req.body.as_ref().unwrap().as_bytes(), b"abc");
}

#[test]
fn invalid_content_length_fails() {
    for value in ["abc", "-1", "", "+", "1 2", "99999999999999999999999999"] {
        let input = format!("POST /x HTTP/1.1\r\nContent-Length: {}\r\n\r\n", value);
        assert_eq!(
            parse(input.as_bytes()).err(),
            Some(ParseError::InvalidContentLength),
            "value {:?}",
            value
        );
    }
}

#[test]
fn parser_taken_a_piece_at_a_time() {
    let mut p = RequestParser::new();
    assert_eq!(p.stage(), Stage::RequestLine);
    p.take_line(b"PUT /a HTTP/1.1\r\n").unwrap();
    assert_eq!(p.stage(), Stage::Headers);
    p.take_line(b"Content-Length: 3\r\n").unwrap();
    assert_eq!(p.stage(), Stage::Headers);
    p.take_line(b"\r\n").unwrap();
    assert_eq!(p.stage(), Stage::Body(3));
    assert_eq!(p.take_body(b"xyz!"), Ok(3));
    assert_eq!(p.stage(), Stage::Complete);
    let req = p.into_request();
    assert_eq!(req.method, "PUT");
    assert_eq!(req.body.unwrap().as_bytes(), b"xyz");
}

#[test]
fn parser_ends_headers_at_end_of_stream() {
    let mut p = RequestParser::new();
    p.take_line(b"GET / HTTP/1.1\r\n").unwrap();
    p.take_line(b"").unwrap();
    assert_eq!(p.stage(), Stage::Complete);
}
