//! Request parsing: a request line, header lines up to an empty line or the
//! end of the stream between lines, then a body of exactly `Content-Length`
//! bytes. A stream that ends inside a line fails.
//!
//! `RequestParser` takes the stream a piece at a time (a line, then the body
//! bytes) and says what it needs next, so that a caller reading from a socket
//! never reads past the request; `parse` runs it over bytes already in hand.
use vstd::prelude::*;
use vstd::slice::{slice_subrange, slice_to_vec};
use vstd::utf8::*;
use crate::body::HttpBody;
use crate::headers::{Fields, HttpHeaders, has_name, index_of, inserted, lemma_index_of, lookup, names_match};
use crate::number::{decimal_value, parse_decimal};
use crate::text::{
    count_byte, is_utf8, lemma_ascii_valid, lemma_split_concat, lemma_split_len, lemma_split_none,
    lemma_fold_ascii, lemma_valid_between, lowercase_text, lowered, split_byte, split_text, text_of,
    fold_name,
};

verus! {

broadcast use {encode_utf8_valid_utf8, encode_utf8_decode_utf8, decode_utf8_encode_utf8};

/// Why a request could not be read.
#[derive(Clone, Debug, PartialEq, Eq)]
pub enum ParseError {
    /// The request line (given here without its terminator) does not hold
    /// exactly three space-separated tokens with a non-empty method and path.
    MalformedRequestLine(String),
    /// The request line or a header line is not valid UTF-8.
    InvalidHeaderEncoding,
    /// `Content-Length` is not an unsigned decimal that fits in `usize`.
    InvalidContentLength,
    /// The stream ended before the whole body arrived.
    BodyReadTruncated,
    /// Reading from the stream failed, or it ended in the middle of a line.
    StreamReadFailure,
}

/// A parse error as the contracts see it.
pub enum ParseFault {
    MalformedRequestLine(Seq<char>),
    InvalidHeaderEncoding,
    InvalidContentLength,
    BodyReadTruncated,
    StreamReadFailure,
}

impl View for ParseError {
    type V = ParseFault;

    open spec fn view(&self) -> ParseFault {
        match self {
            ParseError::MalformedRequestLine(line) => ParseFault::MalformedRequestLine(line@),
            ParseError::InvalidHeaderEncoding => ParseFault::InvalidHeaderEncoding,
            ParseError::InvalidContentLength => ParseFault::InvalidContentLength,
            ParseError::BodyReadTruncated => ParseFault::BodyReadTruncated,
            ParseError::StreamReadFailure => ParseFault::StreamReadFailure,
        }
    }
}

/// A parsed request.
pub struct HttpRequest {
    pub method: String,
    pub path: String,
    pub headers: HttpHeaders,
    pub body: Option<HttpBody>,
}

/// A request as the contracts see it.
pub struct RequestView {
    pub method: Seq<char>,
    pub path: Seq<char>,
    pub headers: Fields,
    pub body: Option<Seq<u8>>,
}

impl View for HttpRequest {
    type V = RequestView;

    open spec fn view(&self) -> RequestView {
        RequestView {
            method: self.method@,
            path: self.path@,
            headers: self.headers@,
            body: match self.body {
                Some(b) => Some(b.bytes()),
                None => None,
            },
        }
    }
}

/// What the parser waits for.
#[derive(Clone, Copy, Debug, PartialEq, Eq, Structural)]
pub enum Stage {
    /// The request line.
    RequestLine,
    /// The next header line, or the empty line after the headers.
    Headers,
    /// A body of this many bytes.
    Body(usize),
    /// Nothing: the request is complete.
    Complete,
}

/// A parser's state as the contracts see it.
pub struct ParserView {
    pub stage: Stage,
    pub request: RequestView,
}

pub open spec fn initial_view() -> ParserView {
    ParserView {
        stage: Stage::RequestLine,
        request: RequestView {
            method: Seq::empty(),
            path: Seq::empty(),
            headers: Seq::empty(),
            body: None,
        },
    }
}

/// The length of a line without its `\n` and, before that, an optional `\r`.
pub open spec fn content_len(line: Seq<u8>) -> int {
    let n = if line.len() > 0 && line.last() == 0x0a {
        line.len() - 1
    } else {
        line.len() as int
    };
    if n > 0 && line[n - 1] == 0x0d {
        n - 1
    } else {
        n
    }
}

/// A line without its terminator.
pub open spec fn line_content(line: Seq<u8>) -> Seq<u8> {
    line.subrange(0, content_len(line))
}

/// Method and path of a request line (without terminator).
pub open spec fn request_line(content: Seq<u8>) -> Result<(Seq<char>, Seq<char>), ParseFault> {
    if !valid_utf8(content) {
        Err(ParseFault::InvalidHeaderEncoding)
    } else {
        let parts = split_byte(content, 0x20);
        if parts.len() == 3 && decode_utf8(parts[0]).len() > 0 && decode_utf8(parts[1]).len() > 0 {
            Ok((decode_utf8(parts[0]), decode_utf8(parts[1])))
        } else {
            Err(ParseFault::MalformedRequestLine(decode_utf8(content)))
        }
    }
}

/// `": "` stands at `i` in `s`.
pub open spec fn sep_at(s: Seq<u8>, i: int) -> bool {
    0 <= i && i + 1 < s.len() && s[i] == 0x3a && s[i + 1] == 0x20
}

/// `": "` stands at `i` in `s` and nowhere else.
pub open spec fn single_sep(s: Seq<u8>, i: int) -> bool {
    sep_at(s, i) && forall|j: int| #[trigger] sep_at(s, j) ==> j == i
}

/// The field a header line (valid UTF-8, without terminator) stores: the line
/// must split at `": "` into exactly two parts; the name is lowercased.
pub open spec fn header_field(content: Seq<u8>) -> Option<(Seq<char>, Seq<char>)> {
    if exists|i: int| single_sep(content, i) {
        let i = choose|i: int| single_sep(content, i);
        Some(
            (
                lowered(decode_utf8(content.subrange(0, i))),
                decode_utf8(content.subrange(i + 2, content.len() as int)),
            ),
        )
    } else {
        None
    }
}

/// The body length that a header block announces.
pub open spec fn announced_length(h: Fields) -> Result<Option<usize>, ParseFault> {
    match lookup(h, "content-length"@) {
        None => Ok(None),
        Some(v) => match decimal_value(encode_utf8(v)) {
            Some(n) => if n <= usize::MAX {
                Ok(Some(n as usize))
            } else {
                Err(ParseFault::InvalidContentLength)
            },
            None => Err(ParseFault::InvalidContentLength),
        },
    }
}

/// The state after the empty line that ends the headers.
pub open spec fn end_headers(p: ParserView) -> Result<ParserView, ParseFault> {
    match announced_length(p.request.headers) {
        Err(e) => Err(e),
        Ok(None) => Ok(ParserView { stage: Stage::Complete, request: p.request }),
        Ok(Some(n)) => Ok(ParserView { stage: Stage::Body(n), request: p.request }),
    }
}

/// The state after one line as read from the stream, its `\n` included; an
/// empty `line` stands for the end of the stream, and a line that the end of
/// the stream cut off is a failure.
pub open spec fn step_line(p: ParserView, line: Seq<u8>) -> Result<ParserView, ParseFault> {
    let content = line_content(line);
    if line.len() > 0 && line.last() != 0x0a {
        Err(ParseFault::StreamReadFailure)
    } else {
    match p.stage {
        Stage::RequestLine => match request_line(content) {
            Ok((m, path)) => Ok(
                ParserView {
                    stage: Stage::Headers,
                    request: RequestView {
                        method: m,
                        path: path,
                        headers: p.request.headers,
                        body: p.request.body,
                    },
                },
            ),
            Err(e) => Err(e),
        },
        _ => if content.len() == 0 {
            end_headers(p)
        } else if !valid_utf8(content) {
            Err(ParseFault::InvalidHeaderEncoding)
        } else {
            match header_field(content) {
                Some((k, v)) => Ok(
                    ParserView {
                        stage: p.stage,
                        request: RequestView {
                            method: p.request.method,
                            path: p.request.path,
                            headers: inserted(p.request.headers, k, v),
                            body: p.request.body,
                        },
                    },
                ),
                None => Ok(p),
            }
        },
    }
    }
}

/// The state after the body, given what the stream still holds, and how many
/// bytes were taken.
pub open spec fn step_body(p: ParserView, avail: Seq<u8>) -> Result<(ParserView, nat), ParseFault> {
    match p.stage {
        Stage::Body(n) => if avail.len() < n {
            Err(ParseFault::BodyReadTruncated)
        } else {
            Ok(
                (
                    ParserView {
                        stage: Stage::Complete,
                        request: RequestView {
                            method: p.request.method,
                            path: p.request.path,
                            headers: p.request.headers,
                            body: Some(avail.subrange(0, n as int)),
                        },
                    },
                    n as nat,
                ),
            )
        },
        _ => Ok((p, 0)),
    }
}

/// `\n` first occurs at `i` in `s`.
pub open spec fn first_newline(s: Seq<u8>, i: int) -> bool {
    0 <= i < s.len() && s[i] == 0x0a && forall|j: int| 0 <= j < i ==> s[j] != 0x0a
}

/// The length of the first line of `s`, its `\n` included.
pub open spec fn line_len(s: Seq<u8>) -> int {
    if exists|i: int| first_newline(s, i) {
        (choose|i: int| first_newline(s, i)) + 1
    } else {
        s.len() as int
    }
}

/// A parse outcome with `k` more bytes counted as taken.
pub open spec fn shifted(r: Result<(RequestView, nat), ParseFault>, k: nat) -> Result<
    (RequestView, nat),
    ParseFault,
> {
    match r {
        Ok((v, n)) => Ok((v, n + k)),
        Err(e) => Err(e),
    }
}

pub open spec fn run_body(p: ParserView, input: Seq<u8>) -> Result<(RequestView, nat), ParseFault> {
    match step_body(p, input) {
        Ok((q, k)) => Ok((q.request, k)),
        Err(e) => Err(e),
    }
}

/// The rest of a parse that is at the headers.
pub open spec fn run_headers(p: ParserView, input: Seq<u8>) -> Result<(RequestView, nat), ParseFault>
    decreases input.len(),
{
    let n = line_len(input);
    if 0 <= n <= input.len() {
        let rest = input.subrange(n, input.len() as int);
        match step_line(p, input.subrange(0, n)) {
            Err(e) => Err(e),
            Ok(q) => if q.stage is Headers && n > 0 {
                shifted(run_headers(q, rest), n as nat)
            } else {
                shifted(run_body(q, rest), n as nat)
            },
        }
    } else {
        // never taken: a line lies within its input (`lemma_line_len`)
        Err(ParseFault::StreamReadFailure)
    }
}

/// The request that `input` starts with, and how many of its bytes it takes.
pub open spec fn parse_spec(input: Seq<u8>) -> Result<(RequestView, nat), ParseFault> {
    let n = line_len(input);
    if 0 <= n <= input.len() {
        match step_line(initial_view(), input.subrange(0, n)) {
            Err(e) => Err(e),
            Ok(q) => shifted(run_headers(q, input.subrange(n, input.len() as int)), n as nat),
        }
    } else {
        // never taken, as above
        Err(ParseFault::StreamReadFailure)
    }
}

pub proof fn lemma_line_len(s: Seq<u8>)
    ensures
        0 <= line_len(s) <= s.len(),
        s.len() > 0 ==> line_len(s) > 0,
{
    if exists|i: int| first_newline(s, i) {
        let i = choose|i: int| first_newline(s, i);
        assert(first_newline(s, i));
    }
}

/// Method and path of a request line.
pub struct RequestLine {
    pub method: String,
    pub path: String,
}

/// The error for a malformed request line.
fn malformed(content: &[u8]) -> (e: ParseError)
    requires
        valid_utf8(content@),
    ensures
        e@ == ParseFault::MalformedRequestLine(decode_utf8(content@)),
{
    ParseError::MalformedRequestLine(text_of(slice_to_vec(content)))
}

/// Reads a request line (without terminator).
pub fn parse_request_line(content: &[u8]) -> (r: Result<RequestLine, ParseError>)
    ensures
        match request_line(content@) {
            Ok((m, p)) => r matches Ok(l) && l.method@ == m && l.path@ == p,
            Err(e) => r matches Err(f) && f@ == e,
        },
{
    if !is_utf8(content) {
        return Err(ParseError::InvalidHeaderEncoding);
    }
    let mut parts = split_text(content, 0x20);
    if parts.len() != 3 {
        return Err(malformed(content));
    }
    let ghost pieces = split_byte(content@, 0x20);
    assert(parts@[0]@ == decode_utf8(pieces[0]));
    assert(parts@[1]@ == decode_utf8(pieces[1]));
    let _version = parts.pop();
    let path = match parts.pop() {
        Some(p) => p,
        None => {
            return Err(malformed(content));
        },
    };
    let method = match parts.pop() {
        Some(m) => m,
        None => {
            return Err(malformed(content));
        },
    };
    if method.as_str().is_empty() || path.as_str().is_empty() {
        return Err(malformed(content));
    }
    Ok(RequestLine { method, path })
}

/// The first `": "` in `s` at or after `from`.
fn find_separator(s: &[u8], from: usize) -> (r: Option<usize>)
    ensures
        match r {
            Some(i) => from <= i && i + 1 < s@.len() && sep_at(s@, i as int) && forall|j: int|
                from <= j < i ==> !#[trigger] sep_at(s@, j),
            None => forall|j: int| from <= j ==> !#[trigger] sep_at(s@, j),
        },
{
    let mut i: usize = from;
    while i < s.len()
        invariant
            from <= i,
            forall|j: int| from <= j < i ==> !#[trigger] sep_at(s@, j),
        decreases s@.len() - i,
    {
        if i + 1 < s.len() && s[i] == 0x3a && s[i + 1] == 0x20 {
            return Some(i);
        }
        i = i + 1;
    }
    None
}

/// Reads a header line (without terminator): the field it stores, if any.
pub fn parse_header_line(content: &[u8]) -> (r: Result<Option<(String, String)>, ParseError>)
    ensures
        !valid_utf8(content@) ==> r == Err::<Option<(String, String)>, ParseError>(
            ParseError::InvalidHeaderEncoding,
        ),
        valid_utf8(content@) ==> match header_field(content@) {
            Some((k, v)) => r matches Ok(Some(f)) && f.0@ == k && f.1@ == v,
            None => r matches Ok(None),
        },
{
    if !is_utf8(content) {
        return Err(ParseError::InvalidHeaderEncoding);
    }
    let len = content.len();
    let first = find_separator(content, 0);
    match first {
        None => {
            assert(!exists|i: int| single_sep(content@, i));
            Ok(None)
        },
        Some(i) => match find_separator(content, i + 1) {
            Some(j) => {
                assert forall|c: int| !single_sep(content@, c) by {
                    if single_sep(content@, c) {
                        assert(sep_at(content@, i as int));
                        assert(sep_at(content@, j as int));
                    }
                }
                Ok(None)
            },
            None => {
                assert(single_sep(content@, i as int));
                proof {
                    let c = choose|c: int| single_sep(content@, c);
                    assert(sep_at(content@, c));
                    lemma_valid_between(content@, 0, i as int);
                    lemma_valid_between(content@, i + 2, content@.len() as int);
                }
                let name = text_of(slice_to_vec(slice_subrange(content, 0, i)));
                let value = text_of(slice_to_vec(slice_subrange(content, i + 2, len)));
                Ok(Some((lowercase_text(name.as_str()), value)))
            },
        },
    }
}

/// The body length that the headers announce.
pub fn announced_content_length(headers: &HttpHeaders) -> (r: Result<Option<usize>, ParseError>)
    requires
        headers.wf(),
    ensures
        match announced_length(headers@) {
            Ok(n) => r == Ok::<Option<usize>, ParseError>(n),
            Err(e) => r matches Err(f) && f@ == e,
        },
{
    match headers.get("content-length") {
        None => Ok(None),
        Some(v) => match parse_decimal(v.as_str().as_bytes()) {
            Some(n) => Ok(Some(n)),
            None => Err(ParseError::InvalidContentLength),
        },
    }
}

/// The length of `line` without its terminator.
fn content_length_of_line(line: &[u8]) -> (r: usize)
    ensures
        r == content_len(line@),
{
    let mut n = line.len();
    if n > 0 && line[n - 1] == 0x0a {
        n = n - 1;
    }
    if n > 0 && line[n - 1] == 0x0d {
        n = n - 1;
    }
    n
}

/// A request read a piece at a time.
pub struct RequestParser {
    stage: Stage,
    method: String,
    path: String,
    headers: HttpHeaders,
    body: Option<Vec<u8>>,
}

impl View for RequestParser {
    type V = ParserView;

    closed spec fn view(&self) -> ParserView {
        ParserView {
            stage: self.stage,
            request: RequestView {
                method: self.method@,
                path: self.path@,
                headers: self.headers@,
                body: match self.body {
                    Some(b) => Some(b@),
                    None => None,
                },
            },
        }
    }
}

impl RequestParser {
    pub closed spec fn wf(&self) -> bool {
        self.headers.wf()
    }

    pub fn new() -> (r: Self)
        ensures
            r@ == initial_view(),
            r.wf(),
    {
        let r = RequestParser {
            stage: Stage::RequestLine,
            method: String::new(),
            path: String::new(),
            headers: HttpHeaders::new(),
            body: None,
        };
        r
    }

    /// What the parser waits for.
    pub fn stage(&self) -> (r: Stage)
        ensures
            r == self@.stage,
    {
        self.stage
    }

    /// Takes the request line or a header line as read from the stream, its
    /// `\n` included; an empty `line` is the end of the stream, and a line
    /// without `\n` (the stream ended inside it) fails.
    pub fn take_line(&mut self, line: &[u8]) -> (r: Result<(), ParseError>)
        requires
            old(self).wf(),
            old(self)@.stage is RequestLine || old(self)@.stage is Headers,
        ensures
            final(self).wf(),
            match step_line(old(self)@, line@) {
                Ok(next) => r is Ok && final(self)@ == next,
                Err(e) => r matches Err(f) && f@ == e,
            },
    {
        if line.len() > 0 && line[line.len() - 1] != 0x0a {
            return Err(ParseError::StreamReadFailure);
        }
        let n = content_length_of_line(line);
        let content = slice_subrange(line, 0, n);
        assert(content@ == line_content(line@));
        match self.stage {
            Stage::RequestLine => match parse_request_line(content) {
                Ok(l) => {
                    self.method = l.method;
                    self.path = l.path;
                    self.stage = Stage::Headers;
                    Ok(())
                },
                Err(e) => Err(e),
            },
            _ => {
                if n == 0 {
                    return self.end_headers();
                }
                match parse_header_line(content) {
                    Err(e) => Err(e),
                    Ok(Some(field)) => {
                        let (name, value) = field;
                        self.headers.insert(name, value);
                        Ok(())
                    },
                    Ok(None) => Ok(()),
                }
            },
        }
    }

    fn end_headers(&mut self) -> (r: Result<(), ParseError>)
        requires
            old(self).wf(),
        ensures
            final(self).wf(),
            match end_headers(old(self)@) {
                Ok(next) => r is Ok && final(self)@ == next,
                Err(e) => r matches Err(f) && f@ == e,
            },
    {
        match announced_content_length(&self.headers) {
            Err(e) => Err(e),
            Ok(None) => {
                self.stage = Stage::Complete;
                Ok(())
            },
            Ok(Some(n)) => {
                self.stage = Stage::Body(n);
                Ok(())
            },
        }
    }

    /// Takes the body from what the stream holds after the headers; returns
    /// how many bytes it took.
    pub fn take_body(&mut self, avail: &[u8]) -> (r: Result<usize, ParseError>)
        requires
            old(self).wf(),
        ensures
            final(self).wf(),
            match step_body(old(self)@, avail@) {
                Ok((next, k)) => r == Ok::<usize, ParseError>(k as usize) && final(self)@ == next,
                Err(e) => r matches Err(f) && f@ == e,
            },
    {
        match self.stage {
            Stage::Body(n) => {
                if avail.len() < n {
                    return Err(ParseError::BodyReadTruncated);
                }
                self.body = Some(slice_to_vec(slice_subrange(avail, 0, n)));
                self.stage = Stage::Complete;
                Ok(n)
            },
            _ => Ok(0),
        }
    }

    /// The request read so far.
    pub fn into_request(self) -> (r: HttpRequest)
        requires
            self.wf(),
        ensures
            r@ == self@.request,
            r.headers.wf(),
            r.body is None || r.body matches Some(HttpBody::Binary(_)),
    {
        let body = match self.body {
            Some(b) => Some(HttpBody::Binary(b)),
            None => None,
        };
        HttpRequest { method: self.method, path: self.path, headers: self.headers, body }
    }
}

/// Where the line that starts at `pos` ends, its `\n` included.
fn line_end(input: &[u8], pos: usize) -> (r: usize)
    requires
        pos <= input@.len(),
    ensures
        r == pos + line_len(input@.subrange(pos as int, input@.len() as int)),
        pos <= r <= input@.len(),
{
    let ghost s = input@.subrange(pos as int, input@.len() as int);
    let mut i: usize = pos;
    while i < input.len()
        invariant
            pos <= i <= input@.len(),
            s == input@.subrange(pos as int, input@.len() as int),
            forall|j: int| 0 <= j < i - pos ==> s[j] != 0x0a,
        decreases input@.len() - i,
    {
        if input[i] == 0x0a {
            assert(first_newline(s, i - pos));
            proof {
                let c = choose|c: int| first_newline(s, c);
                assert(first_newline(s, c));
                if c < i - pos {
                    assert(s[c] != 0x0a);
                } else if c > i - pos {
                    assert(s[i - pos] != 0x0a);
                }
            }
            return i + 1;
        }
        i = i + 1;
    }
    assert(!exists|c: int| first_newline(s, c));
    i
}

/// The rest of a parse from parser state `p`.
pub open spec fn resume(p: ParserView, input: Seq<u8>) -> Result<(RequestView, nat), ParseFault> {
    if p.stage is Headers {
        run_headers(p, input)
    } else {
        run_body(p, input)
    }
}

proof fn lemma_shifted_twice(r: Result<(RequestView, nat), ParseFault>, a: nat, b: nat)
    ensures
        shifted(shifted(r, a), b) == shifted(r, a + b),
{
}

proof fn lemma_headers_step(p: ParserView, input: Seq<u8>)
    requires
        p.stage is Headers,
    ensures
        0 <= line_len(input) <= input.len(),
        match step_line(p, input.subrange(0, line_len(input))) {
            Ok(q) => resume(p, input) == shifted(
                resume(q, input.subrange(line_len(input), input.len() as int)),
                line_len(input) as nat,
            ) && (line_len(input) == 0 ==> !(q.stage is Headers)),
            Err(e) => resume(p, input) == Err::<(RequestView, nat), ParseFault>(e),
        },
{
    lemma_line_len(input);
    let n = line_len(input);
    if n == 0 {
        assert(line_content(input.subrange(0, n)).len() == 0);
    }
}

/// Reads the request at the start of `input`; returns it with the number of
/// bytes it took.
#[verifier::rlimit(30)]
pub fn parse(input: &[u8]) -> (r: Result<(HttpRequest, usize), ParseError>)
    ensures
        match r {
            Ok((req, n)) => parse_spec(input@) == Ok::<(RequestView, nat), ParseFault>(
                (req@, n as nat),
            ) && req.headers.wf() && (req.body is None || req.body matches Some(HttpBody::Binary(_))),
            Err(e) => parse_spec(input@) == Err::<(RequestView, nat), ParseFault>(e@),
        },
{
    let mut parser = RequestParser::new();
    let end = line_end(input, 0);
    assert(input@.subrange(0, input@.len() as int) =~= input@);
    proof {
        lemma_line_len(input@);
    }
    match parser.take_line(slice_subrange(input, 0, end)) {
        Err(e) => {
            return Err(e);
        },
        Ok(()) => {},
    }
    let mut pos = end;
    while parser.stage() == Stage::Headers
        invariant
            parser.wf(),
            pos <= input@.len(),
            parse_spec(input@) == shifted(
                resume(parser@, input@.subrange(pos as int, input@.len() as int)),
                pos as nat,
            ),
        decreases input@.len() - pos, if parser@.stage is Headers {
            1int
        } else {
            0int
        },
    {
        let ghost rest = input@.subrange(pos as int, input@.len() as int);
        let ghost before = parser@;
        let end = line_end(input, pos);
        proof {
            lemma_headers_step(parser@, rest);
            assert(input@.subrange(pos as int, end as int) =~= rest.subrange(0, end - pos));
            assert(input@.subrange(end as int, input@.len() as int) =~= rest.subrange(
                end - pos,
                rest.len() as int,
            ));
        }
        match parser.take_line(slice_subrange(input, pos, end)) {
            Err(e) => {
                return Err(e);
            },
            Ok(()) => {},
        }
        proof {
            lemma_shifted_twice(
                resume(parser@, input@.subrange(end as int, input@.len() as int)),
                (end - pos) as nat,
                pos as nat,
            );
        }
        pos = end;
    }
    let ghost rest = input@.subrange(pos as int, input@.len() as int);
    let taken = match parser.take_body(slice_subrange(input, pos, input.len())) {
        Err(e) => {
            return Err(e);
        },
        Ok(k) => k,
    };
    Ok((parser.into_request(), pos + taken))
}

/// A parse that reaches the headers keeps the method and path it read.
proof fn lemma_run_keeps_line(p: ParserView, input: Seq<u8>)
    requires
        p.stage is Headers,
    ensures
        run_headers(p, input) matches Ok((r, _)) ==> r.method == p.request.method && r.path
            == p.request.path,
    decreases input.len(),
{
    let n = line_len(input);
    lemma_line_len(input);
    if let Ok(q) = step_line(p, input.subrange(0, n)) {
        if q.stage is Headers && n > 0 {
            lemma_run_keeps_line(q, input.subrange(n, input.len() as int));
        }
    }
}

proof fn lemma_ascii_byte_valid(b: u8)
    requires
        b < 0x80,
    ensures
        valid_utf8(seq![b]),
{
    let s = seq![b];
    assert forall|i: int| 0 <= i < s.len() implies #[trigger] s[i] < 0x80 by {}
    lemma_ascii_valid(s);
}

/// A request line of three tokens without spaces or newlines, joined by
/// single spaces and ended by CRLF, with a non-empty method and path, yields
/// that method and path; so does a whole parse that starts with it.
pub proof fn lemma_request_line_tokens(m: Seq<u8>, p: Seq<u8>, v: Seq<u8>, rest: Seq<u8>)
    requires
        valid_utf8(m),
        valid_utf8(p),
        valid_utf8(v),
        m.len() > 0,
        p.len() > 0,
        !m.contains(0x20),
        !p.contains(0x20),
        !v.contains(0x20),
        !m.contains(0x0a),
        !p.contains(0x0a),
        !v.contains(0x0a),
    ensures
        request_line(line_content(m + seq![0x20u8] + p + seq![0x20u8] + v + seq![0x0du8, 0x0au8]))
            == Ok::<(Seq<char>, Seq<char>), ParseFault>((decode_utf8(m), decode_utf8(p))),
        parse_spec(m + seq![0x20u8] + p + seq![0x20u8] + v + seq![0x0du8, 0x0au8] + rest) matches Ok(
            (r, _),
        ) ==> r.method == decode_utf8(m) && r.path == decode_utf8(p),
        line_len(m + seq![0x20u8] + p + seq![0x20u8] + v + seq![0x0du8, 0x0au8] + rest) == m.len()
            + p.len() + v.len() + 4,
{
    let content = m + seq![0x20u8] + p + seq![0x20u8] + v;
    let line = content + seq![0x0du8, 0x0au8];
    assert(line_content(line) =~= content);
    lemma_split_none(m, 0x20);
    lemma_split_none(p, 0x20);
    lemma_split_none(v, 0x20);
    lemma_split_concat(p, v, 0x20);
    assert(content =~= m + seq![0x20u8] + (p + seq![0x20u8] + v));
    lemma_split_concat(m, p + seq![0x20u8] + v, 0x20);
    let parts = split_byte(content, 0x20);
    assert(parts =~= seq![m, p, v]);
    lemma_ascii_byte_valid(0x20);
    valid_utf8_concat(m, seq![0x20u8]);
    valid_utf8_concat(m + seq![0x20u8], p);
    valid_utf8_concat(m + seq![0x20u8] + p, seq![0x20u8]);
    valid_utf8_concat(m + seq![0x20u8] + p + seq![0x20u8], v);
    assert(decode_utf8(m).len() > 0) by {
        assert(encode_utf8(decode_utf8(m)) == m);
    }
    assert(decode_utf8(p).len() > 0) by {
        assert(encode_utf8(decode_utf8(p)) == p);
    }
    let input = line + rest;
    let k = line.len() - 1;
    assert(first_newline(input, k)) by {
        assert forall|j: int| 0 <= j < k implies input[j] != 0x0a by {
            if j < m.len() {
                assert(input[j] == m[j]);
            } else if j == m.len() {
            } else if j < m.len() + 1 + p.len() {
                assert(input[j] == p[j - m.len() - 1]);
            } else if j == m.len() + 1 + p.len() {
            } else if j < content.len() {
                assert(input[j] == v[j - m.len() - 2 - p.len()]);
            } else {
                assert(input[j] == 0x0d);
            }
        }
    }
    let c = choose|c: int| first_newline(input, c);
    assert(first_newline(input, c));
    if c < k {
        assert(input[c] != 0x0a);
    } else if c > k {
        assert(input[k] != 0x0a);
    }
    assert(line_len(input) == line.len());
    assert(input.subrange(0, line.len() as int) =~= line);
    if let Ok(q) = step_line(initial_view(), line) {
        lemma_run_keeps_line(q, input.subrange(line.len() as int, input.len() as int));
    }
}

/// A first line that holds other than exactly two spaces (zero, one, or
/// more than two) makes the parse fail.
pub proof fn lemma_request_line_space_count(input: Seq<u8>)
    requires
        count_byte(line_content(input.subrange(0, line_len(input))), 0x20) != 2,
    ensures
        parse_spec(input) is Err,
{
    lemma_line_len(input);
    lemma_split_len(line_content(input.subrange(0, line_len(input))), 0x20);
}

/// The header line `k: v` (CRLF ended), where `k` holds no colon and `v`
/// no `": "`.
pub open spec fn header_line(k: Seq<u8>, v: Seq<u8>) -> Seq<u8> {
    k + seq![0x3au8, 0x20u8] + v + seq![0x0du8, 0x0au8]
}

/// Header names are case-insensitive: header lines whose ASCII names differ
/// only in the case of letters leave the parser in the same state, which
/// holds the field under the name in lower case.
pub proof fn lemma_header_names_case(
    p: ParserView,
    n1: Seq<char>,
    n2: Seq<char>,
    v: Seq<u8>,
)
    requires
        p.stage is Headers,
        is_ascii_chars(n1),
        is_ascii_chars(n2),
        fold_name(n1) == fold_name(n2),
        !encode_utf8(n1).contains(0x3a),
        !encode_utf8(n2).contains(0x3a),
        valid_utf8(v),
        forall|j: int| !#[trigger] sep_at(v, j),
    ensures
        step_line(p, header_line(encode_utf8(n1), v)) == step_line(p, header_line(encode_utf8(n2), v)),
        step_line(p, header_line(encode_utf8(n1), v)) == Ok::<ParserView, ParseFault>(
            ParserView {
                stage: Stage::Headers,
                request: RequestView {
                    method: p.request.method,
                    path: p.request.path,
                    headers: inserted(p.request.headers, decode_utf8(fold_name(n1)), decode_utf8(v)),
                    body: p.request.body,
                },
            },
        ),
{
    lemma_header_line_field(encode_utf8(n1), v);
    lemma_header_line_field(encode_utf8(n2), v);
}

/// A header line whose ASCII name is `Content-Length` in any case stores its
/// field under a name that the body-length lookup finds.
pub proof fn lemma_content_length_name(n: Seq<char>)
    requires
        is_ascii_chars(n),
        fold_name(n) == fold_name("content-length"@),
    ensures
        fold_name(lowered(n)) == fold_name("content-length"@),
{
    lemma_fold_ascii(n);
}

proof fn lemma_header_line_field(k: Seq<u8>, v: Seq<u8>)
    requires
        valid_utf8(k),
        valid_utf8(v),
        !k.contains(0x3a),
        forall|j: int| !#[trigger] sep_at(v, j),
    ensures
        line_content(header_line(k, v)).len() > 0,
        valid_utf8(line_content(header_line(k, v))),
        header_field(line_content(header_line(k, v))) == Some(
            (lowered(decode_utf8(k)), decode_utf8(v)),
        ),
{
    let content = k + seq![0x3au8, 0x20u8] + v;
    assert(line_content(header_line(k, v)) =~= content);
    let i = k.len() as int;
    assert(sep_at(content, i));
    assert forall|j: int| #[trigger] sep_at(content, j) implies j == i by {
        if j < i {
            assert(content[j] == k[j]);
        } else if j == i + 1 {
        } else if j > i + 1 {
            assert(content[j] == v[j - i - 2]);
            assert(content[j + 1] == v[j - i - 1]);
            assert(sep_at(v, j - i - 2));
        }
    }
    assert(single_sep(content, i));
    let c = choose|c: int| single_sep(content, c);
    assert(sep_at(content, c));
    assert(content.subrange(0, i) =~= k);
    assert(content.subrange(i + 2, content.len() as int) =~= v);
    let sep = seq![0x3au8, 0x20u8];
    assert forall|x: int| 0 <= x < sep.len() implies #[trigger] sep[x] < 0x80 by {}
    lemma_ascii_valid(sep);
    valid_utf8_concat(k, seq![0x3au8, 0x20u8]);
    valid_utf8_concat(k + seq![0x3au8, 0x20u8], v);
}

/// A header line without `": "` is skipped: the parser stays at the headers,
/// its state unchanged, and goes on with the next line.
pub proof fn lemma_line_without_separator(p: ParserView, line: Seq<u8>)
    requires
        p.stage is Headers,
        line.len() > 0 && line.last() == 0x0a,
        line_content(line).len() > 0,
        valid_utf8(line_content(line)),
        forall|j: int| !#[trigger] sep_at(line_content(line), j),
    ensures
        step_line(p, line) == Ok::<ParserView, ParseFault>(p),
{
}

/// With `Content-Length: N` announced, the empty line after the headers
/// asks for exactly `N` body bytes; fewer available bytes fail, and from `N`
/// or more exactly the first `N` are taken, so a stream of exactly `N` bytes
/// is taken whole.
pub proof fn lemma_body_length(p: ParserView, n: usize, avail: Seq<u8>)
    requires
        p.stage is Headers,
        announced_length(p.request.headers) == Ok::<Option<usize>, ParseFault>(Some(n)),
    ensures
        step_line(p, seq![0x0du8, 0x0au8]) == Ok::<ParserView, ParseFault>(
            ParserView { stage: Stage::Body(n), request: p.request },
        ),
        avail.len() < n ==> step_body(ParserView { stage: Stage::Body(n), request: p.request }, avail)
            == Err::<(ParserView, nat), ParseFault>(ParseFault::BodyReadTruncated),
        avail.len() >= n ==> step_body(ParserView { stage: Stage::Body(n), request: p.request }, avail)
            == Ok::<(ParserView, nat), ParseFault>(
            (
                ParserView {
                    stage: Stage::Complete,
                    request: RequestView {
                        method: p.request.method,
                        path: p.request.path,
                        headers: p.request.headers,
                        body: Some(avail.subrange(0, n as int)),
                    },
                },
                n as nat,
            ),
        ),
        avail.len() == n ==> avail.subrange(0, n as int) == avail,
{
    assert(line_content(seq![0x0du8, 0x0au8]).len() == 0);
    assert(avail.len() == n ==> avail.subrange(0, n as int) =~= avail);
}

/// The line `\r\n` is one line of two bytes.
proof fn lemma_empty_line_len()
    ensures
        line_len(seq![0x0du8, 0x0au8]) == 2,
{
    let e = seq![0x0du8, 0x0au8];
    assert(first_newline(e, 1));
    let c = choose|c: int| first_newline(e, c);
    assert(first_newline(e, c));
}

/// A request line of three tokens (as above) followed by the empty line
/// parses to that method and path, with no headers and no body, and every
/// byte is taken.
pub proof fn lemma_request_without_headers(m: Seq<u8>, p: Seq<u8>, v: Seq<u8>)
    requires
        valid_utf8(m),
        valid_utf8(p),
        valid_utf8(v),
        m.len() > 0,
        p.len() > 0,
        !m.contains(0x20),
        !p.contains(0x20),
        !v.contains(0x20),
        !m.contains(0x0a),
        !p.contains(0x0a),
        !v.contains(0x0a),
    ensures
        parse_spec(
            m + seq![0x20u8] + p + seq![0x20u8] + v + seq![0x0du8, 0x0au8] + seq![0x0du8, 0x0au8],
        ) == Ok::<(RequestView, nat), ParseFault>(
            (
                RequestView {
                    method: decode_utf8(m),
                    path: decode_utf8(p),
                    headers: Seq::empty(),
                    body: None,
                },
                m.len() + p.len() + v.len() + 6,
            ),
        ),
{
    let line = m + seq![0x20u8] + p + seq![0x20u8] + v + seq![0x0du8, 0x0au8];
    let e = seq![0x0du8, 0x0au8];
    lemma_request_line_tokens(m, p, v, e);
    let input = line + e;
    assert(input.subrange(0, line.len() as int) =~= line);
    assert(input.subrange(line.len() as int, input.len() as int) =~= e);
    lemma_empty_line_len();
    assert(e.subrange(0, 2) =~= e);
    assert(e.subrange(2, 2) =~= Seq::<u8>::empty());
    assert(line_content(e).len() == 0);
    assert(!has_name(Seq::empty(), "content-length"@));
}

/// The first line of `s` ends at its first `\n`.
proof fn lemma_line_len_at(s: Seq<u8>, k: int)
    requires
        0 <= k < s.len(),
        s[k] == 0x0a,
        forall|j: int| 0 <= j < k ==> s[j] != 0x0a,
    ensures
        line_len(s) == k + 1,
{
    assert(first_newline(s, k));
    let c = choose|c: int| first_newline(s, c);
    assert(first_newline(s, c));
    if c < k {
        assert(s[c] != 0x0a);
    } else if c > k {
        assert(s[k] != 0x0a);
    }
}

/// At the headers with none read yet, a `Content-Length` line with value
/// `n` and then the empty line ask for a body of `n` bytes.
proof fn lemma_length_header_step(q1: ParserView, name: Seq<char>, value: Seq<u8>, n: usize) -> (q2:
    ParserView)
    requires
        q1.stage is Headers,
        q1.request.headers == Seq::<(Seq<char>, Seq<char>)>::empty(),
        is_ascii_chars(name),
        fold_name(name) == fold_name("content-length"@),
        !encode_utf8(name).contains(0x3a),
        valid_utf8(value),
        forall|j: int| !#[trigger] sep_at(value, j),
        decimal_value(value) == Some(n as nat),
    ensures
        q2.stage is Headers,
        q2.request.method == q1.request.method,
        q2.request.path == q1.request.path,
        q2.request.body == q1.request.body,
        step_line(q1, header_line(encode_utf8(name), value)) == Ok::<ParserView, ParseFault>(q2),
        end_headers(q2) == Ok::<ParserView, ParseFault>(
            ParserView { stage: Stage::Body(n), request: q2.request },
        ),
{
    let kb = encode_utf8(name);
    assert(decode_utf8(kb) == name);
    lemma_header_line_field(kb, value);
    let h2: Fields = seq![(lowered(name), decode_utf8(value))];
    assert(inserted(Seq::empty(), lowered(name), decode_utf8(value)) =~= h2) by {
        assert(!has_name(Seq::empty(), lowered(name)));
    }
    let q2 = ParserView {
        stage: Stage::Headers,
        request: RequestView {
            method: q1.request.method,
            path: q1.request.path,
            headers: h2,
            body: q1.request.body,
        },
    };
    lemma_content_length_name(name);
    assert(names_match(h2, 0, "content-length"@));
    lemma_index_of(h2, 0, "content-length"@);
    assert(lookup(h2, "content-length"@) == Some(decode_utf8(value)));
    assert(encode_utf8(decode_utf8(value)) == value);
    q2
}

/// A request line (as above), one header line that names `Content-Length`
/// in any case with the decimal value `n`, and the empty line, followed by
/// `body`: when `body` holds at least `n` bytes, the parse gives its first
/// `n` bytes as the body and takes exactly the head and those `n` bytes;
/// when it holds fewer, the parse fails with a truncated body.
#[verifier::rlimit(100)]
pub proof fn lemma_request_with_body(
    m: Seq<u8>,
    p: Seq<u8>,
    v: Seq<u8>,
    name: Seq<char>,
    value: Seq<u8>,
    n: usize,
    body: Seq<u8>,
)
    requires
        valid_utf8(m),
        valid_utf8(p),
        valid_utf8(v),
        m.len() > 0,
        p.len() > 0,
        !m.contains(0x20),
        !p.contains(0x20),
        !v.contains(0x20),
        !m.contains(0x0a),
        !p.contains(0x0a),
        !v.contains(0x0a),
        is_ascii_chars(name),
        fold_name(name) == fold_name("content-length"@),
        !encode_utf8(name).contains(0x3a),
        !encode_utf8(name).contains(0x0a),
        valid_utf8(value),
        forall|j: int| !#[trigger] sep_at(value, j),
        !value.contains(0x0a),
        decimal_value(value) == Some(n as nat),
    ensures
        ({
            let head = m + seq![0x20u8] + p + seq![0x20u8] + v + seq![0x0du8, 0x0au8] + header_line(
                encode_utf8(name),
                value,
            ) + seq![0x0du8, 0x0au8];
            &&& body.len() >= n ==> (parse_spec(head + body) matches Ok((r, k)) && r.body == Some(
                body.subrange(0, n as int),
            ) && k == head.len() + n)
            &&& body.len() < n ==> parse_spec(head + body) == Err::<(RequestView, nat), ParseFault>(
                ParseFault::BodyReadTruncated,
            )
        }),
{
    let line = m + seq![0x20u8] + p + seq![0x20u8] + v + seq![0x0du8, 0x0au8];
    let kb = encode_utf8(name);
    let h = header_line(kb, value);
    let e = seq![0x0du8, 0x0au8];
    let head = line + h + e;
    let input = head + body;
    let rest1 = h + e + body;
    let rest2 = e + body;
    lemma_request_line_tokens(m, p, v, rest1);
    assert(input =~= line + rest1);
    assert(input.subrange(0, line.len() as int) =~= line);
    assert(input.subrange(line.len() as int, input.len() as int) =~= rest1);
    let q1 = ParserView {
        stage: Stage::Headers,
        request: RequestView {
            method: decode_utf8(m),
            path: decode_utf8(p),
            headers: Seq::empty(),
            body: None,
        },
    };
    assert(step_line(initial_view(), line) == Ok::<ParserView, ParseFault>(q1));
    assert(parse_spec(input) == shifted(run_headers(q1, rest1), line.len() as nat));
    lemma_header_line_len(kb, value, e + body);
    assert(h + (e + body) =~= rest1);
    assert(rest1.subrange(0, h.len() as int) =~= h);
    assert(rest1.subrange(h.len() as int, rest1.len() as int) =~= rest2);
    let q2 = lemma_length_header_step(q1, name, value, n);
    lemma_headers_step(q1, rest1);
    assert(run_headers(q1, rest1) == shifted(run_headers(q2, rest2), h.len() as nat));
    lemma_line_len_at(rest2, 1);
    assert(rest2.subrange(0, 2) =~= e);
    assert(rest2.subrange(2, rest2.len() as int) =~= body);
    assert(line_content(e).len() == 0);
    let q3 = ParserView { stage: Stage::Body(n), request: q2.request };
    assert(step_line(q2, e) == Ok::<ParserView, ParseFault>(q3));
    lemma_headers_step(q2, rest2);
    assert(run_headers(q2, rest2) == shifted(run_body(q3, body), 2));
    lemma_shifted_twice(run_body(q3, body), 2, h.len() as nat);
    lemma_shifted_twice(run_body(q3, body), 2 + h.len(), line.len() as nat);
    assert(head.len() == line.len() + h.len() + 2);
}

/// A header line without `\n` in its name or value is one line.
proof fn lemma_header_line_len(kb: Seq<u8>, value: Seq<u8>, tail: Seq<u8>)
    requires
        !kb.contains(0x0a),
        !value.contains(0x0a),
    ensures
        line_len(header_line(kb, value) + tail) == header_line(kb, value).len(),
{
    let h = header_line(kb, value);
    let s = h + tail;
    let hk = h.len() - 1;
    assert forall|j: int| 0 <= j < hk implies s[j] != 0x0a by {
        if j < kb.len() {
            assert(s[j] == kb[j]);
        } else if j < kb.len() + 2 {
        } else if j < kb.len() + 2 + value.len() {
            assert(s[j] == value[j - kb.len() - 2]);
        } else {
            assert(s[j] == 0x0d);
        }
    }
    lemma_line_len_at(s, hk);
}

} // verus!
