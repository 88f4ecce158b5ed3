//! Routing: which response a request gets, or which file work it needs
//! first. File access itself is left to the caller, who hands the outcome
//! back to `file_read_response` or `file_written_response`.
use vstd::prelude::*;
use vstd::utf8::*;
use crate::body::HttpBody;
use crate::headers::{Fields, HttpHeaders, lookup};
use crate::request::HttpRequest;
use crate::response::{HttpResponse, ResponseView};
use crate::status::HttpStatus;
use crate::text::{lemma_valid_between, text_eq, text_of};

verus! {

broadcast use {encode_utf8_valid_utf8, encode_utf8_decode_utf8, decode_utf8_encode_utf8};

/// Settings fixed before the first connection is served.
pub struct ServerConfig {
    /// Where `/files/` requests read and write, if anywhere.
    pub directory: Option<String>,
}

/// What serving a request takes after routing.
pub enum Route {
    /// Send this response.
    Respond(HttpResponse),
    /// Read the file at this path, then answer with `file_read_response`.
    ReadFile(String),
    /// Write these bytes to the file at this path, then answer with
    /// `file_written_response`.
    WriteFile(String, Vec<u8>),
    /// The request cannot be served: answer with an internal server error.
    Fail,
}

/// A route as the contracts see it.
pub enum RouteView {
    Respond(ResponseView),
    ReadFile(Seq<char>),
    WriteFile(Seq<char>, Seq<u8>),
    Fail,
}

impl View for Route {
    type V = RouteView;

    open spec fn view(&self) -> RouteView {
        match self {
            Route::Respond(r) => RouteView::Respond(r@),
            Route::ReadFile(p) => RouteView::ReadFile(p@),
            Route::WriteFile(p, b) => RouteView::WriteFile(p@, b@),
            Route::Fail => RouteView::Fail,
        }
    }
}

/// What `str::to_uppercase` gives for a text.
pub uninterp spec fn upper_of(s: Seq<char>) -> Seq<char>;

/// Relies on `str::to_uppercase`: the result depends on the characters alone.
#[verifier::external_body]
fn uppercase(s: &str) -> (r: String)
    ensures
        r@ == upper_of(s@),
{
    s.to_uppercase()
}

/// `s` starts with the bytes of `prefix`.
pub open spec fn starts_with(s: Seq<char>, prefix: Seq<char>) -> bool {
    encode_utf8(prefix).len() <= encode_utf8(s).len() && encode_utf8(s).subrange(
        0,
        encode_utf8(prefix).len() as int,
    ) == encode_utf8(prefix)
}

/// What follows `prefix` in `s`.
pub open spec fn after_prefix(s: Seq<char>, prefix: Seq<char>) -> Seq<char> {
    decode_utf8(encode_utf8(s).subrange(encode_utf8(prefix).len() as int, encode_utf8(s).len() as int))
}

/// What follows an ASCII `prefix` in `s`, if `s` starts with it.
fn strip_prefix(s: &str, prefix: &str) -> (r: Option<String>)
    requires
        is_ascii_chars(prefix@),
        prefix@.len() > 0,
    ensures
        r matches Some(t) ==> starts_with(s@, prefix@) && t@ == after_prefix(s@, prefix@),
        r is None ==> !starts_with(s@, prefix@),
{
    let x = s.as_bytes();
    let y = prefix.as_bytes();
    proof {
        is_ascii_chars_encode_utf8(prefix@);
    }
    if y.len() > x.len() {
        return None;
    }
    let mut i: usize = 0;
    while i < y.len()
        invariant
            x@ == encode_utf8(s@),
            y@ == encode_utf8(prefix@),
            y@.len() <= x@.len(),
            i <= y@.len(),
            forall|k: int| 0 <= k < i ==> x@[k] == y@[k],
        decreases y@.len() - i,
    {
        if x[i] != y[i] {
            assert(x@.subrange(0, y@.len() as int)[i as int] != y@[i as int]);
            return None;
        }
        i = i + 1;
    }
    assert(x@.subrange(0, y@.len() as int) =~= y@);
    let k = y.len();
    proof {
        let last = k - 1;
        assert(y@[last] == prefix@[last] as u8);
        assert(x@[last] < 0x80);
        lemma_valid_between(x@, k as int, x@.len() as int);
    }
    let rest = text_of(vstd::slice::slice_to_vec(vstd::slice::slice_subrange(x, k, x.len())));
    Some(rest)
}

/// `dir/name`.
fn join_path(dir: &String, name: &String) -> (r: String)
    ensures
        r@ == dir@ + "/"@ + name@,
{
    let mut path = dir.clone();
    path.append("/");
    path.append(name.as_str());
    path
}

/// A response with no headers and no body.
pub open spec fn empty_view(code: u16) -> ResponseView {
    ResponseView { status: code, headers: Seq::empty(), body: None }
}

/// A 200 response with this content type and body.
pub open spec fn content_view(content_type: Seq<char>, body: Seq<u8>) -> ResponseView {
    ResponseView {
        status: 200,
        headers: seq![("Content-Type"@, content_type)],
        body: Some(body),
    }
}

/// A response with the given status, no headers and no body.
pub fn empty_response(status: HttpStatus) -> (r: HttpResponse)
    ensures
        r@ == empty_view(status@),
        r.headers.wf(),
{
    HttpResponse { status, headers: HttpHeaders::new(), body: None }
}

fn content_response(content_type: &str, body: HttpBody) -> (r: HttpResponse)
    ensures
        r@ == content_view(content_type@, body.bytes()),
        r.headers.wf(),
        r.body == Some(body),
{
    let mut headers = HttpHeaders::new();
    headers.insert(String::from_str("Content-Type"), String::from_str(content_type));
    assert(headers@ =~= seq![("Content-Type"@, content_type@)]);
    HttpResponse { status: HttpStatus::ok(), headers, body: Some(body) }
}

pub open spec fn echo_route(req_path: Seq<char>) -> RouteView {
    RouteView::Respond(
        content_view("text/plain"@, encode_utf8(after_prefix(req_path, "/echo/"@))),
    )
}

pub open spec fn user_agent_route(h: Fields) -> RouteView {
    match lookup(h, "user-agent"@) {
        Some(ua) => RouteView::Respond(content_view("text/plain"@, encode_utf8(ua))),
        None => RouteView::Fail,
    }
}

pub open spec fn get_files_route(req_path: Seq<char>, dir: Option<Seq<char>>) -> RouteView {
    match dir {
        None => RouteView::Respond(empty_view(404)),
        Some(d) => RouteView::ReadFile(d + "/"@ + after_prefix(req_path, "/files/"@)),
    }
}

pub open spec fn post_files_route(req: crate::request::RequestView, dir: Option<Seq<char>>) -> RouteView {
    match lookup(req.headers, "content-type"@) {
        None => RouteView::Fail,
        Some(ct) => if ct != "application/octet-stream"@ {
            RouteView::Respond(empty_view(400))
        } else {
            match (dir, req.body) {
                (Some(d), Some(b)) => RouteView::WriteFile(
                    d + "/"@ + after_prefix(req.path, "/files/"@),
                    b,
                ),
                _ => RouteView::Fail,
            }
        },
    }
}

/// Where a request goes: by its method (case aside) and path.
pub open spec fn route_spec(req: crate::request::RequestView, dir: Option<Seq<char>>) -> RouteView {
    let method = upper_of(req.method);
    if method == "GET"@ {
        if req.path == "/"@ || req.path == "/index.html"@ {
            RouteView::Respond(empty_view(200))
        } else if starts_with(req.path, "/echo/"@) {
            echo_route(req.path)
        } else if starts_with(req.path, "/files/"@) {
            get_files_route(req.path, dir)
        } else if req.path == "/user-agent"@ {
            user_agent_route(req.headers)
        } else {
            RouteView::Respond(empty_view(404))
        }
    } else if method == "POST"@ {
        if starts_with(req.path, "/files/"@) {
            post_files_route(req, dir)
        } else {
            RouteView::Respond(empty_view(404))
        }
    } else {
        RouteView::Respond(empty_view(405))
    }
}

pub open spec fn dir_view(config: &ServerConfig) -> Option<Seq<char>> {
    match config.directory {
        Some(d) => Some(d@),
        None => None,
    }
}

proof fn lemma_prefixes_ascii()
    ensures
        is_ascii_chars("/echo/"@),
        "/echo/"@.len() > 0,
        is_ascii_chars("/files/"@),
        "/files/"@.len() > 0,
{
    reveal_strlit("/echo/");
    reveal_strlit("/files/");
}

/// Answers `GET /echo/<text>` with the text.
pub fn handle_get_echo(request: &HttpRequest) -> (r: Route)
    ensures
        starts_with(request.path@, "/echo/"@) ==> r@ == echo_route(request.path@),
        !starts_with(request.path@, "/echo/"@) ==> r@ == RouteView::Fail,
        r matches Route::Respond(x) ==> (x.body matches Some(HttpBody::Text(_))),
{
    proof {
        lemma_prefixes_ascii();
    }
    match strip_prefix(request.path.as_str(), "/echo/") {
        Some(text) => Route::Respond(content_response("text/plain", HttpBody::Text(text))),
        None => Route::Fail,
    }
}

/// Answers `GET /user-agent` with the `User-Agent` header.
pub fn handle_get_user_agent(request: &HttpRequest) -> (r: Route)
    requires
        request.headers.wf(),
    ensures
        r@ == user_agent_route(request.headers@),
        r matches Route::Respond(x) ==> (x.body matches Some(HttpBody::Text(_))),
{
    match request.headers.get("user-agent") {
        Some(ua) => Route::Respond(content_response("text/plain", HttpBody::Text(ua.clone()))),
        None => Route::Fail,
    }
}

/// Routes `GET /files/<name>` to reading that file under the directory.
pub fn handle_get_files(request: &HttpRequest, config: &ServerConfig) -> (r: Route)
    ensures
        starts_with(request.path@, "/files/"@) ==> r@ == get_files_route(
            request.path@,
            dir_view(config),
        ),
        !starts_with(request.path@, "/files/"@) ==> r@ == match dir_view(config) {
            None => RouteView::Respond(empty_view(404)),
            Some(_) => RouteView::Fail,
        },
{
    proof {
        lemma_prefixes_ascii();
    }
    let dir = match &config.directory {
        None => {
            return Route::Respond(empty_response(HttpStatus::not_found()));
        },
        Some(d) => d,
    };
    match strip_prefix(request.path.as_str(), "/files/") {
        Some(name) => Route::ReadFile(join_path(dir, &name)),
        None => Route::Fail,
    }
}

/// Routes `POST /files/<name>` with an octet-stream body to writing that
/// file under the directory.
pub fn handle_post_files(request: &HttpRequest, config: &ServerConfig) -> (r: Route)
    requires
        request.headers.wf(),
    ensures
        starts_with(request.path@, "/files/"@) ==> r@ == post_files_route(
            request@,
            dir_view(config),
        ),
        !starts_with(request.path@, "/files/"@) ==> r@ == match post_files_route(
            request@,
            dir_view(config),
        ) {
            RouteView::WriteFile(_, _) => RouteView::Fail,
            other => other,
        },
{
    proof {
        lemma_prefixes_ascii();
    }
    match request.headers.get("content-type") {
        None => {
            return Route::Fail;
        },
        Some(ct) => {
            if !text_eq(ct.as_str(), "application/octet-stream") {
                return Route::Respond(empty_response(HttpStatus::bad_request()));
            }
        },
    }
    let dir = match &config.directory {
        None => {
            return Route::Fail;
        },
        Some(d) => d,
    };
    let body = match &request.body {
        None => {
            return Route::Fail;
        },
        Some(b) => b,
    };
    match strip_prefix(request.path.as_str(), "/files/") {
        Some(name) => Route::WriteFile(
            join_path(dir, &name),
            vstd::slice::slice_to_vec(body.as_bytes()),
        ),
        None => Route::Fail,
    }
}

/// Routes a request by its method (case aside) and path.
pub fn handle_request(request: &HttpRequest, config: &ServerConfig) -> (r: Route)
    requires
        request.headers.wf(),
    ensures
        r@ == route_spec(request@, dir_view(config)),
        r matches Route::Respond(x) ==> x.body is None || (x.body matches Some(HttpBody::Text(_))),
{
    proof {
        lemma_prefixes_ascii();
    }
    let method = uppercase(request.method.as_str());
    let path = request.path.as_str();
    if text_eq(method.as_str(), "GET") {
        if text_eq(path, "/") || text_eq(path, "/index.html") {
            Route::Respond(empty_response(HttpStatus::ok()))
        } else if strip_prefix(path, "/echo/").is_some() {
            handle_get_echo(request)
        } else if strip_prefix(path, "/files/").is_some() {
            handle_get_files(request, config)
        } else if text_eq(path, "/user-agent") {
            handle_get_user_agent(request)
        } else {
            Route::Respond(empty_response(HttpStatus::not_found()))
        }
    } else if text_eq(method.as_str(), "POST") {
        if strip_prefix(path, "/files/").is_some() {
            handle_post_files(request, config)
        } else {
            Route::Respond(empty_response(HttpStatus::not_found()))
        }
    } else {
        Route::Respond(empty_response(HttpStatus::method_not_allowed()))
    }
}

/// The outcome of reading a file.
pub enum FileRead {
    Contents(Vec<u8>),
    NotFound,
    Failed,
}

/// Answers a file read: its bytes as an octet stream, 404 for a missing
/// file, 500 for any other failure.
pub fn file_read_response(outcome: FileRead) -> (r: HttpResponse)
    ensures
        r.headers.wf(),
        match outcome {
            FileRead::Contents(b) => r@ == content_view("application/octet-stream"@, b@) && (
            r.body matches Some(HttpBody::Binary(_))),
            FileRead::NotFound => r@ == empty_view(404),
            FileRead::Failed => r@ == empty_view(500),
        },
{
    match outcome {
        FileRead::Contents(b) => content_response(
            "application/octet-stream",
            HttpBody::Binary(b),
        ),
        FileRead::NotFound => empty_response(HttpStatus::not_found()),
        FileRead::Failed => empty_response(HttpStatus::internal_server_error()),
    }
}

/// Answers a file write: 201 when it succeeded, 500 otherwise.
pub fn file_written_response(written: bool) -> (r: HttpResponse)
    ensures
        r.headers.wf(),
        r@ == empty_view(if written {
            201
        } else {
            500
        }),
{
    if written {
        empty_response(HttpStatus::created())
    } else {
        empty_response(HttpStatus::internal_server_error())
    }
}

} // verus!
