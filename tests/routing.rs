use http_server::body::HttpBody;
use http_server::request::parse;
use http_server::response::serialize;
use http_server::routes::{
    file_read_response, file_written_response, handle_get_echo, handle_get_files,
    handle_get_user_agent, handle_post_files, handle_request, FileRead, Route, ServerConfig,
};

fn request(raw: &[u8]) -> http_server::request::HttpRequest {
    parse(raw).unwrap().0
}

fn no_dir() -> ServerConfig {
    ServerConfig { directory: None }
}

fn dir() -> ServerConfig {
    ServerConfig { directory: Some("/srv".to_string()) }
}

fn response_bytes(route: Route) -> Vec<u8> {
    match route {
        Route::Respond(r) => serialize(&r),
        _ => panic!("expected a response"),
    }
}

#[test]
fn root_is_ok() {
    let r = handle_request(&request(b"GET / HTTP/1.1\r\n\r\n"), &no_dir());
    assert_eq!(response_bytes(r), b"HTTP/1.1 200 OK\r\n\r\n".to_vec());
    let r = handle_request(&request(b"get /index.html HTTP/1.1\r\n\r\n"), &no_dir());
    assert_eq!(response_bytes(r), b"HTTP/1.1 200 OK\r\n\r\n".to_vec());
}

#[test]
fn echo_returns_the_rest_of_the_path() {
    let req = request(b"GET /echo/abc HTTP/1.1\r\n\r\n");
    let r = handle_request(&req, &no_dir());
    assert_eq!(
        response_bytes(r),
        b"HTTP/1.1 200 OK\r\nContent-Type: text/plain\r\n\r\nabc".to_vec()
    );
    assert!(matches!(handle_get_echo(&request(b"GET /other HTTP/1.1\r\n\r\n")), Route::Fail));
}

#[test]
fn user_agent_is_echoed() {
    let req = request(b"GET /user-agent HTTP/1.1\r\nUser-Agent: curl/8\r\n\r\n");
    assert_eq!(
        response_bytes(handle_request(&req, &no_dir())),
        b"HTTP/1.1 200 OK\r\nContent-Type: text/plain\r\n\r\ncurl/8".to_vec()
    );
    let bare = request(b"GET /user-agent HTTP/1.1\r\n\r\n");
    assert!(matches!(handle_get_user_agent(&bare), Route::Fail));
}

#[test]
fn unknown_path_is_not_found() {
    let r = handle_request(&request(b"GET /nope HTTP/1.1\r\n\r\n"), &no_dir());
    assert_eq!(response_bytes(r), b"HTTP/1.1 404 Not Found\r\n\r\n".to_vec());
    let r = handle_request(&request(b"POST /nope HTTP/1.1\r\n\r\n"), &no_dir());
    assert_eq!(response_bytes(r), b"HTTP/1.1 404 Not Found\r\n\r\n".to_vec());
}

#[test]
fn other_methods_are_not_allowed() {
    let r = handle_request(&request(b"DELETE / HTTP/1.1\r\n\r\n"), &no_dir());
    assert_eq!(response_bytes(r), b"HTTP/1.1 405 Method Not Allowed\r\n\r\n".to_vec());
}

#[test]
fn get_file_reads_under_the_directory() {
    let req = request(b"GET /files/a.txt HTTP/1.1\r\n\r\n");
    match handle_request(&req, &dir()) {
        Route::ReadFile(p) => assert_eq!(p, "/srv/a.txt"),
        _ => panic!("expected a file read"),
    }
    let r = handle_get_files(&req, &no_dir());
    assert_eq!(response_bytes(r), b"HTTP/1.1 404 Not Found\r\n\r\n".to_vec());
}

#[test]
fn post_file_writes_under_the_directory() {
    let req = request(
        b"POST /files/b.bin HTTP/1.1\r\nContent-Type: application/octet-stream\r\nContent-Length: 3\r\n\r\nxyz",
    );
    match handle_request(&req, &dir()) {
        Route::WriteFile(p, bytes) => {
            assert_eq!(p, "/srv/b.bin");
            assert_eq!(bytes, b"xyz".to_vec());
        }
        _ => panic!("expected a file write"),
    }
    assert!(matches!(handle_post_files(&req, &no_dir()), Route::Fail));
}

#[test]
fn post_file_with_other_content_type_is_bad_request() {
    let req = request(b"POST /files/b HTTP/1.1\r\nContent-Type: text/plain\r\n\r\n");
    let r = handle_request(&req, &dir());
    assert_eq!(response_bytes(r), b"HTTP/1.1 400 Bad Request\r\n\r\n".to_vec());
    let untyped = request(b"POST /files/b HTTP/1.1\r\n\r\n");
    assert!(matches!(handle_request(&untyped, &dir()), Route::Fail));
}

#[test]
fn file_outcomes() {
    let found = file_read_response(FileRead::Contents(vec![7, 8]));
    let mut expected = b"HTTP/1.1 200 OK\r\nContent-Type: application/octet-stream\r\n\r\n".to_vec();
    expected.extend_from_slice(&[7, 8]);
    assert_eq!(serialize(&found), expected);
    assert!(matches!(found.body, Some(HttpBody::Binary(_))));
    assert_eq!(
        serialize(&file_read_response(FileRead::NotFound)),
        b"HTTP/1.1 404 Not Found\r\n\r\n".to_vec()
    );
    assert_eq!(
        serialize(&file_read_response(FileRead::Failed)),
        b"HTTP/1.1 500 Internal Server Error\r\n\r\n".to_vec()
    );
    assert_eq!(serialize(&file_written_response(true)), b"HTTP/1.1 201 Created\r\n\r\n".to_vec());
    assert_eq!(
        serialize(&file_written_response(false)),
        b"HTTP/1.1 500 Internal Server Error\r\n\r\n".to_vec()
    );
}
