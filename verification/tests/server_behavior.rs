//! End-to-end behavior of the engine over raw request bytes: the same
//! requests a live server would read from a socket, pushed through the
//! in-memory pipeline, with the static-file lookup simulated.
use httpageboy::conn::{handle_conn, conn_file_reply, ConnStep};
use httpageboy::files::file_candidate;
use httpageboy::handler::{fixed_ok_response, DemoHandler};
use httpageboy::request::Request;
use httpageboy::routes::RouteTable;
use httpageboy::request_type::Rt;

fn contains(hay: &[u8], needle: &[u8]) -> bool {
    if needle.is_empty() {
        return true;
    }
    if hay.len() < needle.len() {
        return false;
    }
    hay.windows(needle.len()).any(|w| w == needle)
}

fn create_test_server() -> RouteTable<DemoHandler> {
    let mut table: RouteTable<DemoHandler> = RouteTable::new();
    table.add_route(b"/".to_vec(), Rt::GET, DemoHandler::Fixed(fixed_ok_response(b"home".to_vec())));
    table.add_route(b"/test".to_vec(), Rt::GET, DemoHandler::Fixed(fixed_ok_response(b"get".to_vec())));
    table.add_route(b"/test".to_vec(), Rt::POST, DemoHandler::Summary);
    table.add_route(b"/test/{param1}".to_vec(), Rt::POST, DemoHandler::Summary);
    table.add_route(b"/test/{param1}/{param2}".to_vec(), Rt::POST, DemoHandler::Summary);
    table.add_route(b"/test".to_vec(), Rt::PUT, DemoHandler::Summary);
    table.add_route(b"/test".to_vec(), Rt::DELETE, DemoHandler::Fixed(fixed_ok_response(b"delete".to_vec())));
    table
}

/// The simulated file source: the one file a test expects to exist under the
/// `res` base, found by the same candidate path the real resolver would
/// build.
fn lookup_file(req: &Request) -> Option<(Vec<u8>, Vec<u8>)> {
    let candidate = file_candidate(&b"res".to_vec(), &req.path);
    if candidate == b"res/test.png".to_vec() {
        Some((candidate, b"fake png bytes".to_vec()))
    } else {
        None
    }
}

fn run_test(request: &[u8], expected_response: &[u8]) {
    let table = create_test_server();
    let raw = request.to_vec();
    let out = match handle_conn(&raw, &table, true) {
        ConnStep::Reply(bytes) => bytes,
        ConnStep::FileLookup(req) => conn_file_reply(lookup_file(&req), true),
    };
    assert!(
        contains(&out, expected_response),
        "response {:?} does not contain {:?}",
        String::from_utf8_lossy(&out),
        String::from_utf8_lossy(expected_response),
    );
}

#[test]
fn test_home() {
    let request = b"GET / HTTP/1.1\r\n\r\n";
    let expected_response = b"home";
    run_test(request, expected_response);
}

#[test]
fn test_get() {
    let request = b"GET /test HTTP/1.1\r\n\r\n";
    let expected_response = b"get";
    run_test(request, expected_response);
}

#[test]
fn test_get_with_query() {
    let request = b"GET /test?foo=bar&baz=qux HTTP/1.1\r\n\r\n";
    let expected_response = b"get";
    run_test(request, expected_response);
}

#[test]
fn test_post() {
    let request = b"POST /test HTTP/1.1\r\n\r\nmueve tu cuerpo";
    let expected_response = b"Method: POST\nUri: /test\nParams: {}\nBody: \"mueve tu cuerpo\"";
    run_test(request, expected_response);
}

#[test]
fn test_post_with_query() {
    let request = b"POST /test?foo=bar HTTP/1.1\r\n\r\nmueve tu cuerpo";
    let expected_response =
        b"Method: POST\nUri: /test\nParams: {\"foo\": \"bar\"}\nBody: \"mueve tu cuerpo\"";
    run_test(request, expected_response);
}

#[test]
fn test_post_with_content_length() {
    let request = b"POST /test HTTP/1.1\r\nContent-Length: 15\r\n\r\nmueve tu cuerpo";
    let expected_response = b"Method: POST\nUri: /test\nParams: {}\nBody: \"mueve tu cuerpo\"";
    run_test(request, expected_response);
}

#[test]
fn test_post_with_params() {
    let request = b"POST /test/hola/que?param4=hoy&param3=hace HTTP/1.1\r\n\r\nmueve tu cuerpo";
    let expected_response = b"Method: POST\nUri: /test/hola/que\nParams: {\"param1\": \"hola\", \"param2\": \"que\", \"param3\": \"hace\", \"param4\": \"hoy\"}\nBody: \"mueve tu cuerpo\"";
    run_test(request, expected_response);
}

#[test]
fn test_post_with_incomplete_path_params() {
    let request = b"POST /test/hola HTTP/1.1\r\n\r\nmueve tu cuerpo";
    let expected_response =
        b"Method: POST\nUri: /test/hola\nParams: {\"param1\": \"hola\"}\nBody: \"mueve tu cuerpo\"";
    run_test(request, expected_response);
}

#[test]
fn test_put() {
    let request = b"PUT /test HTTP/1.1\r\n\r\nmueve tu cuerpo";
    let expected_response = b"Method: PUT\nUri: /test\nParams: {}\nBody: \"mueve tu cuerpo\"";
    run_test(request, expected_response);
}

#[test]
fn test_delete() {
    let request = b"DELETE /test HTTP/1.1\r\n\r\n";
    let expected_response = b"delete";
    run_test(request, expected_response);
}

#[test]
fn test_file_exists() {
    let request = b"GET /test.png HTTP/1.1\r\nHost: localhost\r\n\r\n";
    let expected_response = b"HTTP/1.1 200 OK";
    run_test(request, expected_response);
}

#[test]
fn test_file_not_found() {
    let request = b"GET /test1.png HTTP/1.1\r\n\r\n";
    let expected_response = b"HTTP/1.1 404 Not Found";
    run_test(request, expected_response);
}

#[test]
fn test_method_not_allowed() {
    let request = b"BREW /coffee HTTP/1.1\r\n\r\n";
    let expected_response = b"HTTP/1.1 405 Method Not Allowed";
    run_test(request, expected_response);
}

#[test]
fn test_empty_request() {
    let request = b"";
    let expected_response = b"HTTP/1.1 400 Bad Request";
    run_test(request, expected_response);
}

#[test]
fn test_malformed_request() {
    let request = b"THIS_IS_NOT_HTTP\r\n\r\n";
    let expected_response = b"HTTP/1.1 400 Bad Request";
    run_test(request, expected_response);
}

#[test]
fn test_unsupported_http_version() {
    let request = b"GET / HTTP/0.9\r\n\r\n";
    let expected_response = b"HTTP/1.1 505 HTTP Version Not Supported";
    run_test(request, expected_response);
}

#[test]
fn test_long_path() {
    let long_path = "/".to_string() + &"a".repeat(10_000);
    let request = format!("GET {} HTTP/1.1\r\n\r\n", long_path);
    let expected_response = b"HTTP/1.1 414 URI Too Long";
    run_test(request.as_bytes(), expected_response);
}

#[test]
fn test_missing_method() {
    let request = b"/ HTTP/1.1\r\n\r\n";
    let expected_response = b"HTTP/1.1 400 Bad Request";
    run_test(request, expected_response);
}

#[test]
fn test_headless_request() {
    let request = b"GET /x";
    let expected_response = b"HTTP/1.1 400 Bad Request";
    run_test(request, expected_response);
}

#[test]
fn test_traversal_rejected() {
    let request = b"GET /../../secret.txt HTTP/1.1\r\n\r\n";
    let expected_response = b"HTTP/1.1 404 Not Found";
    run_test(request, expected_response);
}

#[test]
fn test_symlink_escape_rejected() {
    let table = create_test_server();
    let raw = b"GET /evil HTTP/1.1\r\n\r\n".to_vec();
    let out = match handle_conn(&raw, &table, true) {
        ConnStep::Reply(bytes) => bytes,
        ConnStep::FileLookup(_req) => {
            let canonical = b"/etc/passwd".to_vec();
            match httpageboy::files::secure_path(&b"/srv/res".to_vec(), &canonical) {
                Some(real) => conn_file_reply(Some((real, b"secret".to_vec())), true),
                None => conn_file_reply(None, true),
            }
        },
    };
    assert!(contains(&out, b"HTTP/1.1 404 Not Found"));
    assert!(!contains(&out, b"secret"));
}
