//! Unit-level checks of the engine's pieces: vocabularies, the parameter
//! map, pattern extraction, framing helpers, path security, serialization
//! and its round trip.
use httpageboy::bytes::{dec_of_exec, lower_vec, parse_dec_exec, trim_ws_exec};
use httpageboy::conn::{content_length_of_head, expects_body_to_eof, head_complete};
use httpageboy::files::{append_index, file_candidate, get_content_type_quick, handle_file_request,
    secure_path};
use httpageboy::handler::{demo_handle_home_get, demo_handle_test_get, request_summary,
    fixed_ok_response, DemoHandler};
use httpageboy::params::ParamMap;
use httpageboy::request::{handle_request, Request};
use httpageboy::request_type::RequestType;
use httpageboy::response::Response;
use httpageboy::routes::RouteTable;
use httpageboy::status_code::StatusCode;
use httpageboy::wire::{parse_response, render_response};

#[test]
fn status_vocabulary_exact() {
    assert_eq!(StatusCode::Okay.code(), 200);
    assert_eq!(StatusCode::UriTooLong.code(), 414);
    assert_eq!(StatusCode::HttpVersionNotSupported.code(), 505);
    assert_eq!(StatusCode::Okay.message(), b"OK".to_vec());
    assert_eq!(StatusCode::NotFound.message(), b"Not Found".to_vec());
    assert_eq!(StatusCode::Okay.status_line(), b"200 OK".to_vec());
    assert_eq!(StatusCode::MethodNotAllowed.status_line(), b"405 Method Not Allowed".to_vec());
    assert_eq!(
        StatusCode::InternalServerError.status_line(),
        b"500 Internal Server Error".to_vec(),
    );
}

#[test]
fn method_vocabulary_roundtrip() {
    assert_eq!(RequestType::GET.to_bytes(), b"GET".to_vec());
    assert_eq!(RequestType::PATCH.to_bytes(), b"PATCH".to_vec());
    assert_eq!(RequestType::from_bytes(&b"DELETE".to_vec()), Some(RequestType::DELETE));
    assert_eq!(RequestType::from_bytes(&b"CONNECT".to_vec()), Some(RequestType::CONNECT));
    assert_eq!(RequestType::from_bytes(&b"BREW".to_vec()), None);
    assert_eq!(RequestType::from_bytes(&b"get".to_vec()), None);
}

#[test]
fn param_map_insert_get_overwrite() {
    let mut m = ParamMap::new();
    assert_eq!(m.len(), 0);
    m.insert(b"b".to_vec(), b"2".to_vec());
    m.insert(b"a".to_vec(), b"1".to_vec());
    m.insert(b"b".to_vec(), b"3".to_vec());
    assert_eq!(m.len(), 2);
    assert_eq!(m.get(&b"a".to_vec()), Some(b"1".to_vec()));
    assert_eq!(m.get(&b"b".to_vec()), Some(b"3".to_vec()));
    assert_eq!(m.get(&b"c".to_vec()), None);
    assert_eq!(m.key_at(0), b"a".to_vec());
    assert_eq!(m.key_at(1), b"b".to_vec());
}

#[test]
fn extract_params_binds_and_rejects() {
    let m = Request::extract_params(&b"/test/{id}/{name}".to_vec(), &b"/test/42/fido".to_vec());
    assert_eq!(m.get(&b"id".to_vec()), Some(b"42".to_vec()));
    assert_eq!(m.get(&b"name".to_vec()), Some(b"fido".to_vec()));
    assert_eq!(m.len(), 2);

    let none = Request::extract_params(&b"/other/{id}".to_vec(), &b"/test/42".to_vec());
    assert_eq!(none.len(), 0);

    let wrong_len = Request::extract_params(&b"/test/{id}".to_vec(), &b"/test/42/fido".to_vec());
    assert_eq!(wrong_len.len(), 0);
}

#[test]
fn query_beats_path_parameter() {
    let mut table: RouteTable<DemoHandler> = RouteTable::new();
    table.add_route(b"/test/{foo}".to_vec(), RequestType::POST, DemoHandler::Summary);
    let raw = b"POST /test/xyz?foo=bar HTTP/1.1\r\n\r\n".to_vec();
    let (req, early) = Request::parse_raw(&raw, &table);
    assert!(early.is_none());
    assert_eq!(req.params.get(&b"foo".to_vec()), Some(b"bar".to_vec()));
}

#[test]
fn parse_same_bytes_twice_field_for_field() {
    let mut table: RouteTable<DemoHandler> = RouteTable::new();
    table.add_route(b"/a/{x}".to_vec(), RequestType::GET, DemoHandler::Summary);
    let raw = b"GET /a/7?k=v HTTP/1.1\r\nHost: h\r\n\r\n".to_vec();
    let (r1, e1) = Request::parse_raw(&raw, &table);
    let (r2, e2) = Request::parse_raw(&raw, &table);
    assert!(e1.is_none() && e2.is_none());
    assert_eq!(r1.method, r2.method);
    assert_eq!(r1.path, r2.path);
    assert_eq!(r1.version, r2.version);
    assert_eq!(r1.headers, r2.headers);
    assert_eq!(r1.body, r2.body);
    assert_eq!(r1.params.entries, r2.params.entries);
}

#[test]
fn parsed_request_fields_exact() {
    let table: RouteTable<DemoHandler> = RouteTable::new();
    let raw = b"POST /p?a=1 HTTP/1.1\r\nHost: localhost\r\nX: y\r\nbad line\r\n\r\nbody".to_vec();
    let (req, early) = Request::parse_raw(&raw, &table);
    assert!(early.is_none());
    assert_eq!(req.method, RequestType::POST);
    assert_eq!(req.path, b"/p".to_vec());
    assert_eq!(req.version, b"HTTP/1.1".to_vec());
    assert_eq!(
        req.headers,
        vec![
            (b"Host".to_vec(), b"localhost".to_vec()),
            (b"X".to_vec(), b"y".to_vec()),
        ],
    );
    assert_eq!(req.body, b"body".to_vec());
    assert_eq!(req.params.get(&b"a".to_vec()), Some(b"1".to_vec()));
}

#[test]
fn gate_error_shapes() {
    let table: RouteTable<DemoHandler> = RouteTable::new();
    let (_, e) = Request::parse_raw(&b"".to_vec(), &table);
    assert_eq!(e.unwrap().status, b"400 Bad Request".to_vec());
    let (_, e) = Request::parse_raw(&b"HEAD / HTTP/1.1\r\n\r\n".to_vec(), &table);
    assert_eq!(e.unwrap().status, b"405 Method Not Allowed".to_vec());
    let (_, e) = Request::parse_raw(&b"GET / HTTP/1.0\r\n\r\n".to_vec(), &table);
    assert_eq!(e.unwrap().status, b"505 HTTP Version Not Supported".to_vec());
    let long = format!("GET /{} HTTP/1.1\r\n\r\n", "b".repeat(2001));
    let (_, e) = Request::parse_raw(&long.as_bytes().to_vec(), &table);
    assert_eq!(e.unwrap().status, b"414 URI Too Long".to_vec());
    let exactly_at_limit = format!("GET /{} HTTP/1.1\r\n\r\n", "b".repeat(1999));
    let (_, e) = Request::parse_raw(&exactly_at_limit.as_bytes().to_vec(), &table);
    assert!(e.is_none());
}

#[test]
fn literal_route_response_unmodified() {
    let mut table: RouteTable<DemoHandler> = RouteTable::new();
    let body = b"exact body".to_vec();
    table.add_route(b"/x".to_vec(), RequestType::GET, DemoHandler::Fixed(fixed_ok_response(body)));
    let mut req = Request::new_default();
    req.method = RequestType::GET;
    req.path = b"/x".to_vec();
    let resp = handle_request(&mut req, &table).unwrap();
    assert_eq!(resp.status, b"200 OK".to_vec());
    assert_eq!(resp.content_type, b"".to_vec());
    assert_eq!(resp.content, b"exact body".to_vec());
}

#[test]
fn add_route_overwrites_same_key() {
    let mut table: RouteTable<DemoHandler> = RouteTable::new();
    table.add_route(b"/x".to_vec(), RequestType::GET, DemoHandler::Fixed(fixed_ok_response(b"one".to_vec())));
    table.add_route(b"/x".to_vec(), RequestType::GET, DemoHandler::Fixed(fixed_ok_response(b"two".to_vec())));
    assert_eq!(table.len(), 1);
    let mut req = Request::new_default();
    req.method = RequestType::GET;
    req.path = b"/x".to_vec();
    let resp = handle_request(&mut req, &table).unwrap();
    assert_eq!(resp.content, b"two".to_vec());
}

#[test]
fn no_route_non_get_yields_none() {
    let table: RouteTable<DemoHandler> = RouteTable::new();
    let mut req = Request::new_default();
    req.method = RequestType::POST;
    req.path = b"/missing".to_vec();
    assert!(handle_request(&mut req, &table).is_none());
}

#[test]
fn content_type_table_exact() {
    assert_eq!(get_content_type_quick(&b"a/b.png".to_vec()), b"image/png".to_vec());
    assert_eq!(get_content_type_quick(&b"x.jpeg".to_vec()), b"image/jpeg".to_vec());
    assert_eq!(get_content_type_quick(&b"index.html".to_vec()), b"text/html".to_vec());
    assert_eq!(get_content_type_quick(&b"data.json".to_vec()), b"application/json".to_vec());
    assert_eq!(
        get_content_type_quick(&b"archive.tar.gz".to_vec()),
        b"application/octet-stream".to_vec(),
    );
    assert_eq!(
        get_content_type_quick(&b"noextension".to_vec()),
        b"application/octet-stream".to_vec(),
    );
}

#[test]
fn secure_path_boundary_cases() {
    let base = b"/srv/res".to_vec();
    assert_eq!(
        secure_path(&base, &b"/srv/res/img.png".to_vec()),
        Some(b"/srv/res/img.png".to_vec()),
    );
    assert_eq!(secure_path(&base, &b"/srv/res".to_vec()), Some(b"/srv/res".to_vec()));
    assert_eq!(secure_path(&base, &b"/srv/resfoo/img.png".to_vec()), None);
    assert_eq!(secure_path(&base, &b"/etc/passwd".to_vec()), None);
    assert_eq!(secure_path(&base, &b"/srv".to_vec()), None);
    let slashed = b"/srv/res/".to_vec();
    assert_eq!(secure_path(&slashed, &b"/srv/res/a".to_vec()), Some(b"/srv/res/a".to_vec()));
    assert_eq!(secure_path(&slashed, &b"/srv/re".to_vec()), None);
    let root = b"/".to_vec();
    assert_eq!(secure_path(&root, &b"/anything".to_vec()), Some(b"/anything".to_vec()));
}

#[test]
fn candidate_and_index_paths() {
    assert_eq!(
        file_candidate(&b"res".to_vec(), &b"/img.png?x=1".to_vec()),
        b"res/img.png".to_vec(),
    );
    assert_eq!(file_candidate(&b"res/".to_vec(), &b"///a".to_vec()), b"res/a".to_vec());
    assert_eq!(file_candidate(&b"".to_vec(), &b"/a".to_vec()), b"a".to_vec());
    assert_eq!(append_index(&b"res/docs".to_vec()), b"res/docs/index.html".to_vec());
}

#[test]
fn file_request_outcomes() {
    let hit = handle_file_request(Some((b"res/a.css".to_vec(), b"body{}".to_vec())));
    assert_eq!(hit.status, b"200 OK".to_vec());
    assert_eq!(hit.content_type, b"text/css".to_vec());
    assert_eq!(hit.content, b"body{}".to_vec());
    let miss = handle_file_request(None);
    assert_eq!(miss.status, b"404 Not Found".to_vec());
    assert_eq!(miss.content_type, b"text/plain".to_vec());
    assert_eq!(miss.content, b"404 Not Found".to_vec());
}

#[test]
fn render_response_exact_bytes() {
    let resp = Response {
        status: b"200 OK".to_vec(),
        content_type: b"text/plain".to_vec(),
        content: b"hi".to_vec(),
    };
    let open_conn = render_response(&resp, false);
    assert_eq!(
        open_conn,
        b"HTTP/1.1 200 OK\r\nContent-Type: text/plain\r\nContent-Length: 2\r\n\r\nhi".to_vec(),
    );
    let closing = render_response(&resp, true);
    assert_eq!(
        closing,
        b"HTTP/1.1 200 OK\r\nContent-Type: text/plain\r\nContent-Length: 2\r\nConnection: close\r\n\r\nhi"
            .to_vec(),
    );
}

#[test]
fn response_roundtrip_binary_body() {
    let resp = Response {
        status: b"200 OK".to_vec(),
        content_type: b"application/octet-stream".to_vec(),
        content: vec![0u8, 13, 10, 13, 10, 255, 7],
    };
    let wire_bytes = render_response(&resp, true);
    let back = parse_response(&wire_bytes).unwrap();
    assert_eq!(back.status, resp.status);
    assert_eq!(back.content_type, resp.content_type);
    assert_eq!(back.content, resp.content);
}

#[test]
fn response_roundtrip_empty_content_type() {
    let resp = Response {
        status: b"404 Not Found".to_vec(),
        content_type: b"".to_vec(),
        content: b"".to_vec(),
    };
    let wire_bytes = render_response(&resp, false);
    let back = parse_response(&wire_bytes).unwrap();
    assert_eq!(back.status, b"404 Not Found".to_vec());
    assert_eq!(back.content_type, b"".to_vec());
    assert_eq!(back.content, b"".to_vec());
}

#[test]
fn head_framing_helpers() {
    assert!(!head_complete(&b"GET / HTTP/1.1\r\n".to_vec()));
    assert!(head_complete(&b"GET / HTTP/1.1\r\n\r\n".to_vec()));
    assert_eq!(content_length_of_head(&b"POST / HTTP/1.1\r\ncOnTeNt-LeNgTh: 15\r\n\r\n".to_vec()), 15);
    assert_eq!(content_length_of_head(&b"POST / HTTP/1.1\r\nHost: h\r\n\r\n".to_vec()), 0);
    assert_eq!(
        content_length_of_head(
            &b"POST / HTTP/1.1\r\nContent-Length: abc\r\nContent-Length: 7\r\n\r\n".to_vec(),
        ),
        7,
    );
    assert!(!expects_body_to_eof(&b"GET / HTTP/1.1\r\n\r\n".to_vec()));
    assert!(expects_body_to_eof(&b"POST / HTTP/1.1\r\n\r\n".to_vec()));
    assert!(expects_body_to_eof(&b"".to_vec()));
}

#[test]
fn numeral_helpers() {
    assert_eq!(dec_of_exec(0), b"0".to_vec());
    assert_eq!(dec_of_exec(10507), b"10507".to_vec());
    assert_eq!(parse_dec_exec(&b"15".to_vec()), Some(15));
    assert_eq!(parse_dec_exec(&b"+15".to_vec()), Some(15));
    assert_eq!(parse_dec_exec(&b"".to_vec()), None);
    assert_eq!(parse_dec_exec(&b"1a".to_vec()), None);
    assert_eq!(parse_dec_exec(&b"99999999999999999999999".to_vec()), None);
    assert_eq!(trim_ws_exec(&b"  15 \t".to_vec()), b"15".to_vec());
    assert_eq!(lower_vec(&b"Content-LENGTH".to_vec()), b"content-length".to_vec());
}

#[test]
fn summary_format_exact() {
    let table: RouteTable<DemoHandler> = RouteTable::new();
    let raw = b"PUT /u?k=v HTTP/1.1\r\n\r\nhello".to_vec();
    let (req, early) = Request::parse_raw(&raw, &table);
    assert!(early.is_none());
    assert_eq!(
        request_summary(&req),
        b"Method: PUT\nUri: /u\nParams: {\"k\": \"v\"}\nBody: \"hello\"".to_vec(),
    );
}

#[test]
fn demo_handlers_fixed_bodies() {
    let req = Request::new_default();
    let home = demo_handle_home_get(&req);
    assert_eq!(home.status, b"200 OK".to_vec());
    assert_eq!(home.content, b"home-get".to_vec());
    let tst = demo_handle_test_get(&req);
    assert_eq!(tst.content, b"test-get".to_vec());
}

#[test]
fn parse_response_rejects_malformed() {
    assert!(parse_response(&b"no blank line here".to_vec()).is_none());
    assert!(parse_response(&b"NOT-HTTP 200\r\n\r\nbody".to_vec()).is_none());
    assert!(parse_response(&b"HTTP/1.1 200 OK\r\n\r\nbody".to_vec()).is_none());
}

#[test]
fn parse_response_reads_handwritten_reply() {
    let wire_bytes =
        b"HTTP/1.1 200 OK\r\nContent-Type: text/html\r\nContent-Length: 4\r\n\r\nwhat".to_vec();
    let back = parse_response(&wire_bytes).unwrap();
    assert_eq!(back.status, b"200 OK".to_vec());
    assert_eq!(back.content_type, b"text/html".to_vec());
    assert_eq!(back.content, b"what".to_vec());
}
