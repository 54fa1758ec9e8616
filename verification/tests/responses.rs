use rust_local_server::cgi::{cgi_failure_response, cgi_success_response, CgiHandler};
use rust_local_server::config::{RouteConfig, ServerConfig};
use rust_local_server::error::{error_page_path, generate_error_response};
use rust_local_server::http::{ParseState, Parser, Response};
use rust_local_server::router::{
    list_directory, redirect_response, static_success_response, upload_response,
};

fn text(bytes: &[u8]) -> String {
    String::from_utf8_lossy(bytes).into_owned()
}

#[test]
fn bare_response_serializes_exactly() {
    let wire = Response::new(200).to_bytes();
    assert_eq!(
        text(&wire),
        "HTTP/1.1 200 OK\r\nserver: RustLocalServer/0.1.0\r\n\r\n"
    );
}

#[test]
fn reason_phrases_follow_the_fixed_table() {
    for (code, reason) in [
        (200u16, "OK"),
        (201, "Created"),
        (204, "No Content"),
        (301, "Moved Permanently"),
        (400, "Bad Request"),
        (403, "Forbidden"),
        (404, "Not Found"),
        (405, "Method Not Allowed"),
        (413, "Payload Too Large"),
        (500, "Internal Server Error"),
        (418, "Unknown"),
    ] {
        let wire = Response::new(code).to_bytes();
        let line = format!("HTTP/1.1 {} {}\r\n", code, reason);
        assert!(text(&wire).starts_with(&line), "bad status line for {}", code);
    }
}

#[test]
fn static_success_sets_type_and_length() {
    let r = static_success_response(b"hi".to_vec(), &b"./public/hello.txt".to_vec());
    assert_eq!(r.status_code, 200);
    let wire = text(&r.to_bytes());
    assert!(wire.starts_with("HTTP/1.1 200 OK\r\n"));
    assert!(wire.contains("content-type: application/octet-stream\r\n"));
    assert!(wire.contains("content-length: 2\r\n"));
    assert!(wire.ends_with("\r\n\r\nhi"));
}

#[test]
fn known_extensions_get_their_mime_types() {
    for (path, mime) in [
        (&b"a.html"[..], "text/html"),
        (b"a.css", "text/css"),
        (b"a.js", "application/javascript"),
        (b"a.png", "image/png"),
        (b"a.txt", "application/octet-stream"),
    ] {
        let r = static_success_response(b"x".to_vec(), &path.to_vec());
        let wire = text(&r.to_bytes());
        assert!(
            wire.contains(&format!("content-type: {}\r\n", mime)),
            "bad type for {:?}",
            text(path)
        );
    }
}

#[test]
fn redirect_carries_location_and_no_body() {
    let r = redirect_response(b"/new".to_vec());
    assert_eq!(r.status_code, 301);
    assert!(r.body.is_empty());
    let wire = text(&r.to_bytes());
    assert!(wire.starts_with("HTTP/1.1 301 Moved Permanently\r\n"));
    assert!(wire.contains("location: /new\r\n"));
    assert!(wire.ends_with("\r\n\r\n"));
}

#[test]
fn default_error_body_names_the_code() {
    let r = generate_error_response(404, None);
    assert_eq!(r.status_code, 404);
    assert_eq!(text(&r.body), "<h1>404 Error</h1>");
    let wire = text(&r.to_bytes());
    assert!(wire.contains("content-type: text/html\r\n"));
    assert!(wire.contains("content-length: 18\r\n"));
}

#[test]
fn configured_error_page_becomes_the_body() {
    let r = generate_error_response(404, Some(b"gone".to_vec()));
    assert_eq!(text(&r.body), "gone");
    let wire = text(&r.to_bytes());
    assert!(wire.contains("content-length: 4\r\n"));
}

#[test]
fn error_page_lookup_finds_the_configured_file() {
    let server = ServerConfig {
        host: b"h".to_vec(),
        ports: vec![80],
        server_names: None,
        error_pages: Some(vec![(404, b"404.html".to_vec()), (500, b"500.html".to_vec())]),
        client_max_body_size: None,
        routes: Vec::new(),
    };
    assert_eq!(error_page_path(&server, 500), Some(&b"500.html".to_vec()));
    assert_eq!(error_page_path(&server, 403), None);
}

#[test]
fn cgi_success_returns_stdout_verbatim() {
    let r = cgi_success_response(b"hello".to_vec());
    assert_eq!(r.status_code, 200);
    assert_eq!(r.body, b"hello".to_vec());
    let wire = text(&r.to_bytes());
    assert!(wire.contains("content-length: 5\r\n"));
    assert!(wire.ends_with("\r\n\r\nhello"));
}

#[test]
fn cgi_failure_is_500_with_diagnostic() {
    let r = cgi_failure_response(b"boom".to_vec());
    assert_eq!(r.status_code, 500);
    assert_eq!(text(&r.body), "CGI Error: boom");
}

#[test]
fn cgi_handler_keeps_its_arguments() {
    let h = CgiHandler::new(b"./echo.sh".to_vec(), b"/bin/sh".to_vec());
    assert_eq!(h.script_path, b"./echo.sh".to_vec());
    assert_eq!(h.interpreter, b"/bin/sh".to_vec());
}

#[test]
fn upload_outcomes_map_to_201_and_500() {
    let ok = upload_response(true, Vec::new());
    assert_eq!(ok.status_code, 201);
    assert_eq!(text(&ok.body), "File uploaded successfully");
    let bad = upload_response(false, b"disk full".to_vec());
    assert_eq!(bad.status_code, 500);
    assert_eq!(text(&bad.body), "Upload Error: disk full");
}

#[test]
fn directory_listing_is_minimal_html() {
    let r = list_directory(&vec![b"a.txt".to_vec(), b"b".to_vec()]);
    assert_eq!(r.status_code, 200);
    assert_eq!(
        text(&r.body),
        "<html><body><ul><li><a href=\"a.txt\">a.txt</a></li><li><a href=\"b\">b</a></li></ul></body></html>"
    );
    let wire = text(&r.to_bytes());
    assert!(wire.contains("content-type: text/html\r\n"));
}

#[test]
fn serialized_response_parses_back() {
    let r = static_success_response(b"hi".to_vec(), &b"x.bin".to_vec());
    let wire = r.to_bytes();
    let mut p = Parser::new();
    p.parse(&wire);
    assert_eq!(p.state, ParseState::Done);
    assert_eq!(p.request.path, b"200".to_vec());
    assert_eq!(p.request.version, b"OK".to_vec());
    assert_eq!(p.request.body, b"hi".to_vec());
    let mut hs = p.request.headers.clone();
    hs.sort();
    let mut expected = vec![
        (b"server".to_vec(), b"RustLocalServer/0.1.0".to_vec()),
        (b"content-type".to_vec(), b"application/octet-stream".to_vec()),
        (b"content-length".to_vec(), b"2".to_vec()),
    ];
    expected.sort();
    assert_eq!(hs, expected);
}
