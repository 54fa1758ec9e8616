use rust_local_server::http::{Method, ParseState, Parser};

fn feed(p: &mut Parser, bytes: &[u8]) {
    p.parse(bytes);
}

#[test]
fn request_line_and_headers_complete() {
    let mut p = Parser::new();
    feed(&mut p, b"GET /hello.txt HTTP/1.1\r\nHost: x\r\n\r\n");
    assert_eq!(p.state, ParseState::Done);
    assert!(matches!(p.request.method, Method::GET));
    assert_eq!(p.request.path, b"/hello.txt".to_vec());
    assert_eq!(p.request.version, b"HTTP/1.1".to_vec());
    let host = p
        .request
        .headers
        .iter()
        .find(|(k, _)| k == b"host".as_slice())
        .map(|(_, v)| v.clone());
    assert_eq!(host, Some(b"x".to_vec()));
}

#[test]
fn split_feeding_matches_single_feed() {
    let wire = b"POST /a HTTP/1.1\r\nContent-Length: 5\r\n\r\nhello";
    let mut one = Parser::new();
    one.parse(wire);
    let mut many = Parser::new();
    for b in wire.iter() {
        many.parse(std::slice::from_ref(b));
    }
    assert_eq!(one.state, many.state);
    assert_eq!(one.request.path, many.request.path);
    assert_eq!(one.request.body, many.request.body);
    assert_eq!(one.request.headers, many.request.headers);
    assert_eq!(one.state, ParseState::Done);
    assert_eq!(one.request.body, b"hello".to_vec());
}

#[test]
fn chunked_body_is_assembled() {
    let mut p = Parser::new();
    feed(
        &mut p,
        b"POST /cgi/echo.sh HTTP/1.1\r\nHost: x\r\nTransfer-Encoding: chunked\r\n\r\n5\r\nhello\r\n0\r\n\r\n",
    );
    assert_eq!(p.state, ParseState::Done);
    assert_eq!(p.request.body, b"hello".to_vec());
}

#[test]
fn chunked_in_pieces_matches() {
    let wire: &[u8] =
        b"POST /u HTTP/1.1\r\nTransfer-Encoding: chunked\r\n\r\n3\r\nabc\r\n2\r\nde\r\n0\r\n\r\n";
    let mut one = Parser::new();
    one.parse(wire);
    let mut many = Parser::new();
    for chunk in wire.chunks(3) {
        many.parse(chunk);
    }
    assert_eq!(one.state, ParseState::Done);
    assert_eq!(one.state, many.state);
    assert_eq!(one.request.body, b"abcde".to_vec());
    assert_eq!(many.request.body, b"abcde".to_vec());
}

#[test]
fn malformed_request_line_is_an_error() {
    let mut p = Parser::new();
    feed(&mut p, b"NOPE\r\n\r\n");
    assert_eq!(p.state, ParseState::Error);
}

#[test]
fn malformed_content_length_is_an_error() {
    let mut p = Parser::new();
    feed(&mut p, b"GET / HTTP/1.1\r\nContent-Length: abc\r\n\r\n");
    assert_eq!(p.state, ParseState::Error);
}

#[test]
fn zero_content_length_is_done_with_empty_body() {
    let mut p = Parser::new();
    feed(&mut p, b"POST / HTTP/1.1\r\nContent-Length: 0\r\n\r\n");
    assert_eq!(p.state, ParseState::Done);
    assert!(p.request.body.is_empty());
}

#[test]
fn malformed_chunk_size_is_an_error() {
    let mut p = Parser::new();
    feed(&mut p, b"POST / HTTP/1.1\r\nTransfer-Encoding: chunked\r\n\r\nzz\r\n");
    assert_eq!(p.state, ParseState::Error);
}

#[test]
fn incomplete_input_waits_for_more() {
    let mut p = Parser::new();
    feed(&mut p, b"GET / HT");
    assert_eq!(p.state, ParseState::RequestLine);
    feed(&mut p, b"TP/1.1\r\nHost: y\r\n\r\n");
    assert_eq!(p.state, ParseState::Done);
    assert_eq!(p.request.version, b"HTTP/1.1".to_vec());
}

#[test]
fn body_waits_until_all_bytes_arrive() {
    let mut p = Parser::new();
    feed(&mut p, b"POST / HTTP/1.1\r\nContent-Length: 4\r\n\r\nab");
    assert_eq!(p.state, ParseState::Body);
    feed(&mut p, b"cd");
    assert_eq!(p.state, ParseState::Done);
    assert_eq!(p.request.body, b"abcd".to_vec());
}

#[test]
fn method_tokens_collapse_to_variants() {
    assert!(matches!(Method::from(b"GET".to_vec()), Method::GET));
    assert!(matches!(Method::from(b"POST".to_vec()), Method::POST));
    assert!(matches!(Method::from(b"DELETE".to_vec()), Method::DELETE));
    match Method::from(b"PATCH".to_vec()) {
        Method::OTHER(t) => assert_eq!(t, b"PATCH".to_vec()),
        _ => panic!("expected the raw token to be kept"),
    }
}

#[test]
fn duplicate_headers_keep_the_last_value() {
    let mut p = Parser::new();
    feed(&mut p, b"GET / HTTP/1.1\r\nA: 1\r\nA: 2\r\n\r\n");
    assert_eq!(p.state, ParseState::Done);
    let vals: Vec<_> = p
        .request
        .headers
        .iter()
        .filter(|(k, _)| k == b"a".as_slice())
        .collect();
    assert_eq!(vals.len(), 1);
    assert_eq!(vals[0].1, b"2".to_vec());
}

#[test]
fn header_names_are_normalized_case_insensitively() {
    let mut p = Parser::new();
    feed(&mut p, b"POST / HTTP/1.1\r\ncOnTeNt-LeNgTh: 2\r\n\r\nhi");
    assert_eq!(p.state, ParseState::Done);
    assert_eq!(p.request.body, b"hi".to_vec());
}

#[test]
fn pipelined_bytes_stay_in_the_buffer() {
    let mut p = Parser::new();
    feed(&mut p, b"GET /a HTTP/1.1\r\n\r\nGET /b HTTP/1.1\r\n\r\n");
    assert_eq!(p.state, ParseState::Done);
    assert_eq!(p.request.path, b"/a".to_vec());
}
