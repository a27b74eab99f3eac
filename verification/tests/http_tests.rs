use oden::http::{parse_request, Method, ParseError, Request};

fn ok(head: &[u8]) -> Request {
    match parse_request(head) {
        Ok(r) => r,
        Err(e) => panic!("expected a request, got {:?}", e),
    }
}

fn err(head: &[u8]) -> ParseError {
    match parse_request(head) {
        Ok(_) => panic!("expected a failure"),
        Err(e) => e,
    }
}

#[test]
fn parses_example_head() {
    let r = ok(b"GET /hello HTTP/1.1\nHost: example.com\n\n");
    assert_eq!(r.method, Method::Get);
    assert_eq!(r.path, b"/hello".to_vec());
    assert_eq!(r.header_value(b"Host"), Some(&b"example.com".to_vec()));
    assert_eq!(r.header_value(b"Absent"), None);
}

#[test]
fn missing_method_is_reported() {
    assert_eq!(err(b"\nHost: x\n\n"), ParseError::MissingMethod);
}

#[test]
fn unsupported_verb_is_reported_with_its_token() {
    assert_eq!(
        err(b"POST /hello HTTP/1.1\nHost: x\n\n"),
        ParseError::UnsupportedMethod(b"POST".to_vec())
    );
}

#[test]
fn missing_path_is_reported() {
    assert_eq!(err(b"GET\n\n"), ParseError::MissingPath);
}

#[test]
fn crlf_lines_are_tolerated() {
    let r = ok(b"GET /a HTTP/1.1\r\nHost: x\r\n\r\n");
    assert_eq!(r.method, Method::Get);
    assert_eq!(r.path, b"/a".to_vec());
    assert_eq!(r.header_value(b"Host"), Some(&b"x".to_vec()));
}

#[test]
fn repeated_header_keeps_last_occurrence() {
    let r = ok(b"GET / HTTP/1.1\nHost: first\nHost: second\n\n");
    assert_eq!(r.header_value(b"Host"), Some(&b"second".to_vec()));
}

#[test]
fn truncated_head_is_stream_exhaustion() {
    assert_eq!(err(b"GET / HTTP/1.1\nHost: x\n"), ParseError::UnexpectedEof);
    assert_eq!(err(b"GET / HTTP/1.1\n"), ParseError::UnexpectedEof);
}

#[test]
fn empty_input_is_malformed_request_line() {
    assert_eq!(err(b""), ParseError::MalformedRequestLine);
    assert_eq!(err(b"GET / HTTP/1.1"), ParseError::MalformedRequestLine);
}

#[test]
fn header_without_colon_is_missing_value() {
    assert_eq!(err(b"GET / HTTP/1.1\nFoo\n\n"), ParseError::MissingHeaderValue);
}

#[test]
fn header_with_empty_value_is_missing_value() {
    assert_eq!(err(b"GET / HTTP/1.1\nFoo:\n\n"), ParseError::MissingHeaderValue);
    assert_eq!(err(b"GET / HTTP/1.1\nFoo:   \n\n"), ParseError::MissingHeaderValue);
}

#[test]
fn header_with_empty_name_is_missing_name() {
    assert_eq!(err(b"GET / HTTP/1.1\n: v\n\n"), ParseError::MissingHeaderName);
}

#[test]
fn value_is_split_on_first_colon_only() {
    let r = ok(b"GET / HTTP/1.1\nA: b:c\n\n");
    assert_eq!(r.header_value(b"A"), Some(&b"b:c".to_vec()));
}

#[test]
fn names_and_values_are_trimmed() {
    let r = ok(b"GET / HTTP/1.1\n  A  :   v1  \n\n");
    assert_eq!(r.header_value(b"A"), Some(&b"v1".to_vec()));
}

#[test]
fn version_token_and_extra_tokens_are_ignored() {
    let r = ok(b"GET /p HTTP/1.1 extra tokens\n\n");
    assert_eq!(r.path, b"/p".to_vec());
    assert_eq!(r.headers.len(), 0);
}

#[test]
fn leading_whitespace_before_method_is_skipped() {
    let r = ok(b"  GET /p\n\n");
    assert_eq!(r.method, Method::Get);
    assert_eq!(r.path, b"/p".to_vec());
}

#[test]
fn method_try_from_resolves_only_the_supported_verb() {
    assert_eq!(Method::try_from(b"GET"), Ok(Method::Get));
    assert_eq!(
        Method::try_from(b"PUT"),
        Err(ParseError::UnsupportedMethod(b"PUT".to_vec()))
    );
}

#[test]
fn body_bytes_after_blank_line_are_ignored() {
    let r = ok(b"GET / HTTP/1.1\nA: b\n\nthis is a body");
    assert_eq!(r.header_value(b"A"), Some(&b"b".to_vec()));
}
