use tinyhttp::request::{parse_http_request, ParseError};

fn header<'a>(headers: &'a [(String, String)], key: &str) -> Option<&'a str> {
    headers.iter().find(|p| p.0 == key).map(|p| p.1.as_str())
}

#[test]
fn parse_basic_request() {
    let req = parse_http_request("GET /index HTTP/1.1\r\nHost: example\r\n\r\n").unwrap();
    assert_eq!(req.method, "GET");
    assert_eq!(req.path, "/index");
    assert_eq!(req.version, "HTTP/1.1");
    assert_eq!(header(&req.headers, "Host"), Some("example"));
    assert_eq!(req.headers.len(), 1);
    assert_eq!(req.body, None);
}

#[test]
fn parse_two_token_line_fails() {
    assert_eq!(
        parse_http_request("GET /x").unwrap_err(),
        ParseError::InvalidRequestLine
    );
}

#[test]
fn parse_four_token_line_fails() {
    assert_eq!(
        parse_http_request("GET /x HTTP/1.1 extra\n\n").unwrap_err(),
        ParseError::InvalidRequestLine
    );
}

#[test]
fn parse_header_without_colon_fails() {
    assert_eq!(
        parse_http_request("GET /x HTTP/1.1\nBadHeader\n\n").unwrap_err(),
        ParseError::InvalidHeaderFormat
    );
}

#[test]
fn parse_empty_buffer_fails() {
    assert_eq!(
        parse_http_request("").unwrap_err(),
        ParseError::MissingRequestLine
    );
}

#[test]
fn parse_duplicate_header_keeps_last() {
    let req = parse_http_request("GET / HTTP/1.1\nAccept: one\nAccept: two\n\n").unwrap();
    assert_eq!(header(&req.headers, "Accept"), Some("two"));
    assert_eq!(req.headers.len(), 1);
}

#[test]
fn parse_trims_header_whitespace() {
    let req = parse_http_request("GET / HTTP/1.1\n  Host  :   example.org  \n\n").unwrap();
    assert_eq!(header(&req.headers, "Host"), Some("example.org"));
}

#[test]
fn parse_splits_value_on_first_colon() {
    let req = parse_http_request("GET / HTTP/1.1\nHost: example.org:8080\n\n").unwrap();
    assert_eq!(header(&req.headers, "Host"), Some("example.org:8080"));
}

#[test]
fn parse_body_after_blank_line() {
    let req = parse_http_request("POST /send HTTP/1.1\nHost: a\n\nhello world").unwrap();
    assert_eq!(req.body.as_deref(), Some("hello world"));
}

#[test]
fn parse_no_body_without_blank_line() {
    let req = parse_http_request("GET / HTTP/1.1\nHost: a").unwrap();
    assert_eq!(req.body, None);
}

#[test]
fn parse_blank_line_without_further_line_gives_no_body() {
    let req = parse_http_request("GET / HTTP/1.1\nHost: a\n\n").unwrap();
    assert_eq!(req.body, None);
}

#[test]
fn parse_tolerates_extra_spacing_between_tokens() {
    let req = parse_http_request("GET   /index\tHTTP/1.1\n\n").unwrap();
    assert_eq!(req.method, "GET");
    assert_eq!(req.path, "/index");
    assert_eq!(req.version, "HTTP/1.1");
}
