use tinyhttp::decode::parse_request_bytes;
use tinyhttp::request::ParseError;

#[test]
fn parse_request_bytes_strips_trailing_nul_padding() {
    let mut buffer = b"GET /index HTTP/1.1\r\nHost: a\r\n\r\n".to_vec();
    buffer.resize(1024, 0);
    let req = parse_request_bytes(&buffer).unwrap();
    assert_eq!(req.method, "GET");
    assert_eq!(req.path, "/index");
    assert_eq!(req.version, "HTTP/1.1");
    assert_eq!(req.body, None);
}

#[test]
fn parse_request_bytes_keeps_body() {
    let mut buffer = b"POST /send HTTP/1.1\r\nHost: a\r\n\r\npayload".to_vec();
    buffer.resize(1024, 0);
    let req = parse_request_bytes(&buffer).unwrap();
    assert_eq!(req.body.as_deref(), Some("payload"));
}

#[test]
fn parse_request_bytes_replaces_invalid_utf8() {
    let req = parse_request_bytes(b"GET \xff HTTP/1.1\n\n").unwrap();
    assert_eq!(req.method, "GET");
    assert_eq!(req.path, "\u{FFFD}");
}

#[test]
fn parse_request_bytes_reports_parse_errors() {
    let mut buffer = b"GET /x".to_vec();
    buffer.resize(1024, 0);
    assert_eq!(
        parse_request_bytes(&buffer).unwrap_err(),
        ParseError::InvalidRequestLine
    );
}

#[test]
fn parse_request_bytes_empty_buffer_fails() {
    let buffer = vec![0u8; 1024];
    assert_eq!(
        parse_request_bytes(&buffer).unwrap_err(),
        ParseError::MissingRequestLine
    );
}
