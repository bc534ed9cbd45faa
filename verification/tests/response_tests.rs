use tinyhttp::response::{response_not_found, response_ok, response_sv_error, HttpResponse};

fn header<'a>(headers: &'a [(String, String)], key: &str) -> Option<&'a str> {
    headers.iter().find(|p| p.0 == key).map(|p| p.1.as_str())
}

#[test]
fn serialize_with_body() {
    let resp = HttpResponse {
        status_line: String::from("200 OK"),
        headers: vec![(String::from("Connection"), String::from("close"))],
        body: Some(String::from("hi")),
    };
    assert_eq!(resp.serialize(), "HTTP/1.1 200 OK\r\nConnection: close\r\n\r\nhi");
}

#[test]
fn serialize_without_body() {
    let resp = HttpResponse {
        status_line: String::from("200 OK"),
        headers: vec![(String::from("Connection"), String::from("close"))],
        body: None,
    };
    assert_eq!(resp.serialize(), "HTTP/1.1 200 OK\r\nConnection: close\r\n\r\n");
}

#[test]
fn serialized_response_splits_back_into_head_and_body() {
    let resp = HttpResponse {
        status_line: String::from("200 OK"),
        headers: vec![
            (String::from("Content-Type"), String::from("text/html; charset=UTF-8")),
            (String::from("Connection"), String::from("close")),
        ],
        body: Some(String::from("<h1>Hi</h1>")),
    };
    let wire = resp.serialize();
    let boundary = wire.find("\r\n\r\n").unwrap();
    let head = &wire[..boundary];
    let body = &wire[boundary + 4..];
    assert_eq!(body, "<h1>Hi</h1>");
    let lines: Vec<&str> = head.split("\r\n").collect();
    assert_eq!(lines[0], "HTTP/1.1 200 OK");
    assert_eq!(lines[1], "Content-Type: text/html; charset=UTF-8");
    assert_eq!(lines[2], "Connection: close");
    assert_eq!(lines.len(), 3);
}

#[test]
fn response_ok_shape() {
    let resp = response_ok(String::from("<h1>Hi</h1>"));
    assert_eq!(resp.status_line, "200 OK");
    assert_eq!(
        header(&resp.headers, "Content-Type"),
        Some("text/html; charset=UTF-8")
    );
    assert_eq!(header(&resp.headers, "Connection"), Some("close"));
    assert_eq!(header(&resp.headers, "Content-Length"), Some("11"));
    assert_eq!(resp.body.as_deref(), Some("<h1>Hi</h1>"));
}

#[test]
fn response_not_found_shape() {
    let resp = response_not_found(String::from("<h1>404</h1>"));
    assert_eq!(resp.status_line, "404 NOT FOUND");
    assert_eq!(header(&resp.headers, "Content-Length"), Some("12"));
    assert_eq!(resp.body.as_deref(), Some("<h1>404</h1>"));
}

#[test]
fn response_sv_error_shape() {
    let resp = response_sv_error().unwrap();
    assert_eq!(resp.status_line, "500 Internal Server Error");
    assert_eq!(header(&resp.headers, "Content-Type"), Some("text/plain"));
    assert_eq!(header(&resp.headers, "Connection"), Some("close"));
    assert_eq!(resp.body.as_deref(), Some("Something went wrong."));
}

#[test]
fn content_length_counts_bytes_not_characters() {
    let resp = response_ok(String::from("héllo"));
    assert_eq!(header(&resp.headers, "Content-Length"), Some("6"));
}

#[test]
fn content_length_with_several_digits() {
    let resp = response_ok("x".repeat(150));
    assert_eq!(header(&resp.headers, "Content-Length"), Some("150"));
}
