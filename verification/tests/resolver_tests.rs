use tinyhttp::resolve::{resolve, route_path, ReadOutcome};

fn header<'a>(headers: &'a [(String, String)], key: &str) -> Option<&'a str> {
    headers.iter().find(|p| p.0 == key).map(|p| p.1.as_str())
}

#[test]
fn resolver_serves_existing_file() {
    let resp = resolve(
        ReadOutcome::Content(String::from("<h1>Hi</h1>")),
        ReadOutcome::Unreadable,
    );
    assert_eq!(resp.status_line, "200 OK");
    assert_eq!(
        header(&resp.headers, "Content-Type"),
        Some("text/html; charset=UTF-8")
    );
    assert_eq!(header(&resp.headers, "Connection"), Some("close"));
    assert_eq!(header(&resp.headers, "Content-Length"), Some("11"));
    assert_eq!(resp.body.as_deref(), Some("<h1>Hi</h1>"));
}

#[test]
fn resolver_falls_back_to_not_found() {
    let resp = resolve(
        ReadOutcome::Unreadable,
        ReadOutcome::Content(String::from("<h1>404</h1>")),
    );
    assert_eq!(resp.status_line, "404 NOT FOUND");
    assert_eq!(resp.body.as_deref(), Some("<h1>404</h1>"));
}

#[test]
fn resolver_reports_server_error_when_both_unreadable() {
    let resp = resolve(ReadOutcome::Unreadable, ReadOutcome::Unreadable);
    assert_eq!(resp.status_line, "500 Internal Server Error");
    assert_eq!(header(&resp.headers, "Content-Type"), Some("text/plain"));
    assert_eq!(resp.body.as_deref(), Some("Something went wrong."));
}

#[test]
fn resolver_undecodable_content_is_server_error() {
    let resp = resolve(
        ReadOutcome::Undecodable,
        ReadOutcome::Content(String::from("<h1>404</h1>")),
    );
    assert_eq!(resp.status_line, "500 Internal Server Error");
}

#[test]
fn resolver_unreadable_then_undecodable_fallback_is_server_error() {
    let resp = resolve(ReadOutcome::Unreadable, ReadOutcome::Undecodable);
    assert_eq!(resp.status_line, "500 Internal Server Error");
}

#[test]
fn route_path_builds_filesystem_key() {
    assert_eq!(
        route_path("./routes", "/index").as_deref(),
        Some("./routes/index.html")
    );
}

#[test]
fn route_path_rejects_traversal() {
    assert_eq!(route_path("./routes", "/../secret"), None);
    assert_eq!(route_path("./routes", "/a/../b"), None);
}

#[test]
fn route_path_rejects_paths_without_leading_slash() {
    assert_eq!(route_path("./routes", "index"), None);
    assert_eq!(route_path("./routes", ""), None);
}

#[test]
fn two_resolves_do_not_interfere() {
    let one = resolve(
        ReadOutcome::Content(String::from("first")),
        ReadOutcome::Unreadable,
    );
    let two = resolve(
        ReadOutcome::Content(String::from("second")),
        ReadOutcome::Unreadable,
    );
    assert_eq!(one.body.as_deref(), Some("first"));
    assert_eq!(two.body.as_deref(), Some("second"));
}
