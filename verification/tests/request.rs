use http_message::http::{HttpRequest, Method};
use http_message::url::ParsedUrl;

fn url(host: &str, path: &str) -> ParsedUrl {
    ParsedUrl { host: host.to_string(), path: path.to_string() }
}

#[test]
fn get_request_renders_exactly() {
    let req = HttpRequest::new(Method::Get, &url("example.com", "/index.html"));
    assert_eq!(
        req.string(),
        "GET /index.html HTTP/1.1\nHost: example.com\n\nsending a request"
    );
}

#[test]
fn render_begins_with_request_line_and_host_line() {
    let req = HttpRequest::new(Method::Get, &url("localhost:8000", "/a/b?c=d"));
    let text = req.string();
    assert!(text.starts_with("GET /a/b?c=d HTTP/1.1\n"));
    let separator = text.find("\n\n").unwrap();
    let host_line = text.find("Host: localhost:8000\n").unwrap();
    assert_eq!(host_line, "GET /a/b?c=d HTTP/1.1\n".len());
    assert!(host_line < separator);
}

#[test]
fn added_headers_keep_their_order() {
    let mut req = HttpRequest::new(Method::Get, &url("h", "/"));
    req.add_header("A".to_string(), "1".to_string());
    req.add_header("B".to_string(), "2".to_string());
    req.add_header("A".to_string(), "3".to_string());
    assert_eq!(
        req.string(),
        "GET / HTTP/1.1\nHost: h\nA: 1\nB: 2\nA: 3\n\nsending a request"
    );
}

#[test]
fn added_header_lines_are_distinct_and_ordered() {
    let mut req = HttpRequest::new(Method::Get, &url("h", "/"));
    req.add_header("A".to_string(), "1".to_string());
    req.add_header("B".to_string(), "2".to_string());
    req.add_header("A".to_string(), "3".to_string());
    let text = req.string();
    let first = text.find("A: 1\n").unwrap();
    let second = text.find("B: 2\n").unwrap();
    let third = text.find("A: 3\n").unwrap();
    assert!(first < second);
    assert!(second < third);
    assert_eq!(text.matches("A: ").count(), 2);
}

#[test]
fn adding_a_header_appends_one_line_before_the_empty_line() {
    let mut req = HttpRequest::new(Method::Get, &url("example.org", "/x"));
    let before = req.string();
    req.add_header("Accept".to_string(), "*/*".to_string());
    let after = req.string();
    let head = before.strip_suffix("\nsending a request").unwrap();
    assert_eq!(after, format!("{}Accept: */*\n\nsending a request", head));
}

#[test]
fn a_second_host_header_is_kept_beside_the_first() {
    let mut req = HttpRequest::new(Method::Get, &url("one", "/"));
    req.add_header("Host".to_string(), "two".to_string());
    assert_eq!(
        req.string(),
        "GET / HTTP/1.1\nHost: one\nHost: two\n\nsending a request"
    );
}

#[test]
fn render_uses_line_feeds_only_and_adds_no_trailing_newline() {
    let mut req = HttpRequest::new(Method::Get, &url("example.com", "/"));
    req.add_header("Connection".to_string(), "close".to_string());
    let text = req.string();
    assert!(!text.contains('\r'));
    assert!(text.ends_with("\n\nsending a request"));
    assert!(!text.ends_with('\n'));
}

#[test]
fn empty_and_odd_parts_are_rendered_as_they_come() {
    let mut req = HttpRequest::new(Method::Get, &url("", ""));
    req.add_header("".to_string(), "".to_string());
    req.add_header("X y".to_string(), "a: b\n".to_string());
    assert_eq!(
        req.string(),
        "GET  HTTP/1.1\nHost: \n: \nX y: a: b\n\n\nsending a request"
    );
}

#[test]
fn text_outside_ascii_is_rendered_unchanged() {
    let mut req = HttpRequest::new(Method::Get, &url("bücher.example", "/日本語"));
    req.add_header("X-Emoji".to_string(), "🦀 ok".to_string());
    assert_eq!(
        req.string(),
        "GET /日本語 HTTP/1.1\nHost: bücher.example\nX-Emoji: 🦀 ok\n\nsending a request"
    );
}

#[test]
fn rendering_twice_gives_the_same_text() {
    let mut req = HttpRequest::new(Method::Get, &url("example.com", "/"));
    req.add_header("A".to_string(), "1".to_string());
    assert_eq!(req.string(), req.string());
}
