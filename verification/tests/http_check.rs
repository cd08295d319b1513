use azurepath::http_check::{parse_header, parse_status_line};

#[test]
fn test_parse_status_line() {
    let (code, text) = parse_status_line("HTTP/1.1 200 OK").unwrap();
    assert_eq!(code, 200);
    assert_eq!(text, "OK");
}

#[test]
fn test_parse_status_line_not_found() {
    let (code, text) = parse_status_line("HTTP/1.1 404 Not Found").unwrap();
    assert_eq!(code, 404);
    assert_eq!(text, "Not Found");
}

#[test]
fn test_parse_status_line_redirect() {
    let (code, text) = parse_status_line("HTTP/1.1 301 Moved Permanently").unwrap();
    assert_eq!(code, 301);
    assert_eq!(text, "Moved Permanently");
}

#[test]
fn test_parse_status_line_invalid() {
    assert!(parse_status_line("Invalid line").is_none());
    assert!(parse_status_line("").is_none());
}

#[test]
fn test_parse_status_line_minimal() {
    let (code, text) = parse_status_line("HTTP/1.0 200").unwrap();
    assert_eq!(code, 200);
    assert_eq!(text, "");
}

#[test]
fn test_parse_header() {
    let (key, value) = parse_header("Content-Type: text/html").unwrap();
    assert_eq!(key, "Content-Type");
    assert_eq!(value, "text/html");
}

#[test]
fn test_parse_header_multiple_colons() {
    let (key, value) = parse_header("Location: http://example.com/test").unwrap();
    assert_eq!(key, "Location");
    assert_eq!(value, "http://example.com/test");
}

#[test]
fn test_parse_header_no_colon() {
    assert!(parse_header("NoColonLine").is_none());
}

#[test]
fn test_parse_header_empty_value() {
    let (key, value) = parse_header("X-Empty: ").unwrap();
    assert_eq!(key, "X-Empty");
    assert_eq!(value, "");
}

#[test]
fn test_parse_header_empty_key() {
    assert!(parse_header(": value").is_none());
}

#[test]
fn test_url_parsing_logic() {
    // Test the URL parsing logic used in check_http
    let url = "http://example.com:8080/path?query=1";
    let rest = url.trim_start_matches("https://").trim_start_matches("http://");
    assert_eq!(rest, "example.com:8080/path?query=1");

    let at_slash = rest.find('/').unwrap();
    let host_and_port = &rest[..at_slash];
    assert_eq!(host_and_port, "example.com:8080");

    let path = &rest[at_slash..];
    assert_eq!(path, "/path?query=1");
}
