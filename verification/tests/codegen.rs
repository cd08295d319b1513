use azurepath::codegen::{generate_curl, generate_javascript, generate_python, CodegenRequest};

fn make_req() -> CodegenRequest {
    CodegenRequest {
        method: "POST".into(),
        url: "https://api.example.com/data".into(),
        headers: vec![
            ("Content-Type".into(), "application/json".into()),
            ("Authorization".into(), "Bearer tok_123".into()),
        ],
        body: Some(r#"{"name":"test"}"#.into()),
        body_type: Some("json".into()),
    }
}

#[test]
fn test_generate_curl() {
    let code = generate_curl(&make_req());
    assert!(code.contains("curl -X POST"));
    assert!(code.contains("api.example.com/data"));
    assert!(code.contains("Authorization: Bearer tok_123"));
    assert!(code.contains("-d"));
}

#[test]
fn test_generate_javascript() {
    let code = generate_javascript(&make_req());
    assert!(code.contains("fetch("));
    assert!(code.contains("method: 'POST'"));
    assert!(code.contains("JSON.stringify"));
}

#[test]
fn test_generate_python() {
    let code = generate_python(&make_req());
    assert!(code.contains("import requests"));
    assert!(code.contains("requests.post"));
    assert!(code.contains("json="));
}

#[test]
fn test_generate_curl_get() {
    let req = CodegenRequest {
        method: "GET".into(),
        url: "https://example.com".into(),
        headers: vec![],
        body: None,
        body_type: None,
    };
    let code = generate_curl(&req);
    assert!(code.contains("curl -X GET"));
    assert!(!code.contains("-d"));
}

#[test]
fn test_empty_headers() {
    let req = CodegenRequest {
        method: "GET".into(),
        url: "https://example.com".into(),
        headers: vec![],
        body: None,
        body_type: None,
    };
    let js = generate_javascript(&req);
    assert!(js.contains("fetch("));
    assert!(!js.contains("headers:"));
}
