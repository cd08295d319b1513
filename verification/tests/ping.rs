use azurepath::ping::{decode_ping_output, extract_ttl};

#[test]
fn test_extract_ttl_normal() {
    assert_eq!(extract_ttl("TTL=118"), 118);
}

#[test]
fn test_extract_ttl_large() {
    assert_eq!(extract_ttl("TTL=255"), 255);
}

#[test]
fn test_extract_ttl_no_match() {
    assert_eq!(extract_ttl("no ttl here"), 0);
}

#[test]
fn test_extract_ttl_empty() {
    assert_eq!(extract_ttl(""), 0);
}

#[test]
fn test_extract_ttl_prefix() {
    // TTL= is a substring match, but this case is unrealistic for ping output
    assert_eq!(extract_ttl("PREFIX_TTL=42_SUFFIX"), 42);
}

#[test]
fn test_decode_ascii() {
    let decoded = decode_ping_output(b"Reply from 8.8.8.8: bytes=32 time=11ms TTL=118");
    assert_eq!(decoded, "Reply from 8.8.8.8: bytes=32 time=11ms TTL=118");
}

#[test]
fn test_decode_utf8() {
    let decoded = decode_ping_output("来自 8.8.8.8 的回复: 时间=11ms".as_bytes());
    assert_eq!(decoded, "来自 8.8.8.8 的回复: 时间=11ms");
}

#[test]
fn test_decode_empty() {
    let decoded = decode_ping_output(b"");
    assert_eq!(decoded, "");
}
