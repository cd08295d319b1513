use azurepath::file_transfer::receiver::{sanitize_filename, MAX_WIRE_STRING_LEN};

#[test]
fn test_sanitize_filename_removes_path_traversal() {
    // "../../etc/passwd" → / replaced with _, then ".." collapsed to _
    // Result: "____etc_passwd" (4 underscores: _ from first .., _ from /,
    //   _ from second .., _ from / before etc)
    assert_eq!(sanitize_filename("../../etc/passwd"), "____etc_passwd");
    // Same pattern for backslash variant
    assert_eq!(sanitize_filename("..\\..\\Windows\\win.ini"), "____Windows_win.ini");
    assert_eq!(sanitize_filename("foo/bar"), "foo_bar");
    assert_eq!(sanitize_filename("foo\\bar"), "foo_bar");
}

#[test]
fn test_sanitize_filename_removes_null_bytes() {
    assert_eq!(sanitize_filename("file\0.txt"), "file_.txt");
}

#[test]
fn test_sanitize_filename_normal_filename_unchanged() {
    assert_eq!(sanitize_filename("document.pdf"), "document.pdf");
    assert_eq!(sanitize_filename("my_photo.jpg"), "my_photo.jpg");
}

#[test]
fn test_sanitize_filename_empty_becomes_default() {
    assert_eq!(sanitize_filename(""), "download");
    assert_eq!(sanitize_filename("."), "download");
    assert_eq!(sanitize_filename("   "), "download");
}

#[test]
fn test_sanitize_filename_truncates_long_names() {
    let long = "a".repeat(500);
    let result = sanitize_filename(&long);
    assert!(result.len() <= 255);
}

#[test]
fn test_sanitize_filename_preserves_extension_when_truncating() {
    let long = "abcdefghij".repeat(30); // 300 chars
    let long_with_ext = format!("{}.txt", long);
    let result = sanitize_filename(&long_with_ext);
    // With 300+ char base + .txt = 304+ chars, truncates to 255
    // Extension .txt is 4 chars, so base should be truncated to 251
    assert!(result.len() <= 255);
    assert!(result.ends_with(".txt"), "Expected .txt suffix, got: {}", result);
}

#[test]
fn test_read_string_rejects_oversized_length() {
    // We can't easily test read_string without a stream, but we can test
    // the constant is used correctly by checking the limit
    assert_eq!(MAX_WIRE_STRING_LEN, 4096);
}

#[test]
fn sanitized_names_are_safe_and_short() {
    let long = format!("{}.txt", "a/b\\c\0".repeat(50));
    let r = sanitize_filename(&long);
    assert!(!r.is_empty());
    assert!(!r.contains('/') && !r.contains('\\') && !r.contains('\0'));
    assert_eq!(r.len(), 255);
    assert!(r.ends_with(".txt"));
    assert_eq!(sanitize_filename("   "), "download");
    assert_eq!(sanitize_filename("."), "download");
}
