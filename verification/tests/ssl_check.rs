use azurepath::ssl_check::{
    build_client_hello, days_remaining_at, extract_common_name, extract_date, extract_organization, is_expired,
    is_likely_self_signed, ssl_check_result,
};

#[test]
fn test_build_client_hello_contains_hostname() {
    let hello = build_client_hello("example.com");
    assert!(!hello.is_empty());
    // Check that it starts with TLS record header (0x16)
    assert_eq!(hello[0], 0x16);
    // Should contain the hostname
    assert!(hello.windows(b"example.com".len()).any(|w| w == b"example.com"));
}

#[test]
fn test_build_client_hello_long_hostname() {
    let hello = build_client_hello("very-long-hostname-that-is-still-valid.example.com");
    assert!(!hello.is_empty());
    assert_eq!(hello[0], 0x16);
}

#[test]
fn test_build_client_hello_short_hostname() {
    let hello = build_client_hello("a.b");
    assert!(!hello.is_empty());
    assert_eq!(hello[0], 0x16);
}

#[test]
fn test_extract_common_name_no_match() {
    let der = b"data without any domain pattern";
    let cn = extract_common_name(der);
    assert!(cn.is_none());
}

#[test]
fn test_extract_common_name_empty_der() {
    let der = b"";
    let cn = extract_common_name(der);
    assert!(cn.is_none());
}

#[test]
fn test_extract_organization() {
    let der = b"\x0c\x09Microsoft";
    let org = extract_organization(der);
    assert_eq!(org, Some("Microsoft".to_string()));
}

#[test]
fn test_extract_organization_with_dot() {
    // Organizations shouldn't have dots in our heuristic
    let der = b"\x0c\x0emicrosoft.com";
    let org = extract_organization(der);
    assert!(org.is_none());
}

#[test]
fn test_extract_date_no_match() {
    let der = b"no date here";
    let date = extract_date(der, 0);
    assert!(date.is_none());
}

#[test]
fn test_is_likely_self_signed_not() {
    let der = b"\x0c\x09Microsoft";
    assert!(!is_likely_self_signed(der));
}

#[test]
fn test_extract_common_name_from_domain_string() {
    let der = b"some data\x0c\x0eexample.commore data";
    let cn = extract_common_name(der);
    assert_eq!(cn, Some("example.com".to_string()));
}

#[test]
fn test_extract_date_utc_format() {
    let der = b"some prefix\x0c\x0dJan 15 00:00:00 2026 UTCmore data";
    let date = extract_date(der, 0);
    assert!(date.is_some());
    assert!(date.unwrap().contains("UTC"));
}

#[test]
fn test_is_likely_self_signed() {
    let der = b"\x0c\x0cSelf-Signed";
    assert!(is_likely_self_signed(der));
}

#[test]
fn common_name_with_a_known_domain_is_kept_whole() {
    assert_eq!(extract_common_name(b"\x0c\x0fwww.example.com"), Some("www.example.com".to_string()));
    assert_eq!(extract_common_name(b"\x0c\x0dexample.co.uk"), Some("example.co.uk".to_string()));
    assert_eq!(extract_common_name(b"\x0c\x0bfoo.network"), Some("foo.network".to_string()));
    assert_eq!(extract_common_name(b"\x0c\x0email.community\x30\x00"), Some("mail.community".to_string()));
    // the text runs on past the length byte: the name is cut after the known domain
    assert_eq!(extract_common_name(b"\x0c\x0bexample.ionext"), Some("example.io".to_string()));
}

#[test]
fn string_running_past_the_end_is_read_to_the_end() {
    assert_eq!(extract_organization(b"\x0c\x20Acme Corp"), Some("Acme Corp".to_string()));
}

#[test]
fn written_out_gmt_date_is_found() {
    let der = b"prefix\x17\x05Feb 02 10:20:30 2030 GMT trailing bytes";
    assert_eq!(extract_date(der, 0), Some("Feb 02 10:20:30 2030 GMT".to_string()));
}

// 2026-01-01T00:00:00Z
const NOW: i64 = 1_767_225_600;

#[test]
fn test_days_remaining_parsing() {
    let days = days_remaining_at(Some("Jan 15 00:00:00 2099 GMT"), NOW);
    assert!(days.unwrap() > 0, "Should be positive for future dates");
}

#[test]
fn test_days_remaining_expired() {
    let days = days_remaining_at(Some("Jan 15 00:00:00 2020 GMT"), NOW);
    assert!(days.unwrap() < 0, "Should be negative for past dates");
}

#[test]
fn days_remaining_exact_values() {
    // 14 days and 1 second ahead, and 14 days and 1 second behind
    assert_eq!(days_remaining_at(Some("Jan 15 00:00:01 2026 GMT"), NOW), Some(14));
    assert_eq!(days_remaining_at(Some("Dec 17 23:59:59 2025 GMT"), NOW), Some(-14));
    assert_eq!(days_remaining_at(Some("not a date"), NOW), None);
    assert_eq!(days_remaining_at(None, NOW), None);
    assert!(is_expired(Some(-1)));
    assert!(!is_expired(Some(0)));
    assert!(!is_expired(None));
}

#[test]
fn ssl_result_without_certificate() {
    let r = ssl_check_result("example.com", b"\x15\x03\x01\x00\x02\x02\x28", NOW);
    assert_eq!(r.hostname, "example.com");
    assert_eq!(r.issuer, None);
    assert_eq!(r.subject, None);
    assert_eq!(r.days_remaining, None);
    assert!(!r.is_expired);
    assert!(!r.is_self_signed);
}
