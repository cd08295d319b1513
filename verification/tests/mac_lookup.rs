use azurepath::mac_lookup::{normalize_mac, MacLookup};

#[test]
fn test_lookup_cisco() {
    let lookup = MacLookup::new();
    assert_eq!(
        lookup.lookup("00:00:0C:12:34:56"),
        Some("Cisco".to_string())
    );
}

#[test]
fn test_lookup_vmware() {
    let lookup = MacLookup::new();
    assert_eq!(
        lookup.lookup("00:50:56:AB:CD:EF"),
        Some("VMware".to_string())
    );
}

#[test]
fn test_lookup_raspberry_pi() {
    let lookup = MacLookup::new();
    assert_eq!(
        lookup.lookup("B8:27:EB:12:34:56"),
        Some("Raspberry Pi".to_string())
    );
}

#[test]
fn test_lookup_dash_format() {
    let lookup = MacLookup::new();
    assert_eq!(
        lookup.lookup("00-14-22-AB-CD-EF"),
        Some("Dell".to_string())
    );
}

#[test]
fn test_lookup_no_separator_format() {
    let lookup = MacLookup::new();
    assert_eq!(
        lookup.lookup("3C5AB4123456"),
        Some("Intel".to_string())
    );
}

#[test]
fn test_lookup_cisco_dot_format() {
    let lookup = MacLookup::new();
    assert_eq!(
        lookup.lookup("0000.0C12.3456"),
        Some("Cisco".to_string())
    );
}

#[test]
fn test_lookup_not_found() {
    let lookup = MacLookup::new();
    assert_eq!(lookup.lookup("AA:BB:CC:DD:EE:FF"), None);
}

#[test]
fn test_lookup_invalid_mac() {
    let lookup = MacLookup::new();
    assert_eq!(lookup.lookup("invalid"), None);
}

#[test]
fn test_lookup_empty_string() {
    let lookup = MacLookup::new();
    assert_eq!(lookup.lookup(""), None);
}

#[test]
fn test_lookup_short_mac() {
    let lookup = MacLookup::new();
    assert_eq!(lookup.lookup("00:11:22"), None);
}

#[test]
fn test_lookup_lowercase() {
    let lookup = MacLookup::new();
    assert_eq!(
        lookup.lookup("b8:27:eb:12:34:56"),
        Some("Raspberry Pi".to_string())
    );
}

#[test]
fn test_normalize_mac_colons() {
    assert_eq!(
        normalize_mac("00:50:56:AB:CD:EF"),
        Some("00:50:56:AB:CD:EF".to_string())
    );
}

#[test]
fn test_normalize_mac_dashes() {
    assert_eq!(
        normalize_mac("00-50-56-AB-CD-EF"),
        Some("00:50:56:AB:CD:EF".to_string())
    );
}

#[test]
fn test_normalize_mac_no_separator() {
    assert_eq!(
        normalize_mac("005056ABCDEF"),
        Some("00:50:56:AB:CD:EF".to_string())
    );
}

#[test]
fn test_normalize_mac_dot_format() {
    assert_eq!(
        normalize_mac("0050.56AB.CDEF"),
        Some("00:50:56:AB:CD:EF".to_string())
    );
}

#[test]
fn test_normalize_mac_invalid_chars() {
    assert_eq!(normalize_mac("00:50:56:AB:CD:GG"), None);
}

#[test]
fn test_normalize_mac_too_short() {
    assert_eq!(normalize_mac("00:11:22:33"), None);
}

#[test]
fn test_normalize_mac_too_long() {
    assert_eq!(normalize_mac("00:11:22:33:44:55:66"), None);
}

#[test]
fn test_new_returns_instance() {
    let lookup = MacLookup::new();
    assert!(lookup.lookup("00:00:0C:00:00:00").is_some());
}
