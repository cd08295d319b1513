use azurepath::snmp::{detect_device, extract_model, SnmpScanner};

#[test]
fn expands_slash_24() {
    let scanner = SnmpScanner::new();
    assert_eq!(scanner.concurrency, 50);
    let ips = scanner.expand_cidr("192.168.1.77/24").unwrap();
    assert_eq!(ips.len(), 254);
    assert_eq!(ips[0], "192.168.1.1");
    assert_eq!(ips[253], "192.168.1.254");
}

#[test]
fn expand_errors() {
    let s = SnmpScanner::new();
    assert_eq!(s.expand_cidr("192.168.1.0").unwrap_err(), "invalid CIDR format, use x.x.x.x/24");
    assert_eq!(s.expand_cidr("1.2.3.4/24/1").unwrap_err(), "invalid CIDR format, use x.x.x.x/24");
    assert_eq!(s.expand_cidr("192.168.1.0/abc").unwrap_err(), "invalid prefix");
    assert_eq!(s.expand_cidr("192.168.1.0/300").unwrap_err(), "invalid prefix");
    assert_eq!(s.expand_cidr("192.168.1.0/16").unwrap_err(), "only /24 subnets are supported");
    assert_eq!(s.expand_cidr("192.168.1/24").unwrap_err(), "invalid IP address");
    assert_eq!(s.expand_cidr("1.2.3.4.5/24").unwrap_err(), "invalid IP address");
}

#[test]
fn unparsable_octets_are_skipped() {
    let s = SnmpScanner::new();
    let ips = s.expand_cidr("10.x.0.1.2/+24").unwrap();
    assert_eq!(ips[0], "10.0.1.1");
}

#[test]
fn model_is_first_nonblank_line() {
    assert_eq!(extract_model("\n   \n  Cisco IOS 15.2  \r\nmore", "Cisco"), "Cisco IOS 15.2");
    assert_eq!(extract_model("  \n \n", "x"), "  \n \n");
    assert_eq!(extract_model("", "x"), "");
}

#[test]
fn vendors_by_enterprise_prefix() {
    assert_eq!(detect_device("IOS\nline2", "1.3.6.1.4.1.9.1.1"), ("Cisco".to_string(), "IOS".to_string()));
    assert_eq!(detect_device("VRP", "1.3.6.1.4.1.2011.2").0, "Huawei");
    assert_eq!(detect_device("ProCurve", "1.3.6.1.4.1.11.2").0, "HP");
    assert_eq!(detect_device("Comware", "1.3.6.1.4.1.25506.1").0, "H3C");
    assert_eq!(detect_device("DS-2CD", "1.3.6.1.4.1.42623.1").0, "Hikvision");
    // the HP prefix is tested first and also covers 11863
    assert_eq!(detect_device("TL-SG", "1.3.6.1.4.1.11863.1").0, "HP");
    assert_eq!(
        detect_device("Linux box\nkernel", "1.3.6.1.4.1.8072.3"),
        ("Unknown".to_string(), "Linux box".to_string())
    );
    assert_eq!(detect_device("", "1.2.3"), ("Unknown".to_string(), String::new()));
}
