use azurepath::network_sniffer::discovery::mac_vendor;

#[test]
fn test_mac_vendor_known() {
    assert_eq!(mac_vendor("00:50:56:12:34:56"), Some("VMware".to_string()));
    assert_eq!(mac_vendor("08:00:27:AB:CD:EF"), Some("Oracle VirtualBox".to_string()));
}

#[test]
fn test_mac_vendor_unknown() {
    assert_eq!(mac_vendor("AA:BB:CC:DD:EE:FF"), None);
}

#[test]
fn test_mac_vendor_vmware_prefixes() {
    assert_eq!(mac_vendor("00:50:56:FF:FF:FF"), Some("VMware".to_string()));
    assert_eq!(mac_vendor("00:0C:29:00:00:01"), Some("VMware".to_string()));
    assert_eq!(mac_vendor("00:05:69:AB:CD:EF"), Some("VMware".to_string()));
}

#[test]
fn test_mac_vendor_apple() {
    assert_eq!(mac_vendor("00:21:6A:12:34:56"), Some("Apple".to_string()));
    assert_eq!(mac_vendor("00:23:32:AB:CD:EF"), Some("Apple".to_string()));
    assert_eq!(mac_vendor("00:25:00:11:22:33"), Some("Apple".to_string()));
    assert_eq!(mac_vendor("00:26:08:44:55:66"), Some("Apple".to_string()));
}

#[test]
fn test_mac_vendor_cisco() {
    assert_eq!(mac_vendor("00:1A:2B:12:34:56"), Some("Cisco".to_string()));
}

#[test]
fn test_mac_vendor_empty_mac() {
    assert_eq!(mac_vendor(""), None);
}

#[test]
fn test_mac_vendor_partial_mac() {
    assert_eq!(mac_vendor("00:50:56"), Some("VMware".to_string()));
}

#[test]
fn test_arp_parse_windows_format() {
    let ip = "192.168.1.1";
    let arp_output = "  192.168.1.1    00-11-22-33-44-55    dynamic\n";
    for line in arp_output.lines() {
        if line.contains(ip) {
            let parts: Vec<&str> = line.split_whitespace().collect();
            assert_eq!(parts.len(), 3);
            let mac = parts[1].replace('-', ":").to_uppercase();
            assert_eq!(mac, "00:11:22:33:44:55");
        }
    }
}
