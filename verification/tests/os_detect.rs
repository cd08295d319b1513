use azurepath::network_sniffer::os_detect::{guess_os_by_ttl, refine_os_by_ports};

#[test]
fn test_guess_os_ttl() {
    assert_eq!(guess_os_by_ttl(64), Some("Linux/Unix"));
    assert_eq!(guess_os_by_ttl(128), Some("Windows"));
    assert_eq!(guess_os_by_ttl(255), Some("Network Device"));
}

#[test]
fn test_os_by_ports_windows() {
    let os = refine_os_by_ports(&[135, 139, 445]);
    assert_eq!(os, Some("Windows".to_string()));
}

#[test]
fn test_os_by_ports_linux() {
    let os = refine_os_by_ports(&[22, 111, 2049]);
    assert_eq!(os, Some("Linux/Unix".to_string()));
}

#[test]
fn test_os_by_ports_router() {
    let os = refine_os_by_ports(&[53, 67, 1900]);
    assert_eq!(os, Some("Network Device".to_string()));
}

#[test]
fn test_os_by_ports_mixed() {
    let os = refine_os_by_ports(&[22, 80, 443, 3389]);
    assert!(os.is_some());
}
