use azurepath::network_sniffer::fingerprint::{fingerprint_report, fingerprints, guess_service_by_port, match_banner};
use azurepath::network_sniffer::PortResult;

#[test]
fn test_fingerprint_lazylock_initialises() {
    // Building the fingerprint table must not panic
    let fps = fingerprints();
    assert!(!fps.is_empty(), "the fingerprint table should not be empty");
}

#[test]
fn test_guess_service() {
    assert_eq!(guess_service_by_port(22), Some("SSH"));
    assert_eq!(guess_service_by_port(80), Some("HTTP"));
    assert_eq!(guess_service_by_port(3306), Some("MySQL"));
    assert_eq!(guess_service_by_port(9999), None);
}

#[test]
fn test_match_nginx() {
    let banner = "HTTP/1.1 200 OK\r\nServer: nginx/1.24.0\r\n";
    let result = match_banner(80, banner, Some("HTTP"));
    assert!(result.is_some());
    let (service, version, confidence) = result.unwrap();
    assert_eq!(service, "nginx");
    assert_eq!(version, Some("1.24.0".to_string()));
    assert!(confidence >= 90);
}

#[test]
fn test_match_nginx_wrong_port() {
    // nginx fingerprint only matches ports [80, 443, 8080, 8443, 8000, 8888]
    let banner = "HTTP/1.1 200 OK\r\nServer: nginx/1.24.0\r\n";
    // port 9999 should NOT match nginx; the generic HTTP fingerprint (empty ports=any)
    // matches banners starting with "HTTP/" on any port
    let result = match_banner(9999, banner, Some("Unknown"));
    assert!(result.is_some());
    let (service, _, _) = result.unwrap();
    // Generic HTTP fingerprint matches first (it catches "HTTP/" prefix on any port)
    assert_eq!(service, "HTTP");
}

#[test]
fn test_match_apache() {
    let banner = "HTTP/1.1 200 OK\r\nServer: Apache/2.4.57 (Unix)\r\n";
    let result = match_banner(80, banner, None);
    assert!(result.is_some());
    let (service, version, _) = result.unwrap();
    assert_eq!(service, "Apache");
    assert_eq!(version, Some("2.4.57".to_string()));
}

#[test]
fn test_match_ssh() {
    let banner = "SSH-2.0-OpenSSH_8.9p1 Ubuntu-3";
    let result = match_banner(22, banner, None);
    assert!(result.is_some());
    let (service, version, _) = result.unwrap();
    assert_eq!(service, "OpenSSH");
    assert_eq!(version, Some("8.9p1".to_string()));
}

#[test]
fn test_match_redis() {
    let banner = "+OK\r\nredis_version:7.2.4";
    let result = match_banner(6379, banner, None);
    assert!(result.is_some());
    assert_eq!(result.unwrap().0, "Redis");
}

#[test]
fn test_match_iis() {
    let banner = "HTTP/1.1 200 OK\r\nServer: Microsoft-IIS/10.0\r\n";
    let result = match_banner(80, banner, None);
    assert!(result.is_some());
    let (service, version, _) = result.unwrap();
    assert_eq!(service, "IIS");
    assert_eq!(version, Some("10.0".to_string()));
}

#[test]
fn test_match_vsftpd() {
    let banner = "220 vsFTPd 3.0.3 ready\r\n";
    let result = match_banner(21, banner, None);
    assert!(result.is_some());
    let (service, version, _) = result.unwrap();
    assert_eq!(service, "vsftpd");
    assert_eq!(version, Some("3.0.3".to_string()));
}

#[test]
fn test_match_samba() {
    let banner = "Samba 4.15.0";
    let result = match_banner(445, banner, None);
    assert!(result.is_some());
    assert_eq!(result.unwrap().0, "Samba");
}

#[test]
fn test_match_generic_http() {
    // The generic HTTP fingerprint (&[]) matches any port
    let banner = "HTTP/1.1 200 OK\r\n";
    let result = match_banner(9999, banner, None);
    assert!(result.is_some());
    assert_eq!(result.unwrap().0, "HTTP");
}

#[test]
fn test_no_match_returns_default() {
    let banner = "some garbage banner";
    let result = match_banner(22, banner, Some("SSH"));
    assert!(result.is_some());
    let (service, version, conf) = result.unwrap();
    assert_eq!(service, "SSH");
    assert!(version.is_none());
    assert_eq!(conf, 30);
}

#[test]
fn test_no_match_no_default() {
    let banner = "unknown protocol data";
    let result = match_banner(9999, banner, None);
    assert!(result.is_none());
}

#[test]
fn test_detect_service_without_banner() {
    let _pr = PortResult {
        port: 9999,
        protocol: "tcp".to_string(),
        state: "open".to_string(),
        service: None,
        version: None,
        banner: None,
        confidence: 0,
        probe_method: "tcp_connect".to_string(),
    };
    // detect_service would try to connect — skip real test, just check it doesn't panic
}

#[test]
fn fingerprint_report_reads_the_version_group() {
    let groups = vec![Some("SSH-2.0-OpenSSH_8.9p1".to_string()), Some("8.9p1".to_string())];
    assert_eq!(fingerprint_report(3, &groups), ("OpenSSH".to_string(), Some("8.9p1".to_string()), 95));
    // a version group that did not take part gives no version
    assert_eq!(fingerprint_report(0, &vec![Some("Server: nginx".to_string()), None]), ("nginx".to_string(), None, 95));
    // a fingerprint without a version group
    assert_eq!(fingerprint_report(4, &vec![Some("dropbear".to_string())]), ("Dropbear".to_string(), None, 85));
}
