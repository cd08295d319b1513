use azurepath::port_scan::guess_service;

#[test]
fn test_guess_service_known_ports() {
    let cases = [
        (20, "FTP"),
        (21, "FTP"),
        (22, "SSH"),
        (23, "Telnet"),
        (25, "SMTP"),
        (53, "DNS"),
        (80, "HTTP"),
        (110, "POP3"),
        (143, "IMAP"),
        (443, "HTTPS"),
        (465, "SMTPS"),
        (587, "SMTP Submission"),
        (993, "IMAPS"),
        (995, "POP3S"),
        (1433, "MSSQL"),
        (1521, "Oracle DB"),
        (3306, "MySQL"),
        (3389, "RDP"),
        (5432, "PostgreSQL"),
        (5900, "VNC"),
        (6379, "Redis"),
        (8080, "HTTP-Alt"),
        (8443, "HTTPS-Alt"),
        (27017, "MongoDB"),
    ];
    for (port, expected) in &cases {
        assert_eq!(guess_service(*port), Some(expected.to_string()));
    }
}

#[test]
fn test_guess_service_unknown_ports() {
    // Boundary: port 0 (valid u16)
    assert_eq!(guess_service(0), None);
    // Entirely unassigned
    assert_eq!(guess_service(9999), None);
    // Upper bound
    assert_eq!(guess_service(65535), None);
}
