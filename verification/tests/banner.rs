use azurepath::network_sniffer::banner::probe_for_port;

#[test]
fn test_probe_for_port() {
    assert_eq!(probe_for_port(80), "GET / HTTP/1.0\r\nHost: localhost\r\n\r\n");
    assert_eq!(probe_for_port(22), "");
    assert_eq!(probe_for_port(6379), "PING\r\n");
    assert_eq!(probe_for_port(9999), "");
}
