use azurepath::network_sniffer::port_scanner::top_ports;

#[test]
fn test_top_ports_non_empty() {
    let ports = top_ports();
    assert!(!ports.is_empty());
    assert!(ports.contains(&80));
    assert!(ports.contains(&443));
    assert!(ports.contains(&22));
}
