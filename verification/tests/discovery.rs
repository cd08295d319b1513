use azurepath::discovery::{DISCOVERY_PORT, HEARTBEAT_INTERVAL_SECS, STALE_TIMEOUT_SECS};

#[test]
fn test_discovery_port_constant() {
    assert_eq!(DISCOVERY_PORT, 42069);
}

#[test]
fn test_heartbeat_interval_constant() {
    assert_eq!(HEARTBEAT_INTERVAL_SECS, 5);
}

#[test]
fn test_stale_timeout_constant() {
    assert_eq!(STALE_TIMEOUT_SECS, 30);
}
