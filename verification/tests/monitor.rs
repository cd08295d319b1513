use azurepath::monitor::MonitorSwitch;

#[test]
fn test_is_monitoring_default_false() {
    let switch = MonitorSwitch::new();
    assert!(!switch.is_monitoring());
}

#[test]
fn start_with_targets_turns_monitoring_on() {
    let mut switch = MonitorSwitch::new();
    let token = switch.start_monitoring(2).unwrap();
    assert!(switch.is_monitoring());
    assert!(!token.is_cancelled());
}

#[test]
fn start_without_targets_is_an_error_and_stays_off() {
    let mut switch = MonitorSwitch::new();
    match switch.start_monitoring(0) {
        Err(e) => assert_eq!(e, "No enabled monitoring targets configured"),
        Ok(_) => panic!("expected an error"),
    }
    assert!(!switch.is_monitoring());
}

#[test]
fn stop_cancels_the_running_loops() {
    let mut switch = MonitorSwitch::new();
    let token = switch.start_monitoring(1).unwrap();
    switch.stop_monitoring();
    assert!(!switch.is_monitoring());
    assert!(token.is_cancelled());
}

#[test]
fn restarting_cancels_the_previous_run() {
    let mut switch = MonitorSwitch::new();
    let first = switch.start_monitoring(1).unwrap();
    let second = switch.start_monitoring(3).unwrap();
    assert!(first.is_cancelled());
    assert!(!second.is_cancelled());
    assert!(switch.is_monitoring());
}

#[test]
fn failed_restart_stops_the_previous_run() {
    let mut switch = MonitorSwitch::new();
    let first = switch.start_monitoring(1).unwrap();
    assert!(switch.start_monitoring(0).is_err());
    assert!(first.is_cancelled());
    assert!(!switch.is_monitoring());
}
