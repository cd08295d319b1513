use azurepath::bandwidth::{
    counter_deltas, get_counters, get_interfaces, merge_interfaces, parse_counter_csv, parse_interface_csv,
    parse_ip_config_csv, CounterSnapshot, InterfaceInfo,
};

const PROC_NET_DEV: &str = "Inter-|   Receive                                                |  Transmit\n face |bytes    packets errs drop fifo frame compressed multicast|bytes    packets errs drop fifo colls carrier compressed\n    lo:  1000      10    0    0    0     0          0         0     1000      10    0    0    0     0       0          0\n  eth0: 123456     100    0    0    0     0          0         0    654321     90    0    0    0     0       0          0\n wlan0: 5 1 0 0 0 0 0 0 7 1 0 0 0 0 0 0\n";

#[test]
fn procfs_interfaces_skip_loopback() {
    let ifs = get_interfaces(PROC_NET_DEV);
    let names: Vec<&str> = ifs.iter().map(|i| i.name.as_str()).collect();
    assert_eq!(names, vec!["eth0", "wlan0"]);
    assert_eq!(ifs[0].friendly_name, "eth0");
    assert_eq!(ifs[0].ip, "");
}

#[test]
fn procfs_counters() {
    let c = get_counters(PROC_NET_DEV);
    assert_eq!(c.len(), 3);
    assert_eq!(c[1].0, "eth0");
    assert_eq!((c[1].1.rx, c[1].1.tx), (123456, 654321));
    assert_eq!((c[2].1.rx, c[2].1.tx), (5, 7));
}

#[test]
fn procfs_duplicate_name_keeps_last() {
    let text = "h1\nh2\neth0: 1 0 0 0 0 0 0 0 2 0\neth0: 3 0 0 0 0 0 0 0 4 0\n";
    let c = get_counters(text);
    assert_eq!(c.len(), 1);
    assert_eq!((c[0].1.rx, c[0].1.tx), (3, 4));
}

#[test]
fn procfs_short_lines_ignored() {
    let text = "h1\nh2\neth0: 1 2 3\nnocolon\n";
    assert!(get_counters(text).is_empty());
    assert_eq!(get_interfaces(text).len(), 1);
}

#[test]
fn wmic_interfaces() {
    let out = "\r\nNode,Index,NetConnectionID,Name\r\nPC,7,Ethernet,Intel(R) Ethernet\r\nPC,9,Wi-Fi,\r\nnode,1,x,y\r\nPC,12, Wi-Fi 2 , Realtek \r\n";
    let ifs = parse_interface_csv(out).unwrap();
    assert_eq!(ifs.len(), 2);
    assert_eq!((ifs[0].name.as_str(), ifs[0].friendly_name.as_str()), ("7", "Ethernet"));
    assert_eq!((ifs[1].name.as_str(), ifs[1].friendly_name.as_str()), ("12", "Wi-Fi 2"));
}

#[test]
fn wmic_ip_config_first_address() {
    let out = "Node,Index,IPAddress\nPC,7,192.168.1.5;fe80::1\nPC,12,10.0.0.2\nPC,7,192.168.1.6\n";
    let map = parse_ip_config_csv(out);
    assert_eq!(map, vec![("7".to_string(), "192.168.1.6".to_string()), ("12".to_string(), "10.0.0.2".to_string())]);
}

#[test]
fn wmic_counters() {
    let out = "Node,Name,BytesReceivedPersec,BytesSentPersec\nPC,Intel,100,200\nPC,Bad,x,5\nPC,short\n";
    let c = parse_counter_csv(out).unwrap();
    assert_eq!(c.len(), 2);
    assert_eq!((c[0].1.rx, c[0].1.tx), (100, 200));
    assert_eq!((c[1].1.rx, c[1].1.tx), (0, 5));
}

#[test]
fn merge_fills_addresses_and_moves_star_last() {
    let ifs = vec![
        InterfaceInfo { name: "*".into(), friendly_name: "all".into(), ip: String::new() },
        InterfaceInfo { name: "7".into(), friendly_name: "Ethernet".into(), ip: String::new() },
        InterfaceInfo { name: "9".into(), friendly_name: "Wi-Fi".into(), ip: String::new() },
    ];
    let ips = vec![("7".to_string(), "192.168.1.5".to_string())];
    let merged = merge_interfaces(&ifs, &ips);
    let names: Vec<&str> = merged.iter().map(|i| i.name.as_str()).collect();
    assert_eq!(names, vec!["7", "9", "*"]);
    assert_eq!(merged[0].ip, "192.168.1.5");
    assert_eq!(merged[1].ip, "");
}

#[test]
fn deltas_per_interface_and_total() {
    let prev = vec![
        ("eth0".to_string(), CounterSnapshot { rx: 100, tx: 50 }),
        ("wlan0".to_string(), CounterSnapshot { rx: 500, tx: 10 }),
    ];
    let cur = vec![
        ("eth0".to_string(), CounterSnapshot { rx: 300, tx: 80 }),
        ("wlan0".to_string(), CounterSnapshot { rx: 400, tx: 20 }),
        ("new0".to_string(), CounterSnapshot { rx: 9, tx: 9 }),
    ];
    let d = counter_deltas(&prev, &cur);
    assert_eq!(d.len(), 3);
    assert_eq!((d[0].interface.as_str(), d[0].rx_delta, d[0].tx_delta), ("eth0", 200, 30));
    // a counter that went back counts as no growth
    assert_eq!((d[1].interface.as_str(), d[1].rx_delta, d[1].tx_delta), ("wlan0", 0, 10));
    assert_eq!(d[2].interface, "*");
    assert_eq!((d[2].total_rx, d[2].total_tx), (700, 100));
    assert_eq!((d[2].rx_delta, d[2].tx_delta), (100, 40));
}
