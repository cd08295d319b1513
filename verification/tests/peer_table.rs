use azurepath::discovery::peer_table::{PeerInfo, PeerTable};
use azurepath::discovery::{accept_heartbeat, heartbeat_info};

fn make_peer(id: &str, ip: &str, hostname: &str, last_seen: &str) -> PeerInfo {
    PeerInfo {
        id: id.to_string(),
        hostname: hostname.to_string(),
        ip: ip.to_string(),
        os: "linux".to_string(),
        listen_port: 42070,
        last_seen: last_seen.to_string(),
        status: "online".to_string(),
    }
}

#[test]
fn test_upsert_new_peer() {
    let mut table = PeerTable::new();
    let peer = make_peer("id1", "192.168.1.10", "desktop", "2025-01-01T00:00:00+00:00");
    let is_new = table.upsert(peer);
    assert!(is_new);
    let list = table.list();
    assert_eq!(list.len(), 1);
    assert_eq!(list[0].ip, "192.168.1.10");
}

#[test]
fn test_upsert_existing_peer_overwrites() {
    let mut table = PeerTable::new();
    let peer1 = make_peer("id1", "192.168.1.10", "old-host", "2025-01-01T00:00:00+00:00");
    assert!(table.upsert(peer1));
    let peer2 = make_peer("id1", "192.168.1.20", "new-host", "2025-01-01T00:00:30+00:00");
    let is_new = table.upsert(peer2);
    assert!(!is_new, "same id should not be considered new");
    let list = table.list();
    assert_eq!(list.len(), 1);
    assert_eq!(list[0].ip, "192.168.1.20");
    assert_eq!(list[0].hostname, "new-host");
}

#[test]
fn test_mark_offline() {
    let mut table = PeerTable::new();
    let peer = make_peer("id1", "192.168.1.10", "host", "2025-01-01T00:00:00+00:00");
    table.upsert(peer);
    assert!(table.mark_offline("id1"));
    assert!(!table.mark_offline("nonexistent"));
    let list = table.list();
    assert_eq!(list[0].status, "offline");
}

#[test]
fn test_online_peers_filter() {
    let mut table = PeerTable::new();
    table.upsert(make_peer("id1", "10.0.0.1", "host1", "2025-01-01T00:00:00+00:00"));
    table.upsert(make_peer("id2", "10.0.0.2", "host2", "2025-01-01T00:00:00+00:00"));
    table.mark_offline("id2");
    let online_list = table.online_peers();
    assert_eq!(online_list.len(), 1);
    assert_eq!(online_list[0].id, "id1");
}

#[test]
fn test_check_stale_marks_offline() {
    let mut table = PeerTable::new();
    table.upsert(make_peer("id1", "10.0.0.1", "host1", "2020-01-01T00:00:00+00:00"));
    let stale = table.check_stale(10);
    assert_eq!(stale.len(), 1);
    assert_eq!(stale[0], "id1");
    let list = table.list();
    assert_eq!(list[0].status, "offline");
}

#[test]
fn test_check_stale_skips_recent() {
    let mut table = PeerTable::new();
    let recent = chrono::Utc::now().to_rfc3339();
    table.upsert(make_peer("id1", "10.0.0.1", "host1", &recent));
    let stale = table.check_stale(60);
    assert!(stale.is_empty(), "recent peer should not be stale");
    let list = table.list();
    assert_eq!(list[0].status, "online");
}

#[test]
fn test_get_peer() {
    let mut table = PeerTable::new();
    table.upsert(make_peer("id1", "10.0.0.1", "host1", "2025-01-01T00:00:00+00:00"));
    let found = table.get("id1");
    assert!(found.is_some());
    assert_eq!(found.unwrap().hostname, "host1");
    assert!(table.get("nonexistent").is_none());
}

#[test]
fn test_list_sorted_by_last_seen_desc() {
    let mut table = PeerTable::new();
    table.upsert(make_peer("id1", "10.0.0.1", "old", "2024-01-01T00:00:00+00:00"));
    table.upsert(make_peer("id2", "10.0.0.2", "recent", "2025-01-01T00:00:00+00:00"));
    let list = table.list();
    assert_eq!(list.len(), 2);
    assert_eq!(list[0].id, "id2");
    assert_eq!(list[1].id, "id1");
}

#[test]
fn test_peer_ip_override_from_src() {
    let mut peer = make_peer("id1", "0.0.0.0", "host1", "2025-01-01T00:00:00+00:00");
    peer.ip = "192.168.1.50".to_string();
    let mut table = PeerTable::new();
    table.upsert(peer);
    let found = table.get("id1").unwrap();
    assert_eq!(found.ip, "192.168.1.50", "IP should be the real source address, not 0.0.0.0");
    assert_ne!(found.ip, "0.0.0.0", "IP must not be the placeholder");
}

#[test]
fn check_stale_at_uses_the_given_instant() {
    let mut table = PeerTable::new();
    table.upsert(make_peer("a", "10.0.0.1", "a", "2025-01-01T00:00:00+00:00"));
    table.upsert(make_peer("b", "10.0.0.2", "b", "2025-01-01T00:00:20+00:00"));
    table.upsert(make_peer("c", "10.0.0.3", "c", "not a time"));
    // 2025-01-01T00:00:30Z
    let now = (1_735_689_630i64, 0u32);
    let stale = table.check_stale_at(now, 15);
    assert_eq!(stale, vec!["a".to_string()]);
    assert_eq!(table.get("a").unwrap().status, "offline");
    assert_eq!(table.get("b").unwrap().status, "online");
    assert_eq!(table.get("c").unwrap().status, "online");
    // exactly the timeout is not stale; one more second is
    assert!(table.check_stale_at((1_735_689_635, 0), 15).is_empty());
    assert_eq!(table.check_stale_at((1_735_689_636, 0), 15), vec!["b".to_string()]);
}

#[test]
fn check_stale_at_future_timestamp_counts_as_stale() {
    let mut table = PeerTable::new();
    table.upsert(make_peer("f", "10.0.0.1", "f", "2030-01-01T00:00:00+00:00"));
    let stale = table.check_stale_at((1_735_689_630, 0), 30);
    assert_eq!(stale, vec!["f".to_string()]);
}

#[test]
fn list_ties_keep_all_peers() {
    let mut table = PeerTable::new();
    table.upsert(make_peer("x", "1", "x", "2025-01-01T00:00:00+00:00"));
    table.upsert(make_peer("y", "2", "y", "2025-01-01T00:00:00+00:00"));
    table.upsert(make_peer("z", "3", "z", "2026-01-01T00:00:00+00:00"));
    let list = table.list();
    assert_eq!(list.len(), 3);
    assert_eq!(list[0].id, "z");
}

#[test]
fn heartbeat_and_accept() {
    let hb = heartbeat_info("me", "box", "linux", 42070, "2025-01-01T00:00:00+00:00");
    assert_eq!(hb.ip, "0.0.0.0");
    assert_eq!(hb.status, "online");
    let mut table = PeerTable::new();
    let own = heartbeat_info("me", "box", "linux", 42070, "2025-01-01T00:00:00+00:00");
    assert_eq!(accept_heartbeat(&mut table, own, "me", "10.0.0.9".to_string(), 42070), None);
    assert!(table.list().is_empty());
    let other = heartbeat_info("peer", "other", "macos", 1, "2025-01-01T00:00:00+00:00");
    assert_eq!(accept_heartbeat(&mut table, other, "me", "10.0.0.7".to_string(), 42070), Some(true));
    let other2 = heartbeat_info("peer", "other", "macos", 1, "2025-01-01T00:00:05+00:00");
    assert_eq!(accept_heartbeat(&mut table, other2, "me", "10.0.0.8".to_string(), 42070), Some(false));
    let got = table.get("peer").unwrap();
    assert_eq!(got.ip, "10.0.0.8");
    assert_eq!(got.listen_port, 42070);
}
