use azurepath::file_transfer::FileTransferService;

const T0: &str = "2025-01-01T00:00:00+00:00";

fn svc() -> FileTransferService {
    FileTransferService::new(Some(42071))
}

#[test]
fn test_register_and_list_transfers() {
    let mut svc = svc();
    svc.register_incoming("id1", "test.txt", 1024, "peer1", T0);
    svc.register_incoming("id2", "photo.jpg", 2048, "peer2", "2025-01-01T00:00:01+00:00");
    let list = svc.list_transfers();
    assert_eq!(list.len(), 2);
    let id1 = list.iter().find(|t| t.id == "id1").unwrap();
    assert_eq!(id1.filename, "test.txt");
    assert_eq!(id1.size, 1024);
    assert_eq!(id1.status, "pending");
    assert!(id1.is_incoming);
    let id2 = list.iter().find(|t| t.id == "id2").unwrap();
    assert_eq!(id2.filename, "photo.jpg");
    assert_eq!(id2.size, 2048);
    // newest first
    assert_eq!(list[0].id, "id2");
}

#[test]
fn test_update_progress() {
    let mut svc = svc();
    svc.register_incoming("id1", "test.txt", 1000, "peer1", T0);
    svc.update_progress("id1", 500, 1000);
    let list = svc.list_transfers();
    let t = list.iter().find(|t| t.id == "id1").unwrap();
    assert_eq!(t.received, 500);
    assert_eq!(t.size, 1000);
}

#[test]
fn test_mark_complete() {
    let mut svc = svc();
    svc.register_incoming("id1", "test.txt", 1000, "peer1", T0);
    svc.mark_complete("id1", Some("/tmp/test.txt".to_string()));
    let list = svc.list_transfers();
    let t = list.iter().find(|t| t.id == "id1").unwrap();
    assert_eq!(t.status, "completed");
    assert_eq!(t.path.as_deref(), Some("/tmp/test.txt"));
    assert_eq!(t.received, t.size);
}

#[test]
fn test_mark_error() {
    let mut svc = svc();
    svc.register_incoming("id1", "test.txt", 1000, "peer1", T0);
    svc.mark_error("id1", "disk full");
    let list = svc.list_transfers();
    let t = list.iter().find(|t| t.id == "id1").unwrap();
    assert!(t.status.starts_with("error:"));
    assert_eq!(t.status, "error: disk full");
}

#[test]
fn test_request_sender_take_is_atomic() {
    let mut svc = svc();
    svc.register_request_sender("id1", "peer1");
    let taken = svc.take_request_sender("id1");
    assert_eq!(taken, Some("peer1".to_string()));
    let taken2 = svc.take_request_sender("id1");
    assert_eq!(taken2, None);
}

#[test]
fn test_broadcast_register_and_cleanup() {
    let mut svc = svc();
    svc.register_broadcast("id1", "/tmp/test.txt", "test.txt", 1000);
    assert!(svc.is_broadcast_file("id1"));
    let info = svc.get_broadcast_info("id1");
    assert!(info.is_some());
    assert_eq!(info.unwrap().filename, "test.txt");
    svc.remove_broadcast("id1");
    assert!(!svc.is_broadcast_file("id1"));
}

#[test]
fn test_get_filename() {
    let mut svc = svc();
    svc.register_incoming("id1", "test.txt", 1000, "peer1", T0);
    assert_eq!(svc.get_filename("id1"), Some("test.txt".to_string()));
    assert_eq!(svc.get_filename("nonexistent"), None);
}

#[test]
fn test_set_download_url() {
    let mut svc = svc();
    svc.register_incoming("id1", "test.txt", 1000, "peer1", T0);
    svc.set_download_url("id1", "http://localhost:8080/download/id1/test.txt");
    let list = svc.list_transfers();
    let t = list.iter().find(|t| t.id == "id1").unwrap();
    assert_eq!(t.download_url.as_deref(), Some("http://localhost:8080/download/id1/test.txt"));
}

#[test]
fn test_receiver_port_always_ready() {
    let svc = svc();
    let port = svc.get_receiver_port();
    assert!(port.is_some());
    assert!(port.unwrap() > 0);
}

#[test]
fn outgoing_transfer_lifecycle() {
    let mut svc = svc();
    svc.start_outgoing("out1", "/home/u/a.bin", "a.bin", 300, "peer9", T0);
    let t = &svc.list_transfers()[0];
    assert_eq!(t.status, "transferring");
    assert!(!t.is_incoming);
    assert_eq!(t.path.as_deref(), Some("/home/u/a.bin"));
    svc.finish_outgoing("out1", Ok(()));
    let t = &svc.list_transfers()[0];
    assert_eq!((t.status.as_str(), t.received), ("completed", 300));
    svc.finish_outgoing("out1", Err("connection reset".to_string()));
    assert_eq!(svc.list_transfers()[0].status, "error: connection reset");
}

#[test]
fn unknown_ids_change_nothing() {
    let mut svc = svc();
    svc.register_incoming("id1", "f", 10, "p", T0);
    svc.update_progress("nope", 5, 5);
    svc.mark_complete("nope", None);
    svc.mark_error("nope", "x");
    svc.remove_request_sender("nope");
    let t = &svc.list_transfers()[0];
    assert_eq!((t.status.as_str(), t.received, t.size), ("pending", 0, 10));
}

#[test]
fn reregistering_replaces() {
    let mut svc = svc();
    svc.register_incoming("id1", "old", 10, "p", T0);
    svc.register_incoming("id1", "new", 20, "p", T0);
    let list = svc.list_transfers();
    assert_eq!(list.len(), 1);
    assert_eq!(list[0].filename, "new");
}
