use azurepath::ping::icmp::{build_echo_request, compute_checksum, probe_record, probe_records, probe_sequence, ReplyOutcome};

#[test]
fn test_checksum_all_zeros() {
    assert_eq!(compute_checksum(&[0u8; 8]), 0xffff);
}

#[test]
fn test_checksum_known() {
    assert_eq!(compute_checksum(&[0x00, 0x01, 0x00, 0x01, 0x00, 0x01, 0x00, 0x01]), 0xfffb);
}

#[test]
fn test_checksum_odd_length() {
    assert_eq!(compute_checksum(&[0x00, 0x01, 0x02]), 0xfdfe);
}

#[test]
fn test_build_echo_request() {
    let pkt = build_echo_request(0x1234, 1);
    assert_eq!(pkt.len(), 40);
    assert_eq!(pkt[0], 8);
    assert_eq!(pkt[1], 0);
}

#[test]
fn test_build_echo_request_fields() {
    let pkt = build_echo_request(0xabcd, 5);
    assert_eq!(pkt[4], 0xab);
    assert_eq!(pkt[5], 0xcd);
    assert_eq!(pkt[6], 0x00);
    assert_eq!(pkt[7], 0x05);
}

#[test]
fn test_build_echo_request_checksum_valid() {
    let pkt = build_echo_request(0x1234, 1);
    let mut check = pkt.clone();
    check[2] = 0;
    check[3] = 0;
    assert_eq!(
        u16::from_be_bytes([pkt[2], pkt[3]]),
        compute_checksum(&check),
    );
}

#[test]
fn test_checksum_nonzero() {
    let pkt = build_echo_request(0x1234, 1);
    let cksum = u16::from_be_bytes([pkt[2], pkt[3]]);
    assert_ne!(cksum, 0);
    assert_ne!(cksum, 0xffff);
}

#[test]
fn probe_sequences_wrap() {
    assert_eq!(probe_sequence(0), 1);
    assert_eq!(probe_sequence(65534), 65535);
    assert_eq!(probe_sequence(65535), 0);
}

#[test]
fn probe_records_by_outcome() {
    let mut buf = vec![0u8; 512];
    buf[8] = 57;
    buf[20] = 0;
    buf[24] = 0x12;
    buf[25] = 0x34;
    buf[26] = 0;
    buf[27] = 3;
    let ok = probe_record(0x1234, 3, ReplyOutcome::Received(buf.clone(), 84));
    assert_eq!((ok.seq, ok.ttl, ok.status.as_str(), ok.measured), (3, 57, "success", true));
    let other = probe_record(0x1234, 4, ReplyOutcome::Received(buf.clone(), 84));
    assert_eq!((other.ttl, other.status.as_str(), other.measured), (0, "unexpected_type_0", false));
    let short = probe_record(0x1234, 3, ReplyOutcome::Received(buf, 10));
    assert_eq!(short.status, "short_reply");
    let t = probe_record(1, 2, ReplyOutcome::TimedOut);
    assert_eq!((t.seq, t.ttl, t.status.as_str(), t.measured), (2, 0, "timeout", false));
    let s = probe_record(1, 2, ReplyOutcome::SendFailed("denied".to_string()));
    assert_eq!(s.status, "send_error: denied");
    let r = probe_record(1, 2, ReplyOutcome::RecvFailed("reset".to_string()));
    assert_eq!(r.status, "recv_error: reset");
}

#[test]
fn probe_run_numbers_requests_from_one() {
    let recs = probe_records(7, vec![ReplyOutcome::TimedOut, ReplyOutcome::SendFailed("x".to_string()), ReplyOutcome::TimedOut]);
    let seqs: Vec<u32> = recs.iter().map(|r| r.seq).collect();
    assert_eq!(seqs, vec![1, 2, 3]);
    assert_eq!(recs[1].status, "send_error: x");
    assert!(recs.iter().all(|r| !r.measured && r.ttl == 0));
}
