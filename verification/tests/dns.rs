use azurepath::dns::{
    compress_ipv6, decode_dns_name, encode_dns_name, get_qtypes, parse_dns_response, qtype_to_string,
    skip_dns_name, RecordType, TYPE_A, TYPE_AAAA, TYPE_CNAME, TYPE_MX, TYPE_NS, TYPE_SOA, TYPE_TXT,
};

#[test]
fn test_encode_basic() {
    let mut buf = Vec::new();
    encode_dns_name("example.com", &mut buf).unwrap();
    let expected: Vec<u8> = vec![
        7, b'e', b'x', b'a', b'm', b'p', b'l', b'e', 3, b'c', b'o', b'm', 0,
    ];
    assert_eq!(buf, expected);
}

#[test]
fn test_encode_trailing_dot_is_handled() {
    // "example.com." should produce the same wire format as "example.com"
    let mut buf1 = Vec::new();
    let mut buf2 = Vec::new();
    encode_dns_name("example.com", &mut buf1).unwrap();
    encode_dns_name("example.com.", &mut buf2).unwrap();
    assert_eq!(buf1, buf2, "trailing dot should not add an extra root label");
}

#[test]
fn test_encode_empty_domain_rejected() {
    let mut buf = Vec::new();
    let result = encode_dns_name("", &mut buf);
    assert!(result.is_err(), "empty domain should be rejected");
    assert!(result.unwrap_err().contains("empty"));
}

#[test]
fn test_encode_label_too_long_rejected() {
    let mut buf = Vec::new();
    let label = "a".repeat(64);
    let domain = format!("{}.com", label);
    let result = encode_dns_name(&domain, &mut buf);
    assert!(result.is_err(), "label over 63 chars should be rejected");
    assert!(result.unwrap_err().contains("63"));
}

#[test]
fn test_encode_label_63_ok() {
    let mut buf = Vec::new();
    let label = "a".repeat(63);
    let domain = format!("{}.com", label);
    let result = encode_dns_name(&domain, &mut buf);
    assert!(result.is_ok(), "label of exactly 63 chars should be accepted");
}

#[test]
fn test_encode_consecutive_dots_skipped() {
    // "example..com" has an empty label that should be skipped gracefully
    let mut buf1 = Vec::new();
    let mut buf2 = Vec::new();
    encode_dns_name("example..com", &mut buf1).unwrap();
    encode_dns_name("example.com", &mut buf2).unwrap();
    assert_eq!(buf1, buf2, "consecutive dots should be handled gracefully");
}

#[test]
fn test_qtype_to_string_known() {
    assert_eq!(qtype_to_string(TYPE_A), "A");
    assert_eq!(qtype_to_string(TYPE_AAAA), "AAAA");
    assert_eq!(qtype_to_string(TYPE_CNAME), "CNAME");
    assert_eq!(qtype_to_string(TYPE_MX), "MX");
    assert_eq!(qtype_to_string(TYPE_NS), "NS");
    assert_eq!(qtype_to_string(TYPE_SOA), "SOA");
    assert_eq!(qtype_to_string(TYPE_TXT), "TXT");
}

#[test]
fn test_qtype_to_string_unknown() {
    assert_eq!(qtype_to_string(99), "TYPE99");
    assert_eq!(qtype_to_string(0), "TYPE0");
    assert_eq!(qtype_to_string(65535), "TYPE65535");
}

#[test]
fn test_get_qtypes_single() {
    assert_eq!(get_qtypes(&RecordType::A), vec![TYPE_A]);
    assert_eq!(get_qtypes(&RecordType::Aaaa), vec![TYPE_AAAA]);
    assert_eq!(get_qtypes(&RecordType::Cname), vec![TYPE_CNAME]);
    assert_eq!(get_qtypes(&RecordType::Mx), vec![TYPE_MX]);
    assert_eq!(get_qtypes(&RecordType::Ns), vec![TYPE_NS]);
    assert_eq!(get_qtypes(&RecordType::Soa), vec![TYPE_SOA]);
    assert_eq!(get_qtypes(&RecordType::Txt), vec![TYPE_TXT]);
}

#[test]
fn test_get_qtypes_all() {
    let expected = vec![TYPE_A, TYPE_AAAA, TYPE_CNAME, TYPE_MX, TYPE_NS, TYPE_TXT];
    assert_eq!(get_qtypes(&RecordType::All), expected);
}

#[test]
fn test_compress_ipv6_fe80() {
    // fe80:0:0:0:0:0:0:1  →  fe80::1
    let result = compress_ipv6("fe80:0000:0000:0000:0000:0000:0000:0001");
    assert_eq!(
        result, "fe80::1",
        "BUG: fe80 corrupted to '{}' (trim_end_matches bug)", result
    );
}

#[test]
fn test_compress_ipv6_ff00_segment() {
    // 2001:db8:0:0:0:ff00:42:8329  →  2001:db8::ff00:42:8329  (NOT ff:42:8329)
    let result = compress_ipv6("2001:0db8:0000:0000:0000:ff00:0042:8329");
    assert!(
        result.contains("ff00"),
        "BUG: 'ff00' segment was corrupted to '{}' (should preserve trailing zeros)",
        result
    );
    assert_eq!(result, "2001:db8::ff00:42:8329");
}

#[test]
fn test_compress_ipv6_loopback() {
    assert_eq!(compress_ipv6("0000:0000:0000:0000:0000:0000:0000:0001"), "::1");
}

#[test]
fn test_compress_ipv6_all_zeros() {
    assert_eq!(compress_ipv6("0000:0000:0000:0000:0000:0000:0000:0000"), "::");
}

#[test]
fn test_compress_ipv6_full() {
    assert_eq!(
        compress_ipv6("2001:0db8:0000:0000:0000:0000:0000:0001"),
        "2001:db8::1"
    );
}

#[test]
fn test_compress_ipv6_no_compress_needed() {
    assert_eq!(
        compress_ipv6("2001:0db8:0001:0002:0003:0004:0005:0006"),
        "2001:db8:1:2:3:4:5:6"
    );
}

#[test]
fn test_compress_ipv6_short_zero_run() {
    // Single zero should not trigger "::" compression
    assert_eq!(
        compress_ipv6("2001:0db8:0000:0001:0002:0003:0004:0005"),
        "2001:db8:0:1:2:3:4:5"
    );
}

#[test]
fn test_compress_ipv6_multiple_zero_runs() {
    // Should pick the longest run
    // 2001:0:0:1:0:0:0:1  →  2001:0:0:1::1
    let result = compress_ipv6("2001:0000:0000:0001:0000:0000:0000:0001");
    assert_eq!(result, "2001:0:0:1::1");
}

#[test]
fn test_skip_dns_name_simple() {
    let data = [
        7, b'e', b'x', b'a', b'm', b'p', b'l', b'e', 3, b'c', b'o', b'm', 0,
    ];
    let result = skip_dns_name(&data, 0);
    assert!(result.is_ok());
    assert_eq!(result.unwrap(), 13);
}

#[test]
fn test_skip_dns_name_compressed() {
    // Two bytes: compression pointer to somewhere
    let data = [0xc0, 0x0c];
    let result = skip_dns_name(&data, 0);
    assert!(result.is_ok());
    assert_eq!(result.unwrap(), 2);
}

#[test]
fn test_skip_dns_name_truncated() {
    let data = [7, b'e', b'x']; // truncated label
    let result = skip_dns_name(&data, 0);
    assert!(result.is_err());
}

#[test]
fn test_decode_dns_name_simple() {
    let data = [
        7, b'e', b'x', b'a', b'm', b'p', b'l', b'e', 3, b'c', b'o', b'm', 0,
    ];
    let result = decode_dns_name(&data, 0);
    assert!(result.is_some());
    let (name, offset) = result.unwrap();
    assert_eq!(name, "example.com");
    assert_eq!(offset, 13);
}

#[test]
fn test_decode_dns_name_compressed() {
    // Build message: question "example.com" + compressed pointer to it
    let mut msg = vec![
        0, 0, // dummy header bytes (not parsed by decode_dns_name)
        0, 0, 0, 0, 0, 0, 0, 0, 0, 0,
        7, b'e', b'x', b'a', b'm', b'p', b'l', b'e', 3, b'c', b'o', b'm', 0, // name at offset 12
    ];
    // Compressed pointer at offset 25, pointing to offset 12
    msg.push(0xc0);
    msg.push(0x0c);

    let result = decode_dns_name(&msg, 25);
    assert!(result.is_some(), "compressed name should decode");
    let (name, offset) = result.unwrap();
    assert_eq!(name, "example.com");
    assert_eq!(offset, 27);
}

#[test]
fn test_decode_dns_name_truncated() {
    let data = [7, b'e', b'x']; // incomplete
    let result = decode_dns_name(&data, 0);
    assert!(result.is_none());
}

fn build_header(ancount: u16) -> Vec<u8> {
    let mut h = Vec::with_capacity(12);
    h.extend_from_slice(&[0x00, 0x01]); // ID
    h.extend_from_slice(&[0x81, 0x80]); // Flags (QR=1, RA=1, RD=1, RCODE=0)
    h.extend_from_slice(&[0x00, 0x01]); // QDCOUNT = 1
    h.extend_from_slice(&ancount.to_be_bytes()); // ANCOUNT
    h.extend_from_slice(&[0x00, 0x00]); // NSCOUNT
    h.extend_from_slice(&[0x00, 0x00]); // ARCOUNT
    h
}

fn question_bytes(name: &str, qtype: u16) -> Vec<u8> {
    let mut q = Vec::new();
    encode_dns_name(name, &mut q).unwrap();
    q.extend_from_slice(&qtype.to_be_bytes()); // QTYPE
    q.extend_from_slice(&[0x00, 0x01]); // QCLASS = IN
    q
}

#[test]
fn test_parse_a_record() {
    let mut resp = build_header(1);
    resp.extend_from_slice(&question_bytes("example.com", TYPE_A));
    // Answer: compressed name, type A, class IN, TTL 60, rdata 4 bytes
    resp.extend_from_slice(&[0xc0, 0x0c]); // NAME pointer (offset 12 = question name)
    resp.extend_from_slice(&[0x00, 0x01]); // TYPE A
    resp.extend_from_slice(&[0x00, 0x01]); // CLASS IN
    resp.extend_from_slice(&[0x00, 0x00, 0x00, 0x3c]); // TTL 60
    resp.extend_from_slice(&[0x00, 0x04]); // RDLENGTH = 4
    resp.extend_from_slice(&[192, 168, 1, 1]); // 192.168.1.1

    let records = parse_dns_response(&resp, "example.com", TYPE_A).unwrap();
    assert_eq!(records.len(), 1);
    assert_eq!(records[0].name, "example.com");
    assert_eq!(records[0].record_type, "A");
    assert_eq!(records[0].value, "192.168.1.1");
    assert_eq!(records[0].ttl, 60);
}

#[test]
fn test_parse_aaaa_record() {
    let mut resp = build_header(1);
    resp.extend_from_slice(&question_bytes("example.com", TYPE_AAAA));
    // Answer
    resp.extend_from_slice(&[0xc0, 0x0c]);
    resp.extend_from_slice(&[0x00, 0x1c]); // TYPE AAAA
    resp.extend_from_slice(&[0x00, 0x01]); // CLASS IN
    resp.extend_from_slice(&[0x00, 0x00, 0x00, 0x3c]); // TTL 60
    resp.extend_from_slice(&[0x00, 0x10]); // RDLENGTH = 16
    // fe80::1 in wire format
    resp.extend_from_slice(&[
        0xfe, 0x80, 0x00, 0x00, 0x00, 0x00, 0x00, 0x00,
        0x00, 0x00, 0x00, 0x00, 0x00, 0x00, 0x00, 0x01,
    ]);

    let records = parse_dns_response(&resp, "example.com", TYPE_AAAA).unwrap();
    assert_eq!(records.len(), 1);
    assert_eq!(records[0].record_type, "AAAA");
    assert_eq!(
        records[0].value, "fe80::1",
        "BUG: expected 'fe80::1' but got '{}' (ipv6 compress bug with trailing zeros)",
        records[0].value
    );
}

#[test]
fn test_parse_aaaa_ff00_segment() {
    let mut resp = build_header(1);
    resp.extend_from_slice(&question_bytes("example.com", TYPE_AAAA));
    resp.extend_from_slice(&[0xc0, 0x0c]);
    resp.extend_from_slice(&[0x00, 0x1c]); // TYPE AAAA
    resp.extend_from_slice(&[0x00, 0x01]);
    resp.extend_from_slice(&[0x00, 0x00, 0x00, 0x3c]); // TTL 60
    resp.extend_from_slice(&[0x00, 0x10]); // RDLENGTH = 16
    // 2001:db8::ff00:42:8329
    resp.extend_from_slice(&[
        0x20, 0x01, 0x0d, 0xb8, 0x00, 0x00, 0x00, 0x00,
        0x00, 0x00, 0xff, 0x00, 0x00, 0x42, 0x83, 0x29,
    ]);

    let records = parse_dns_response(&resp, "example.com", TYPE_AAAA).unwrap();
    assert_eq!(records.len(), 1);
    assert_eq!(records[0].record_type, "AAAA");
    assert!(
        records[0].value.contains("ff00"),
        "BUG: ff00 segment corrupted: value = '{}'",
        records[0].value
    );
    assert_eq!(records[0].value, "2001:db8::ff00:42:8329");
}

#[test]
fn test_parse_soa_record_contains_minimum() {
    let mut resp = build_header(1);
    resp.extend_from_slice(&question_bytes("example.com", TYPE_SOA));

    // Answer: SOA record
    resp.extend_from_slice(&[0xc0, 0x0c]); // NAME pointer
    resp.extend_from_slice(&[0x00, 0x06]); // TYPE SOA
    resp.extend_from_slice(&[0x00, 0x01]); // CLASS IN
    resp.extend_from_slice(&[0x00, 0x00, 0x00, 0x3c]); // TTL 60

    // SOA RDATA
    // MNAME: "ns1.example.com"  →  3 ns1 7 example 3 com 0  =  17 bytes
    // RNAME: "host.example.com" →  4 host 7 example 3 com 0  =  18 bytes
    let mname: &[u8] = &[3, b'n', b's', b'1', 7, b'e', b'x', b'a', b'm', b'p', b'l', b'e', 3, b'c', b'o', b'm', 0];
    let rname: &[u8] = &[4, b'h', b'o', b's', b't', 7, b'e', b'x', b'a', b'm', b'p', b'l', b'e', 3, b'c', b'o', b'm', 0];
    let rdata_len: u16 = (mname.len() + rname.len() + 20) as u16; // + 5 × 4-byte integers

    resp.extend_from_slice(&rdata_len.to_be_bytes());
    resp.extend_from_slice(mname);
    resp.extend_from_slice(rname);
    // serial = 20240101
    resp.extend_from_slice(&20240101u32.to_be_bytes());
    // refresh = 3600
    resp.extend_from_slice(&3600u32.to_be_bytes());
    // retry = 600
    resp.extend_from_slice(&600u32.to_be_bytes());
    // expire = 86400
    resp.extend_from_slice(&86400u32.to_be_bytes());
    // minimum = 300  ←  THIS WAS PREVIOUSLY DROPPED
    resp.extend_from_slice(&300u32.to_be_bytes());

    let records = parse_dns_response(&resp, "example.com", TYPE_SOA).unwrap();
    assert_eq!(records.len(), 1);
    assert_eq!(records[0].record_type, "SOA");

    let value = &records[0].value;
    assert!(value.contains("ns1.example.com"), "SOA missing mname: {}", value);
    assert!(value.contains("host.example.com"), "SOA missing rname: {}", value);
    assert!(value.contains("20240101"), "SOA missing serial: {}", value);
    assert!(value.contains("3600"), "SOA missing refresh: {}", value);
    assert!(value.contains("600"), "SOA missing retry: {}", value);
    assert!(value.contains("86400"), "SOA missing expire: {}", value);
    assert!(
        value.contains("300"),
        "BUG: SOA value '{}' is missing the 'minimum' TTL field (300)",
        value
    );
}

#[test]
fn test_parse_cname_record() {
    let mut resp = build_header(1);
    resp.extend_from_slice(&question_bytes("www.example.com", TYPE_CNAME));

    // Answer: CNAME record
    resp.extend_from_slice(&[0xc0, 0x0c]); // NAME pointer
    resp.extend_from_slice(&[0x00, 0x05]); // TYPE CNAME
    resp.extend_from_slice(&[0x00, 0x01]); // CLASS IN
    resp.extend_from_slice(&[0x00, 0x00, 0x00, 0x3c]); // TTL 60

    // RDATA: "target.example.com" (compressed — pointer to "example.com" at offset 16)
    let target_name: &[u8] = &[6, b't', b'a', b'r', b'g', b'e', b't', 0xc0, 0x10];
    let rdata_len: u16 = target_name.len() as u16;
    resp.extend_from_slice(&rdata_len.to_be_bytes());
    resp.extend_from_slice(target_name);

    let records = parse_dns_response(&resp, "www.example.com", TYPE_CNAME).unwrap();
    assert_eq!(records.len(), 1);
    assert_eq!(records[0].record_type, "CNAME");
    assert_eq!(records[0].value, "target.example.com");
}

#[test]
fn test_parse_mx_record() {
    let mut resp = build_header(1);
    resp.extend_from_slice(&question_bytes("example.com", TYPE_MX));

    resp.extend_from_slice(&[0xc0, 0x0c]);
    resp.extend_from_slice(&[0x00, 0x0f]); // TYPE MX
    resp.extend_from_slice(&[0x00, 0x01]);
    resp.extend_from_slice(&[0x00, 0x00, 0x00, 0x3c]); // TTL 60

    // RDATA: preference 10, exchange "mail.example.com"
    let exchange: &[u8] = &[4, b'm', b'a', b'i', b'l', 0xc0, 0x0c];
    let rdata_len: u16 = (2 + exchange.len()) as u16;
    resp.extend_from_slice(&rdata_len.to_be_bytes());
    resp.extend_from_slice(&[0x00, 0x0a]); // preference = 10
    resp.extend_from_slice(exchange);

    let records = parse_dns_response(&resp, "example.com", TYPE_MX).unwrap();
    assert_eq!(records.len(), 1);
    assert_eq!(records[0].record_type, "MX");
    assert_eq!(records[0].value, "10 mail.example.com");
}

#[test]
fn test_parse_ns_record() {
    let mut resp = build_header(1);
    resp.extend_from_slice(&question_bytes("example.com", TYPE_NS));

    resp.extend_from_slice(&[0xc0, 0x0c]);
    resp.extend_from_slice(&[0x00, 0x02]); // TYPE NS
    resp.extend_from_slice(&[0x00, 0x01]);
    resp.extend_from_slice(&[0x00, 0x00, 0x00, 0x3c]); // TTL 60

    // RDATA: "ns1.example.com"
    let ns: &[u8] = &[3, b'n', b's', b'1', 0xc0, 0x0c];
    let rdata_len: u16 = ns.len() as u16;
    resp.extend_from_slice(&rdata_len.to_be_bytes());
    resp.extend_from_slice(ns);

    let records = parse_dns_response(&resp, "example.com", TYPE_NS).unwrap();
    assert_eq!(records.len(), 1);
    assert_eq!(records[0].record_type, "NS");
    assert_eq!(records[0].value, "ns1.example.com");
}

#[test]
fn test_parse_txt_record() {
    let mut resp = build_header(1);
    resp.extend_from_slice(&question_bytes("example.com", TYPE_TXT));

    resp.extend_from_slice(&[0xc0, 0x0c]);
    resp.extend_from_slice(&[0x00, 0x10]); // TYPE TXT
    resp.extend_from_slice(&[0x00, 0x01]);
    resp.extend_from_slice(&[0x00, 0x00, 0x00, 0x3c]); // TTL 60

    // RDATA: TXT char-string "hello=world"
    let txt_data = b"hello=world";
    let rdata: Vec<u8> = {
        let mut v = Vec::new();
        v.push(txt_data.len() as u8);
        v.extend_from_slice(txt_data);
        v
    };
    let rdata_len: u16 = rdata.len() as u16;
    resp.extend_from_slice(&rdata_len.to_be_bytes());
    resp.extend_from_slice(&rdata);

    let records = parse_dns_response(&resp, "example.com", TYPE_TXT).unwrap();
    assert_eq!(records.len(), 1);
    assert_eq!(records[0].record_type, "TXT");
    assert_eq!(records[0].value, "hello=world");
}

#[test]
fn test_parse_response_too_short() {
    let result = parse_dns_response(&[0u8; 6], "example.com", TYPE_A);
    assert!(result.is_err());
    assert!(result.unwrap_err().contains("too short"));
}

#[test]
fn test_parse_response_nxdomain() {
    let mut resp = vec![0u8; 12];
    resp[2] = 0x81; // QR=1, RD=1
    resp[3] = 0x83; // RA=1, RCODE=3 (NXDOMAIN)
    let result = parse_dns_response(&resp, "example.com", TYPE_A);
    assert!(result.is_err());
    assert!(result.unwrap_err().contains("NXDOMAIN"));
}

#[test]
fn test_qtype_roundtrip() {
    // Verify that every RecordType variant maps to a string
    // that matches what parse_dns_response produces.
    let cases = vec![
        (RecordType::A, "A"),
        (RecordType::Aaaa, "AAAA"),
        (RecordType::Cname, "CNAME"),
        (RecordType::Mx, "MX"),
        (RecordType::Ns, "NS"),
        (RecordType::Soa, "SOA"),
        (RecordType::Txt, "TXT"),
    ];
    for (rt, expected_name) in cases {
        let qtypes = get_qtypes(&rt);
        for qt in qtypes {
            assert_eq!(qtype_to_string(qt), expected_name);
        }
    }
}

#[test]
fn name_walk_checks() {
    use_name_walk_checks();
}

fn use_name_walk_checks() {
    // a pointer to itself never ends
    assert!(!azurepath::dns::dns_name_walk_ends(&[0xc0, 0x00], 0));
    // two pointers to each other never end
    assert!(!azurepath::dns::dns_name_walk_ends(&[0xc0, 0x02, 0xc0, 0x00], 0));
    // an ordinary name ends, and so does a truncated one
    assert!(azurepath::dns::dns_name_walk_ends(&[3, b'c', b'o', b'm', 0], 0));
    assert!(azurepath::dns::dns_name_walk_ends(&[3, b'c', b'o'], 0));
    // a record whose owner name loops
    assert!(!azurepath::dns::dns_record_walk_ends(&[0xc0, 0x00, 0, 1, 0, 1, 0, 0, 0, 0, 0, 0], 0));
    // responses: too short, an error code, and one whose answer name loops
    assert!(azurepath::dns::dns_response_walk_ends(&[0u8; 6], 1));
    assert!(azurepath::dns::dns_response_walk_ends(&[0, 0, 0x81, 0x83, 0, 0, 0, 0, 0, 0, 0, 0], 1));
    let looping: Vec<u8> = vec![
        0, 1, 0x81, 0x80, 0, 1, 0, 1, 0, 0, 0, 0, // header: one question, one answer
        0, 0, 1, 0, 1, // question: root name, type A, class IN
        0xc0, 17, 0, 1, 0, 1, 0, 0, 0, 0, 0, 0, // answer whose name points at itself
    ];
    assert!(!azurepath::dns::dns_response_walk_ends(&looping, 1));
}

#[test]
fn compressed_ipv6_is_the_same_address() {
    for ip in [
        "2001:0db8:0000:0000:0000:0000:0000:0001",
        "0000:0000:0000:0000:0000:0000:0000:0000",
        "fe80:0000:0000:0000:0202:b3ff:fe1e:8329",
        "0001:0000:0002:0000:0000:0003:0000:0000",
        "abcd:ef01:2345:6789:abcd:ef01:2345:6789",
    ] {
        let c = azurepath::dns::compress_ipv6(ip);
        assert_eq!(azurepath::ipaddr::parse_ip_addr(&c), azurepath::ipaddr::parse_ip_addr(ip), "{ip} -> {c}");
        assert!(azurepath::ipaddr::parse_ip_addr(&c).is_some());
        assert!(c.matches("::").count() <= 1);
    }
}
