use azurepath::mdns::{
    build_mdns_ptrs_query, build_services, extract_hostname_from_instance, extract_service_type,
    extract_service_types, parse_all_records, parse_all_services, query_types, service_types,
    skip_question_section, trim_local_suffix,
};

fn name(labels: &[&str]) -> Vec<u8> {
    let mut v = Vec::new();
    for l in labels {
        v.push(l.len() as u8);
        v.extend_from_slice(l.as_bytes());
    }
    v.push(0);
    v
}

fn record(owner: &[u8], rtype: u16, rdata: &[u8]) -> Vec<u8> {
    let mut v = owner.to_vec();
    v.extend_from_slice(&rtype.to_be_bytes());
    v.extend_from_slice(&[0x00, 0x01]); // class IN
    v.extend_from_slice(&[0, 0, 0x11, 0x94]); // ttl
    v.extend_from_slice(&(rdata.len() as u16).to_be_bytes());
    v.extend_from_slice(rdata);
    v
}

fn header(qd: u16, an: u16, ns: u16, ar: u16) -> Vec<u8> {
    let mut v = vec![0, 0, 0x84, 0x00];
    for n in [qd, an, ns, ar] {
        v.extend_from_slice(&n.to_be_bytes());
    }
    v
}

#[test]
fn query_for_service_enumeration() {
    let q = build_mdns_ptrs_query("_services._dns-sd._udp.local").unwrap();
    let mut expected = vec![0, 0, 0, 0, 0, 1, 0, 0, 0, 0, 0, 0];
    expected.extend(name(&["_services", "_dns-sd", "_udp", "local"]));
    expected.extend_from_slice(&[0, 12, 0x80, 0x01]);
    assert_eq!(q, expected);
}

#[test]
fn query_errors() {
    assert_eq!(build_mdns_ptrs_query("").unwrap_err(), "Domain name cannot be empty");
    let long = "a".repeat(64);
    let err = build_mdns_ptrs_query(&format!("{}.local", long)).unwrap_err();
    assert!(err.contains("exceeds maximum DNS label length of 63 characters"));
}

#[test]
fn skip_questions_counts_from_header() {
    let mut msg = header(2, 0, 0, 0);
    msg.extend(name(&["a", "local"]));
    msg.extend_from_slice(&[0, 12, 0, 1]);
    msg.extend_from_slice(&[0xc0, 12]);
    msg.extend_from_slice(&[0, 12, 0, 1]);
    let end = msg.len();
    assert_eq!(skip_question_section(&msg, 12).unwrap(), end);
    let mut short = header(1, 0, 0, 0);
    short.push(5);
    assert!(skip_question_section(&short, 12).is_err());
}

#[test]
fn service_type_helpers() {
    assert_eq!(extract_service_type("_http._tcp.local"), "_http._tcp");
    assert_eq!(extract_service_type("printer.local"), "printer.local");
    assert_eq!(extract_hostname_from_instance("My Printer._ipp._tcp.local"), "My Printer");
    assert_eq!(trim_local_suffix("host.local"), "host");
    assert_eq!(trim_local_suffix("host.local.local"), "host");
    assert_eq!(trim_local_suffix("host"), "host");
}

#[test]
fn enumeration_types_deduplicated() {
    let services = name(&["_services", "_dns-sd", "_udp", "local"]);
    let mut msg = header(0, 3, 0, 0);
    msg.extend(record(&services, 12, &name(&["_http", "_tcp", "local"])));
    msg.extend(record(&services, 12, &name(&["_ssh", "_tcp", "local"])));
    msg.extend(record(&services, 12, &name(&["_http", "_tcp", "local"])));
    let types = extract_service_types(&[msg, vec![1, 2, 3]]);
    assert_eq!(types, vec!["_http._tcp".to_string(), "_ssh._tcp".to_string()]);
}

#[test]
fn enumeration_skips_non_underscore_types() {
    let services = name(&["_services", "_dns-sd", "_udp", "local"]);
    let mut msg = header(0, 2, 0, 0);
    msg.extend(record(&services, 12, &name(&["plain", "_tcp", "local"])));
    msg.extend(record(&services, 12, &name(&["local"])));
    assert!(extract_service_types(&[msg]).is_empty());
}

fn printer_response() -> Vec<u8> {
    let service = name(&["_http", "_tcp", "local"]);
    let instance = name(&["Printer", "_http", "_tcp", "local"]);
    let host = name(&["printer", "local"]);
    let mut msg = header(0, 1, 0, 3);
    msg.extend(record(&service, 12, &instance));
    let mut srv = vec![0, 0, 0, 0, 0x1f, 0x90];
    srv.extend(&host);
    msg.extend(record(&instance, 33, &srv));
    msg.extend(record(&host, 1, &[192, 168, 1, 40]));
    let mut txt = vec![];
    for s in ["path=/index", "ready", "path=/other"] {
        txt.push(s.len() as u8);
        txt.extend_from_slice(s.as_bytes());
    }
    msg.extend(record(&instance, 16, &txt));
    msg
}

#[test]
fn services_joined_from_records() {
    let services = parse_all_services(&[printer_response()]);
    assert_eq!(services.len(), 1);
    let s = &services[0];
    assert_eq!(s.service_type, "_http._tcp");
    assert_eq!(s.hostname, "printer");
    assert_eq!(s.ip, "192.168.1.40");
    assert_eq!(s.port, 8080);
    let mut txt = s.txt.clone();
    txt.sort();
    assert_eq!(
        txt,
        vec![("path".to_string(), "/other".to_string()), ("ready".to_string(), String::new())]
    );
}

#[test]
fn repeated_response_is_deduplicated() {
    let services = parse_all_services(&[printer_response(), printer_response()]);
    assert_eq!(services.len(), 1);
}

#[test]
fn service_without_srv_uses_instance() {
    let service = name(&["_ssh", "_tcp", "local"]);
    let instance = name(&["box", "local"]);
    let mut msg = header(0, 2, 0, 0);
    msg.extend(record(&service, 12, &instance));
    msg.extend(record(&name(&["box", "local"]), 28, &[0xfe, 0x80, 0, 0, 0, 0, 0, 0, 0, 0, 0, 0, 0, 0, 0, 1]));
    let services = parse_all_services(&[msg]);
    assert_eq!(services.len(), 1);
    assert_eq!(services[0].hostname, "box");
    assert_eq!(services[0].port, 0);
    assert_eq!(services[0].ip, "fe80::1");
    assert!(services[0].txt.is_empty());
}

#[test]
fn compressed_names_are_followed() {
    // PTR owner at offset 12, the instance refers back to it
    let mut msg = header(0, 1, 0, 0);
    let owner = name(&["_vnc", "_tcp", "local"]);
    let mut rdata = vec![3];
    rdata.extend_from_slice(b"pc1");
    rdata.extend_from_slice(&[0xc0, 12]);
    msg.extend(record(&owner, 12, &rdata));
    let recs = parse_all_records(&[msg]);
    let services = build_services(&recs);
    assert_eq!(services.len(), 1);
    assert_eq!(services[0].service_type, "_vnc._tcp");
    assert_eq!(services[0].hostname, "pc1._vnc._tcp");
}

#[test]
fn short_and_truncated_responses_add_nothing() {
    let mut truncated = header(0, 1, 0, 0);
    truncated.extend(name(&["_http", "_tcp", "local"]));
    truncated.extend_from_slice(&[0, 12, 0, 1]);
    assert!(parse_all_services(&[vec![0; 5], truncated]).is_empty());
}

#[test]
fn known_types_are_always_queried() {
    assert_eq!(service_types().len(), 9);
    assert_eq!(query_types(&vec!["_http._tcp".to_string(), "_other._udp".to_string()]), service_types());
}

#[test]
fn mdns_walk_checks() {
    // a response with one answer whose name points at itself
    let looping: Vec<u8> = vec![
        0, 0, 0x84, 0, 0, 0, 0, 1, 0, 0, 0, 0, // header: no question, one answer
        0xc0, 12, 0, 12, 0, 1, 0, 0, 0, 0, 0, 0, // answer whose name points at itself
    ];
    let fine: Vec<u8> = vec![0, 0, 0x84, 0, 0, 0, 0, 0, 0, 0, 0, 0];
    assert!(!azurepath::mdns::mdns_response_walk_ends(&looping));
    assert!(azurepath::mdns::mdns_response_walk_ends(&fine));
    assert!(!azurepath::mdns::mdns_responses_walk_end(&[fine.clone(), looping.clone()]));
    assert!(azurepath::mdns::mdns_responses_walk_end(&[fine.clone()]));
    assert!(!azurepath::mdns::mdns_types_walk_end(&[looping]));
    assert!(azurepath::mdns::mdns_types_walk_end(&[fine]));
}
