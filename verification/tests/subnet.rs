use azurepath::ipaddr::{format_ipv6, parse_ip_addr, IpValue};
use azurepath::subnet::ipv4_to_string;
use azurepath::subnet::{calculate_v4, calculate_v6, classify_ipv4, classify_ipv6, parse_cidr_v4, parse_cidr_v6, split_subnet};

#[test]
fn test_parse_cidr_v4_slash24() {
    let (ip, prefix) = parse_cidr_v4("192.168.1.0/24").unwrap();
    assert_eq!(ip, 0xC0A8_0100);
    assert_eq!(prefix, 24);
}

#[test]
fn test_parse_cidr_v4_slash32() {
    let (ip, prefix) = parse_cidr_v4("192.168.1.42/32").unwrap();
    assert_eq!(ip, 0xC0A8_012A);
    assert_eq!(prefix, 32);
}

#[test]
fn test_parse_cidr_v4_slash31() {
    let (ip, prefix) = parse_cidr_v4("10.0.0.0/31").unwrap();
    assert_eq!(ip, 0x0A00_0000);
    assert_eq!(prefix, 31);
}

#[test]
fn test_parse_cidr_v4_slash16() {
    let (ip, prefix) = parse_cidr_v4("192.168.0.0/16").unwrap();
    assert_eq!(ip, 0xC0A8_0000);
    assert_eq!(prefix, 16);
}

#[test]
fn test_parse_cidr_v4_single_ip() {
    let (ip, prefix) = parse_cidr_v4("192.168.1.1").unwrap();
    assert_eq!(ip, 0xC0A8_0101);
    assert_eq!(prefix, 32);
}

#[test]
fn test_parse_cidr_v4_slash0_rejected() {
    let result = parse_cidr_v4("0.0.0.0/0");
    assert!(result.is_err());
    assert!(result.unwrap_err().contains("too large"));
}

#[test]
fn test_parse_cidr_v4_invalid_ip() {
    let result = parse_cidr_v4("not_an_ip/24");
    assert!(result.is_err());
}

#[test]
fn test_parse_cidr_v4_prefix_too_large() {
    let result = parse_cidr_v4("192.168.1.0/33");
    assert!(result.is_err());
}

#[test]
fn test_parse_cidr_v4_slash15_rejected() {
    let result = parse_cidr_v4("10.0.0.0/15");
    assert!(result.is_err());
}

#[test]
fn test_parse_cidr_v6_slash64() {
    let (ip, prefix) = parse_cidr_v6("2001:db8::/64").unwrap();
    assert!(ip > 0);
    assert_eq!(prefix, 64);
}

#[test]
fn test_parse_cidr_v6_slash32() {
    let (ip, prefix) = parse_cidr_v6("2001:db8::/32").unwrap();
    assert!(ip > 0);
    assert_eq!(prefix, 32);
}

#[test]
fn test_parse_cidr_v6_slash128() {
    let (ip, prefix) = parse_cidr_v6("::1/128").unwrap();
    assert_eq!(ip, 1);
    assert_eq!(prefix, 128);
}

#[test]
fn test_parse_cidr_v6_loopback() {
    let (ip, prefix) = parse_cidr_v6("::1").unwrap();
    assert_eq!(ip, 1);
    assert_eq!(prefix, 128);
}

#[test]
fn test_parse_cidr_v6_link_local() {
    let (ip, prefix) = parse_cidr_v6("fe80::1/64").unwrap();
    assert!(ip > 0);
    assert_eq!(prefix, 64);
}

#[test]
fn test_parse_cidr_v6_prefix_too_large() {
    let result = parse_cidr_v6("::1/129");
    assert!(result.is_err());
}

#[test]
fn test_classify_ipv4_private_10() {
    let c = classify_ipv4(0x0A00_0001);
    assert!(c.is_private);
    assert!(!c.is_loopback);
    assert!(!c.is_public);
    assert!(!c.is_multicast);
    assert!(c.description.contains("私有"));
}

#[test]
fn test_classify_ipv4_private_172() {
    let c = classify_ipv4(0xAC10_0001);
    assert!(c.is_private);
}

#[test]
fn test_classify_ipv4_private_192() {
    let c = classify_ipv4(0xC0A8_0001);
    assert!(c.is_private);
}

#[test]
fn test_classify_ipv4_loopback() {
    let c = classify_ipv4(0x7F00_0001);
    assert!(c.is_loopback);
    assert!(!c.is_private);
    assert!(c.description.contains("环回"));
}

#[test]
fn test_classify_ipv4_public() {
    let c = classify_ipv4(0x0808_0808);
    assert!(c.is_public);
    assert!(!c.is_private);
    assert!(!c.is_loopback);
    assert!(c.description.contains("公网"));
}

#[test]
fn test_classify_ipv4_multicast() {
    let c = classify_ipv4(0xE000_0001);
    assert!(c.is_multicast);
}

#[test]
fn test_classify_ipv4_link_local() {
    let c = classify_ipv4(0xA9FE_0001);
    assert!(c.is_link_local);
}

#[test]
fn test_classify_ipv6_ula() {
    let ip = u128::from_str_radix("fc001234567890000000000000000000", 16).unwrap();
    let c = classify_ipv6(ip);
    assert!(c.is_private);
    assert!(c.description.contains("ULA"));
}

#[test]
fn test_classify_ipv6_link_local() {
    let ip = u128::from_str_radix("fe800000000000000000000000000000", 16).unwrap();
    let c = classify_ipv6(ip);
    assert!(c.is_link_local);
    assert!(c.description.contains("链路本地"));
}

#[test]
fn test_classify_ipv6_multicast() {
    let ip = u128::from_str_radix("ff000000000000000000000000000000", 16).unwrap();
    let c = classify_ipv6(ip);
    assert!(c.is_multicast);
    assert!(c.description.contains("多播"));
}

#[test]
fn test_classify_ipv6_loopback() {
    let c = classify_ipv6(1);
    assert!(c.is_loopback);
    assert!(c.description.contains("环回"));
}

#[test]
fn test_classify_ipv6_global_unicast() {
    let ip = u128::from_str_radix("20010000000000000000000000000000", 16).unwrap();
    let c = classify_ipv6(ip);
    assert!(c.is_public);
    assert!(c.description.contains("公网"));
}

#[test]
fn test_calculate_v4_24() {
    let r = calculate_v4("192.168.1.0", 24).unwrap();
    assert_eq!(r.network_address, "192.168.1.0");
    assert_eq!(r.broadcast_address, "192.168.1.255");
    assert_eq!(r.subnet_mask, "255.255.255.0");
    assert_eq!(r.wildcard_mask, "0.0.0.255");
    assert_eq!(r.usable_hosts, 254);
    assert!(r.ip_range.contains("192.168.1.1"));
    assert!(r.ip_range.contains("192.168.1.254"));
    assert_eq!(r.ip_version, "IPv4");
    assert!(r.classification.is_private);
}

#[test]
fn test_calculate_v4_16() {
    let r = calculate_v4("192.168.0.0", 16).unwrap();
    assert_eq!(r.network_address, "192.168.0.0");
    assert_eq!(r.broadcast_address, "192.168.255.255");
    assert_eq!(r.usable_hosts, 65534);
}

#[test]
fn test_calculate_v4_32() {
    let r = calculate_v4("192.168.1.42", 32).unwrap();
    assert_eq!(r.network_address, "192.168.1.42");
    assert_eq!(r.broadcast_address, ""); // no broadcast for /32
    assert_eq!(r.usable_hosts, 1);
}

#[test]
fn test_calculate_v4_31() {
    let r = calculate_v4("10.0.0.0", 31).unwrap();
    assert_eq!(r.network_address, "10.0.0.0");
    assert_eq!(r.broadcast_address, ""); // no broadcast for /31
    assert_eq!(r.usable_hosts, 2);
}

#[test]
fn test_calculate_v4_public() {
    let r = calculate_v4("8.8.8.8", 24).unwrap();
    assert!(r.classification.is_public);
}

#[test]
fn test_calculate_v6_basic() {
    let r = calculate_v6("2001:db8::", 32).unwrap();
    assert_eq!(r.network_address, "2001:db8::");
    assert_eq!(r.broadcast_address, ""); // IPv6 has no broadcast
    assert_eq!(r.usable_hosts, u64::MAX); // /32 is huge, capped
    assert_eq!(r.ip_version, "IPv6");
    assert!(r.classification.is_public);
}

#[test]
fn test_calculate_v6_64() {
    let r = calculate_v6("2001:db8::", 64).unwrap();
    assert_eq!(r.usable_hosts, u64::MAX); // /64 capped
}

#[test]
fn test_calculate_v6_120() {
    let r = calculate_v6("2001:db8::", 120).unwrap();
    assert_eq!(r.usable_hosts, 256); // 2^8 = 256
}

#[test]
fn test_calculate_v6_link_local() {
    let r = calculate_v6("fe80::1", 64).unwrap();
    assert!(r.classification.is_link_local);
    assert!(r.classification.description.contains("链路本地"));
}

#[test]
fn test_split_subnet_v4_24_to_26() {
    let r = split_subnet("192.168.1.0/24", 26).unwrap();
    assert_eq!(r.subnets.len(), 4);
    assert_eq!(r.total_usable, 248); // 4 * 62

    // Verify non-overlap
    let ranges: Vec<(u32, u32)> = r
        .subnets
        .iter()
        .map(|s| {
            let network = parse_ipv4(&s.network_address);
            let host_bits = 32 - s.cidr;
            let last = network | !(!0u32 << host_bits);
            (network, last)
        })
        .collect();

    for i in 0..ranges.len() {
        for j in (i + 1)..ranges.len() {
            assert!(
                ranges[i].1 < ranges[j].0 || ranges[j].1 < ranges[i].0,
                "Subnets {} and {} overlap",
                r.subnets[i].network_address,
                r.subnets[j].network_address
            );
        }
    }

    // Verify first subnet
    assert_eq!(r.subnets[0].network_address, "192.168.1.0");
    assert_eq!(r.subnets[0].usable_hosts, 62);
    assert_eq!(r.subnets[1].network_address, "192.168.1.64");
    assert_eq!(r.subnets[2].network_address, "192.168.1.128");
    assert_eq!(r.subnets[3].network_address, "192.168.1.192");
}

#[test]
fn test_split_subnet_v4_target_less_than_prefix() {
    let result = split_subnet("192.168.1.0/24", 16);
    assert!(result.is_err());
}

#[test]
fn test_split_subnet_v4_invalid_target() {
    let result = split_subnet("192.168.1.0/24", 33);
    assert!(result.is_err());
}

#[test]
fn test_split_subnet_v6_basic() {
    let r = split_subnet("2001:db8::/32", 36).unwrap();
    assert_eq!(r.subnets.len(), 16); // 2^(36-32) = 16
}

fn parse_ipv4(s: &str) -> u32 {
    let parts: Vec<u8> = s
        .split('.')
        .map(|p| p.parse().unwrap())
        .collect();
    u32::from_be_bytes([parts[0], parts[1], parts[2], parts[3]])
}

#[test]
fn ipv4_text_reads_back_as_the_address() {
    for ip in [0u32, 1, 255, 256, 0x0a00_0001, 0xc0a8_0164, 0x7f00_0001, 0xffff_ffff, 0x0102_0304] {
        let text = ipv4_to_string(ip);
        assert_eq!(parse_ip_addr(&text), Some(IpValue::V4(ip)));
    }
    assert_eq!(ipv4_to_string(0xc0a8_0164), "192.168.1.100");
}

#[test]
fn ipv6_display_reads_back_as_the_address() {
    let samples: [u128; 7] = [
        0,
        1,
        0x2001_0db8_0000_0000_0000_0000_0000_0001,
        0x0000_0000_0000_0000_0000_ffff_0102_0304,
        0x0001_0002_0003_0004_0005_0006_0007_0008,
        0xfe80_0000_0000_0000_0202_b3ff_fe1e_8329,
        u128::MAX,
    ];
    for v in samples {
        let text = format_ipv6(v);
        assert_eq!(parse_ip_addr(&text), Some(IpValue::V6(v)));
    }
    assert_eq!(format_ipv6(0x2001_0db8_0000_0000_0000_0000_0000_0001), "2001:db8::1");
    assert_eq!(format_ipv6(0x0000_0000_0000_0000_0000_ffff_0102_0304), "::ffff:1.2.3.4");
}
