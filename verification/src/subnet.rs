//! IPv4 and IPv6 subnet arithmetic: address classification, network and
//! broadcast addresses, masks, host counts, and splitting a network into
//! equal subnets.
use vstd::prelude::*;
use vstd::string::*;
use vstd::arithmetic::power2::{pow2, lemma2_to64, lemma_pow2_adds};
use vstd::bits::{lemma_u32_pow2_no_overflow, lemma_u32_shl_is_mul, lemma_u64_pow2_no_overflow, lemma_u64_shl_is_mul};
use crate::ipaddr::{format_ipv6, ip_of_text, ipv6_display, parse_ip_addr, IpValue};
use crate::text::{decimal, find_char, find_char_exec, parse_uint, parse_uint_range, push_decimal, push_decimal_wide, push_str, str_chars, string_from_range};

verus! {

/// What the address classifier says about an address.
#[derive(Clone, Debug)]
pub struct IpClassification {
    pub is_private: bool,
    pub is_loopback: bool,
    pub is_link_local: bool,
    pub is_multicast: bool,
    pub is_public: bool,
    pub description: String,
}

/// Mathematical form of a classification.
pub type ClassView = (bool, bool, bool, bool, bool, Seq<char>);

impl IpClassification {
    pub open spec fn view(&self) -> ClassView {
        (self.is_private, self.is_loopback, self.is_link_local, self.is_multicast, self.is_public, self.description@)
    }
}

/// A classification with exactly one flag of the five set (or none).
pub open spec fn class_of(private: bool, loopback: bool, link_local: bool, multicast: bool, public: bool, d: Seq<char>) -> ClassView {
    (private, loopback, link_local, multicast, public, d)
}

/// The RFC class of an IPv4 address.
pub open spec fn classify_v4(ip: u32) -> ClassView {
    if ip & 0xFF00_0000 == 0x0A00_0000 || ip & 0xFFF0_0000 == 0xAC10_0000 || ip & 0xFFFF_0000 == 0xC0A8_0000 {
        class_of(true, false, false, false, false, "私有地址 (RFC 1918)"@)
    } else if ip & 0xFF00_0000 == 0x7F00_0000 {
        class_of(false, true, false, false, false, "环回地址"@)
    } else if ip & 0xFFFF_0000 == 0xA9FE_0000 {
        class_of(false, false, true, false, false, "链路本地地址"@)
    } else if ip & 0xF000_0000 == 0xE000_0000 {
        class_of(false, false, false, true, false, "多播地址"@)
    } else if ip & 0xF000_0000 == 0xF000_0000 {
        class_of(false, false, false, false, false, "保留地址"@)
    } else {
        class_of(false, false, false, false, true, "公网地址"@)
    }
}

fn make_class(private: bool, loopback: bool, link_local: bool, multicast: bool, public: bool, d: &str) -> (r: IpClassification)
    ensures
        r.view() == class_of(private, loopback, link_local, multicast, public, d@),
{
    IpClassification {
        is_private: private,
        is_loopback: loopback,
        is_link_local: link_local,
        is_multicast: multicast,
        is_public: public,
        description: String::from_str(d),
    }
}

/// Classifies an IPv4 address (RFC 1918 private, loopback, link-local, multicast, reserved, public).
pub fn classify_ipv4(ip: u32) -> (r: IpClassification)
    ensures
        r.view() == classify_v4(ip),
{
    if ip & 0xFF00_0000 == 0x0A00_0000 {
        return make_class(true, false, false, false, false, "私有地址 (RFC 1918)");
    }
    if ip & 0xFFF0_0000 == 0xAC10_0000 {
        return make_class(true, false, false, false, false, "私有地址 (RFC 1918)");
    }
    if ip & 0xFFFF_0000 == 0xC0A8_0000 {
        return make_class(true, false, false, false, false, "私有地址 (RFC 1918)");
    }
    if ip & 0xFF00_0000 == 0x7F00_0000 {
        return make_class(false, true, false, false, false, "环回地址");
    }
    if ip & 0xFFFF_0000 == 0xA9FE_0000 {
        return make_class(false, false, true, false, false, "链路本地地址");
    }
    if ip & 0xF000_0000 == 0xE000_0000 {
        return make_class(false, false, false, true, false, "多播地址");
    }
    if ip & 0xF000_0000 == 0xF000_0000 {
        return make_class(false, false, false, false, false, "保留地址");
    }
    make_class(false, false, false, false, true, "公网地址")
}

/// Whether an IPv4 address lies in one of the three RFC 1918 blocks:
/// 10.0.0.0 to 10.255.255.255, 172.16.0.0 to 172.31.255.255 and
/// 192.168.0.0 to 192.168.255.255.
pub open spec fn in_rfc1918_block(ip: u32) -> bool {
    0x0A00_0000 <= ip <= 0x0AFF_FFFF || 0xAC10_0000 <= ip <= 0xAC1F_FFFF || 0xC0A8_0000 <= ip <= 0xC0A8_FFFF
}

/// An IPv4 address is classified private exactly when it lies in one of the
/// three RFC 1918 blocks; such an address is then not public and carries the
/// RFC 1918 description. Outside them, 127.0.0.0/8 is loopback,
/// 169.254.0.0/16 link-local, 224.0.0.0 to 239.255.255.255 multicast, and
/// an address is public exactly when it is in none of these blocks and below
/// 240.0.0.0.
pub proof fn law_ipv4_class_by_block(ip: u32)
    ensures
        classify_v4(ip).0 <==> in_rfc1918_block(ip),
        !in_rfc1918_block(ip) ==> (classify_v4(ip).1 <==> 0x7F00_0000 <= ip <= 0x7FFF_FFFF),
        !in_rfc1918_block(ip) ==> (classify_v4(ip).2 <==> 0xA9FE_0000 <= ip <= 0xA9FE_FFFF),
        !in_rfc1918_block(ip) ==> (classify_v4(ip).3 <==> 0xE000_0000 <= ip <= 0xEFFF_FFFF),
        classify_v4(ip).4 <==> (!in_rfc1918_block(ip) && !(0x7F00_0000 <= ip <= 0x7FFF_FFFF)
            && !(0xA9FE_0000 <= ip <= 0xA9FE_FFFF) && ip < 0xE000_0000),
        0xAC10_0000 <= ip <= 0xAC1F_FFFF ==> classify_v4(ip) == class_of(true, false, false, false, false,
            "私有地址 (RFC 1918)"@),
        classify_v4(ip).0 ==> !classify_v4(ip).4 && classify_v4(ip).5 == "私有地址 (RFC 1918)"@,
{
    assert((ip & 0xFF00_0000 == 0x0A00_0000) <==> (0x0A00_0000 <= ip && ip <= 0x0AFF_FFFF)) by (bit_vector);
    assert((ip & 0xFFF0_0000 == 0xAC10_0000) <==> (0xAC10_0000 <= ip && ip <= 0xAC1F_FFFF)) by (bit_vector);
    assert((ip & 0xFFFF_0000 == 0xC0A8_0000) <==> (0xC0A8_0000 <= ip && ip <= 0xC0A8_FFFF)) by (bit_vector);
    assert((ip & 0xFF00_0000 == 0x7F00_0000) <==> (0x7F00_0000 <= ip && ip <= 0x7FFF_FFFF)) by (bit_vector);
    assert((ip & 0xFFFF_0000 == 0xA9FE_0000) <==> (0xA9FE_0000 <= ip && ip <= 0xA9FE_FFFF)) by (bit_vector);
    assert((ip & 0xF000_0000 == 0xE000_0000) <==> (0xE000_0000 <= ip && ip <= 0xEFFF_FFFF)) by (bit_vector);
    assert((ip & 0xF000_0000 == 0xF000_0000) <==> (0xF000_0000 <= ip)) by (bit_vector);
}

/// The RFC class of an IPv6 address.
pub open spec fn classify_v6(ip: u128) -> ClassView {
    if ip == 1 {
        class_of(false, true, false, false, false, "环回地址"@)
    } else if ip & 0xFFC0_0000_0000_0000_0000_0000_0000_0000 == 0xFE80_0000_0000_0000_0000_0000_0000_0000 {
        class_of(false, false, true, false, false, "链路本地地址"@)
    } else if ip & 0xFE00_0000_0000_0000_0000_0000_0000_0000 == 0xFC00_0000_0000_0000_0000_0000_0000_0000 {
        class_of(true, false, false, false, false, "唯一本地地址 (ULA)"@)
    } else if ip & 0xFF00_0000_0000_0000_0000_0000_0000_0000 == 0xFF00_0000_0000_0000_0000_0000_0000_0000 {
        class_of(false, false, false, true, false, "多播地址"@)
    } else if ip & 0xE000_0000_0000_0000_0000_0000_0000_0000 == 0x2000_0000_0000_0000_0000_0000_0000_0000 {
        class_of(false, false, false, false, true, "公网地址 (全局单播)"@)
    } else {
        class_of(false, false, false, false, false, "其他"@)
    }
}

/// An IPv6 address is classified by its block: `::1` is loopback;
/// fe80::/10 is link-local; fc00::/7 (unique local) is the private block;
/// ff00::/8 is multicast; and 2000::/3 (global unicast) is the public
/// block, each exactly.
pub proof fn law_ipv6_class_by_block(ip: u128)
    ensures
        classify_v6(ip).1 <==> ip == 1,
        classify_v6(ip).2 <==> 0xFE80_0000_0000_0000_0000_0000_0000_0000 <= ip <= 0xFEBF_FFFF_FFFF_FFFF_FFFF_FFFF_FFFF_FFFF,
        classify_v6(ip).0 <==> 0xFC00_0000_0000_0000_0000_0000_0000_0000 <= ip <= 0xFDFF_FFFF_FFFF_FFFF_FFFF_FFFF_FFFF_FFFF,
        classify_v6(ip).3 <==> 0xFF00_0000_0000_0000_0000_0000_0000_0000 <= ip,
        classify_v6(ip).4 <==> 0x2000_0000_0000_0000_0000_0000_0000_0000 <= ip <= 0x3FFF_FFFF_FFFF_FFFF_FFFF_FFFF_FFFF_FFFF,
{
    assert(((ip & 0xFFC0_0000_0000_0000_0000_0000_0000_0000 == 0xFE80_0000_0000_0000_0000_0000_0000_0000)
            <==> (0xFE80_0000_0000_0000_0000_0000_0000_0000 <= ip && ip <= 0xFEBF_FFFF_FFFF_FFFF_FFFF_FFFF_FFFF_FFFF))
        && ((ip & 0xFE00_0000_0000_0000_0000_0000_0000_0000 == 0xFC00_0000_0000_0000_0000_0000_0000_0000)
            <==> (0xFC00_0000_0000_0000_0000_0000_0000_0000 <= ip && ip <= 0xFDFF_FFFF_FFFF_FFFF_FFFF_FFFF_FFFF_FFFF))
        && ((ip & 0xFF00_0000_0000_0000_0000_0000_0000_0000 == 0xFF00_0000_0000_0000_0000_0000_0000_0000)
            <==> (0xFF00_0000_0000_0000_0000_0000_0000_0000 <= ip))
        && ((ip & 0xE000_0000_0000_0000_0000_0000_0000_0000 == 0x2000_0000_0000_0000_0000_0000_0000_0000)
            <==> (0x2000_0000_0000_0000_0000_0000_0000_0000 <= ip && ip <= 0x3FFF_FFFF_FFFF_FFFF_FFFF_FFFF_FFFF_FFFF)))
        by (bit_vector);
}

/// Classifies an IPv6 address (loopback, link-local, unique local, multicast, global unicast, other).
pub fn classify_ipv6(ip: u128) -> (r: IpClassification)
    ensures
        r.view() == classify_v6(ip),
{
    if ip == 1 {
        return make_class(false, true, false, false, false, "环回地址");
    }
    if ip & 0xFFC0_0000_0000_0000_0000_0000_0000_0000 == 0xFE80_0000_0000_0000_0000_0000_0000_0000 {
        return make_class(false, false, true, false, false, "链路本地地址");
    }
    if ip & 0xFE00_0000_0000_0000_0000_0000_0000_0000 == 0xFC00_0000_0000_0000_0000_0000_0000_0000 {
        return make_class(true, false, false, false, false, "唯一本地地址 (ULA)");
    }
    if ip & 0xFF00_0000_0000_0000_0000_0000_0000_0000 == 0xFF00_0000_0000_0000_0000_0000_0000_0000 {
        return make_class(false, false, false, true, false, "多播地址");
    }
    if ip & 0xE000_0000_0000_0000_0000_0000_0000_0000 == 0x2000_0000_0000_0000_0000_0000_0000_0000 {
        return make_class(false, false, false, false, true, "公网地址 (全局单播)");
    }
    make_class(false, false, false, false, false, "其他")
}

/// Dotted-quad text of an IPv4 address held in a `u32` (most significant byte first).
pub open spec fn ipv4_text(ip: u32) -> Seq<char> {
    decimal(((ip >> 24) & 0xff) as nat) + "."@ + decimal(((ip >> 16) & 0xff) as nat) + "."@
        + decimal(((ip >> 8) & 0xff) as nat) + "."@ + decimal((ip & 0xff) as nat)
}

/// Formats an IPv4 address held in a `u32` as a dotted quad.
pub fn ipv4_to_string(ip: u32) -> (r: String)
    ensures
        r@ == ipv4_text(ip),
{
    let mut r = String::new();
    push_decimal(&mut r, ((ip >> 24) & 0xff) as u64);
    push_str(&mut r, ".");
    push_decimal(&mut r, ((ip >> 16) & 0xff) as u64);
    push_str(&mut r, ".");
    push_decimal(&mut r, ((ip >> 8) & 0xff) as u64);
    push_str(&mut r, ".");
    push_decimal(&mut r, (ip & 0xff) as u64);
    assert(r@ =~= ipv4_text(ip));
    r
}

/// Everything the calculator reports about a subnet.
#[derive(Clone, Debug)]
pub struct SubnetResult {
    pub network_address: String,
    pub broadcast_address: String,
    pub subnet_mask: String,
    pub wildcard_mask: String,
    pub usable_hosts: u64,
    pub ip_range: String,
    pub cidr: u8,
    pub ip_version: String,
    pub classification: IpClassification,
}

/// Mathematical form of a subnet report: (network, broadcast, mask, wildcard,
/// usable hosts, range, prefix, version, class).
pub type SubnetView = (Seq<char>, Seq<char>, Seq<char>, Seq<char>, u64, Seq<char>, u8, Seq<char>, ClassView);

impl SubnetResult {
    pub open spec fn view(&self) -> SubnetView {
        (self.network_address@, self.broadcast_address@, self.subnet_mask@, self.wildcard_mask@,
            self.usable_hosts, self.ip_range@, self.cidr, self.ip_version@, self.classification.view())
    }
}

/// The subnets a network splits into, and their usable hosts in total.
#[derive(Clone, Debug)]
pub struct SubnetSplitResult {
    pub subnets: Vec<SubnetResult>,
    pub total_usable: u64,
}

/// The separator between the first and last address of a range.
pub open spec fn range_sep() -> Seq<char> {
    " \u{2014} "@
}

/// The netmask of an IPv4 prefix length.
pub open spec fn mask_v4(cidr: u8) -> u32 {
    if cidr == 0 { 0u32 } else { (!0u32) << ((32 - cidr) as u32) }
}

/// The report for the IPv4 subnet of `ip` with prefix length `cidr`
/// (/31 has two usable hosts and /32 one, neither with a broadcast address).
pub open spec fn subnet_v4(ip: u32, cidr: u8) -> SubnetView {
    let mask = mask_v4(cidr);
    let network = ip & mask;
    let broadcast = if cidr == 32 { ip } else { network | !mask };
    let hosts: u64 = if cidr == 32 { 1 } else if cidr == 31 { 2 } else { ((1u64 << ((32 - cidr) as u64)) - 2) as u64 };
    let first: u32 = if cidr >= 31 { network } else { (network + 1) as u32 };
    let last: u32 = if cidr == 32 { network } else if cidr == 31 { broadcast } else { (broadcast - 1) as u32 };
    (
        ipv4_text(network),
        if cidr >= 31 { Seq::empty() } else { ipv4_text(broadcast) },
        ipv4_text(mask),
        ipv4_text(!mask),
        hosts,
        ipv4_text(first) + range_sep() + ipv4_text(last),
        cidr,
        "IPv4"@,
        classify_v4(ip),
    )
}

/// Computes the IPv4 subnet report for an address given as an integer.
fn subnet_v4_info(ip: u32, cidr: u8) -> (r: SubnetResult)
    requires
        cidr <= 32,
    ensures
        r.view() == subnet_v4(ip, cidr),
{
    let host_bits: u32 = (32 - cidr) as u32;
    let mask: u32 = if cidr == 0 { 0u32 } else { (!0u32) << host_bits };
    let network = ip & mask;
    let broadcast = if cidr == 32 { ip } else { network | !mask };
    let usable_hosts: u64;
    let first_host: u32;
    let last_host: u32;
    if cidr >= 31 {
        if cidr == 32 {
            usable_hosts = 1;
            first_host = network;
            last_host = network;
        } else {
            usable_hosts = 2;
            first_host = network;
            last_host = broadcast;
        }
    } else {
        let hb64: u64 = host_bits as u64;
        assert(2 <= hb64 <= 32 ==> (1u64 << hb64) >= 4) by (bit_vector);
        usable_hosts = (1u64 << hb64) - 2;
        if cidr == 0 {
            assert(network == 0 && broadcast == 0xffff_ffff) by (bit_vector)
                requires network == ip & 0u32, broadcast == network | !0u32;
        } else {
            assert(network < 0xffff_ffff && broadcast > 0) by (bit_vector)
                requires
                    1 <= host_bits <= 31,
                    network == ip & ((!0u32) << host_bits),
                    broadcast == network | !((!0u32) << host_bits);
        }
        first_host = network + 1;
        last_host = broadcast - 1;
    }
    let broadcast_address = if cidr >= 31 { String::new() } else { ipv4_to_string(broadcast) };
    let mut ip_range = ipv4_to_string(first_host);
    push_str(&mut ip_range, " \u{2014} ");
    let last_text = ipv4_to_string(last_host);
    push_str(&mut ip_range, last_text.as_str());
    let r = SubnetResult {
        network_address: ipv4_to_string(network),
        broadcast_address,
        subnet_mask: ipv4_to_string(mask),
        wildcard_mask: ipv4_to_string(!mask),
        usable_hosts,
        ip_range,
        cidr,
        ip_version: String::from_str("IPv4"),
        classification: classify_ipv4(ip),
    };
    assert(r.broadcast_address@ =~= (if cidr >= 31 { Seq::<char>::empty() } else { ipv4_text(broadcast) }));
    r
}

/// The message for an IPv4 prefix length over 32.
pub open spec fn v4_prefix_msg(cidr: u8) -> Seq<char> {
    "Invalid CIDR prefix length "@ + decimal(cidr as nat) + " (IPv4 max is 32)"@
}

/// The message for an IPv6 prefix length over 128.
pub open spec fn v6_prefix_msg(cidr: nat) -> Seq<char> {
    "Invalid CIDR prefix length "@ + decimal(cidr) + " (IPv6 max is 128)"@
}

/// The message for address text that is neither IPv4 nor IPv6.
pub open spec fn bad_address_msg() -> Seq<char> {
    "Invalid IP address: invalid IP address syntax"@
}

/// Calculates full IPv4 subnet information for an address and prefix length.
pub fn calculate_v4(ip: &str, cidr: u8) -> (r: Result<SubnetResult, String>)
    ensures
        cidr > 32 ==> (r matches Err(e) && e@ == v4_prefix_msg(cidr)),
        cidr <= 32 ==> match ip_of_text(ip@) {
            Some(IpValue::V4(a)) => r matches Ok(s) && s.view() == subnet_v4(a, cidr),
            Some(IpValue::V6(_)) => r matches Err(e) && e@ == "Only IPv4 addresses are supported"@,
            None => r matches Err(e) && e@ == bad_address_msg(),
        },
{
    if cidr > 32 {
        let mut msg = String::from_str("Invalid CIDR prefix length ");
        push_decimal(&mut msg, cidr as u64);
        push_str(&mut msg, " (IPv4 max is 32)");
        return Err(msg);
    }
    match parse_ip_addr(ip) {
        Some(IpValue::V4(a)) => Ok(subnet_v4_info(a, cidr)),
        Some(IpValue::V6(_)) => Err(String::from_str("Only IPv4 addresses are supported")),
        None => Err(String::from_str("Invalid IP address: invalid IP address syntax")),
    }
}

/// The report for the IPv6 subnet of `ip` with prefix length `cidr`
/// (no broadcast address; usable hosts capped at `u64::MAX` for /64 and wider).
pub open spec fn subnet_v6(ip: u128, cidr: u8) -> SubnetView {
    let mask: u128 = if cidr == 0 { 0u128 } else { (!0u128) << ((128 - cidr) as u128) };
    let network = ip & mask;
    let hosts: u64 = if cidr <= 64 { u64::MAX } else { 1u64 << ((128 - cidr) as u64) };
    (
        ipv6_display(network),
        Seq::empty(),
        ipv6_display(mask),
        ipv6_display(!mask),
        hosts,
        ipv6_display(network) + range_sep() + ipv6_display(network | !mask),
        cidr,
        "IPv6"@,
        classify_v6(ip),
    )
}

/// Computes the IPv6 subnet report for an address given as an integer.
fn subnet_v6_info(ip: u128, cidr: u8) -> (r: SubnetResult)
    requires
        cidr <= 128,
    ensures
        r.view() == subnet_v6(ip, cidr),
{
    let host_bits: u128 = (128 - cidr) as u128;
    let mask: u128 = if cidr == 0 { 0u128 } else { (!0u128) << host_bits };
    let network = ip & mask;
    let usable_hosts: u64 = if cidr <= 64 { u64::MAX } else { 1u64 << ((128 - cidr) as u64) };
    let last_addr = network | !mask;
    let mut ip_range = format_ipv6(network);
    push_str(&mut ip_range, " \u{2014} ");
    let last_text = format_ipv6(last_addr);
    push_str(&mut ip_range, last_text.as_str());
    let r = SubnetResult {
        network_address: format_ipv6(network),
        broadcast_address: String::new(),
        subnet_mask: format_ipv6(mask),
        wildcard_mask: format_ipv6(!mask),
        usable_hosts,
        ip_range,
        cidr,
        ip_version: String::from_str("IPv6"),
        classification: classify_ipv6(ip),
    };
    assert(r.broadcast_address@ =~= Seq::<char>::empty());
    r
}

/// Calculates full IPv6 subnet information for an address and prefix length.
pub fn calculate_v6(ip: &str, cidr: u8) -> (r: Result<SubnetResult, String>)
    ensures
        cidr > 128 ==> (r matches Err(e) && e@ == v6_prefix_msg(cidr as nat)),
        cidr <= 128 ==> match ip_of_text(ip@) {
            Some(IpValue::V6(a)) => r matches Ok(s) && s.view() == subnet_v6(a, cidr),
            Some(IpValue::V4(_)) => r matches Err(e) && e@ == "Only IPv6 addresses are supported"@,
            None => r matches Err(e) && e@ == bad_address_msg(),
        },
{
    if cidr > 128 {
        let mut msg = String::from_str("Invalid CIDR prefix length ");
        push_decimal(&mut msg, cidr as u64);
        push_str(&mut msg, " (IPv6 max is 128)");
        return Err(msg);
    }
    match parse_ip_addr(ip) {
        Some(IpValue::V6(a)) => Ok(subnet_v6_info(a, cidr)),
        Some(IpValue::V4(_)) => Err(String::from_str("Only IPv6 addresses are supported")),
        None => Err(String::from_str("Invalid IP address: invalid IP address syntax")),
    }
}

/// Whether `c` occurs in `s`.
fn has_char(s: &str, c: char) -> (b: bool)
    ensures
        b == s@.contains(c),
{
    let v = str_chars(s);
    let mut i: usize = 0;
    while i < v.len()
        invariant
            i <= v@.len(),
            v@ == s@,
            forall|k: int| 0 <= k < i ==> v@[k] != c,
        decreases v@.len() - i,
    {
        if v[i] == c {
            assert(v@[i as int] == c);
            return true;
        }
        i = i + 1;
    }
    false
}

/// Calculates subnet information, choosing IPv6 when the address contains a colon.
pub fn calculate_subnet(address: &str, cidr: u8) -> (r: Result<SubnetResult, String>)
    ensures
        address@.contains(':') ==> (cidr > 128 ==> (r matches Err(e) && e@ == v6_prefix_msg(cidr as nat))),
        address@.contains(':') ==> (cidr <= 128 ==> match ip_of_text(address@) {
            Some(IpValue::V6(a)) => r matches Ok(s) && s.view() == subnet_v6(a, cidr),
            Some(IpValue::V4(_)) => r matches Err(e) && e@ == "Only IPv6 addresses are supported"@,
            None => r matches Err(e) && e@ == bad_address_msg(),
        }),
        !address@.contains(':') ==> (cidr > 32 ==> (r matches Err(e) && e@ == v4_prefix_msg(cidr))),
        !address@.contains(':') ==> (cidr <= 32 ==> match ip_of_text(address@) {
            Some(IpValue::V4(a)) => r matches Ok(s) && s.view() == subnet_v4(a, cidr),
            Some(IpValue::V6(_)) => r matches Err(e) && e@ == "Only IPv4 addresses are supported"@,
            None => r matches Err(e) && e@ == bad_address_msg(),
        }),
{
    if has_char(address, ':') {
        calculate_v6(address, cidr)
    } else {
        calculate_v4(address, cidr)
    }
}


/// A result with its error text taken as characters.
pub open spec fn text_result<T>(r: Result<T, String>) -> Result<T, Seq<char>> {
    match r {
        Ok(v) => Ok(v),
        Err(e) => Err(e@),
    }
}

/// The address text and prefix length of `address/len` (a bare address has
/// length `max`); an error when the length is not a number or exceeds `max`.
pub open spec fn split_cidr(s: Seq<char>, max: int) -> (Seq<char>, Result<int, Seq<char>>) {
    match find_char(s, '/', 0) {
        Some(k) => (
            s.subrange(0, k),
            match parse_uint(s.subrange(k + 1, s.len() as int), 255) {
                None => Err("Invalid CIDR prefix"@),
                Some(l) => if l > max { Err(len_too_long_msg(max, l)) } else { Ok(l) },
            },
        ),
        None => (s, Ok(max)),
    }
}

/// The message for a prefix length `l` over `max` (32 for IPv4, 128 for IPv6).
pub open spec fn len_too_long_msg(max: int, l: int) -> Seq<char> {
    if max == 32 { v4_len_msg(l) } else { v6_prefix_msg(l as nat) }
}

/// The message for an IPv4 CIDR prefix length over 32.
pub open spec fn v4_len_msg(l: int) -> Seq<char> {
    "Invalid CIDR prefix length "@ + decimal(l as nat) + " (must be 0-32)"@
}

/// What `parse_cidr_v4` gives for `s`.
pub open spec fn cidr_v4(s: Seq<char>) -> Result<(u32, u8), Seq<char>> {
    let (ip_text, len) = split_cidr(s, 32);
    match len {
        Err(e) => Err(e),
        Ok(l) => match ip_of_text(ip_text) {
            None => Err("Invalid IP: invalid IP address syntax"@),
            Some(IpValue::V6(_)) => Err("Only IPv4 addresses are supported"@),
            Some(IpValue::V4(a)) => if l < 16 {
                Err("CIDR range too large (max /16)"@)
            } else {
                Ok((a, l as u8))
            },
        },
    }
}

/// What `parse_cidr_v6` gives for `s`.
pub open spec fn cidr_v6(s: Seq<char>) -> Result<(u128, u8), Seq<char>> {
    let (ip_text, len) = split_cidr(s, 128);
    match len {
        Err(e) => Err(e),
        Ok(l) => match ip_of_text(ip_text) {
            None => Err(bad_address_msg()),
            Some(IpValue::V4(_)) => Err("Only IPv6 addresses are supported"@),
            Some(IpValue::V6(a)) => Ok((a, l as u8)),
        },
    }
}

/// Splits `address/len` into the address text and the length (see [`split_cidr`]).
fn read_cidr(input: &str, max: u8, v6: bool) -> (r: (String, Result<u8, String>))
    requires
        max == 32 || max == 128,
        v6 == (max == 128),
    ensures
        r.0@ == split_cidr(input@, max as int).0,
        split_cidr(input@, max as int).1 matches Ok(l) ==> 0 <= l <= max,
        text_result(r.1) == (match split_cidr(input@, max as int).1 {
            Ok(l) => Ok(l as u8),
            Err(e) => Err(e),
        }),
{
    let v = str_chars(input);
    match find_char_exec(&v, '/') {
        Some(k) => {
            let ip = string_from_range(&v, 0, k);
            let len = match parse_uint_range(&v, k + 1, v.len(), 255) {
                None => Err(String::from_str("Invalid CIDR prefix")),
                Some(l) => {
                    if l > max as u64 {
                        let mut msg = String::from_str("Invalid CIDR prefix length ");
                        push_decimal(&mut msg, l);
                        if v6 {
                            push_str(&mut msg, " (IPv6 max is 128)");
                        } else {
                            push_str(&mut msg, " (must be 0-32)");
                        }
                        Err(msg)
                    } else {
                        Ok(l as u8)
                    }
                },
            };
            (ip, len)
        },
        None => (String::from_str(input), Ok(max)),
    }
}

/// Parses IPv4 CIDR text (`192.168.1.0/24`; a bare address is /32) into the
/// address and prefix length, refusing ranges wider than /16.
pub fn parse_cidr_v4(input: &str) -> (r: Result<(u32, u8), String>)
    ensures
        text_result(r) == cidr_v4(input@),
{
    let (ip_text, len) = read_cidr(input, 32, false);
    let l = match len {
        Err(e) => { return Err(e); },
        Ok(l) => l,
    };
    match parse_ip_addr(ip_text.as_str()) {
        None => Err(String::from_str("Invalid IP: invalid IP address syntax")),
        Some(IpValue::V6(_)) => Err(String::from_str("Only IPv4 addresses are supported")),
        Some(IpValue::V4(a)) => {
            if l < 16 {
                Err(String::from_str("CIDR range too large (max /16)"))
            } else {
                Ok((a, l))
            }
        },
    }
}

/// Parses IPv6 CIDR text (`2001:db8::/32`; a bare address is /128) into the
/// address and prefix length.
pub fn parse_cidr_v6(input: &str) -> (r: Result<(u128, u8), String>)
    ensures
        text_result(r) == cidr_v6(input@),
{
    let (ip_text, len) = read_cidr(input, 128, true);
    let l = match len {
        Err(e) => { return Err(e); },
        Ok(l) => l,
    };
    match parse_ip_addr(ip_text.as_str()) {
        None => Err(String::from_str("Invalid IP address: invalid IP address syntax")),
        Some(IpValue::V4(_)) => Err(String::from_str("Only IPv6 addresses are supported")),
        Some(IpValue::V6(a)) => Ok((a, l)),
    }
}


impl SubnetSplitResult {
    pub open spec fn view(&self) -> (Seq<SubnetView>, u64) {
        (Seq::new(self.subnets@.len(), |i: int| self.subnets@[i].view()), self.total_usable)
    }
}

/// A split result with the reports and error text in their mathematical form.
pub open spec fn split_view(r: Result<SubnetSplitResult, String>) -> Result<(Seq<SubnetView>, u64), Seq<char>> {
    match r {
        Ok(v) => Ok(v.view()),
        Err(e) => Err(e@),
    }
}

/// The usable hosts of the reports added up, saturating at `u64::MAX`.
pub open spec fn hosts_total(s: Seq<SubnetView>) -> u64
    decreases s.len(),
{
    if s.len() == 0 {
        0
    } else {
        let t = hosts_total(s.drop_last());
        if t + s.last().4 > u64::MAX { u64::MAX } else { (t + s.last().4) as u64 }
    }
}

/// The message when the target prefix does not lengthen the prefix.
pub open spec fn target_msg(target: u8, prefix: u8) -> Seq<char> {
    "Target prefix ("@ + decimal(target as nat) + ") must be greater than current prefix ("@
        + decimal(prefix as nat) + ")"@
}

/// The message when a split would give more than 4096 subnets.
pub open spec fn too_many_msg(count: nat) -> Seq<char> {
    "Too many subnets to generate ("@ + decimal(count) + "). Maximum is 4096."@
}

/// The IPv4 subnets of length `target` that `ip/prefix` splits into, in address order.
pub open spec fn split_v4_nets(ip: u32, prefix: u8, target: u8) -> Seq<SubnetView> {
    let base = (ip & mask_v4(prefix)) as int;
    let step = pow2((32 - target) as nat) as int;
    Seq::new(pow2((target - prefix) as nat), |i: int| subnet_v4((base + i * step) as u32, target))
}

/// What splitting IPv4 CIDR text into subnets of length `target` gives.
pub open spec fn split_v4_result(network: Seq<char>, target: u8) -> Result<(Seq<SubnetView>, u64), Seq<char>> {
    match cidr_v4(network) {
        Err(e) => Err(e),
        Ok((ip, prefix)) => if target <= prefix {
            Err(target_msg(target, prefix))
        } else if target > 32 {
            Err("Target prefix cannot exceed 32 for IPv4"@)
        } else if pow2((target - prefix) as nat) > 4096 {
            Err(too_many_msg(pow2((target - prefix) as nat)))
        } else {
            Ok((split_v4_nets(ip, prefix, target), hosts_total(split_v4_nets(ip, prefix, target))))
        },
    }
}

/// The netmask of an IPv6 prefix length.
pub open spec fn mask_v6(prefix: u8) -> u128 {
    if prefix == 0 { 0u128 } else { (!0u128) << ((128 - prefix) as u128) }
}

/// The IPv6 subnets of length `target` that `ip/prefix` splits into, in address order.
pub open spec fn split_v6_nets(ip: u128, prefix: u8, target: u8) -> Seq<SubnetView> {
    let base = (ip & mask_v6(prefix)) as int;
    let step = pow2((128 - target) as nat) as int;
    Seq::new(pow2((target - prefix) as nat), |i: int| subnet_v6((base + i * step) as u128, target))
}

/// What splitting IPv6 CIDR text into subnets of length `target` gives.
pub open spec fn split_v6_result(network: Seq<char>, target: u8) -> Result<(Seq<SubnetView>, u64), Seq<char>> {
    match cidr_v6(network) {
        Err(e) => Err(e),
        Ok((ip, prefix)) => if target <= prefix {
            Err(target_msg(target, prefix))
        } else if target > 128 {
            Err("Target prefix cannot exceed 128 for IPv6"@)
        } else if pow2((target - prefix) as nat) > 4096 {
            Err(too_many_msg(pow2((target - prefix) as nat)))
        } else {
            Ok((split_v6_nets(ip, prefix, target), hosts_total(split_v6_nets(ip, prefix, target))))
        },
    }
}

/// Whether the request is to split the whole IPv6 space (`/0`) into single
/// addresses, whose count, 2^128, overflows.
pub open spec fn splits_whole_v6_space(network: Seq<char>, target: u8) -> bool {
    &&& network.contains(':')
    &&& cidr_v6(network) matches Ok((_, p)) && p == 0
    &&& target == 128
}

/// `1 << s` is `2^s` for 128-bit numbers.
proof fn lemma_u128_one_shl(s: u128)
    requires
        s < 128,
    ensures
        (1u128 << s) as int == pow2(s as nat),
    decreases s,
{
    lemma2_to64();
    if s == 0 {
        assert(1u128 << 0u128 == 1) by (bit_vector);
    } else {
        let t: u128 = (s - 1) as u128;
        assert((1u128 << s) == (1u128 << t) * 2) by (bit_vector)
            requires
                0 < s < 128,
                t == s - 1,
        ;
        lemma_u128_one_shl(t);
        lemma_pow2_adds(t as nat, 1);
    }
}

/// Splits IPv4 CIDR text into subnets of a longer prefix.
fn split_subnet_v4(network: &str, target_prefix: u8) -> (r: Result<SubnetSplitResult, String>)
    ensures
        split_view(r) == split_v4_result(network@, target_prefix),
{
    let (ip, prefix) = match parse_cidr_v4(network) {
        Ok(x) => x,
        Err(e) => { return Err(e); },
    };
    if target_prefix <= prefix {
        let mut msg = String::from_str("Target prefix (");
        push_decimal(&mut msg, target_prefix as u64);
        push_str(&mut msg, ") must be greater than current prefix (");
        push_decimal(&mut msg, prefix as u64);
        push_str(&mut msg, ")");
        return Err(msg);
    }
    if target_prefix > 32 {
        return Err(String::from_str("Target prefix cannot exceed 32 for IPv4"));
    }
    let sb: u32 = (32 - target_prefix) as u32;
    let cb: u32 = (target_prefix - prefix) as u32;
    let hb: u32 = (32 - prefix) as u32;
    let step: u32 = 1u32 << sb;
    let base_mask: u32 = if prefix == 0 { 0u32 } else { (!0u32) << hb };
    let base = ip & base_mask;
    let count: u32 = 1u32 << cb;
    proof {
        lemma_u32_pow2_no_overflow(sb as nat);
        lemma_u32_shl_is_mul(1, sb);
        lemma_u32_pow2_no_overflow(cb as nat);
        lemma_u32_shl_is_mul(1, cb);
        lemma_pow2_adds(cb as nat, sb as nat);
        lemma_u64_pow2_no_overflow(hb as nat);
        lemma_u64_shl_is_mul(1, hb as u64);
        assert((ip & ((!0u32) << hb)) as u64 + (1u64 << (hb as u64)) <= 0x1_0000_0000u64) by (bit_vector)
            requires 1 <= hb <= 16;
    }
    if count > 4096 {
        let mut msg = String::from_str("Too many subnets to generate (");
        push_decimal(&mut msg, count as u64);
        push_str(&mut msg, "). Maximum is 4096.");
        return Err(msg);
    }
    let ghost nets = split_v4_nets(ip, prefix, target_prefix);
    let mut subnets: Vec<SubnetResult> = Vec::new();
    let mut total_usable: u64 = 0;
    let mut net: u32 = base;
    let mut i: u32 = 0;
    while i < count
        invariant
            16 <= prefix < target_prefix <= 32,
            count as int == pow2(cb as nat),
            step as int == pow2(sb as nat),
            count * step == pow2(hb as nat),
            base as int + pow2(hb as nat) <= 0x1_0000_0000,
            base == ip & mask_v4(prefix),
            cb == target_prefix - prefix,
            sb == 32 - target_prefix,
            nets == split_v4_nets(ip, prefix, target_prefix),
            i <= count,
            i < count ==> net as int == base + i * step,
            subnets@.len() == i,
            forall|k: int| 0 <= k < i ==> #[trigger] subnets@[k].view() == nets[k],
            total_usable == hosts_total(nets.subrange(0, i as int)),
        decreases count - i,
    {
        let sr = subnet_v4_info(net, target_prefix);
        assert(sr.view() == nets[i as int]);
        assert(nets.subrange(0, i + 1).drop_last() =~= nets.subrange(0, i as int));
        total_usable = total_usable.saturating_add(sr.usable_hosts);
        subnets.push(sr);
        i = i + 1;
        if i < count {
            assert((i - 1) * step + step == i * step) by (nonlinear_arith);
            assert(i * step <= (count - 1) * step) by (nonlinear_arith)
                requires i <= count - 1, step >= 0;
            assert((count - 1) * step == count * step - step) by (nonlinear_arith);
            net = net + step;
        }
    }
    let r = SubnetSplitResult { subnets, total_usable };
    assert(r.view().0 =~= nets);
    assert(nets.subrange(0, count as int) =~= nets);
    Ok(r)
}

/// Splits IPv6 CIDR text into subnets of a longer prefix.
fn split_subnet_v6(network: &str, target_prefix: u8) -> (r: Result<SubnetSplitResult, String>)
    requires
        !(cidr_v6(network@) matches Ok((_, p)) && p == 0 && target_prefix == 128),
    ensures
        split_view(r) == split_v6_result(network@, target_prefix),
{
    let (ip, prefix) = match parse_cidr_v6(network) {
        Ok(x) => x,
        Err(e) => { return Err(e); },
    };
    if target_prefix <= prefix {
        let mut msg = String::from_str("Target prefix (");
        push_decimal(&mut msg, target_prefix as u64);
        push_str(&mut msg, ") must be greater than current prefix (");
        push_decimal(&mut msg, prefix as u64);
        push_str(&mut msg, ")");
        return Err(msg);
    }
    if target_prefix > 128 {
        return Err(String::from_str("Target prefix cannot exceed 128 for IPv6"));
    }
    let sb: u128 = (128 - target_prefix) as u128;
    let cb: u128 = (target_prefix - prefix) as u128;
    let hb: u128 = (128 - prefix) as u128;
    let step: u128 = 1u128 << sb;
    let base_mask: u128 = if prefix == 0 { 0u128 } else { (!0u128) << hb };
    let base = ip & base_mask;
    let count: u128 = 1u128 << cb;
    proof {
        lemma_u128_one_shl(sb);
        lemma_u128_one_shl(cb);
        lemma_pow2_adds(cb as nat, sb as nat);
        lemma2_to64();
        lemma_pow2_adds(64, 64);
        if prefix == 0 {
            assert(ip & 0u128 == 0) by (bit_vector);
        } else {
            lemma_u128_one_shl(hb);
            assert((ip & ((!0u128) << hb)) <= 0xffff_ffff_ffff_ffff_ffff_ffff_ffff_ffffu128 - ((1u128 << hb) - 1)) by (bit_vector)
                requires 1 <= hb <= 127;
        }
    }
    if count > 4096 {
        let mut msg = String::from_str("Too many subnets to generate (");
        push_decimal_wide(&mut msg, count);
        push_str(&mut msg, "). Maximum is 4096.");
        return Err(msg);
    }
    let ghost nets = split_v6_nets(ip, prefix, target_prefix);
    let mut subnets: Vec<SubnetResult> = Vec::new();
    let mut total_usable: u64 = 0;
    let mut net: u128 = base;
    let mut i: u128 = 0;
    while i < count
        invariant
            prefix < target_prefix <= 128,
            count as int == pow2(cb as nat),
            step as int == pow2(sb as nat),
            count * step == pow2(hb as nat),
            base as int + pow2(hb as nat) <= 0x1_0000_0000_0000_0000_0000_0000_0000_0000,
            base == ip & mask_v6(prefix),
            cb == target_prefix - prefix,
            sb == 128 - target_prefix,
            nets == split_v6_nets(ip, prefix, target_prefix),
            i <= count,
            i < count ==> net as int == base + i * step,
            subnets@.len() == i,
            forall|k: int| 0 <= k < i ==> #[trigger] subnets@[k].view() == nets[k],
            total_usable == hosts_total(nets.subrange(0, i as int)),
        decreases count - i,
    {
        let sr = subnet_v6_info(net, target_prefix);
        assert(sr.view() == nets[i as int]);
        assert(nets.subrange(0, i + 1).drop_last() =~= nets.subrange(0, i as int));
        total_usable = total_usable.saturating_add(sr.usable_hosts);
        subnets.push(sr);
        i = i + 1;
        if i < count {
            assert((i - 1) * step + step == i * step) by (nonlinear_arith);
            assert(i * step <= (count - 1) * step) by (nonlinear_arith)
                requires i <= count - 1, step >= 0;
            assert((count - 1) * step == count * step - step) by (nonlinear_arith);
            net = net + step;
        }
    }
    let r = SubnetSplitResult { subnets, total_usable };
    assert(r.view().0 =~= nets);
    assert(nets.subrange(0, count as int) =~= nets);
    Ok(r)
}

/// Splits a network (IPv6 when the text contains a colon) into subnets of a
/// longer prefix, in address order, with their usable hosts in total.
pub fn split_subnet(network: &str, target_prefix: u8) -> (r: Result<SubnetSplitResult, String>)
    requires
        !splits_whole_v6_space(network@, target_prefix),
    ensures
        split_view(r) == if network@.contains(':') {
            split_v6_result(network@, target_prefix)
        } else {
            split_v4_result(network@, target_prefix)
        },
{
    if has_char(network, ':') {
        split_subnet_v6(network, target_prefix)
    } else {
        split_subnet_v4(network, target_prefix)
    }
}


/// Splitting a network gives consecutive, non-overlapping subnets that fill
/// it: subnet `i` reports network address `base + i * size` and (below /31)
/// broadcast address `base + (i + 1) * size - 1`, where `base` is the
/// network address of the split network and `size` the subnet size; the last
/// one ends where the split network ends.
pub proof fn law_split_v4_consecutive(ip: u32, prefix: u8, target: u8, i: int)
    requires
        16 <= prefix < target <= 32,
        0 <= i < pow2((target - prefix) as nat),
    ensures
        ({
            let base = (ip & mask_v4(prefix)) as int;
            let size = pow2((32 - target) as nat) as int;
            &&& split_v4_nets(ip, prefix, target)[i].0 == ipv4_text((base + i * size) as u32)
            &&& target <= 30 ==> split_v4_nets(ip, prefix, target)[i].1 == ipv4_text((base + (i + 1) * size - 1) as u32)
            &&& base + pow2((target - prefix) as nat) * size == base + pow2((32 - prefix) as nat)
            &&& base + pow2((32 - prefix) as nat) <= 0x1_0000_0000
        }),
{
    let sb: u32 = (32 - target) as u32;
    let cb: u32 = (target - prefix) as u32;
    let hb: u32 = (32 - prefix) as u32;
    let base = ip & mask_v4(prefix);
    lemma_u32_pow2_no_overflow(sb as nat);
    lemma_u32_pow2_no_overflow(cb as nat);
    lemma_u32_pow2_no_overflow(hb as nat);
    let iu: u32 = i as u32;
    assert(iu as int == i);
    lemma_u32_shl_is_mul(1, sb);
    lemma_u32_shl_is_mul(1, cb);
    lemma_pow2_adds(cb as nat, sb as nat);
    lemma_u64_pow2_no_overflow(hb as nat);
    lemma_u64_shl_is_mul(1, hb as u64);
    assert(i * pow2(sb as nat) < pow2(cb as nat) * pow2(sb as nat)) by (nonlinear_arith)
        requires 0 <= i < pow2(cb as nat), pow2(sb as nat) > 0;
    assert(iu * pow2(sb as nat) < pow2(hb as nat));
    lemma_u32_shl_is_mul(iu, sb);
    assert((ip & ((!0u32) << hb)) as u64 + (1u64 << (hb as u64)) <= 0x1_0000_0000u64) by (bit_vector)
        requires 1 <= hb <= 16;
    assert(mask_v4(prefix) == (!0u32) << hb);
    let x: u32 = ((ip & ((!0u32) << hb)) + (iu << sb)) as u32;
    assert(x as int == base + i * pow2(sb as nat));
    assert(x & ((!0u32) << sb) == x && (x | !((!0u32) << sb)) == x + ((1u32 << sb) - 1)) by (bit_vector)
        requires
            1 <= hb <= 16,
            sb + cb == hb,
            cb >= 1,
            iu < (1u32 << cb),
            x == ((ip & ((!0u32) << hb)) + (iu << sb)) as u32,
            (ip & ((!0u32) << hb)) as u64 + (1u64 << (hb as u64)) <= 0x1_0000_0000u64;
    if target < 32 {
        assert(mask_v4(target) == (!0u32) << sb);
    } else {
        assert(sb == 0);
        assert((!0u32) << 0u32 == !0u32) by (bit_vector);
        assert(x & !0u32 == x) by (bit_vector);
    }
    assert((i + 1) * pow2(sb as nat) == i * pow2(sb as nat) + pow2(sb as nat)) by (nonlinear_arith);
}

/// The IPv4 subnet report of `ip` with prefix length `cidr` counts in
/// blocks of `size` = 2^(32 - cidr) addresses: the network address is `ip`
/// rounded down to a multiple of `size`, the mask is 2^32 - `size`, and
/// (below /31) the broadcast address is the last address of that block and
/// the usable hosts number `size - 2`.
pub proof fn law_subnet_v4_block(ip: u32, cidr: u8)
    requires
        cidr <= 32,
    ensures
        ({
            let size = pow2((32 - cidr) as nat) as int;
            let network = ip as int - (ip as int) % size;
            &&& subnet_v4(ip, cidr).0 == ipv4_text(network as u32)
            &&& subnet_v4(ip, cidr).2 == ipv4_text((0x1_0000_0000 - size) as u32)
            &&& cidr <= 30 ==> subnet_v4(ip, cidr).1 == ipv4_text((network + size - 1) as u32)
            &&& cidr <= 30 ==> subnet_v4(ip, cidr).4 == size - 2
        }),
{
    let n: u32 = (32 - cidr) as u32;
    lemma_u64_pow2_no_overflow(n as nat);
    lemma_u64_shl_is_mul(1, n as u64);
    if cidr == 0 {
        lemma2_to64();
        assert(mask_v4(cidr) == 0u32);
        assert((ip as int) % 0x1_0000_0000int == ip as int);
        assert(!0u32 == 0xFFFF_FFFFu32) by (bit_vector);
        assert((ip & 0u32) == 0u32 && (0u32 | 0xFFFF_FFFFu32) == 0xFFFF_FFFFu32) by (bit_vector);
    } else {
        lemma_u32_pow2_no_overflow(n as nat);
        lemma_u32_shl_is_mul(1, n);
        assert(mask_v4(cidr) == (!0u32) << n);
        vstd::bits::lemma_u32_low_bits_mask_is_mod(ip, n as nat);
        assert(vstd::bits::low_bits_mask(n as nat) as u32 == (1u32 << n) - 1);
        assert((ip & ((!0u32) << n)) == ip - (ip & (((1u32 << n) - 1) as u32))
            && (ip & (((1u32 << n) - 1) as u32)) <= ip
            && ((ip & ((!0u32) << n)) | !((!0u32) << n)) == (ip & ((!0u32) << n)) + ((1u32 << n) - 1)
            && (!0u32) << n == 0xFFFF_FFFFu32 - ((1u32 << n) - 1)
            && !((!0u32) << n) == (1u32 << n) - 1
            && (1u32 << n) >= 1) by (bit_vector)
            requires n < 32;
        let size = pow2(n as nat) as int;
        let m = mask_v4(cidr);
        assert((ip & m) as int == ip as int - (ip as int) % size);
        assert(subnet_v4(ip, cidr).0 == ipv4_text(ip & m));
        assert(m as int == 0x1_0000_0000 - size);
        if cidr <= 30 {
            assert((ip & m) | !m == (ip & m) + size - 1);
            assert(subnet_v4(ip, cidr).1 == ipv4_text((ip & m) | !m));
            assert((1u32 << n) >= 4) by (bit_vector)
                requires 2 <= n < 32;
            assert((1u64 << ((32 - cidr) as u64)) as int == size);
            assert(subnet_v4(ip, cidr).4 == size - 2);
        }
    }
}

} // verus!
