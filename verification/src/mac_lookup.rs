//! MAC address vendor lookup against a built-in table of OUI prefixes.
use vstd::prelude::*;
use vstd::string::*;
use crate::text::{str_chars, string_from_chars};

verus! {

/// MAC address vendor lookup using the built-in OUI table.
pub struct MacLookup;

/// The OUI table: (prefix `XX:XX:XX` in upper case, vendor).
pub open spec fn oui_table() -> Seq<(Seq<char>, Seq<char>)> {
    seq![
        ("00:00:0C"@, "Cisco"@), ("00:14:22"@, "Dell"@), ("00:1A:A0"@, "Broadcom"@),
        ("3C:5A:B4"@, "Intel"@), ("B8:27:EB"@, "Raspberry Pi"@), ("DC:A6:32"@, "Intel"@),
        ("00:50:56"@, "VMware"@), ("00:0C:29"@, "VMware"@), ("00:05:69"@, "VMware"@),
        ("08:00:27"@, "Oracle VirtualBox"@), ("00:15:5D"@, "Microsoft"@), ("00:03:FF"@, "Microsoft"@),
        ("A8:5E:45"@, "Realtek"@), ("00:E0:4C"@, "Realtek"@), ("00:23:8E"@, "Samsung"@),
        ("00:25:00"@, "Apple"@), ("00:26:08"@, "Apple"@), ("F0:18:98"@, "Apple"@),
        ("00:17:34"@, "Google"@), ("E0:AC:CB"@, "Huawei"@), ("00:25:9C"@, "Huawei"@),
        ("3C:61:05"@, "TP-Link"@), ("54:A6:0B"@, "TP-Link"@), ("30:39:F2"@, "Xiaomi"@),
        ("F4:6D:04"@, "Xiaomi"@), ("28:16:2E"@, "Xiaomi"@), ("00:0A:EB"@, "Juniper"@),
        ("00:1B:17"@, "HP"@), ("00:14:5E"@, "Hewlett Packard"@), ("00:26:55"@, "Netgear"@),
        ("00:90:7F"@, "Linksys"@), ("00:1A:70"@, "D-Link"@), ("00:80:C8"@, "Asus"@),
        ("00:0A:F5"@, "Sony"@), ("10:68:3F"@, "Nokia"@), ("00:17:88"@, "Roku"@),
        ("A0:CE:C8"@, "Nest Labs"@), ("B0:4E:26"@, "Amazon Tech"@), ("AC:63:BE"@, "Samsung"@),
        ("00:1D:41"@, "ZTE"@)
    ]
}

/// The OUI table as executable data.
fn oui_db() -> (r: Vec<(&'static str, &'static str)>)
    ensures
        r@.len() == oui_table().len(),
        forall|i: int| 0 <= i < r@.len() ==> (#[trigger] r@[i]).0@ == oui_table()[i].0 && r@[i].1@ == oui_table()[i].1,
{
    vec![
        ("00:00:0C", "Cisco"), ("00:14:22", "Dell"), ("00:1A:A0", "Broadcom"),
        ("3C:5A:B4", "Intel"), ("B8:27:EB", "Raspberry Pi"), ("DC:A6:32", "Intel"),
        ("00:50:56", "VMware"), ("00:0C:29", "VMware"), ("00:05:69", "VMware"),
        ("08:00:27", "Oracle VirtualBox"), ("00:15:5D", "Microsoft"), ("00:03:FF", "Microsoft"),
        ("A8:5E:45", "Realtek"), ("00:E0:4C", "Realtek"), ("00:23:8E", "Samsung"),
        ("00:25:00", "Apple"), ("00:26:08", "Apple"), ("F0:18:98", "Apple"),
        ("00:17:34", "Google"), ("E0:AC:CB", "Huawei"), ("00:25:9C", "Huawei"),
        ("3C:61:05", "TP-Link"), ("54:A6:0B", "TP-Link"), ("30:39:F2", "Xiaomi"),
        ("F4:6D:04", "Xiaomi"), ("28:16:2E", "Xiaomi"), ("00:0A:EB", "Juniper"),
        ("00:1B:17", "HP"), ("00:14:5E", "Hewlett Packard"), ("00:26:55", "Netgear"),
        ("00:90:7F", "Linksys"), ("00:1A:70", "D-Link"), ("00:80:C8", "Asus"),
        ("00:0A:F5", "Sony"), ("10:68:3F", "Nokia"), ("00:17:88", "Roku"),
        ("A0:CE:C8", "Nest Labs"), ("B0:4E:26", "Amazon Tech"), ("AC:63:BE", "Samsung"),
        ("00:1D:41", "ZTE"),
    ]
}

/// Whether `c` is an ASCII hexadecimal digit.
pub open spec fn is_hex(c: char) -> bool {
    ('0' <= c && c <= '9') || ('a' <= c && c <= 'f') || ('A' <= c && c <= 'F')
}

/// The upper-case form of an ASCII hex digit.
pub open spec fn hex_upper(c: char) -> char {
    if c == 'a' { 'A' }
    else if c == 'b' { 'B' }
    else if c == 'c' { 'C' }
    else if c == 'd' { 'D' }
    else if c == 'e' { 'E' }
    else if c == 'f' { 'F' }
    else { c }
}

/// The hex digits of `s`, in order and in upper case.
pub open spec fn hex_digits(s: Seq<char>) -> Seq<char>
    decreases s.len(),
{
    if s.len() == 0 {
        s
    } else if is_hex(s.last()) {
        hex_digits(s.drop_last()).push(hex_upper(s.last()))
    } else {
        hex_digits(s.drop_last())
    }
}

/// Twelve hex digits written as `XX:XX:XX:XX:XX:XX`.
pub open spec fn colon_format(h: Seq<char>) -> Seq<char> {
    seq![h[0], h[1], ':', h[2], h[3], ':', h[4], h[5], ':', h[6], h[7], ':', h[8], h[9], ':', h[10], h[11]]
}

/// The normalized form of a MAC address in any common notation: `Some` exactly
/// when it holds twelve hex digits.
pub open spec fn normalized_mac(mac: Seq<char>) -> Option<Seq<char>> {
    let h = hex_digits(mac);
    if h.len() == 12 {
        Some(colon_format(h))
    } else {
        None
    }
}

/// The vendor of the first table entry at index `i` or later whose prefix is `p`.
pub open spec fn oui_vendor_from(i: nat, p: Seq<char>) -> Option<Seq<char>>
    decreases oui_table().len() - i,
{
    if i >= oui_table().len() {
        None
    } else if oui_table()[i as int].0 == p {
        Some(oui_table()[i as int].1)
    } else {
        oui_vendor_from(i + 1, p)
    }
}

/// The vendor registered for a MAC address.
pub open spec fn mac_vendor_of(mac: Seq<char>) -> Option<Seq<char>> {
    match normalized_mac(mac) {
        Some(n) => oui_vendor_from(0, n.subrange(0, 8)),
        None => None,
    }
}

/// A lookup reads only the hex digits of the address, in order and
/// regardless of case: separators (`:`, `-`, `.`) and where they stand do
/// not matter; a vendor is found only for twelve hex digits.
pub proof fn law_lookup_reads_only_hex_digits(m1: Seq<char>, m2: Seq<char>)
    requires
        hex_digits(m1) == hex_digits(m2),
    ensures
        mac_vendor_of(m1) == mac_vendor_of(m2),
        mac_vendor_of(m1) is Some ==> hex_digits(m1).len() == 12,
{
}

fn upper_hex(c: char) -> (u: char)
    ensures
        u == hex_upper(c),
{
    if c == 'a' { 'A' }
    else if c == 'b' { 'B' }
    else if c == 'c' { 'C' }
    else if c == 'd' { 'D' }
    else if c == 'e' { 'E' }
    else if c == 'f' { 'F' }
    else { c }
}

/// Normalizes a MAC address to `XX:XX:XX:XX:XX:XX`; `None` unless it holds exactly twelve hex digits.
pub fn normalize_mac(mac: &str) -> (r: Option<String>)
    ensures
        match normalized_mac(mac@) {
            Some(n) => r matches Some(s) && s@ == n,
            None => r is None,
        },
{
    let v = str_chars(mac);
    let mut h: Vec<char> = Vec::new();
    let mut i: usize = 0;
    while i < v.len()
        invariant
            i <= v@.len(),
            v@ == mac@,
            h@ == hex_digits(v@.subrange(0, i as int)),
        decreases v@.len() - i,
    {
        let c = v[i];
        assert(v@.subrange(0, i + 1).drop_last() =~= v@.subrange(0, i as int));
        if ('0' <= c && c <= '9') || ('a' <= c && c <= 'f') || ('A' <= c && c <= 'F') {
            h.push(upper_hex(c));
        }
        i = i + 1;
    }
    assert(v@.subrange(0, v@.len() as int) =~= v@);
    if h.len() != 12 {
        return None;
    }
    let f: Vec<char> = vec![h[0], h[1], ':', h[2], h[3], ':', h[4], h[5], ':', h[6], h[7], ':', h[8], h[9], ':', h[10], h[11]];
    assert(f@ =~= colon_format(h@));
    Some(string_from_chars(&f))
}

/// Whether `v[0..8]` holds exactly the characters of `s`.
fn prefix_eq(v: &Vec<char>, s: &str) -> (b: bool)
    requires
        v@.len() >= 8,
    ensures
        b == (v@.subrange(0, 8) == s@),
{
    let w = str_chars(s);
    if w.len() != 8 {
        return false;
    }
    let mut i: usize = 0;
    while i < 8
        invariant
            v@.len() >= 8,
            w@.len() == 8,
            w@ == s@,
            i <= 8,
            forall|k: int| 0 <= k < i ==> v@[k] == w@[k],
        decreases 8 - i,
    {
        if v[i] != w[i] {
            return false;
        }
        i = i + 1;
    }
    assert(v@.subrange(0, 8) =~= w@);
    true
}

impl MacLookup {
    /// Creates the lookup (the table is built in).
    pub fn new() -> (r: Self) {
        MacLookup
    }

    /// Looks up the vendor name for a MAC address in colon, dash, dot or bare
    /// hex notation; `None` if it is malformed or its OUI is not in the table.
    pub fn lookup(&self, mac: &str) -> (r: Option<String>)
        ensures
            match mac_vendor_of(mac@) {
                Some(n) => r matches Some(s) && s@ == n,
                None => r is None,
            },
    {
        let normalized = match normalize_mac(mac) {
            Some(n) => n,
            None => return None,
        };
        let nv = str_chars(normalized.as_str());
        let db = oui_db();
        let mut i: usize = 0;
        while i < db.len()
            invariant
                i <= db@.len(),
                db@.len() == oui_table().len(),
                forall|k: int| 0 <= k < db@.len() ==> (#[trigger] db@[k]).0@ == oui_table()[k].0 && db@[k].1@ == oui_table()[k].1,
                nv@.len() == 17,
                mac_vendor_of(mac@) == oui_vendor_from(i as nat, nv@.subrange(0, 8)),
            decreases db@.len() - i,
        {
            let (oui, vendor) = db[i];
            assert(db@[i as int].0@ == oui_table()[i as int].0);
            if prefix_eq(&nv, oui) {
                return Some(String::from_str(vendor));
            }
            i = i + 1;
        }
        None
    }
}

} // verus!
