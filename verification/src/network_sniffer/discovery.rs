//! Vendor names for MAC addresses found in the ARP cache.
use vstd::prelude::*;
use vstd::string::*;
use crate::text::{chars_eq, str_chars};

verus! {

/// The first `n` `:`-separated fields of `s`, joined by `:` again
/// (what `s.split(':').take(n).collect::<Vec<_>>().join(":")` yields, for `n >= 1`).
pub open spec fn first_fields(s: Seq<char>, n: nat) -> Seq<char>
    decreases s.len(),
{
    if s.len() == 0 {
        s
    } else if s[0] == ':' {
        if n <= 1 {
            Seq::empty()
        } else {
            seq![':'] + first_fields(s.drop_first(), (n - 1) as nat)
        }
    } else {
        seq![s[0]] + first_fields(s.drop_first(), n)
    }
}

/// The vendor whose OUI prefix (`XX:XX:XX`, upper case) is `prefix`.
pub open spec fn vendor_for_prefix(prefix: Seq<char>) -> Option<Seq<char>> {
    if prefix == "00:50:56"@ || prefix == "00:0C:29"@ || prefix == "00:05:69"@ { Some("VMware"@) }
    else if prefix == "08:00:27"@ { Some("Oracle VirtualBox"@) }
    else if prefix == "00:15:5D"@ { Some("Hyper-V"@) }
    else if prefix == "00:1C:42"@ { Some("Parallels"@) }
    else if prefix == "00:11:22"@ || prefix == "00:14:22"@ { Some("Dell"@) }
    else if prefix == "00:1A:4B"@ || prefix == "00:21:5A"@ { Some("HP"@) }
    else if prefix == "00:1E:68"@ { Some("Intel"@) }
    else if prefix == "00:21:6A"@ || prefix == "00:23:32"@ || prefix == "00:25:00"@
        || prefix == "00:26:08"@ { Some("Apple"@) }
    else if prefix == "00:1A:2B"@ { Some("Cisco"@) }
    else if prefix == "FC:A1:3F"@ || prefix == "28:6E:D4"@ { Some("Xiaomi"@) }
    else if prefix == "50:76:AF"@ || prefix == "E0:CC:7A"@ { Some("Huawei"@) }
    else if prefix == "14:75:90"@ || prefix == "C0:4A:00"@ || prefix == "D4:6E:0E"@ { Some("TP-Link"@) }
    else { None }
}

/// Characters of `v` from `i` on, cut at the `n`-th colon.
proof fn lemma_first_fields_step(s: Seq<char>, i: int, n: nat)
    requires
        0 <= i < s.len(),
    ensures
        s.skip(i).drop_first() == s.skip(i + 1),
        s.skip(i)[0] == s[i],
{
    assert(s.skip(i).drop_first() =~= s.skip(i + 1));
}

/// The OUI part of a MAC address: its first three colon-separated fields.
fn oui_prefix(v: &Vec<char>) -> (r: Vec<char>)
    ensures
        r@ == first_fields(v@, 3),
{
    let mut r: Vec<char> = Vec::new();
    let mut fields_left: usize = 3;
    let mut i: usize = 0;
    assert(v@.skip(0) =~= v@);
    while i < v.len()
        invariant
            i <= v@.len(),
            1 <= fields_left <= 3,
            first_fields(v@, 3) == r@ + first_fields(v@.skip(i as int), fields_left as nat),
        decreases v@.len() - i,
    {
        let c = v[i];
        proof {
            lemma_first_fields_step(v@, i as int, fields_left as nat);
        }
        if c == ':' {
            if fields_left <= 1 {
                assert(first_fields(v@.skip(i as int), fields_left as nat) =~= Seq::empty());
                assert(r@ + Seq::<char>::empty() =~= r@);
                return r;
            }
            assert(r@ + first_fields(v@.skip(i as int), fields_left as nat) =~= r@.push(':')
                + first_fields(v@.skip(i + 1), (fields_left - 1) as nat));
            fields_left = fields_left - 1;
        } else {
            assert(r@ + first_fields(v@.skip(i as int), fields_left as nat) =~= r@.push(c)
                + first_fields(v@.skip(i + 1), fields_left as nat));
        }
        r.push(c);
        i = i + 1;
    }
    assert(v@.skip(i as int) =~= Seq::<char>::empty());
    assert(r@ + Seq::<char>::empty() =~= r@);
    r
}

/// Looks up the vendor of a MAC address (`XX:XX:XX:...`, upper case) by its first three bytes.
pub fn mac_vendor(mac: &str) -> (r: Option<String>)
    ensures
        match vendor_for_prefix(first_fields(mac@, 3)) {
            Some(name) => r matches Some(s) && s@ == name,
            None => r is None,
        },
{
    let p = oui_prefix(&str_chars(mac));
    let vendor: &str = if chars_eq(&p, "00:50:56") || chars_eq(&p, "00:0C:29") || chars_eq(&p, "00:05:69") { "VMware" }
    else if chars_eq(&p, "08:00:27") { "Oracle VirtualBox" }
    else if chars_eq(&p, "00:15:5D") { "Hyper-V" }
    else if chars_eq(&p, "00:1C:42") { "Parallels" }
    else if chars_eq(&p, "00:11:22") || chars_eq(&p, "00:14:22") { "Dell" }
    else if chars_eq(&p, "00:1A:4B") || chars_eq(&p, "00:21:5A") { "HP" }
    else if chars_eq(&p, "00:1E:68") { "Intel" }
    else if chars_eq(&p, "00:21:6A") || chars_eq(&p, "00:23:32") || chars_eq(&p, "00:25:00")
        || chars_eq(&p, "00:26:08") { "Apple" }
    else if chars_eq(&p, "00:1A:2B") { "Cisco" }
    else if chars_eq(&p, "FC:A1:3F") || chars_eq(&p, "28:6E:D4") { "Xiaomi" }
    else if chars_eq(&p, "50:76:AF") || chars_eq(&p, "E0:CC:7A") { "Huawei" }
    else if chars_eq(&p, "14:75:90") || chars_eq(&p, "C0:4A:00") || chars_eq(&p, "D4:6E:0E") { "TP-Link" }
    else { return None; };
    Some(String::from_str(vendor))
}

} // verus!
