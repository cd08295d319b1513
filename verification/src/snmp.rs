//! SNMP device discovery: the addresses of a /24 network to probe, and the
//! vendor and model read from a device's description and object id.
use vstd::prelude::*;
use crate::text::{
    decimal, lines_of, parse_uint, parse_uint_range, push_decimal, split_chars, split_on, str_chars,
    string_from_chars, string_from_range, text_lines, trim, trim_bounds, views,
};

verus! {

/// The octets that parse among the dot-separated pieces, in order
/// (pieces that are not numbers up to 255 are skipped).
pub open spec fn parsed_octets(parts: Seq<Seq<char>>) -> Seq<int>
    decreases parts.len(),
{
    if parts.len() == 0 {
        Seq::empty()
    } else {
        let rest = parsed_octets(parts.drop_last());
        match parse_uint(parts.last(), 255) {
            Some(o) => rest.push(o),
            None => rest,
        }
    }
}

/// The host `h` of the /24 network with the first three octets of `o`.
pub open spec fn host_text(o: Seq<int>, h: int) -> Seq<char> {
    decimal(o[0] as nat) + "."@ + decimal(o[1] as nat) + "."@ + decimal(o[2] as nat) + "."@ + decimal(h as nat)
}

/// The hosts `.1` to `.254` of a `/24` CIDR, or the error for any other input.
pub open spec fn cidr_hosts(cidr: Seq<char>) -> Result<Seq<Seq<char>>, Seq<char>> {
    let parts = split_on(cidr, '/');
    if parts.len() != 2 {
        Err("invalid CIDR format, use x.x.x.x/24"@)
    } else {
        match parse_uint(parts[1], 255) {
            None => Err("invalid prefix"@),
            Some(p) => if p != 24 {
                Err("only /24 subnets are supported"@)
            } else {
                let o = parsed_octets(split_on(parts[0], '.'));
                if o.len() != 4 {
                    Err("invalid IP address"@)
                } else {
                    Ok(Seq::new(254, |i: int| host_text(o, i + 1)))
                }
            },
        }
    }
}

/// Probes a network for SNMP devices, a bounded number at a time.
pub struct SnmpScanner {
    pub concurrency: usize,
}

/// The view of a list of addresses or an error.
pub open spec fn hosts_view(r: Result<Vec<String>, String>) -> Result<Seq<Seq<char>>, Seq<char>> {
    match r {
        Ok(v) => Ok(v@.map_values(|s: String| s@)),
        Err(e) => Err(e@),
    }
}

fn octets_of(v: &Vec<char>) -> (r: Vec<u8>)
    ensures
        r@.map_values(|x: u8| x as int) == parsed_octets(split_on(v@, '.')),
{
    let parts = split_chars(v, '.');
    let ghost ps = split_on(v@, '.');
    let mut r: Vec<u8> = Vec::new();
    let mut i: usize = 0;
    assert(r@.map_values(|x: u8| x as int) =~= parsed_octets(ps.subrange(0, 0)));
    while i < parts.len()
        invariant
            views(parts@) == ps,
            ps == split_on(v@, '.'),
            i <= parts@.len(),
            r@.map_values(|x: u8| x as int) == parsed_octets(ps.subrange(0, i as int)),
        decreases parts@.len() - i,
    {
        let p = &parts[i];
        assert(p@ == ps[i as int]);
        assert(ps.subrange(0, i + 1).drop_last() =~= ps.subrange(0, i as int));
        assert(p@.subrange(0, p@.len() as int) =~= p@);
        let ghost before = r@.map_values(|x: u8| x as int);
        match parse_uint_range(p, 0, p.len(), 255) {
            Some(o) => {
                r.push(o as u8);
                assert(r@.map_values(|x: u8| x as int) =~= before.push(o as int));
            },
            None => {},
        }
        i = i + 1;
    }
    assert(ps.subrange(0, parts@.len() as int) =~= ps);
    r
}

impl SnmpScanner {
    /// A scanner probing up to 50 addresses at a time.
    pub fn new() -> (r: Self)
        ensures
            r.concurrency == 50,
    {
        SnmpScanner { concurrency: 50 }
    }

    /// The addresses `.1` to `.254` of a `/24` network given as CIDR text
    /// (the host octet of the address is ignored).
    pub fn expand_cidr(&self, cidr: &str) -> (r: Result<Vec<String>, String>)
        ensures
            hosts_view(r) == cidr_hosts(cidr@),
    {
        let v = str_chars(cidr);
        let parts = split_chars(&v, '/');
        if parts.len() != 2 {
            return Err(String::from_str("invalid CIDR format, use x.x.x.x/24"));
        }
        let pre = &parts[1];
        assert(pre@.subrange(0, pre@.len() as int) =~= pre@);
        let prefix = match parse_uint_range(pre, 0, pre.len(), 255) {
            None => { return Err(String::from_str("invalid prefix")); },
            Some(p) => p,
        };
        if prefix != 24 {
            return Err(String::from_str("only /24 subnets are supported"));
        }
        let octets = octets_of(&parts[0]);
        if octets.len() != 4 {
            assert(octets@.map_values(|x: u8| x as int).len() == octets@.len());
            return Err(String::from_str("invalid IP address"));
        }
        let ghost o = parsed_octets(split_on(parts[0]@, '.'));
        assert(o[0] == octets@[0] as int && o[1] == octets@[1] as int && o[2] == octets@[2] as int) by {
            assert(octets@.map_values(|x: u8| x as int)[0] == octets@[0] as int);
            assert(octets@.map_values(|x: u8| x as int)[1] == octets@[1] as int);
            assert(octets@.map_values(|x: u8| x as int)[2] == octets@[2] as int);
        }
        let mut ips: Vec<String> = Vec::with_capacity(254);
        let mut h: u64 = 1;
        while h < 255
            invariant
                1 <= h <= 255,
                octets@.len() == 4,
                o.len() == 4,
                o[0] == octets@[0] as int && o[1] == octets@[1] as int && o[2] == octets@[2] as int,
                ips@.map_values(|s: String| s@) == Seq::new((h - 1) as nat, |i: int| host_text(o, i + 1)),
            decreases 255 - h,
        {
            let mut s = String::new();
            push_decimal(&mut s, octets[0] as u64);
            s.append(".");
            push_decimal(&mut s, octets[1] as u64);
            s.append(".");
            push_decimal(&mut s, octets[2] as u64);
            s.append(".");
            push_decimal(&mut s, h);
            let ghost before = ips@.map_values(|s: String| s@);
            assert(s@ =~= host_text(o, h as int));
            ips.push(s);
            assert(ips@.map_values(|s: String| s@) =~= before.push(host_text(o, h as int)));
            h = h + 1;
            assert(ips@.map_values(|s: String| s@) =~= Seq::new((h - 1) as nat, |i: int| host_text(o, i + 1)));
        }
        Ok(ips)
    }
}

/// Whether `s` begins with `p`.
pub open spec fn has_prefix(s: Seq<char>, p: Seq<char>) -> bool {
    s.len() >= p.len() && s.subrange(0, p.len() as int) == p
}

fn starts_with(s: &Vec<char>, p: &str) -> (b: bool)
    ensures
        b == has_prefix(s@, p@),
{
    let pv = str_chars(p);
    if pv.len() > s.len() {
        return false;
    }
    let mut i: usize = 0;
    while i < pv.len()
        invariant
            pv@ == p@,
            pv@.len() <= s@.len(),
            i <= pv@.len(),
            forall|j: int| 0 <= j < i ==> s@[j] == pv@[j],
        decreases pv@.len() - i,
    {
        if s[i] != pv[i] {
            assert(s@.subrange(0, pv@.len() as int)[i as int] != pv@[i as int]);
            return false;
        }
        i = i + 1;
    }
    assert(s@.subrange(0, pv@.len() as int) =~= pv@);
    true
}

/// The model text: the first line of the description that is not blank,
/// trimmed; the whole description when every line is blank.
pub open spec fn model_of(descr: Seq<char>) -> Seq<char> {
    first_nonblank(text_lines(descr), descr)
}

/// The first of `lines` that is not blank, trimmed, or `whole` if none is.
pub open spec fn first_nonblank(lines: Seq<Seq<char>>, whole: Seq<char>) -> Seq<char>
    decreases lines.len(),
{
    if lines.len() == 0 {
        whole
    } else if trim(lines[0]).len() > 0 {
        trim(lines[0])
    } else {
        first_nonblank(lines.drop_first(), whole)
    }
}

/// Reads a model name from a device description (see [`model_of`]).
pub fn extract_model(sys_descr: &str, _keywords: &str) -> (r: String)
    ensures
        r@ == model_of(sys_descr@),
{
    let v = str_chars(sys_descr);
    let lines = lines_of(&v);
    let ghost ls = text_lines(v@);
    let mut i: usize = 0;
    assert(ls.subrange(0, ls.len() as int) =~= ls);
    while i < lines.len()
        invariant
            views(lines@) == ls,
            ls == text_lines(v@),
            v@ == sys_descr@,
            i <= lines@.len(),
            model_of(sys_descr@) == first_nonblank(ls.subrange(i as int, ls.len() as int), sys_descr@),
        decreases lines@.len() - i,
    {
        let line = &lines[i];
        assert(line@ == ls[i as int]);
        let ghost rest = ls.subrange(i as int, ls.len() as int);
        assert(rest.drop_first() =~= ls.subrange(i + 1, ls.len() as int));
        let (a, b) = trim_bounds(line, 0, line.len());
        assert(line@.subrange(0, line@.len() as int) =~= line@);
        if a < b {
            return string_from_range(line, a, b);
        }
        i = i + 1;
    }
    String::from_str(sys_descr)
}

/// The first line of a text (empty when there is none).
pub open spec fn first_line(s: Seq<char>) -> Seq<char> {
    if text_lines(s).len() > 0 { text_lines(s)[0] } else { Seq::empty() }
}

/// The vendor and model of a device, from its object id's enterprise
/// prefix (tested in this order) and its description.
pub open spec fn device_of(descr: Seq<char>, oid: Seq<char>) -> (Seq<char>, Seq<char>) {
    if has_prefix(oid, "1.3.6.1.4.1.9"@) {
        ("Cisco"@, model_of(descr))
    } else if has_prefix(oid, "1.3.6.1.4.1.2011"@) {
        ("Huawei"@, model_of(descr))
    } else if has_prefix(oid, "1.3.6.1.4.1.11"@) {
        ("HP"@, model_of(descr))
    } else if has_prefix(oid, "1.3.6.1.4.1.25506"@) {
        ("H3C"@, model_of(descr))
    } else if has_prefix(oid, "1.3.6.1.4.1.42623"@) {
        ("Hikvision"@, model_of(descr))
    } else if has_prefix(oid, "1.3.6.1.4.1.11863"@) {
        ("TP-Link"@, model_of(descr))
    } else {
        ("Unknown"@, first_line(descr))
    }
}

/// Identifies a device's vendor and model (see [`device_of`]).
pub fn detect_device(sys_descr: &str, sys_oid: &str) -> (r: (String, String))
    ensures
        (r.0@, r.1@) == device_of(sys_descr@, sys_oid@),
{
    let oid = str_chars(sys_oid);
    if starts_with(&oid, "1.3.6.1.4.1.9") {
        (String::from_str("Cisco"), extract_model(sys_descr, "Cisco"))
    } else if starts_with(&oid, "1.3.6.1.4.1.2011") {
        (String::from_str("Huawei"), extract_model(sys_descr, "Huawei"))
    } else if starts_with(&oid, "1.3.6.1.4.1.11") {
        (String::from_str("HP"), extract_model(sys_descr, "HP|ProCurve|Aruba"))
    } else if starts_with(&oid, "1.3.6.1.4.1.25506") {
        (String::from_str("H3C"), extract_model(sys_descr, "H3C|Comware"))
    } else if starts_with(&oid, "1.3.6.1.4.1.42623") {
        (String::from_str("Hikvision"), extract_model(sys_descr, "Hikvision|DS-"))
    } else if starts_with(&oid, "1.3.6.1.4.1.11863") {
        (String::from_str("TP-Link"), extract_model(sys_descr, "TP-Link"))
    } else {
        let v = str_chars(sys_descr);
        let lines = lines_of(&v);
        if lines.len() > 0 {
            assert(lines[0]@ == text_lines(sys_descr@)[0]);
            (String::from_str("Unknown"), string_from_chars(&lines[0]))
        } else {
            (String::from_str("Unknown"), String::new())
        }
    }
}


/// The text of an octet up to 255 parses as that octet.
proof fn lemma_octet_parses(n: nat)
    requires
        n <= 255,
    ensures
        parse_uint(decimal(n), 255) == Some(n as int),
{
    crate::text::lemma_decimal_digits(n);
    assert(crate::text::is_digit(decimal(n)[0]));
}

/// Expanding `a.b.c.d/24` lists the hosts `a.b.c.1` to `a.b.c.254` of that
/// network, in order, whatever the last octet given.
pub proof fn law_expand_lists_network_hosts(ip: u32)
    ensures
        cidr_hosts(crate::subnet::ipv4_text(ip) + "/24"@)
            == Ok::<Seq<Seq<char>>, Seq<char>>(Seq::new(254, |i: int| crate::subnet::ipv4_text(((ip & 0xFFFF_FF00) + i + 1) as u32))),
{
    reveal_strlit("/24");
    reveal_strlit("24");
    reveal_strlit(".");
    let a = ((ip >> 24) & 0xff) as nat;
    let b = ((ip >> 16) & 0xff) as nat;
    let c = ((ip >> 8) & 0xff) as nat;
    let d = (ip & 0xff) as nat;
    assert(((ip >> 24) & 0xff) <= 255 && ((ip >> 16) & 0xff) <= 255 && ((ip >> 8) & 0xff) <= 255
        && (ip & 0xff) <= 255) by (bit_vector);
    let txt = crate::subnet::ipv4_text(ip);
    let full = txt + "/24"@;
    // the address text holds no `/`
    crate::ipaddr::lemma_dotted_split(Seq::empty(), ip);
    crate::text::lemma_decimal_digits(a);
    crate::text::lemma_decimal_digits(b);
    crate::text::lemma_decimal_digits(c);
    crate::text::lemma_decimal_digits(d);
    assert forall|j: int| 0 <= j < txt.len() implies txt[j] != '/' by {
        let da = decimal(a);
        let db = decimal(b);
        let dc = decimal(c);
        let dd = decimal(d);
        assert(txt == da + "."@ + db + "."@ + dc + "."@ + dd);
        if j < da.len() {
            assert(crate::text::is_digit(da[j]));
        } else if j > da.len() && j < da.len() + 1 + db.len() {
            assert(txt[j] == db[j - da.len() - 1]);
            assert(crate::text::is_digit(db[j - da.len() - 1]));
        } else if j > da.len() + 1 + db.len() && j < da.len() + 2 + db.len() + dc.len() {
            assert(txt[j] == dc[j - da.len() - 2 - db.len()]);
            assert(crate::text::is_digit(dc[j - da.len() - 2 - db.len()]));
        } else if j > da.len() + 2 + db.len() + dc.len() {
            assert(txt[j] == dd[j - da.len() - 3 - db.len() - dc.len()]);
            assert(crate::text::is_digit(dd[j - da.len() - 3 - db.len() - dc.len()]));
        }
    }
    crate::text::lemma_split_on_append_run(Seq::empty(), txt, '/');
    assert(Seq::<char>::empty() + txt =~= txt);
    assert(seq![Seq::<char>::empty()].update(0, Seq::<char>::empty() + txt) =~= seq![txt]);
    crate::text::lemma_split_on_push_sep(txt, '/');
    let two = "24"@;
    crate::text::lemma_split_on_append_run(txt.push('/'), two, '/');
    assert(full =~= txt.push('/') + two);
    let parts = split_on(full, '/');
    assert(parts =~= seq![txt, two]);
    crate::text::lemma_decimal_digits(24);
    assert(decimal(2) == seq![crate::text::digit_char(2)]);
    assert(decimal(24) == decimal(2).push(crate::text::digit_char(4)));
    assert(decimal(24) =~= two);
    lemma_octet_parses(24);
    // the octets
    let pieces = split_on(txt, '.');
    assert(Seq::<char>::empty() + decimal(a) =~= decimal(a));
    assert(pieces == seq![decimal(a), decimal(b), decimal(c), decimal(d)]);
    lemma_octet_parses(a);
    lemma_octet_parses(b);
    lemma_octet_parses(c);
    lemma_octet_parses(d);
    let o = parsed_octets(pieces);
    assert(parsed_octets(Seq::<Seq<char>>::empty()) == Seq::<int>::empty());
    assert(parsed_octets(seq![decimal(a)]) =~= seq![a as int]) by {
        assert(seq![decimal(a)].drop_last() =~= Seq::<Seq<char>>::empty());
    }
    assert(parsed_octets(seq![decimal(a), decimal(b)]) =~= seq![a as int, b as int]) by {
        assert(seq![decimal(a), decimal(b)].drop_last() =~= seq![decimal(a)]);
    }
    assert(parsed_octets(seq![decimal(a), decimal(b), decimal(c)]) =~= seq![a as int, b as int, c as int]) by {
        assert(seq![decimal(a), decimal(b), decimal(c)].drop_last() =~= seq![decimal(a), decimal(b)]);
    }
    assert(o =~= seq![a as int, b as int, c as int, d as int]) by {
        assert(pieces.drop_last() =~= seq![decimal(a), decimal(b), decimal(c)]);
    }
    assert forall|i: int| 0 <= i < 254 implies #[trigger] host_text(o, i + 1)
        == crate::subnet::ipv4_text(((ip & 0xFFFF_FF00) + i + 1) as u32) by {
        let h: u32 = (i + 1) as u32;
        assert((ip & 0xFFFF_FF00) + h <= 0xFFFF_FFFF) by (bit_vector)
            requires 1 <= h <= 254;
        let x: u32 = ((ip & 0xFFFF_FF00) + h) as u32;
        assert((x >> 24) & 0xff == (ip >> 24) & 0xff && (x >> 16) & 0xff == (ip >> 16) & 0xff
            && (x >> 8) & 0xff == (ip >> 8) & 0xff && x & 0xff == h) by (bit_vector)
            requires 1 <= h <= 254, x == (ip & 0xFFFF_FF00) + h;
    }
    let expect = Seq::new(254, |i: int| crate::subnet::ipv4_text(((ip & 0xFFFF_FF00) + i + 1) as u32));
    assert(Seq::new(254, |i: int| host_text(o, i + 1)) =~= expect);
}

} // verus!
