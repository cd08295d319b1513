//! Multicast DNS service discovery: the PTR queries sent to the local
//! network, and the parsing of the answers into services (type, host,
//! address, port and TXT properties).
use vstd::prelude::*;
use crate::dns::{
    be16, buffer_fits, dns_name_at, dotted_quad, dotted_quad_string, empty_name_msg, encode_dns_name,
    encode_labels, ends, dns_name_walk_ends, ipv6_string, ipv6_text, long_label_msg, name_value, read_be16, skip_dns_name,
    skip_name, Walk,
};
use crate::text::{
    find_char, find_char_exec, lossy_text, split_chars, split_on, str_chars, str_eq, string_from_chars,
    string_from_range, utf8_lossy, views,
};

verus! {

/// Record type number of a pointer record.
pub const TYPE_PTR: u16 = 12;
/// Record type number of an IPv4 address record.
pub const TYPE_A: u16 = 1;
/// Record type number of an IPv6 address record.
pub const TYPE_AAAA: u16 = 28;
/// Record type number of a service-location record.
pub const TYPE_SRV: u16 = 33;
/// Record type number of a text record.
pub const TYPE_TXT: u16 = 16;

/// The PTR query for `target`, asking for a unicast answer: a header with
/// id 0 and one question, the encoded name, type PTR and class IN with the
/// unicast-response bit (0x8001).
pub open spec fn mdns_query(target: Seq<char>) -> Result<Seq<u8>, Seq<char>> {
    if target.len() == 0 {
        Err(empty_name_msg())
    } else {
        let enc = encode_labels(split_on(target, '.'));
        match enc.1 {
            Some(l) => Err(long_label_msg(l)),
            None => Ok(seq![0u8, 0, 0, 0, 0, 1, 0, 0, 0, 0, 0, 0] + enc.0 + seq![0u8] + seq![0u8, 12, 0x80, 0x01]),
        }
    }
}

/// The view of a built message.
pub open spec fn bytes_view(r: Result<Vec<u8>, String>) -> Result<Seq<u8>, Seq<char>> {
    match r {
        Ok(v) => Ok(v@),
        Err(e) => Err(e@),
    }
}

/// Builds the PTR query for `target` with the unicast-response bit set.
pub fn build_mdns_ptrs_query(target: &str) -> (r: Result<Vec<u8>, String>)
    ensures
        bytes_view(r) == mdns_query(target@),
{
    let mut buf: Vec<u8> = Vec::with_capacity(512);
    let mut k: usize = 0;
    while k < 12
        invariant
            k <= 12,
            buf@ == seq![0u8, 0, 0, 0, 0, 1, 0, 0, 0, 0, 0, 0].subrange(0, k as int),
        decreases 12 - k,
    {
        if k == 5 {
            buf.push(1u8);
        } else {
            buf.push(0u8);
        }
        k = k + 1;
        assert(buf@ =~= seq![0u8, 0, 0, 0, 0, 1, 0, 0, 0, 0, 0, 0].subrange(0, k as int));
    }
    assert(buf@ =~= seq![0u8, 0, 0, 0, 0, 1, 0, 0, 0, 0, 0, 0]);
    match encode_dns_name(target, &mut buf) {
        Err(e) => return Err(e),
        Ok(()) => {},
    }
    buf.push(0u8);
    buf.push(12u8);
    buf.push(0x80u8);
    buf.push(0x01u8);
    proof {
        let enc = encode_labels(split_on(target@, '.'));
        assert(buf@ =~= seq![0u8, 0, 0, 0, 0, 1, 0, 0, 0, 0, 0, 0] + enc.0 + seq![0u8] + seq![0u8, 12, 0x80, 0x01]);
    }
    Ok(buf)
}

/// The offset after `count` questions starting at `off` (each a name and
/// four bytes of type and class), or `None` when a name runs off the end.
pub open spec fn skip_questions(data: Seq<u8>, off: int, count: nat) -> Option<int>
    decreases count,
{
    if count == 0 {
        Some(off)
    } else {
        match skip_name(data, off) {
            None => None,
            Some(e) => skip_questions(data, e + 4, (count - 1) as nat),
        }
    }
}

proof fn lemma_skip_name_bound(data: Seq<u8>, off: int)
    requires
        0 <= off,
    ensures
        skip_name(data, off) matches Some(e) ==> off < e <= data.len() + 1,
    decreases data.len() - off,
{
    if 0 <= off < data.len() {
        let l = data[off];
        if l != 0 && l < 0xc0 && off + 1 + l < data.len() {
            lemma_skip_name_bound(data, off + 1 + l);
        }
    }
}

/// Skips the question section (its count is in bytes 4 and 5 of the header).
pub fn skip_question_section(data: &[u8], offset: usize) -> (r: Result<usize, String>)
    requires
        buffer_fits(data@),
        data@.len() >= 12,
        offset <= data@.len(),
    ensures
        match r {
            Ok(e) => skip_questions(data@, offset as int, be16(data@, 4) as nat) == Some(e as int) && e <= data@.len() + 5,
            Err(_) => skip_questions(data@, offset as int, be16(data@, 4) as nat) is None,
        },
{
    let qdcount = read_be16(data, 4);
    assert(qdcount as nat == be16(data@, 4) as nat);
    let mut off = offset;
    let mut q: u16 = 0;
    while q < qdcount
        invariant
            buffer_fits(data@),
            qdcount as nat == be16(data@, 4) as nat,
            q <= qdcount,
            off <= data@.len() + 5,
            skip_questions(data@, offset as int, qdcount as nat)
                == skip_questions(data@, off as int, (qdcount - q) as nat),
        decreases qdcount - q,
    {
        proof { lemma_skip_name_bound(data@, off as int); }
        match skip_dns_name(data, off) {
            Err(e) => {
                assert(skip_questions(data@, off as int, (qdcount - q) as nat) is None);
                return Err(e);
            },
            Ok(o) => { off = o + 4; },
        }
        q = q + 1;
    }
    Ok(off)
}

/// `name` with every trailing `.local` removed (what `trim_end_matches` does).
pub open spec fn trim_local(name: Seq<char>) -> Seq<char>
    decreases name.len(),
{
    if name.len() >= 6 && name.subrange(name.len() - 6, name.len() as int) == ".local"@ {
        trim_local(name.subrange(0, name.len() - 6))
    } else {
        name
    }
}

fn ends_with_local(v: &Vec<char>, n: usize) -> (b: bool)
    requires
        n <= v@.len(),
    ensures
        b == (n >= 6 && v@.subrange(n - 6, n as int) == ".local"@),
{
    proof { reveal_strlit(".local"); }
    if n < 6 {
        return false;
    }
    let r = v[n - 6] == '.' && v[n - 5] == 'l' && v[n - 4] == 'o' && v[n - 3] == 'c' && v[n - 2] == 'a' && v[n - 1] == 'l';
    if r {
        assert(v@.subrange(n - 6, n as int) =~= ".local"@);
    } else {
        assert(v@.subrange(n - 6, n as int) != ".local"@) by {
            if v@.subrange(n - 6, n as int) == ".local"@ {
                let t = v@.subrange(n - 6, n as int);
                assert(t[0] == '.' && t[1] == 'l' && t[2] == 'o' && t[3] == 'c' && t[4] == 'a' && t[5] == 'l');
            }
        }
    }
    r
}

/// Removes every trailing `.local` from a name.
pub fn trim_local_suffix(name: &str) -> (r: String)
    ensures
        r@ == trim_local(name@),
{
    let v = str_chars(name);
    let mut n = v.len();
    assert(v@.subrange(0, n as int) =~= v@);
    while ends_with_local(&v, n)
        invariant
            n <= v@.len(),
            trim_local(v@) == trim_local(v@.subrange(0, n as int)),
        decreases n,
    {
        assert(v@.subrange(0, n as int).subrange(0, n - 6) =~= v@.subrange(0, n - 6));
        assert(v@.subrange(0, n as int).subrange(n - 6, n as int) =~= v@.subrange(n - 6, n as int));
        n = n - 6;
    }
    if n >= 6 {
        assert(v@.subrange(0, n as int).subrange(n - 6, n as int) =~= v@.subrange(n - 6, n as int));
    }
    string_from_range(&v, 0, n)
}

/// Trimming `.local` leaves a prefix of the name that no longer ends with
/// `.local`, and one more `.local` at the end of a name changes nothing of
/// what the trimming leaves.
pub proof fn law_trim_local(name: Seq<char>)
    ensures
        ({
            let r = trim_local(name);
            &&& r.len() <= name.len() && name.subrange(0, r.len() as int) == r
            &&& !(r.len() >= 6 && r.subrange(r.len() - 6, r.len() as int) == ".local"@)
        }),
        trim_local(name + ".local"@) == trim_local(name),
    decreases name.len(),
{
    reveal_strlit(".local");
    let n = name.len() as int;
    if n >= 6 && name.subrange(n - 6, n) == ".local"@ {
        let p = name.subrange(0, n - 6);
        law_trim_local(p);
        let r = trim_local(p);
        assert(name.subrange(0, r.len() as int) =~= p.subrange(0, r.len() as int));
    } else {
        assert(name.subrange(0, n) =~= name);
    }
    let m = name + ".local"@;
    assert(m.subrange(m.len() - 6, m.len() as int) =~= ".local"@);
    assert(m.subrange(0, m.len() - 6) =~= name);
}

/// The service type of a name like `_http._tcp.local`: its first two
/// labels when both begin with `_`, else the whole name.
pub open spec fn service_type_of(name: Seq<char>) -> Seq<char> {
    let parts = split_on(name, '.');
    if parts.len() >= 2 && parts[0].len() > 0 && parts[0][0] == '_' && parts[1].len() > 0 && parts[1][0] == '_' {
        parts[0] + "."@ + parts[1]
    } else {
        name
    }
}

fn starts_underscore(v: &Vec<char>) -> (b: bool)
    ensures
        b == (v@.len() > 0 && v@[0] == '_'),
{
    v.len() > 0 && v[0] == '_'
}

fn dotted_pair(a: &Vec<char>, b: &Vec<char>) -> (r: String)
    ensures
        r@ == a@ + "."@ + b@,
{
    let mut r = string_from_chars(a);
    r.append(".");
    let t = string_from_chars(b);
    r.append(t.as_str());
    r
}

/// Extracts the service type from a name like `_http._tcp.local`.
pub fn extract_service_type(name: &str) -> (r: String)
    ensures
        r@ == service_type_of(name@),
{
    let v = str_chars(name);
    let parts = split_chars(&v, '.');
    if parts.len() >= 2 && starts_underscore(&parts[0]) && starts_underscore(&parts[1]) {
        return dotted_pair(&parts[0], &parts[1]);
    }
    String::from_str(name)
}

/// The first label of an instance name (`My Printer` of `My Printer._http._tcp.local`).
pub open spec fn instance_host(instance: Seq<char>) -> Seq<char> {
    split_on(instance, '.')[0]
}

/// Extracts the host part (first label) of an instance name.
pub fn extract_hostname_from_instance(instance: &str) -> (r: String)
    ensures
        r@ == instance_host(instance@),
{
    let v = str_chars(instance);
    let parts = split_chars(&v, '.');
    proof { crate::text::lemma_split_on_nonempty(v@, '.'); }
    string_from_chars(&parts[0])
}


/// TXT properties: key and value, each key once, in the order keys first appeared.
pub type TxtPairs = Seq<(Seq<char>, Seq<char>)>;

/// Where key `k` stands in `kv`.
pub open spec fn key_index(kv: TxtPairs, k: Seq<char>) -> Option<int>
    decreases kv.len(),
{
    if kv.len() == 0 {
        None
    } else if kv.last().0 == k {
        Some(kv.len() - 1)
    } else {
        key_index(kv.drop_last(), k)
    }
}

/// `kv` with `k` set to `v` (as a map insert: an existing key's value is replaced).
pub open spec fn kv_insert(kv: TxtPairs, k: Seq<char>, v: Seq<char>) -> TxtPairs {
    match key_index(kv, k) {
        Some(i) => kv.update(i, (k, v)),
        None => kv.push((k, v)),
    }
}

/// A TXT string as a property: split at its first `=`; without one, the
/// whole string is the key and the value is empty.
pub open spec fn txt_property(t: Seq<char>) -> (Seq<char>, Seq<char>) {
    match find_char(t, '=', 0) {
        Some(p) => (t.subrange(0, p), t.subrange(p + 1, t.len() as int)),
        None => (t, Seq::empty()),
    }
}

/// The properties of the character-strings in `data[off..end]`, added to
/// `kv` (each string decoded as lossy UTF-8); a string running past the
/// record ends the list.
pub open spec fn txt_props(data: Seq<u8>, off: int, end: int, kv: TxtPairs) -> TxtPairs
    decreases end - off,
{
    if off < 0 || off >= end || off >= data.len() {
        kv
    } else {
        let o = off + 1;
        let l = data[off] as int;
        if o + l <= end && o + l <= data.len() {
            let prop = txt_property(lossy_text(data.subrange(o, o + l)));
            txt_props(data, o + l, end, kv_insert(kv, prop.0, prop.1))
        } else {
            kv
        }
    }
}

/// The records gathered from responses, by kind: PTR (service, instance),
/// SRV (instance, target host, port), A/AAAA (host, address) and TXT
/// (instance, properties).
#[verifier::ext_equal]
pub struct MdnsRecords {
    pub ptr: Seq<(Seq<char>, Seq<char>)>,
    pub srv: Seq<(Seq<char>, Seq<char>, u16)>,
    pub addr: Seq<(Seq<char>, Seq<char>)>,
    pub txt: Seq<(Seq<char>, TxtPairs)>,
}

/// No records yet.
pub open spec fn no_records() -> MdnsRecords {
    MdnsRecords { ptr: Seq::empty(), srv: Seq::empty(), addr: Seq::empty(), txt: Seq::empty() }
}

/// What a record named `name` of type `rtype` with data at `data[rd..rd+rdlen]`
/// adds; a name that does not decode adds nothing.
pub open spec fn record_effect(data: Seq<u8>, name: Seq<char>, rtype: int, rd: int, rdlen: int, acc: MdnsRecords) -> Walk<MdnsRecords> {
    if rtype == TYPE_PTR {
        match dns_name_at(data, rd) {
            Walk::Hangs => Walk::Hangs,
            Walk::Ends(None) => Walk::Ends(acc),
            Walk::Ends(Some((inst, _))) => Walk::Ends(MdnsRecords { ptr: acc.ptr.push((name, inst)), ..acc }),
        }
    } else if rtype == TYPE_SRV {
        if rdlen >= 7 {
            match dns_name_at(data, rd + 6) {
                Walk::Hangs => Walk::Hangs,
                Walk::Ends(None) => Walk::Ends(acc),
                Walk::Ends(Some((target, _))) => Walk::Ends(
                    MdnsRecords { srv: acc.srv.push((name, target, be16(data, rd + 4) as u16)), ..acc },
                ),
            }
        } else {
            Walk::Ends(acc)
        }
    } else if rtype == TYPE_A {
        if rdlen == 4 {
            Walk::Ends(MdnsRecords { addr: acc.addr.push((name, dotted_quad(data, rd))), ..acc })
        } else {
            Walk::Ends(acc)
        }
    } else if rtype == TYPE_AAAA {
        if rdlen == 16 {
            Walk::Ends(MdnsRecords { addr: acc.addr.push((name, ipv6_text(data, rd))), ..acc })
        } else {
            Walk::Ends(acc)
        }
    } else if rtype == TYPE_TXT {
        let kv = txt_props(data, rd, rd + rdlen, Seq::empty());
        if kv.len() > 0 {
            Walk::Ends(MdnsRecords { txt: acc.txt.push((name, kv)), ..acc })
        } else {
            Walk::Ends(acc)
        }
    } else {
        Walk::Ends(acc)
    }
}

/// Reads up to `count` records from `off`, stopping early at the end of the
/// data, at a name that does not decode, or at a truncated record: the
/// records gathered and the offset where reading stopped.
pub open spec fn section_walk(data: Seq<u8>, off: int, count: nat, acc: MdnsRecords) -> Walk<(MdnsRecords, int)>
    decreases count,
{
    if count == 0 || off >= data.len() {
        Walk::Ends((acc, off))
    } else {
        match dns_name_at(data, off) {
            Walk::Hangs => Walk::Hangs,
            Walk::Ends(None) => Walk::Ends((acc, off)),
            Walk::Ends(Some((name, o))) => {
                if o + 10 > data.len() {
                    Walk::Ends((acc, o))
                } else {
                    let rd = o + 10;
                    let rdlen = be16(data, o + 8);
                    if rd + rdlen > data.len() {
                        Walk::Ends((acc, rd))
                    } else {
                        match record_effect(data, name, be16(data, o), rd, rdlen, acc) {
                            Walk::Hangs => Walk::Hangs,
                            Walk::Ends(acc2) => section_walk(data, rd + rdlen, (count - 1) as nat, acc2),
                        }
                    }
                }
            },
        }
    }
}

/// The records of one response added to `acc`: answers, then authority,
/// then additional records, after the questions; a response shorter than
/// its header, or whose questions run off the end, adds nothing.
pub open spec fn response_records(data: Seq<u8>, acc: MdnsRecords) -> Walk<MdnsRecords> {
    if data.len() < 12 {
        Walk::Ends(acc)
    } else {
        match skip_questions(data, 12, be16(data, 4) as nat) {
            None => Walk::Ends(acc),
            Some(o) => match section_walk(data, o, be16(data, 6) as nat, acc) {
                Walk::Hangs => Walk::Hangs,
                Walk::Ends((acc1, o1)) => match section_walk(data, o1, be16(data, 8) as nat, acc1) {
                    Walk::Hangs => Walk::Hangs,
                    Walk::Ends((acc2, o2)) => match section_walk(data, o2, be16(data, 10) as nat, acc2) {
                        Walk::Hangs => Walk::Hangs,
                        Walk::Ends((acc3, _)) => Walk::Ends(acc3),
                    },
                },
            },
        }
    }
}

/// The records gathered while parsing, by kind.
pub struct RecordLists {
    pub ptr: Vec<(String, String)>,
    pub srv: Vec<(String, String, u16)>,
    pub addr: Vec<(String, String)>,
    pub txt: Vec<(String, Vec<(String, String)>)>,
}

/// Properties as values.
pub open spec fn pairs_view(v: Seq<(String, String)>) -> TxtPairs {
    Seq::new(v.len(), |i: int| (v[i].0@, v[i].1@))
}

impl RecordLists {
    pub open spec fn view(&self) -> MdnsRecords {
        MdnsRecords {
            ptr: pairs_view(self.ptr@),
            srv: Seq::new(self.srv@.len(), |i: int| (self.srv@[i].0@, self.srv@[i].1@, self.srv@[i].2)),
            addr: pairs_view(self.addr@),
            txt: Seq::new(self.txt@.len(), |i: int| (self.txt@[i].0@, pairs_view(self.txt@[i].1@))),
        }
    }
}

fn kv_insert_exec(kv: &mut Vec<(String, String)>, k: String, v: String)
    ensures
        pairs_view(final(kv)@) == kv_insert(pairs_view(old(kv)@), k@, v@),
{
    let ghost s = pairs_view(kv@);
    let mut i = kv.len();
    assert(s.subrange(0, i as int) =~= s);
    while i > 0
        invariant
            i <= kv@.len(),
            s == pairs_view(kv@),
            s == pairs_view(old(kv)@),
            key_index(s, k@) == key_index(s.subrange(0, i as int), k@),
        decreases i,
    {
        assert(s.subrange(0, i as int).drop_last() =~= s.subrange(0, i - 1));
        if str_eq(kv[i - 1].0.as_str(), k.as_str()) {
            assert(key_index(s.subrange(0, i as int), k@) == Some(i - 1));
            kv.set(i - 1, (k, v));
            assert(pairs_view(kv@) =~= s.update(i - 1, (k@, v@)));
            return;
        }
        i = i - 1;
    }
    kv.push((k, v));
    assert(pairs_view(kv@) =~= s.push((k@, v@)));
}

fn txt_property_exec(t: String) -> (r: (String, String))
    ensures
        (r.0@, r.1@) == txt_property(t@),
{
    let v = str_chars(t.as_str());
    match find_char_exec(&v, '=') {
        Some(p) => (string_from_range(&v, 0, p), string_from_range(&v, p + 1, v.len())),
        None => (t, String::new()),
    }
}

fn txt_props_exec(data: &[u8], rd: usize, end: usize) -> (kv: Vec<(String, String)>)
    requires
        buffer_fits(data@),
        rd <= end <= data@.len(),
    ensures
        pairs_view(kv@) == txt_props(data@, rd as int, end as int, Seq::empty()),
{
    let mut kv: Vec<(String, String)> = Vec::new();
    let mut off = rd;
    assert(pairs_view(kv@) =~= Seq::<(Seq<char>, Seq<char>)>::empty());
    while off < end
        invariant
            buffer_fits(data@),
            rd <= off,
            end <= data@.len(),
            txt_props(data@, rd as int, end as int, Seq::empty()) == txt_props(data@, off as int, end as int, pairs_view(kv@)),
        decreases end - off,
    {
        let l = data[off] as usize;
        let o = off + 1;
        if o + l <= end {
            let t = utf8_lossy(&data[o..o + l]);
            assert(data@.subrange(o as int, o + l) == data@.subrange(o as int, o + l));
            let (k, v) = txt_property_exec(t);
            kv_insert_exec(&mut kv, k, v);
            off = o + l;
        } else {
            return kv;
        }
    }
    kv
}

/// Reads up to `count` records from `offset` into `recs`, returning where it stopped.
fn parse_section(data: &[u8], offset: usize, count: u16, recs: &mut RecordLists) -> (end: usize)
    requires
        buffer_fits(data@),
        offset <= data@.len() + 0x10010,
        ends(section_walk(data@, offset as int, count as nat, old(recs).view())),
    ensures
        end <= data@.len() + 0x10010,
        section_walk(data@, offset as int, count as nat, old(recs).view()) == Walk::Ends((final(recs).view(), end as int)),
{
    let ghost w0 = section_walk(data@, offset as int, count as nat, recs.view());
    let mut off = offset;
    let mut left = count;
    while left > 0
        invariant
            buffer_fits(data@),
            off <= data@.len() + 0x10010,
            w0 == section_walk(data@, off as int, left as nat, recs.view()),
            w0 == section_walk(data@, offset as int, count as nat, old(recs).view()),
            ends(w0),
        decreases left,
    {
        if off >= data.len() {
            assert(section_walk(data@, off as int, left as nat, recs.view()) == Walk::Ends((recs.view(), off as int)));
            return off;
        }
        let (name, o) = match name_value(data, off) {
            None => { return off; },
            Some(x) => x,
        };
        if o + 10 > data.len() {
            return o;
        }
        let rtype = read_be16(data, o);
        let rdlen = read_be16(data, o + 8) as usize;
        let rd = o + 10;
        if rd + rdlen > data.len() {
            return rd;
        }
        let ghost acc = recs.view();
        if rtype == TYPE_PTR {
            match name_value(data, rd) {
                Some((inst, _)) => {
                    recs.ptr.push((name, inst));
                    assert(recs.view().ptr =~= acc.ptr.push((name@, inst@)));
                    assert(recs.view() =~= (MdnsRecords { ptr: acc.ptr.push((name@, inst@)), ..acc }));
                },
                None => {},
            }
        } else if rtype == TYPE_SRV {
            if rdlen >= 7 {
                let port = read_be16(data, rd + 4);
                match name_value(data, rd + 6) {
                    Some((target, _)) => {
                        recs.srv.push((name, target, port));
                        assert(recs.view().srv =~= acc.srv.push((name@, target@, be16(data@, rd + 4) as u16)));
                        assert(recs.view() =~= (MdnsRecords { srv: acc.srv.push((name@, target@, be16(data@, rd + 4) as u16)), ..acc }));
                    },
                    None => {},
                }
            }
        } else if rtype == TYPE_A {
            if rdlen == 4 {
                let ip = dotted_quad_string(data, rd);
                recs.addr.push((name, ip));
                assert(recs.view().addr =~= acc.addr.push((name@, dotted_quad(data@, rd as int))));
                assert(recs.view() =~= (MdnsRecords { addr: acc.addr.push((name@, dotted_quad(data@, rd as int))), ..acc }));
            }
        } else if rtype == TYPE_AAAA {
            if rdlen == 16 {
                let ip = ipv6_string(data, rd);
                recs.addr.push((name, ip));
                assert(recs.view().addr =~= acc.addr.push((name@, ipv6_text(data@, rd as int))));
                assert(recs.view() =~= (MdnsRecords { addr: acc.addr.push((name@, ipv6_text(data@, rd as int))), ..acc }));
            }
        } else if rtype == TYPE_TXT {
            let kv = txt_props_exec(data, rd, rd + rdlen);
            if kv.len() > 0 {
                let ghost kvv = pairs_view(kv@);
                recs.txt.push((name, kv));
                assert(recs.view().txt =~= acc.txt.push((name@, kvv)));
                assert(recs.view() =~= (MdnsRecords { txt: acc.txt.push((name@, kvv)), ..acc }));
            }
        }
        off = rd + rdlen;
        left = left - 1;
    }
    off
}


/// The records of the responses from the `i`-th on, added to `acc`.
pub open spec fn records_from(rs: Seq<Seq<u8>>, i: int, acc: MdnsRecords) -> Walk<MdnsRecords>
    decreases rs.len() - i,
{
    if i < 0 || i >= rs.len() {
        Walk::Ends(acc)
    } else {
        match response_records(rs[i], acc) {
            Walk::Hangs => Walk::Hangs,
            Walk::Ends(a) => records_from(rs, i + 1, a),
        }
    }
}

/// The records of all responses, in order.
pub open spec fn all_records(rs: Seq<Seq<u8>>) -> Walk<MdnsRecords> {
    records_from(rs, 0, no_records())
}

/// The responses as byte strings.
pub open spec fn responses_view(rs: Seq<Vec<u8>>) -> Seq<Seq<u8>> {
    Seq::new(rs.len(), |i: int| rs[i]@)
}

fn response_records_exec(data: &[u8], recs: &mut RecordLists)
    requires
        buffer_fits(data@),
        ends(response_records(data@, old(recs).view())),
    ensures
        response_records(data@, old(recs).view()) == Walk::Ends(final(recs).view()),
{
    if data.len() < 12 {
        return;
    }
    let o = match skip_question_section(data, 12) {
        Err(_) => { return; },
        Ok(o) => o,
    };
    let an = read_be16(data, 6);
    let ns = read_be16(data, 8);
    let ar = read_be16(data, 10);
    assert(an as nat == be16(data@, 6) as nat);
    assert(ns as nat == be16(data@, 8) as nat);
    assert(ar as nat == be16(data@, 10) as nat);
    let o1 = parse_section(data, o, an, recs);
    let o2 = parse_section(data, o1, ns, recs);
    let _ = parse_section(data, o2, ar, recs);
}

/// Parses the records of every response, in order.
pub fn parse_all_records(responses: &[Vec<u8>]) -> (r: RecordLists)
    requires
        forall|i: int| 0 <= i < responses@.len() ==> buffer_fits(#[trigger] responses@[i]@),
        ends(all_records(responses_view(responses@))),
    ensures
        all_records(responses_view(responses@)) == Walk::Ends(r.view()),
{
    let ghost rs = responses_view(responses@);
    let mut recs = RecordLists { ptr: Vec::new(), srv: Vec::new(), addr: Vec::new(), txt: Vec::new() };
    assert(recs.view() =~= no_records());
    let mut i: usize = 0;
    while i < responses.len()
        invariant
            rs == responses_view(responses@),
            forall|j: int| 0 <= j < responses@.len() ==> buffer_fits(#[trigger] responses@[j]@),
            i <= responses@.len(),
            all_records(rs) == records_from(rs, i as int, recs.view()),
            ends(all_records(rs)),
        decreases responses@.len() - i,
    {
        let data = responses[i].as_slice();
        assert(data@ == rs[i as int]);
        response_records_exec(data, &mut recs);
        i = i + 1;
    }
    recs
}

/// A discovered service: type, host name, address, port and TXT properties.
pub struct MdnsService {
    pub service_type: String,
    pub hostname: String,
    pub ip: String,
    pub port: u16,
    pub txt: Vec<(String, String)>,
}

/// A service as values.
pub type ServiceView = (Seq<char>, Seq<char>, Seq<char>, u16, TxtPairs);

impl MdnsService {
    pub open spec fn view(&self) -> ServiceView {
        (self.service_type@, self.hostname@, self.ip@, self.port, pairs_view(self.txt@))
    }
}

/// The services of a list, as values.
pub open spec fn services_view(v: Seq<MdnsService>) -> Seq<ServiceView> {
    Seq::new(v.len(), |i: int| v[i].view())
}

/// The target host and port of the first SRV record for `inst`.
pub open spec fn first_srv(srv: Seq<(Seq<char>, Seq<char>, u16)>, inst: Seq<char>) -> Option<(Seq<char>, u16)>
    decreases srv.len(),
{
    if srv.len() == 0 {
        None
    } else if srv[0].0 == inst {
        Some((srv[0].1, srv[0].2))
    } else {
        first_srv(srv.drop_first(), inst)
    }
}

/// The address of `host` from its last address record.
pub open spec fn last_addr(addr: Seq<(Seq<char>, Seq<char>)>, host: Seq<char>) -> Option<Seq<char>>
    decreases addr.len(),
{
    if addr.len() == 0 {
        None
    } else if addr.last().0 == host {
        Some(addr.last().1)
    } else {
        last_addr(addr.drop_last(), host)
    }
}

/// The properties of the first TXT record for `inst` (none without one).
pub open spec fn first_txt(txt: Seq<(Seq<char>, TxtPairs)>, inst: Seq<char>) -> TxtPairs
    decreases txt.len(),
{
    if txt.len() == 0 {
        Seq::empty()
    } else if txt[0].0 == inst {
        txt[0].1
    } else {
        first_txt(txt.drop_first(), inst)
    }
}

/// The address found for a service: of its host, else of the host with
/// `.local`, else of the instance's first label with `.local`, else empty.
pub open spec fn service_ip(addr: Seq<(Seq<char>, Seq<char>)>, host: Seq<char>, inst: Seq<char>) -> Seq<char> {
    match last_addr(addr, host) {
        Some(ip) => ip,
        None => match last_addr(addr, trim_local(host) + ".local"@) {
            Some(ip) => ip,
            None => match last_addr(addr, instance_host(inst) + ".local"@) {
                Some(ip) => ip,
                None => Seq::empty(),
            },
        },
    }
}

/// The service a PTR record (service name, instance) describes: its SRV
/// record gives host and port (else the instance without `.local`, port 0).
pub open spec fn service_for(r: MdnsRecords, p: (Seq<char>, Seq<char>)) -> ServiceView {
    let inst = p.1;
    let (host, port) = match first_srv(r.srv, inst) {
        Some((h, port)) => (h, port),
        None => (trim_local(inst), 0u16),
    };
    (service_type_of(p.0), trim_local(host), service_ip(r.addr, host, inst), port, first_txt(r.txt, inst))
}

/// Two services with the same address, port and host name.
pub open spec fn same_endpoint(a: ServiceView, b: ServiceView) -> bool {
    a.2 == b.2 && a.3 == b.3 && a.1 == b.1
}

/// Consecutive services with the same address, port and host name
/// collapsed into the first of them.
pub open spec fn dedup_services(s: Seq<ServiceView>) -> Seq<ServiceView>
    decreases s.len(),
{
    if s.len() == 0 {
        s
    } else {
        let d = dedup_services(s.drop_last());
        if d.len() > 0 && same_endpoint(d.last(), s.last()) { d } else { d.push(s.last()) }
    }
}

/// The services that gathered records describe, one per PTR record, with
/// consecutive repeats collapsed.
pub open spec fn services_of(r: MdnsRecords) -> Seq<ServiceView> {
    dedup_services(Seq::new(r.ptr.len(), |i: int| service_for(r, r.ptr[i])))
}

fn clone_pairs(v: &Vec<(String, String)>) -> (r: Vec<(String, String)>)
    ensures
        pairs_view(r@) == pairs_view(v@),
{
    let mut r: Vec<(String, String)> = Vec::new();
    let mut i: usize = 0;
    while i < v.len()
        invariant
            i <= v@.len(),
            pairs_view(r@) == pairs_view(v@).subrange(0, i as int),
        decreases v@.len() - i,
    {
        let k = v[i].0.clone();
        let x = v[i].1.clone();
        assert(k@ == v@[i as int].0@ && x@ == v@[i as int].1@);
        let ghost before = pairs_view(r@);
        r.push((k, x));
        assert(pairs_view(r@) =~= before.push((v@[i as int].0@, v@[i as int].1@)));
        assert(pairs_view(v@).subrange(0, i + 1) =~= pairs_view(v@).subrange(0, i as int).push(pairs_view(v@)[i as int]));
        i = i + 1;
    }
    assert(pairs_view(v@).subrange(0, v@.len() as int) =~= pairs_view(v@));
    r
}

fn find_srv(recs: &RecordLists, inst: &str) -> (r: Option<(String, u16)>)
    ensures
        match r {
            Some((h, p)) => first_srv(recs.view().srv, inst@) == Some((h@, p)),
            None => first_srv(recs.view().srv, inst@) is None,
        },
{
    let ghost srv = recs.view().srv;
    let mut i: usize = 0;
    assert(srv.subrange(0, srv.len() as int) =~= srv);
    while i < recs.srv.len()
        invariant
            srv == recs.view().srv,
            i <= srv.len(),
            first_srv(srv, inst@) == first_srv(srv.subrange(i as int, srv.len() as int), inst@),
        decreases srv.len() - i,
    {
        let ghost rest = srv.subrange(i as int, srv.len() as int);
        assert(rest.drop_first() =~= srv.subrange(i + 1, srv.len() as int));
        if str_eq(recs.srv[i].0.as_str(), inst) {
            return Some((recs.srv[i].1.clone(), recs.srv[i].2));
        }
        i = i + 1;
    }
    None
}

fn find_addr(recs: &RecordLists, host: &str) -> (r: Option<String>)
    ensures
        match r {
            Some(ip) => last_addr(recs.view().addr, host@) == Some(ip@),
            None => last_addr(recs.view().addr, host@) is None,
        },
{
    let ghost addr = recs.view().addr;
    let mut i = recs.addr.len();
    assert(addr.subrange(0, i as int) =~= addr);
    while i > 0
        invariant
            addr == recs.view().addr,
            i <= addr.len(),
            last_addr(addr, host@) == last_addr(addr.subrange(0, i as int), host@),
        decreases i,
    {
        assert(addr.subrange(0, i as int).drop_last() =~= addr.subrange(0, i - 1));
        if str_eq(recs.addr[i - 1].0.as_str(), host) {
            return Some(recs.addr[i - 1].1.clone());
        }
        i = i - 1;
    }
    None
}

fn find_txt(recs: &RecordLists, inst: &str) -> (r: Vec<(String, String)>)
    ensures
        pairs_view(r@) == first_txt(recs.view().txt, inst@),
{
    let ghost txt = recs.view().txt;
    let mut i: usize = 0;
    assert(txt.subrange(0, txt.len() as int) =~= txt);
    while i < recs.txt.len()
        invariant
            txt == recs.view().txt,
            i <= txt.len(),
            first_txt(txt, inst@) == first_txt(txt.subrange(i as int, txt.len() as int), inst@),
        decreases txt.len() - i,
    {
        let ghost rest = txt.subrange(i as int, txt.len() as int);
        assert(rest.drop_first() =~= txt.subrange(i + 1, txt.len() as int));
        if str_eq(recs.txt[i].0.as_str(), inst) {
            return clone_pairs(&recs.txt[i].1);
        }
        i = i + 1;
    }
    let r: Vec<(String, String)> = Vec::new();
    assert(pairs_view(r@) =~= Seq::<(Seq<char>, Seq<char>)>::empty());
    r
}

fn with_local(s: &str) -> (r: String)
    ensures
        r@ == s@ + ".local"@,
{
    let mut r = String::from_str(s);
    r.append(".local");
    r
}

fn service_ip_exec(recs: &RecordLists, host: &str, inst: &str) -> (r: String)
    ensures
        r@ == service_ip(recs.view().addr, host@, inst@),
{
    if let Some(ip) = find_addr(recs, host) {
        return ip;
    }
    let trimmed = trim_local_suffix(host);
    let h2 = with_local(trimmed.as_str());
    if let Some(ip) = find_addr(recs, h2.as_str()) {
        return ip;
    }
    let ih = extract_hostname_from_instance(inst);
    let h3 = with_local(ih.as_str());
    if let Some(ip) = find_addr(recs, h3.as_str()) {
        return ip;
    }
    String::new()
}

/// Joins the records into services (see [`services_of`]).
pub fn build_services(recs: &RecordLists) -> (r: Vec<MdnsService>)
    ensures
        services_view(r@) == services_of(recs.view()),
{
    let ghost all = Seq::new(recs.view().ptr.len(), |i: int| service_for(recs.view(), recs.view().ptr[i]));
    let mut out: Vec<MdnsService> = Vec::new();
    let mut i: usize = 0;
    assert(all.subrange(0, 0) =~= Seq::<ServiceView>::empty());
    assert(services_view(out@) =~= dedup_services(all.subrange(0, 0)));
    while i < recs.ptr.len()
        invariant
            all == Seq::new(recs.view().ptr.len(), |i: int| service_for(recs.view(), recs.view().ptr[i])),
            i <= recs.ptr@.len(),
            services_view(out@) == dedup_services(all.subrange(0, i as int)),
        decreases recs.ptr@.len() - i,
    {
        let sd = recs.ptr[i].0.as_str();
        let inst = recs.ptr[i].1.as_str();
        let service_type = extract_service_type(sd);
        let (host, port) = match find_srv(recs, inst) {
            Some((h, p)) => (h, p),
            None => (trim_local_suffix(inst), 0u16),
        };
        let ip = service_ip_exec(recs, host.as_str(), inst);
        let txt = find_txt(recs, inst);
        let hostname = trim_local_suffix(host.as_str());
        let svc = MdnsService { service_type, hostname, ip, port, txt };
        let ghost sv = svc.view();
        assert(sv == all[i as int]);
        let ghost pre = all.subrange(0, i + 1);
        assert(pre.drop_last() =~= all.subrange(0, i as int));
        let ghost d = services_view(out@);
        let keep = if out.len() > 0 {
            let last = &out[out.len() - 1];
            !(str_eq(last.ip.as_str(), svc.ip.as_str()) && last.port == svc.port
                && str_eq(last.hostname.as_str(), svc.hostname.as_str()))
        } else {
            true
        };
        if keep {
            out.push(svc);
            assert(services_view(out@) =~= d.push(sv));
        }
        i = i + 1;
    }
    assert(all.subrange(0, recs.ptr@.len() as int) =~= all);
    out
}

/// The services described by the records of all responses.
pub open spec fn services_in(rs: Seq<Seq<u8>>) -> Walk<Seq<ServiceView>> {
    match all_records(rs) {
        Walk::Hangs => Walk::Hangs,
        Walk::Ends(r) => Walk::Ends(services_of(r)),
    }
}

/// Parses every response and joins the PTR, SRV, address and TXT records
/// into services.
pub fn parse_all_services(responses: &[Vec<u8>]) -> (r: Vec<MdnsService>)
    requires
        forall|i: int| 0 <= i < responses@.len() ==> buffer_fits(#[trigger] responses@[i]@),
        ends(all_records(responses_view(responses@))),
    ensures
        services_in(responses_view(responses@)) == Walk::Ends(services_view(r@)),
{
    let recs = parse_all_records(responses);
    build_services(&recs)
}


/// The service type a PTR target names: its first two labels, when there
/// are at least two and the first begins with `_`.
pub open spec fn ptr_service_type(sn: Seq<char>) -> Option<Seq<char>> {
    let parts = split_on(sn, '.');
    if parts.len() >= 2 {
        let st = parts[0] + "."@ + parts[1];
        if st[0] == '_' { Some(st) } else { None }
    } else {
        None
    }
}

/// The service types after a record of type `rtype` with data at `rd`:
/// a PTR record adds the type it names, unless already listed.
pub open spec fn types_effect(data: Seq<u8>, rtype: int, rd: int, types: Seq<Seq<char>>) -> Walk<Seq<Seq<char>>> {
    if rtype == TYPE_PTR {
        match dns_name_at(data, rd) {
            Walk::Hangs => Walk::Hangs,
            Walk::Ends(None) => Walk::Ends(types),
            Walk::Ends(Some((sn, _))) => match ptr_service_type(sn) {
                Some(st) => Walk::Ends(if types.contains(st) { types } else { types.push(st) }),
                None => Walk::Ends(types),
            },
        }
    } else {
        Walk::Ends(types)
    }
}

/// The service types named by up to `count` answers from `off` (reading
/// stops as in [`section_walk`]).
pub open spec fn types_walk(data: Seq<u8>, off: int, count: nat, types: Seq<Seq<char>>) -> Walk<Seq<Seq<char>>>
    decreases count,
{
    if count == 0 || off >= data.len() {
        Walk::Ends(types)
    } else {
        match dns_name_at(data, off) {
            Walk::Hangs => Walk::Hangs,
            Walk::Ends(None) => Walk::Ends(types),
            Walk::Ends(Some((_, o))) => {
                if o + 10 > data.len() {
                    Walk::Ends(types)
                } else {
                    let rd = o + 10;
                    let rdlen = be16(data, o + 8);
                    if rd + rdlen > data.len() {
                        Walk::Ends(types)
                    } else {
                        match types_effect(data, be16(data, o), rd, types) {
                            Walk::Hangs => Walk::Hangs,
                            Walk::Ends(t2) => types_walk(data, rd + rdlen, (count - 1) as nat, t2),
                        }
                    }
                }
            },
        }
    }
}

/// The service types named in the answers of the responses from the `i`-th on.
pub open spec fn types_from(rs: Seq<Seq<u8>>, i: int, types: Seq<Seq<char>>) -> Walk<Seq<Seq<char>>>
    decreases rs.len() - i,
{
    if i < 0 || i >= rs.len() {
        Walk::Ends(types)
    } else {
        let data = rs[i];
        let here = if data.len() < 12 {
            Walk::Ends(types)
        } else {
            match skip_questions(data, 12, be16(data, 4) as nat) {
                None => Walk::Ends(types),
                Some(o) => types_walk(data, o, be16(data, 6) as nat, types),
            }
        };
        match here {
            Walk::Hangs => Walk::Hangs,
            Walk::Ends(t) => types_from(rs, i + 1, t),
        }
    }
}

fn contains_string(v: &Vec<String>, s: &String) -> (b: bool)
    ensures
        b == v@.map_values(|x: String| x@).contains(s@),
{
    let ghost m = v@.map_values(|x: String| x@);
    let mut i: usize = 0;
    while i < v.len()
        invariant
            m == v@.map_values(|x: String| x@),
            i <= v@.len(),
            forall|j: int| 0 <= j < i ==> m[j] != s@,
        decreases v@.len() - i,
    {
        if str_eq(v[i].as_str(), s.as_str()) {
            assert(m[i as int] == s@);
            return true;
        }
        i = i + 1;
    }
    false
}

fn ptr_service_type_exec(sn: &str) -> (r: Option<String>)
    ensures
        match r {
            Some(st) => ptr_service_type(sn@) == Some(st@),
            None => ptr_service_type(sn@) is None,
        },
{
    let v = str_chars(sn);
    let parts = split_chars(&v, '.');
    if parts.len() >= 2 {
        let st = dotted_pair(&parts[0], &parts[1]);
        let c = str_chars(st.as_str());
        proof { reveal_strlit("."); }
        assert(c@.len() > 0);
        if c[0] == '_' {
            return Some(st);
        }
    }
    None
}

fn types_in_answers(data: &[u8], offset: usize, count: u16, types: &mut Vec<String>)
    requires
        buffer_fits(data@),
        offset <= data@.len() + 5,
        ends(types_walk(data@, offset as int, count as nat, old(types)@.map_values(|x: String| x@))),
    ensures
        types_walk(data@, offset as int, count as nat, old(types)@.map_values(|x: String| x@))
            == Walk::Ends(final(types)@.map_values(|x: String| x@)),
{
    let ghost w0 = types_walk(data@, offset as int, count as nat, types@.map_values(|x: String| x@));
    let mut off = offset;
    let mut left = count;
    while left > 0
        invariant
            buffer_fits(data@),
            off <= data@.len() + 0x10010,
            w0 == types_walk(data@, off as int, left as nat, types@.map_values(|x: String| x@)),
            w0 == types_walk(data@, offset as int, count as nat, old(types)@.map_values(|x: String| x@)),
            ends(w0),
        decreases left,
    {
        if off >= data.len() {
            return;
        }
        let (_, o) = match name_value(data, off) {
            None => { return; },
            Some(x) => x,
        };
        if o + 10 > data.len() {
            return;
        }
        let rtype = read_be16(data, o);
        let rdlen = read_be16(data, o + 8) as usize;
        let rd = o + 10;
        if rd + rdlen > data.len() {
            return;
        }
        let ghost before = types@.map_values(|x: String| x@);
        if rtype == TYPE_PTR {
            match name_value(data, rd) {
                Some((sn, _)) => {
                    match ptr_service_type_exec(sn.as_str()) {
                        Some(st) => {
                            if !contains_string(types, &st) {
                                let ghost stv = st@;
                                types.push(st);
                                assert(types@.map_values(|x: String| x@) =~= before.push(stv));
                            }
                        },
                        None => {},
                    }
                },
                None => {},
            }
        }
        off = rd + rdlen;
        left = left - 1;
    }
}

/// The service types advertised in enumeration responses: the first two
/// labels of each PTR answer's target (like `_http._tcp` of
/// `_http._tcp.local`) that begin with `_`, each listed once, in order.
pub fn extract_service_types(responses: &[Vec<u8>]) -> (r: Vec<String>)
    requires
        forall|i: int| 0 <= i < responses@.len() ==> buffer_fits(#[trigger] responses@[i]@),
        ends(types_from(responses_view(responses@), 0, Seq::empty())),
    ensures
        types_from(responses_view(responses@), 0, Seq::empty()) == Walk::Ends(r@.map_values(|x: String| x@)),
{
    let ghost rs = responses_view(responses@);
    let mut types: Vec<String> = Vec::new();
    assert(types@.map_values(|x: String| x@) =~= Seq::<Seq<char>>::empty());
    let mut i: usize = 0;
    while i < responses.len()
        invariant
            rs == responses_view(responses@),
            forall|j: int| 0 <= j < responses@.len() ==> buffer_fits(#[trigger] responses@[j]@),
            i <= responses@.len(),
            types_from(rs, 0, Seq::empty()) == types_from(rs, i as int, types@.map_values(|x: String| x@)),
            ends(types_from(rs, 0, Seq::empty())),
        decreases responses@.len() - i,
    {
        let data = responses[i].as_slice();
        assert(data@ == rs[i as int]);
        if data.len() >= 12 {
            match skip_question_section(data, 12) {
                Ok(o) => {
                    let an = read_be16(data, 6);
                    assert(an as nat == be16(data@, 6) as nat);
                    types_in_answers(data, o, an, &mut types);
                },
                Err(_) => {},
            }
        }
        i = i + 1;
    }
    types
}


/// The service types the discovery asks for.
pub open spec fn known_service_types() -> Seq<Seq<char>> {
    seq!["_http._tcp"@, "_https._tcp"@, "_smb._tcp"@, "_ssh._tcp"@, "_ftp._tcp"@,
        "_afpovertcp._tcp"@, "_rdp._tcp"@, "_teamviewer._tcp"@, "_vnc._tcp"@]
}

/// The service types the discovery asks for, in order.
pub fn service_types() -> (r: Vec<String>)
    ensures
        r@.map_values(|x: String| x@) == known_service_types(),
{
    let r = vec![
        String::from_str("_http._tcp"),
        String::from_str("_https._tcp"),
        String::from_str("_smb._tcp"),
        String::from_str("_ssh._tcp"),
        String::from_str("_ftp._tcp"),
        String::from_str("_afpovertcp._tcp"),
        String::from_str("_rdp._tcp"),
        String::from_str("_teamviewer._tcp"),
        String::from_str("_vnc._tcp"),
    ];
    assert(r@.map_values(|x: String| x@) =~= known_service_types());
    r
}

/// The types to query after enumeration: every known type, then each
/// discovered known type not yet listed (so always the known types).
pub fn query_types(discovered: &Vec<String>) -> (r: Vec<String>)
    ensures
        r@.map_values(|x: String| x@) == known_service_types(),
{
    let known = service_types();
    let mut targets: Vec<String> = Vec::new();
    let mut i: usize = 0;
    while i < known.len()
        invariant
            known@.map_values(|x: String| x@) == known_service_types(),
            i <= known@.len(),
            forall|j: int| 0 <= j < targets@.len() ==> known@.map_values(|x: String| x@).contains(#[trigger] targets@[j]@),
        decreases known@.len() - i,
    {
        if contains_string(discovered, &known[i]) {
            assert(known@.map_values(|x: String| x@)[i as int] == known@[i as int]@);
            targets.push(known[i].clone());
        }
        i = i + 1;
    }
    let mut query = service_types();
    let mut t: usize = 0;
    while t < targets.len()
        invariant
            query@.map_values(|x: String| x@) == known_service_types(),
            known@.map_values(|x: String| x@) == known_service_types(),
            t <= targets@.len(),
            forall|j: int| 0 <= j < targets@.len() ==> known@.map_values(|x: String| x@).contains(#[trigger] targets@[j]@),
        decreases targets@.len() - t,
    {
        assert(known@.map_values(|x: String| x@).contains(targets@[t as int]@));
        if !contains_string(&query, &targets[t]) {
            query.push(targets[t].clone());
        }
        t = t + 1;
    }
    query
}


/// Whether reading the effect of one record ends (only PTR and SRV records
/// read a name).
pub open spec fn effect_stops(data: Seq<u8>, rtype: int, rd: int, rdlen: int) -> bool {
    if rtype == TYPE_PTR {
        ends(dns_name_at(data, rd))
    } else if rtype == TYPE_SRV && rdlen >= 7 {
        ends(dns_name_at(data, rd + 6))
    } else {
        true
    }
}

/// Where reading up to `count` records from `off` stops (as
/// [`section_walk`] reads them), or `None` when it never ends.
pub open spec fn section_stop(data: Seq<u8>, off: int, count: nat) -> Option<int>
    decreases count,
{
    if count == 0 || off >= data.len() {
        Some(off)
    } else {
        match dns_name_at(data, off) {
            Walk::Hangs => None,
            Walk::Ends(None) => Some(off),
            Walk::Ends(Some((_, o))) => {
                if o + 10 > data.len() {
                    Some(o)
                } else {
                    let rd = o + 10;
                    let rdlen = be16(data, o + 8);
                    if rd + rdlen > data.len() {
                        Some(rd)
                    } else if !effect_stops(data, be16(data, o), rd, rdlen) {
                        None
                    } else {
                        section_stop(data, rd + rdlen, (count - 1) as nat)
                    }
                }
            },
        }
    }
}

proof fn lemma_section_stop(data: Seq<u8>, off: int, count: nat, acc: MdnsRecords)
    ensures
        match section_walk(data, off, count, acc) {
            Walk::Hangs => section_stop(data, off, count) is None,
            Walk::Ends((_, e)) => section_stop(data, off, count) == Some(e),
        },
    decreases count,
{
    if count > 0 && off < data.len() {
        if let Walk::Ends(Some((name, o))) = dns_name_at(data, off) {
            if o + 10 <= data.len() {
                let rd = o + 10;
                let rdlen = be16(data, o + 8);
                if rd + rdlen <= data.len() {
                    let eff = record_effect(data, name, be16(data, o), rd, rdlen, acc);
                    assert(ends(eff) == effect_stops(data, be16(data, o), rd, rdlen));
                    if let Walk::Ends(acc2) = eff {
                        lemma_section_stop(data, rd + rdlen, (count - 1) as nat, acc2);
                    }
                }
            }
        }
    }
}

/// Whether reading the records of one response ends.
pub open spec fn response_stops(data: Seq<u8>) -> bool {
    if data.len() < 12 {
        true
    } else {
        match skip_questions(data, 12, be16(data, 4) as nat) {
            None => true,
            Some(o) => match section_stop(data, o, be16(data, 6) as nat) {
                None => false,
                Some(o1) => match section_stop(data, o1, be16(data, 8) as nat) {
                    None => false,
                    Some(o2) => section_stop(data, o2, be16(data, 10) as nat) is Some,
                },
            },
        }
    }
}

proof fn lemma_response_stops(data: Seq<u8>, acc: MdnsRecords)
    ensures
        ends(response_records(data, acc)) == response_stops(data),
{
    if data.len() >= 12 {
        if let Some(o) = skip_questions(data, 12, be16(data, 4) as nat) {
            lemma_section_stop(data, o, be16(data, 6) as nat, acc);
            if let Walk::Ends((acc1, o1)) = section_walk(data, o, be16(data, 6) as nat, acc) {
                lemma_section_stop(data, o1, be16(data, 8) as nat, acc1);
                if let Walk::Ends((acc2, o2)) = section_walk(data, o1, be16(data, 8) as nat, acc1) {
                    lemma_section_stop(data, o2, be16(data, 10) as nat, acc2);
                }
            }
        }
    }
}

proof fn lemma_records_stop(rs: Seq<Seq<u8>>, i: int, acc: MdnsRecords)
    requires
        0 <= i <= rs.len(),
    ensures
        ends(records_from(rs, i, acc)) == (forall|j: int| i <= j < rs.len() ==> response_stops(#[trigger] rs[j])),
    decreases rs.len() - i,
{
    if i < rs.len() {
        lemma_response_stops(rs[i], acc);
        if let Walk::Ends(a) = response_records(rs[i], acc) {
            lemma_records_stop(rs, i + 1, a);
            if forall|j: int| i + 1 <= j < rs.len() ==> response_stops(#[trigger] rs[j]) {
                assert forall|j: int| i <= j < rs.len() implies response_stops(#[trigger] rs[j]) by {
                    if j > i {
                        assert(response_stops(rs[j]));
                    }
                }
            }
        }
    }
}

fn section_stop_exec(data: &[u8], off: usize, count: u16) -> (r: Option<usize>)
    requires
        buffer_fits(data@),
        off <= data@.len() + 5,
    ensures
        match r {
            Some(x) => section_stop(data@, off as int, count as nat) == Some(x as int) && x <= data@.len() + 5,
            None => section_stop(data@, off as int, count as nat) is None,
        },
{
    let n = data.len();
    let mut o = off;
    let mut left = count;
    while left > 0 && o < n
        invariant
            buffer_fits(data@),
            n == data@.len(),
            o <= n + 5,
            section_stop(data@, off as int, count as nat) == section_stop(data@, o as int, left as nat),
        decreases left,
    {
        if !dns_name_walk_ends(data, o) {
            return None;
        }
        let p = match name_value(data, o) {
            None => { return Some(o); },
            Some((_, p)) => p,
        };
        if p > n || n - p < 10 {
            return Some(p);
        }
        let rtype = read_be16(data, p);
        let rdlen = read_be16(data, p + 8) as usize;
        let rd = p + 10;
        if rdlen > n - rd {
            return Some(rd);
        }
        let stops = if rtype == TYPE_PTR {
            dns_name_walk_ends(data, rd)
        } else if rtype == TYPE_SRV && rdlen >= 7 {
            dns_name_walk_ends(data, rd + 6)
        } else {
            true
        };
        if !stops {
            return None;
        }
        o = rd + rdlen;
        left = left - 1;
    }
    Some(o)
}

/// Whether reading the records of one response ends: `false` exactly when
/// a name in it has compression pointers that cycle forever.
pub fn mdns_response_walk_ends(data: &[u8]) -> (b: bool)
    requires
        buffer_fits(data@),
    ensures
        b == response_stops(data@),
{
    if data.len() < 12 {
        return true;
    }
    let o = match skip_question_section(data, 12) {
        Err(_) => { return true; },
        Ok(o) => o,
    };
    let an = read_be16(data, 6);
    let ns = read_be16(data, 8);
    let ar = read_be16(data, 10);
    let o1 = match section_stop_exec(data, o, an) {
        None => { return false; },
        Some(x) => x,
    };
    let o2 = match section_stop_exec(data, o1, ns) {
        None => { return false; },
        Some(x) => x,
    };
    section_stop_exec(data, o2, ar).is_some()
}

/// Whether parsing all the responses ends (what [`parse_all_services`]
/// requires): `false` exactly when a name in one of them has compression
/// pointers that cycle forever.
pub fn mdns_responses_walk_end(responses: &[Vec<u8>]) -> (b: bool)
    requires
        forall|i: int| 0 <= i < responses@.len() ==> buffer_fits(#[trigger] responses@[i]@),
    ensures
        b == ends(all_records(responses_view(responses@))),
{
    let ghost rs = responses_view(responses@);
    proof {
        lemma_records_stop(rs, 0, no_records());
    }
    assert(ends(all_records(rs)) == (forall|j: int| 0 <= j < rs.len() ==> response_stops(#[trigger] rs[j])));
    let mut i: usize = 0;
    while i < responses.len()
        invariant
            i <= responses@.len(),
            rs == responses_view(responses@),
            forall|k: int| 0 <= k < responses@.len() ==> buffer_fits(#[trigger] responses@[k]@),
            forall|j: int| 0 <= j < i ==> response_stops(#[trigger] rs[j]),
            rs.len() == responses@.len(),
            ends(all_records(rs)) == (forall|j: int| 0 <= j < rs.len() ==> response_stops(#[trigger] rs[j])),
        decreases responses@.len() - i,
    {
        assert(rs[i as int] == responses@[i as int]@);
        if !mdns_response_walk_ends(responses[i].as_slice()) {
            return false;
        }
        i = i + 1;
    }
    true
}


/// Whether reading the service types of up to `count` answers from `off`
/// (as [`types_walk`] reads them) ends.
pub open spec fn types_stop(data: Seq<u8>, off: int, count: nat) -> bool
    decreases count,
{
    if count == 0 || off >= data.len() {
        true
    } else {
        match dns_name_at(data, off) {
            Walk::Hangs => false,
            Walk::Ends(None) => true,
            Walk::Ends(Some((_, o))) => {
                if o + 10 > data.len() {
                    true
                } else {
                    let rd = o + 10;
                    let rdlen = be16(data, o + 8);
                    if rd + rdlen > data.len() {
                        true
                    } else if be16(data, o) == TYPE_PTR && !ends(dns_name_at(data, rd)) {
                        false
                    } else {
                        types_stop(data, rd + rdlen, (count - 1) as nat)
                    }
                }
            },
        }
    }
}

proof fn lemma_types_stop(data: Seq<u8>, off: int, count: nat, types: Seq<Seq<char>>)
    ensures
        ends(types_walk(data, off, count, types)) == types_stop(data, off, count),
    decreases count,
{
    if count > 0 && off < data.len() {
        if let Walk::Ends(Some((_, o))) = dns_name_at(data, off) {
            if o + 10 <= data.len() {
                let rd = o + 10;
                let rdlen = be16(data, o + 8);
                if rd + rdlen <= data.len() {
                    if let Walk::Ends(t2) = types_effect(data, be16(data, o), rd, types) {
                        lemma_types_stop(data, rd + rdlen, (count - 1) as nat, t2);
                    }
                }
            }
        }
    }
}

/// Whether reading the service types of one response ends.
pub open spec fn response_types_stop(data: Seq<u8>) -> bool {
    if data.len() < 12 {
        true
    } else {
        match skip_questions(data, 12, be16(data, 4) as nat) {
            None => true,
            Some(o) => types_stop(data, o, be16(data, 6) as nat),
        }
    }
}

proof fn lemma_types_from_stop(rs: Seq<Seq<u8>>, i: int, types: Seq<Seq<char>>)
    requires
        0 <= i <= rs.len(),
    ensures
        ends(types_from(rs, i, types)) == (forall|j: int| i <= j < rs.len() ==> response_types_stop(#[trigger] rs[j])),
    decreases rs.len() - i,
{
    if i < rs.len() {
        let data = rs[i];
        if data.len() >= 12 {
            if let Some(o) = skip_questions(data, 12, be16(data, 4) as nat) {
                lemma_types_stop(data, o, be16(data, 6) as nat, types);
            }
        }
        let here = if data.len() < 12 {
            Walk::Ends(types)
        } else {
            match skip_questions(data, 12, be16(data, 4) as nat) {
                None => Walk::Ends(types),
                Some(o) => types_walk(data, o, be16(data, 6) as nat, types),
            }
        };
        if let Walk::Ends(t) = here {
            lemma_types_from_stop(rs, i + 1, t);
            if forall|j: int| i + 1 <= j < rs.len() ==> response_types_stop(#[trigger] rs[j]) {
                assert forall|j: int| i <= j < rs.len() implies response_types_stop(#[trigger] rs[j]) by {
                    if j > i {
                        assert(response_types_stop(rs[j]));
                    }
                }
            }
        }
    }
}

fn types_stop_exec(data: &[u8], off: usize, count: u16) -> (b: bool)
    requires
        buffer_fits(data@),
        off <= data@.len() + 5,
    ensures
        b == types_stop(data@, off as int, count as nat),
{
    let n = data.len();
    let mut o = off;
    let mut left = count;
    while left > 0 && o < n
        invariant
            buffer_fits(data@),
            n == data@.len(),
            o <= n + 5,
            types_stop(data@, off as int, count as nat) == types_stop(data@, o as int, left as nat),
        decreases left,
    {
        if !dns_name_walk_ends(data, o) {
            return false;
        }
        let p = match name_value(data, o) {
            None => { return true; },
            Some((_, p)) => p,
        };
        if p > n || n - p < 10 {
            return true;
        }
        let rtype = read_be16(data, p);
        let rdlen = read_be16(data, p + 8) as usize;
        let rd = p + 10;
        if rdlen > n - rd {
            return true;
        }
        if rtype == TYPE_PTR && !dns_name_walk_ends(data, rd) {
            return false;
        }
        o = rd + rdlen;
        left = left - 1;
    }
    true
}

/// Whether listing the service types of the responses ends (what
/// [`extract_service_types`] requires): `false` exactly when a name read in
/// an answer has compression pointers that cycle forever.
pub fn mdns_types_walk_end(responses: &[Vec<u8>]) -> (b: bool)
    requires
        forall|i: int| 0 <= i < responses@.len() ==> buffer_fits(#[trigger] responses@[i]@),
    ensures
        b == ends(types_from(responses_view(responses@), 0, Seq::empty())),
{
    let ghost rs = responses_view(responses@);
    proof {
        lemma_types_from_stop(rs, 0, Seq::empty());
    }
    assert(ends(types_from(rs, 0, Seq::empty())) == (forall|j: int| 0 <= j < rs.len() ==> response_types_stop(#[trigger] rs[j])));
    let mut i: usize = 0;
    while i < responses.len()
        invariant
            i <= responses@.len(),
            rs == responses_view(responses@),
            rs.len() == responses@.len(),
            forall|k: int| 0 <= k < responses@.len() ==> buffer_fits(#[trigger] responses@[k]@),
            forall|j: int| 0 <= j < i ==> response_types_stop(#[trigger] rs[j]),
            ends(types_from(rs, 0, Seq::empty())) == (forall|j: int| 0 <= j < rs.len() ==> response_types_stop(#[trigger] rs[j])),
        decreases responses@.len() - i,
    {
        let data = responses[i].as_slice();
        assert(rs[i as int] == data@);
        let ok = if data.len() < 12 {
            true
        } else {
            match skip_question_section(data, 12) {
                Err(_) => true,
                Ok(o) => {
                    let an = read_be16(data, 6);
                    types_stop_exec(data, o, an)
                },
            }
        };
        if !ok {
            return false;
        }
        i = i + 1;
    }
    true
}

} // verus!
