//! DNS wire format: query building, name encoding and decoding (with
//! compression pointers), and resource-record parsing.
use rand::RngCore;
use vstd::prelude::*;
use vstd::string::*;
use crate::text::{
    chars_eq, push_joined, split_chars, string_from_chars, views, decimal, decimal_string, join, lemma_split_on_nonempty, lemma_split_on_step, parse_uint,
    parse_uint_range, push_bytes, push_char, push_decimal, push_str, split_on, str_chars,
    string_from_range,
};

verus! {

/// Record type number of an IPv4 address record.
pub const TYPE_A: u16 = 1;
/// Record type number of an IPv6 address record.
pub const TYPE_AAAA: u16 = 28;
/// Record type number of a canonical-name record.
pub const TYPE_CNAME: u16 = 5;
/// Record type number of a mail-exchange record.
pub const TYPE_MX: u16 = 15;
/// Record type number of a name-server record.
pub const TYPE_NS: u16 = 2;
/// Record type number of a start-of-authority record.
pub const TYPE_SOA: u16 = 6;
/// Record type number of a text record.
pub const TYPE_TXT: u16 = 16;

/// The record types a lookup can ask for (`All` asks for every common type).
#[derive(Clone, Copy, Debug, PartialEq, Eq)]
pub enum RecordType {
    A,
    Aaaa,
    Cname,
    Mx,
    Ns,
    Soa,
    Txt,
    All,
}

/// One resource record of a response.
#[derive(Clone, Debug)]
pub struct DnsRecord {
    pub name: String,
    pub record_type: String,
    pub value: String,
    pub ttl: u32,
}

/// Mathematical form of a record: (name, type name, value, TTL).
pub type RecordView = (Seq<char>, Seq<char>, Seq<char>, u32);

impl DnsRecord {
    pub open spec fn view(&self) -> RecordView {
        (self.name@, self.record_type@, self.value@, self.ttl)
    }
}

/// The query type numbers sent for a requested record type.
pub open spec fn qtypes_of(rt: RecordType) -> Seq<u16> {
    match rt {
        RecordType::A => seq![TYPE_A],
        RecordType::Aaaa => seq![TYPE_AAAA],
        RecordType::Cname => seq![TYPE_CNAME],
        RecordType::Mx => seq![TYPE_MX],
        RecordType::Ns => seq![TYPE_NS],
        RecordType::Soa => seq![TYPE_SOA],
        RecordType::Txt => seq![TYPE_TXT],
        RecordType::All => seq![TYPE_A, TYPE_AAAA, TYPE_CNAME, TYPE_MX, TYPE_NS, TYPE_TXT],
    }
}

/// Gets the DNS query type numbers for a record type.
pub fn get_qtypes(record_type: &RecordType) -> (r: Vec<u16>)
    ensures
        r@ == qtypes_of(*record_type),
{
    let r = match record_type {
        RecordType::A => vec![TYPE_A],
        RecordType::Aaaa => vec![TYPE_AAAA],
        RecordType::Cname => vec![TYPE_CNAME],
        RecordType::Mx => vec![TYPE_MX],
        RecordType::Ns => vec![TYPE_NS],
        RecordType::Soa => vec![TYPE_SOA],
        RecordType::Txt => vec![TYPE_TXT],
        RecordType::All => vec![TYPE_A, TYPE_AAAA, TYPE_CNAME, TYPE_MX, TYPE_NS, TYPE_TXT],
    };
    assert(r@ =~= qtypes_of(*record_type));
    r
}

/// The mnemonic of a record type number (`TYPE<n>` for unknown numbers).
pub open spec fn qtype_name(qtype: u16) -> Seq<char> {
    if qtype == TYPE_A { "A"@ }
    else if qtype == TYPE_AAAA { "AAAA"@ }
    else if qtype == TYPE_CNAME { "CNAME"@ }
    else if qtype == TYPE_MX { "MX"@ }
    else if qtype == TYPE_NS { "NS"@ }
    else if qtype == TYPE_SOA { "SOA"@ }
    else if qtype == TYPE_TXT { "TXT"@ }
    else { "TYPE"@ + decimal(qtype as nat) }
}

/// Converts a record type number to its mnemonic.
pub fn qtype_to_string(qtype: u16) -> (r: String)
    ensures
        r@ == qtype_name(qtype),
{
    if qtype == TYPE_A { String::from_str("A") }
    else if qtype == TYPE_AAAA { String::from_str("AAAA") }
    else if qtype == TYPE_CNAME { String::from_str("CNAME") }
    else if qtype == TYPE_MX { String::from_str("MX") }
    else if qtype == TYPE_NS { String::from_str("NS") }
    else if qtype == TYPE_SOA { String::from_str("SOA") }
    else if qtype == TYPE_TXT { String::from_str("TXT") }
    else {
        let mut s = String::from_str("TYPE");
        push_decimal(&mut s, qtype as u64);
        s
    }
}

/// Index of the last occurrence of `c` in `s`.
pub open spec fn last_index_of(s: Seq<char>, c: char) -> Option<int>
    decreases s.len(),
{
    if s.len() == 0 {
        None
    } else if s.last() == c {
        Some(s.len() - 1)
    } else {
        last_index_of(s.drop_last(), c)
    }
}

/// The message for a server address without a port separator.
pub open spec fn bad_server_format_msg() -> Seq<char> {
    "DNS 服务器地址格式无效，请使用 ip:port 格式 (例如 8.8.8.8:53)"@
}

/// The message for a port that does not parse.
pub open spec fn bad_port_msg(port: Seq<char>) -> Seq<char> {
    "DNS 服务器端口号无效: '"@ + port + "'"@
}

/// The message for port 0.
pub open spec fn zero_port_msg() -> Seq<char> {
    "DNS 服务器端口不能为 0"@
}

/// The outcome of validating an `ip:port` server address.
pub open spec fn server_check(addr: Seq<char>) -> Result<(), Seq<char>> {
    match last_index_of(addr, ':') {
        None => Err(bad_server_format_msg()),
        Some(k) => {
            let port = addr.subrange(k + 1, addr.len() as int);
            match parse_uint(port, 65535) {
                None => Err(bad_port_msg(port)),
                Some(p) => if p == 0 { Err(zero_port_msg()) } else { Ok(()) },
            }
        },
    }
}

/// The view of a `Result<(), String>`.
pub open spec fn unit_result_view(r: Result<(), String>) -> Result<(), Seq<char>> {
    match r {
        Ok(()) => Ok(()),
        Err(e) => Err(e@),
    }
}

/// Validates that a DNS server address is in `ip:port` form with a non-zero port.
pub fn validate_dns_server(addr: &str) -> (r: Result<(), String>)
    ensures
        unit_result_view(r) == server_check(addr@),
{
    let v = str_chars(addr);
    let mut k = v.len();
    assert(v@.subrange(0, k as int) =~= v@);
    while k > 0 && v[k - 1] != ':'
        invariant
            k <= v@.len(),
            v@ == addr@,
            last_index_of(v@, ':') == last_index_of(v@.subrange(0, k as int), ':'),
        decreases k,
    {
        assert(v@.subrange(0, k as int).drop_last() =~= v@.subrange(0, k - 1));
        k = k - 1;
    }
    if k == 0 {
        assert(v@.subrange(0, 0) =~= Seq::<char>::empty());
        return Err(String::from_str("DNS 服务器地址格式无效，请使用 ip:port 格式 (例如 8.8.8.8:53)"));
    }
    assert(v@.subrange(0, k as int).last() == ':');
    assert(last_index_of(v@, ':') == Some(k - 1));
    let ghost port_chars = v@.subrange(k as int, v@.len() as int);
    assert(port_chars == addr@.subrange((k - 1) + 1, addr@.len() as int));
    match parse_uint_range(&v, k, v.len(), 65535) {
        None => {
            let mut msg = String::from_str("DNS 服务器端口号无效: '");
            let port = string_from_range(&v, k, v.len());
            push_str(&mut msg, port.as_str());
            push_str(&mut msg, "'");
            assert(msg@ =~= bad_port_msg(v@.subrange(k as int, v@.len() as int)));
            Err(msg)
        },
        Some(p) => {
            assert(parse_uint(port_chars, 65535) == Some(p as int));
            if p == 0 {
                Err(String::from_str("DNS 服务器端口不能为 0"))
            } else {
                Ok(())
            }
        },
    }
}

/// The wire form of one label: its byte length, then its UTF-8 bytes.
pub open spec fn label_wire(label: Seq<char>) -> Seq<u8> {
    seq![vstd::utf8::encode_utf8(label).len() as u8] + vstd::utf8::encode_utf8(label)
}

/// Encodes labels in order, skipping empty ones: the bytes written, and the
/// first label longer than 63 bytes, where encoding stopped.
pub open spec fn encode_labels(labels: Seq<Seq<char>>) -> (Seq<u8>, Option<Seq<char>>)
    decreases labels.len(),
{
    if labels.len() == 0 {
        (Seq::empty(), None)
    } else {
        let prev = encode_labels(labels.drop_last());
        let l = labels.last();
        if prev.1 is Some || l.len() == 0 {
            prev
        } else if vstd::utf8::encode_utf8(l).len() > 63 {
            (prev.0, Some(l))
        } else {
            (prev.0 + label_wire(l), None)
        }
    }
}

/// The message for an empty domain name.
pub open spec fn empty_name_msg() -> Seq<char> {
    "Domain name cannot be empty"@
}

/// The message for a label over 63 bytes.
pub open spec fn long_label_msg(label: Seq<char>) -> Seq<char> {
    "Domain label '"@ + label + "' exceeds maximum DNS label length of 63 characters"@
}

/// Handles one finished label while encoding.
fn encode_one_label(label: &Vec<char>, buf: &mut Vec<u8>) -> (r: Result<(), String>)
    ensures
        label@.len() == 0 ==> r is Ok && final(buf)@ == old(buf)@,
        label@.len() > 0 && vstd::utf8::encode_utf8(label@).len() > 63 ==> (r matches Err(e)
            && e@ == long_label_msg(label@) && final(buf)@ == old(buf)@),
        label@.len() > 0 && vstd::utf8::encode_utf8(label@).len() <= 63 ==> r is Ok
            && final(buf)@ == old(buf)@ + label_wire(label@),
{
    if label.len() == 0 {
        return Ok(());
    }
    let s = string_from_range(label, 0, label.len());
    assert(label@.subrange(0, label@.len() as int) =~= label@);
    let bytes = s.as_str().as_bytes();
    if bytes.len() > 63 {
        let mut msg = String::from_str("Domain label '");
        push_str(&mut msg, s.as_str());
        push_str(&mut msg, "' exceeds maximum DNS label length of 63 characters");
        return Err(msg);
    }
    buf.push(bytes.len() as u8);
    push_bytes(buf, bytes);
    assert(final(buf)@ =~= old(buf)@ + label_wire(label@)) by {
        assert(bytes@ == vstd::utf8::encode_utf8(label@));
    }
    Ok(())
}

/// Encodes a domain name as length-prefixed labels ended by a zero byte,
/// appending to `buf`. Empty labels (from a trailing dot or consecutive dots)
/// are skipped. An empty name, or a label over 63 bytes, is an error; in the
/// latter case the labels before it have already been appended.
pub fn encode_dns_name(name: &str, buf: &mut Vec<u8>) -> (r: Result<(), String>)
    ensures
        name@.len() == 0 ==> (r matches Err(e) && e@ == empty_name_msg() && final(buf)@ == old(buf)@),
        name@.len() > 0 ==> {
            let enc = encode_labels(split_on(name@, '.'));
            match enc.1 {
                None => r is Ok && final(buf)@ == old(buf)@ + enc.0 + seq![0u8],
                Some(l) => r matches Err(e) && e@ == long_label_msg(l) && final(buf)@ == old(buf)@ + enc.0,
            }
        },
{
    if name.is_empty() {
        return Err(String::from_str("Domain name cannot be empty"));
    }
    let v = str_chars(name);
    let mut cur: Vec<char> = Vec::new();
    let mut i: usize = 0;
    assert(split_on(v@.subrange(0, 0), '.') =~= seq![Seq::<char>::empty()]);
    assert(encode_labels(Seq::<Seq<char>>::empty()) == (Seq::<u8>::empty(), None::<Seq<char>>));
    assert(old(buf)@ + Seq::<u8>::empty() =~= old(buf)@);
    while i < v.len()
        invariant
            i <= v@.len(),
            v@ == name@,
            split_on(v@.subrange(0, i as int), '.').len() >= 1,
            split_on(v@.subrange(0, i as int), '.').last() == cur@,
            encode_labels(split_on(v@.subrange(0, i as int), '.').drop_last()).1 is None,
            buf@ == old(buf)@ + encode_labels(split_on(v@.subrange(0, i as int), '.').drop_last()).0,
        decreases v@.len() - i,
    {
        let c = v[i];
        let ghost fields = split_on(v@.subrange(0, i as int), '.');
        proof {
            lemma_split_on_step(v@, '.', i as int);
        }
        if c == '.' {
            let ghost before = buf@;
            let res = encode_one_label(&cur, buf);
            let ghost next = fields.push(Seq::<char>::empty());
            assert(next.drop_last() =~= fields);
            assert(fields =~= fields.drop_last().push(cur@));
            match res {
                Err(e) => {
                    proof {
                        lemma_split_on_nonempty(v@.subrange(i + 1, v@.len() as int), '.');
                        lemma_encode_stops(v@, i as int);
                    }
                    return Err(e);
                },
                Ok(()) => {},
            }
            assert(next.last() =~= Seq::<char>::empty());
            cur = Vec::new();
        } else {
            let ghost next = fields.update(fields.len() - 1, fields.last().push(c));
            assert(next.drop_last() =~= fields.drop_last());
            cur.push(c);
            assert(next.last() =~= cur@);
        }
        i = i + 1;
    }
    assert(v@.subrange(0, v@.len() as int) =~= v@);
    let ghost fields = split_on(v@, '.');
    assert(fields =~= fields.drop_last().push(cur@));
    let res = encode_one_label(&cur, buf);
    match res {
        Err(e) => Err(e),
        Ok(()) => {
            buf.push(0);
            Ok(())
        },
    }
}

/// Once a label fails, the labels after it do not change the outcome.
proof fn lemma_encode_labels_sticky(labels: Seq<Seq<char>>, k: int)
    requires
        0 <= k <= labels.len(),
        encode_labels(labels.subrange(0, k)).1 is Some,
    ensures
        encode_labels(labels) == encode_labels(labels.subrange(0, k)),
    decreases labels.len() - k,
{
    if k < labels.len() {
        assert(labels.subrange(0, k + 1).drop_last() =~= labels.subrange(0, k));
        lemma_encode_labels_sticky(labels, k + 1);
    } else {
        assert(labels.subrange(0, k) =~= labels);
    }
}

/// `split_on` of a whole text starts with `split_on` of a prefix ending in a separator.
proof fn lemma_split_on_prefix(s: Seq<char>, sep: char, i: int)
    requires
        0 <= i < s.len(),
        s[i] == sep,
    ensures
        split_on(s, sep).len() >= split_on(s.subrange(0, i + 1), sep).len(),
        split_on(s.subrange(0, i + 1), sep).drop_last() =~= split_on(s, sep).subrange(
            0,
            split_on(s.subrange(0, i + 1), sep).len() - 1,
        ),
    decreases s.len() - i,
{
    if i + 1 == s.len() {
        assert(s.subrange(0, i + 1) =~= s);
    } else {
        lemma_split_on_prefix(s.drop_last(), sep, i);
        assert(s.drop_last().subrange(0, i + 1) =~= s.subrange(0, i + 1));
        lemma_split_on_nonempty(s.drop_last(), sep);
    }
}

/// When a label fails at separator `i`, the whole name fails the same way.
proof fn lemma_encode_stops(s: Seq<char>, i: int)
    requires
        0 <= i < s.len(),
        s[i] == '.',
        encode_labels(split_on(s.subrange(0, i + 1), '.').drop_last()).1 is Some,
    ensures
        encode_labels(split_on(s, '.')) == encode_labels(split_on(s.subrange(0, i + 1), '.').drop_last()),
{
    lemma_split_on_prefix(s, '.', i);
    let k = split_on(s.subrange(0, i + 1), '.').len() - 1;
    lemma_encode_labels_sticky(split_on(s, '.'), k);
}

/// Byte buffers this module indexes: short enough that offsets computed from
/// them (plus a 16-bit length and a few header bytes) never overflow `usize`.
pub open spec fn buffer_fits(data: Seq<u8>) -> bool {
    data.len() + 0x20000 <= usize::MAX
}

/// Where the name starting at `off` ends (one past its last byte); a
/// compression pointer ends the name after its two bytes.
pub open spec fn skip_name(data: Seq<u8>, off: int) -> Option<int>
    decreases data.len() - off,
{
    if off < 0 || off >= data.len() {
        None
    } else {
        let l = data[off];
        if l == 0 {
            Some(off + 1)
        } else if l >= 0xc0 {
            Some(off + 2)
        } else if off + 1 + l >= data.len() {
            None
        } else {
            skip_name(data, off + 1 + l)
        }
    }
}

/// The message when a name runs past the end of the message.
pub open spec fn name_end_msg() -> Seq<char> {
    "Unexpected end of DNS name"@
}

/// Skips a DNS name at `offset`, returning the offset just after it.
pub fn skip_dns_name(data: &[u8], offset: usize) -> (r: Result<usize, String>)
    requires
        buffer_fits(data@),
    ensures
        match skip_name(data@, offset as int) {
            Some(e) => r == Ok::<usize, String>(e as usize),
            None => r matches Err(m) && m@ == name_end_msg(),
        },
{
    if offset >= data.len() {
        return Err(String::from_str("Unexpected end of DNS name"));
    }
    let mut off = offset;
    loop
        invariant
            buffer_fits(data@),
            off <= data@.len() + 256,
            skip_name(data@, offset as int) == skip_name(data@, off as int),
        decreases data@.len() + 256 - off,
    {
        if off >= data.len() {
            return Err(String::from_str("Unexpected end of DNS name"));
        }
        let len = data[off];
        if len == 0 {
            return Ok(off + 1);
        }
        assert((len & 0xc0 == 0xc0) == (len >= 0xc0)) by (bit_vector);
        if len & 0xc0 == 0xc0 {
            return Ok(off + 2);
        }
        off = off + 1 + len as usize;
    }
}

/// The result of following a process that may not terminate: it either runs
/// forever or ends with a value.
pub enum Walk<T> {
    Hangs,
    Ends(T),
}

/// Steps enough for any terminating name walk over `data`: before the first
/// pointer the offset only grows, and after it a repeated offset means a cycle.
pub open spec fn name_fuel(data: Seq<u8>) -> nat {
    2 * data.len() + 4
}

/// Walks a possibly compressed name: labels read so far, whether a pointer
/// was followed, and the offset just after the name in the original position.
pub open spec fn name_walk(
    data: Seq<u8>,
    off: int,
    jumped: bool,
    end: int,
    labels: Seq<Seq<char>>,
    fuel: nat,
) -> Walk<Option<(Seq<Seq<char>>, int)>>
    decreases fuel,
{
    if fuel == 0 {
        Walk::Hangs
    } else if off < 0 || off >= data.len() {
        Walk::Ends(None)
    } else {
        let l = data[off];
        if l == 0 {
            Walk::Ends(Some((labels, if jumped { end } else { off + 1 })))
        } else if l >= 0xc0 {
            if off + 1 >= data.len() {
                Walk::Ends(None)
            } else {
                let ptr = (l - 0xc0) * 256 + data[off + 1];
                name_walk(data, ptr, true, if jumped { end } else { off + 2 }, labels, (fuel - 1) as nat)
            }
        } else if off + 1 + l > data.len() {
            Walk::Ends(None)
        } else {
            let bytes = data.subrange(off + 1, off + 1 + l);
            if !vstd::utf8::valid_utf8(bytes) {
                Walk::Ends(None)
            } else {
                let next = off + 1 + l;
                name_walk(
                    data,
                    next,
                    jumped,
                    if jumped { end } else { next },
                    labels.push(vstd::utf8::decode_utf8(bytes)),
                    (fuel - 1) as nat,
                )
            }
        }
    }
}

/// The dotted name at `off` and the offset just after it (after the first
/// pointer, if the name is compressed); `Ends(None)` for a truncated or
/// non-UTF-8 name, `Hangs` for pointers that cycle forever.
pub open spec fn dns_name_at(data: Seq<u8>, off: int) -> Walk<Option<(Seq<char>, int)>> {
    match name_walk(data, off, false, off, Seq::empty(), name_fuel(data)) {
        Walk::Hangs => Walk::Hangs,
        Walk::Ends(None) => Walk::Ends(None),
        Walk::Ends(Some((labels, e))) => Walk::Ends(Some((join(labels, "."@), e))),
    }
}

/// Whether a walk terminates.
pub open spec fn ends<T>(w: Walk<T>) -> bool {
    w is Ends
}

/// The view of a decoded name.
pub open spec fn name_view(r: Option<(String, usize)>) -> Option<(Seq<char>, int)> {
    match r {
        Some((s, e)) => Some((s@, e as int)),
        None => None,
    }
}

/// Decodes a DNS name at `offset` (following compression pointers), returning
/// the dotted name and the offset just after it. Defined for every name whose
/// pointers do not cycle forever.
pub fn decode_dns_name(data: &[u8], offset: usize) -> (r: Option<(String, usize)>)
    requires
        buffer_fits(data@),
        ends(dns_name_at(data@, offset as int)),
    ensures
        dns_name_at(data@, offset as int) == Walk::Ends(name_view(r)),
{
    let ghost fuel0 = name_fuel(data@);
    let ghost mut fuel: nat = fuel0;
    let ghost mut labels: Seq<Seq<char>> = Seq::empty();
    let mut off = offset;
    let mut jumped = false;
    let mut end_offset = offset;
    let mut name = String::new();
    let mut has_label = false;
    loop
        invariant
            buffer_fits(data@),
            name_walk(data@, offset as int, false, offset as int, Seq::empty(), fuel0)
                == name_walk(data@, off as int, jumped, end_offset as int, labels, fuel),
            ends(name_walk(data@, off as int, jumped, end_offset as int, labels, fuel)),
            name@ == join(labels, "."@),
            has_label == (labels.len() > 0),
            fuel0 == name_fuel(data@),
        decreases fuel,
    {
        if off >= data.len() {
            return None;
        }
        let len = data[off];
        if len == 0 {
            if !jumped {
                end_offset = off + 1;
            }
            return Some((name, end_offset));
        }
        assert((len & 0xc0 == 0xc0) == (len >= 0xc0)) by (bit_vector);
        if len & 0xc0 == 0xc0 {
            if off + 1 >= data.len() {
                return None;
            }
            let b = data[off + 1];
            let pointer = ((len & 0x3f) as u16) << 8 | b as u16;
            assert(len >= 0xc0 ==> ((((len & 0x3f) as u16) << 8 | b as u16) as int == (len - 0xc0) * 256 + b)) by (bit_vector);
            if !jumped {
                end_offset = off + 2;
            }
            off = pointer as usize;
            jumped = true;
            proof {
                fuel = (fuel - 1) as nat;
            }
            continue;
        }
        if off + 1 + len as usize > data.len() {
            return None;
        }
        let label = match crate::text::utf8_to_string(&data[off + 1..off + 1 + len as usize]) {
            Some(l) => l,
            None => return None,
        };
        if has_label {
            push_char(&mut name, '.');
        }
        push_str(&mut name, label.as_str());
        proof {
            let nl = labels.push(label@);
            assert(nl.drop_last() =~= labels);
            reveal_strlit(".");
            if !has_label {
                assert(labels =~= Seq::<Seq<char>>::empty());
                assert(name@ =~= join(nl, "."@));
            } else {
                assert(name@ =~= join(nl, "."@));
            }
            labels = nl;
            fuel = (fuel - 1) as nat;
        }
        has_label = true;
        off = off + 1 + len as usize;
        if !jumped {
            end_offset = off;
        }
    }
}

/// Whether an address group is all zeros (`0000` or `0`).
pub open spec fn is_zero_group(g: Seq<char>) -> bool {
    g == "0000"@ || g == "0"@
}

/// `g` without leading zeros (at least `0`).
pub open spec fn strip_zeros(g: Seq<char>) -> Seq<char>
    decreases g.len(),
{
    if g.len() > 0 && g[0] == '0' {
        strip_zeros(g.drop_first())
    } else {
        g
    }
}

/// A group written without leading zeros, `0` when nothing is left.
pub open spec fn short_group(g: Seq<char>) -> Seq<char> {
    if strip_zeros(g).len() == 0 { "0"@ } else { strip_zeros(g) }
}

/// The number of consecutive zero groups starting at group `i`.
pub open spec fn zero_run(groups: Seq<Seq<char>>, i: int) -> int
    decreases 8 - i,
{
    if i < 0 || i >= 8 || !is_zero_group(groups[i]) {
        0
    } else {
        1 + zero_run(groups, i + 1)
    }
}

/// The longest run of zero groups at or after `i` as (start, length); the
/// earliest one when several are equally long.
pub open spec fn longest_zero_run(groups: Seq<Seq<char>>, i: int) -> (int, int)
    decreases 8 - i,
{
    if i < 0 || i >= 8 {
        (0, 0)
    } else {
        let rest = longest_zero_run(groups, i + 1);
        if zero_run(groups, i) >= rest.1 {
            (i, zero_run(groups, i))
        } else {
            rest
        }
    }
}

/// An IPv6 address written with eight colon-separated groups, compressed:
/// groups lose leading zeros, and the longest run of two or more zero groups
/// becomes `::`. Text that does not have eight groups is returned as is.
pub open spec fn compressed_ipv6(ip: Seq<char>) -> Seq<char> {
    let groups = split_on(ip, ':');
    if groups.len() != 8 {
        ip
    } else {
        let short = Seq::new(8, |i: int| short_group(groups[i]));
        let (s, l) = longest_zero_run(groups, 0);
        if l < 2 {
            join(short, ":"@)
        } else if s == 0 && l == 8 {
            "::"@
        } else if s == 0 {
            "::"@ + join(short.subrange(l, 8), ":"@)
        } else if s + l == 8 {
            join(short.subrange(0, s), ":"@) + "::"@
        } else {
            join(short.subrange(0, s), ":"@) + "::"@ + join(short.subrange(s + l, 8), ":"@)
        }
    }
}

/// One group without leading zeros (`0` when nothing is left).
fn shorten_group(g: &Vec<char>) -> (r: Vec<char>)
    ensures
        r@ == short_group(g@),
{
    let mut i: usize = 0;
    assert(g@.skip(0) =~= g@);
    while i < g.len() && g[i] == '0'
        invariant
            i <= g@.len(),
            strip_zeros(g@) == strip_zeros(g@.skip(i as int)),
        decreases g@.len() - i,
    {
        assert(g@.skip(i as int).drop_first() =~= g@.skip(i + 1));
        i = i + 1;
    }
    let mut r: Vec<char> = Vec::new();
    if i == g.len() {
        r.push('0');
        assert(g@.skip(i as int) =~= Seq::<char>::empty());
        proof {
            reveal_strlit("0");
        }
        assert(r@ =~= "0"@);
        return r;
    }
    let mut j = i;
    while j < g.len()
        invariant
            i <= j <= g@.len(),
            r@ == g@.subrange(i as int, j as int),
        decreases g@.len() - j,
    {
        r.push(g[j]);
        j = j + 1;
        assert(r@ =~= g@.subrange(i as int, j as int));
    }
    assert(g@.skip(i as int) =~= g@.subrange(i as int, g@.len() as int));
    r
}

/// Collapses the longest run of zero groups of an IPv6 address to `::`.
pub fn compress_ipv6(ip: &str) -> (r: String)
    ensures
        r@ == compressed_ipv6(ip@),
{
    let v = str_chars(ip);
    let groups = split_chars(&v, ':');
    let ghost gs = views(groups@);
    if groups.len() != 8 {
        return string_from_chars(&v);
    }
    let mut short: Vec<Vec<char>> = Vec::new();
    let mut k: usize = 0;
    while k < 8
        invariant
            k <= 8,
            groups@.len() == 8,
            gs == views(groups@),
            short@.len() == k,
            forall|m: int| 0 <= m < k ==> (#[trigger] short@[m])@ == short_group(gs[m]),
        decreases 8 - k,
    {
        short.push(shorten_group(&groups[k]));
        k = k + 1;
    }
    let ghost sv = Seq::new(8, |i: int| short_group(gs[i]));
    assert(views(short@) =~= sv);
    let mut best_start: usize = 0;
    let mut best_len: usize = 0;
    let mut run: usize = 0;
    let mut i: usize = 8;
    while i > 0
        invariant
            i <= 8,
            groups@.len() == 8,
            gs == views(groups@),
            run as int == zero_run(gs, i as int),
            (best_start as int, best_len as int) == longest_zero_run(gs, i as int),
            run <= 8 - i,
        decreases i,
    {
        i = i - 1;
        let g = &groups[i];
        assert(g@ == gs[i as int]);
        if chars_eq(g, "0000") || chars_eq(g, "0") {
            run = run + 1;
        } else {
            run = 0;
        }
        if run >= best_len {
            best_start = i;
            best_len = run;
        }
    }
    let mut r = String::new();
    if best_len < 2 {
        push_joined(&mut r, &short, 0, 8, ":");
        assert(views(short@).subrange(0, 8) =~= sv);
        return r;
    }
    proof {
        lemma_longest_run_bound(gs, 0);
    }
    if best_start == 0 && best_len == 8 {
        return String::from_str("::");
    }
    if best_start == 0 {
        push_str(&mut r, "::");
        push_joined(&mut r, &short, best_len, 8, ":");
        assert(views(short@).subrange(best_len as int, 8) =~= sv.subrange(best_len as int, 8));
        return r;
    }
    push_joined(&mut r, &short, 0, best_start, ":");
    push_str(&mut r, "::");
    if best_start + best_len == 8 {
        assert(views(short@).subrange(0, best_start as int) =~= sv.subrange(0, best_start as int));
        return r;
    }
    push_joined(&mut r, &short, best_start + best_len, 8, ":");
    assert(views(short@).subrange(0, best_start as int) =~= sv.subrange(0, best_start as int));
    assert(views(short@).subrange((best_start + best_len) as int, 8) =~= sv.subrange(
        (best_start + best_len) as int,
        8,
    ));
    r
}

/// A zero run never reaches past the last group.
proof fn lemma_zero_run_bound(groups: Seq<Seq<char>>, i: int)
    ensures
        zero_run(groups, i) >= 0,
        0 <= i <= 8 ==> zero_run(groups, i) <= 8 - i,
    decreases 8 - i,
{
    if 0 <= i < 8 && is_zero_group(groups[i]) {
        lemma_zero_run_bound(groups, i + 1);
    }
}

/// The longest run found lies within the address.
proof fn lemma_longest_run_bound(groups: Seq<Seq<char>>, i: int)
    ensures
        longest_zero_run(groups, i).1 >= 0,
        longest_zero_run(groups, i).1 > 0 ==> 0 <= longest_zero_run(groups, i).0 < 8
            && longest_zero_run(groups, i).0 + longest_zero_run(groups, i).1 <= 8,
    decreases 8 - i,
{
    if 0 <= i < 8 {
        lemma_longest_run_bound(groups, i + 1);
        lemma_zero_run_bound(groups, i);
    }
}

/// Big-endian 16-bit value of `data[o..o+2]`.
pub open spec fn be16(data: Seq<u8>, o: int) -> int {
    data[o] * 256 + data[o + 1]
}

/// Big-endian 32-bit value of `data[o..o+4]`.
pub open spec fn be32(data: Seq<u8>, o: int) -> int {
    ((data[o] * 256 + data[o + 1]) * 256 + data[o + 2]) * 256 + data[o + 3]
}

pub(crate) fn read_be16(data: &[u8], o: usize) -> (r: u16)
    requires
        o + 2 <= data@.len(),
    ensures
        r as int == be16(data@, o as int),
{
    (data[o] as u16) * 256 + (data[o + 1] as u16)
}

fn read_be32(data: &[u8], o: usize) -> (r: u32)
    requires
        o + 4 <= data@.len(),
    ensures
        r as int == be32(data@, o as int),
{
    let a = data[o] as u32;
    let b = data[o + 1] as u32;
    let c = data[o + 2] as u32;
    let d = data[o + 3] as u32;
    assert(((a * 256 + b) * 256 + c) * 256 + d <= 0xffff_ffff) by (nonlinear_arith)
        requires a < 256, b < 256, c < 256, d < 256;
    ((a * 256 + b) * 256 + c) * 256 + d
}

/// The four bytes at `o` as a dotted-quad IPv4 address.
pub open spec fn dotted_quad(data: Seq<u8>, o: int) -> Seq<char> {
    decimal(data[o] as nat) + "."@ + decimal(data[o + 1] as nat) + "."@ + decimal(data[o + 2] as nat)
        + "."@ + decimal(data[o + 3] as nat)
}

/// A byte list as `{:?}` prints it: `[1, 2, 3]`.
pub open spec fn byte_list(bytes: Seq<u8>) -> Seq<char> {
    "["@ + join(Seq::new(bytes.len(), |i: int| decimal(bytes[i] as nat)), ", "@) + "]"@
}

/// The lower-case hexadecimal digit for `d` (0 to 15).
pub open spec fn hex_digit(d: int) -> char {
    if d < 10 { crate::text::digit_char(d) }
    else if d == 10 { 'a' }
    else if d == 11 { 'b' }
    else if d == 12 { 'c' }
    else if d == 13 { 'd' }
    else if d == 14 { 'e' }
    else { 'f' }
}

/// Two bytes as four lower-case hex digits (`{:02x}{:02x}`).
pub open spec fn hex_group(a: u8, b: u8) -> Seq<char> {
    seq![hex_digit((a / 16) as int), hex_digit((a % 16) as int), hex_digit((b / 16) as int), hex_digit((b % 16) as int)]
}

/// Sixteen address bytes as a compressed IPv6 address.
pub open spec fn ipv6_text(data: Seq<u8>, o: int) -> Seq<char> {
    compressed_ipv6(join(Seq::new(8, |i: int| hex_group(data[o + 2 * i], data[o + 2 * i + 1])), ":"@))
}

/// The text of the character-strings of a TXT record in `data[off..end]`,
/// concatenated; a string that is not UTF-8 contributes nothing, and a string
/// running past the record ends the text.
pub open spec fn txt_text(data: Seq<u8>, off: int, end: int) -> Seq<char>
    decreases end - off,
{
    if off < 0 || off >= end || off >= data.len() {
        Seq::empty()
    } else {
        let l = data[off] as int;
        let o = off + 1;
        if o + l <= end && o + l <= data.len() {
            let bytes = data.subrange(o, o + l);
            (if vstd::utf8::valid_utf8(bytes) { vstd::utf8::decode_utf8(bytes) } else { Seq::empty() })
                + txt_text(data, o + l, end)
        } else {
            Seq::empty()
        }
    }
}

/// The value text of a record of type `rtype` whose data is `data[rd..rd+rdlen]`.
pub open spec fn record_value(data: Seq<u8>, rtype: int, rd: int, rdlen: int) -> Walk<Option<Seq<char>>> {
    if rtype == TYPE_A {
        Walk::Ends(Some(if rdlen == 4 { dotted_quad(data, rd) } else { byte_list(data.subrange(rd, rd + rdlen)) }))
    } else if rtype == TYPE_AAAA {
        Walk::Ends(Some(if rdlen == 16 { ipv6_text(data, rd) } else { byte_list(data.subrange(rd, rd + rdlen)) }))
    } else if rtype == TYPE_CNAME || rtype == TYPE_NS {
        match dns_name_at(data, rd) {
            Walk::Hangs => Walk::Hangs,
            Walk::Ends(None) => Walk::Ends(None),
            Walk::Ends(Some((n, _))) => Walk::Ends(Some(n)),
        }
    } else if rtype == TYPE_MX {
        if rdlen >= 2 {
            match dns_name_at(data, rd + 2) {
                Walk::Hangs => Walk::Hangs,
                Walk::Ends(None) => Walk::Ends(None),
                Walk::Ends(Some((n, _))) => Walk::Ends(Some(decimal(be16(data, rd) as nat) + " "@ + n)),
            }
        } else {
            Walk::Ends(Some(Seq::empty()))
        }
    } else if rtype == TYPE_SOA {
        match dns_name_at(data, rd) {
            Walk::Hangs => Walk::Hangs,
            Walk::Ends(None) => Walk::Ends(None),
            Walk::Ends(Some((mname, o1))) => match dns_name_at(data, o1) {
                Walk::Hangs => Walk::Hangs,
                Walk::Ends(None) => Walk::Ends(None),
                Walk::Ends(Some((rname, o2))) => Walk::Ends(Some(
                    if o2 + 20 <= data.len() {
                        mname + " "@ + rname + " "@ + decimal(be32(data, o2) as nat) + " "@
                            + decimal(be32(data, o2 + 4) as nat) + " "@ + decimal(be32(data, o2 + 8) as nat)
                            + " "@ + decimal(be32(data, o2 + 12) as nat) + " "@ + decimal(be32(data, o2 + 16) as nat)
                    } else {
                        mname + " "@ + rname
                    },
                )),
            },
        }
    } else if rtype == TYPE_TXT {
        Walk::Ends(Some(txt_text(data, rd, rd + rdlen)))
    } else {
        Walk::Ends(Some(byte_list(data.subrange(rd, rd + rdlen))))
    }
}

/// The resource record at `off` and the offset just after it.
pub open spec fn record_at(data: Seq<u8>, off: int) -> Walk<Option<(RecordView, int)>> {
    match dns_name_at(data, off) {
        Walk::Hangs => Walk::Hangs,
        Walk::Ends(None) => Walk::Ends(None),
        Walk::Ends(Some((name, o))) => {
            if o + 10 > data.len() {
                Walk::Ends(None)
            } else {
                let rtype = be16(data, o);
                let ttl = be32(data, o + 4);
                let rdlen = be16(data, o + 8);
                let rd = o + 10;
                if rd + rdlen > data.len() {
                    Walk::Ends(None)
                } else {
                    match record_value(data, rtype, rd, rdlen) {
                        Walk::Hangs => Walk::Hangs,
                        Walk::Ends(None) => Walk::Ends(None),
                        Walk::Ends(Some(value)) => Walk::Ends(
                            Some(((name, qtype_name(rtype as u16), value, ttl as u32), rd + rdlen)),
                        ),
                    }
                }
            }
        },
    }
}

/// The view of a parsed record with its end offset.
pub open spec fn record_result_view(r: Option<(DnsRecord, usize)>) -> Option<(RecordView, int)> {
    match r {
        Some((rec, e)) => Some((rec.view(), e as int)),
        None => None,
    }
}

pub(crate) fn hex_char(d: u8) -> (c: char)
    requires
        d < 16,
    ensures
        c == hex_digit(d as int),
{
    if d < 10 {
        crate::text::digit_to_char(d as u64)
    } else if d == 10 { 'a' }
    else if d == 11 { 'b' }
    else if d == 12 { 'c' }
    else if d == 13 { 'd' }
    else if d == 14 { 'e' }
    else { 'f' }
}

/// Formats `bytes` as `{:?}` does.
fn byte_list_string(bytes: &[u8]) -> (r: String)
    ensures
        r@ == byte_list(bytes@),
{
    let ghost items = Seq::new(bytes@.len(), |i: int| decimal(bytes@[i] as nat));
    let mut r = String::from_str("[");
    let mut i: usize = 0;
    proof {
        reveal_strlit("[");
    }
    while i < bytes.len()
        invariant
            i <= bytes@.len(),
            items == Seq::new(bytes@.len(), |i: int| decimal(bytes@[i] as nat)),
            r@ == "["@ + join(items.subrange(0, i as int), ", "@),
        decreases bytes@.len() - i,
    {
        let ghost sub = items.subrange(0, i + 1);
        assert(sub.drop_last() =~= items.subrange(0, i as int));
        if i > 0 {
            push_str(&mut r, ", ");
        }
        push_decimal(&mut r, bytes[i] as u64);
        assert(r@ =~= "["@ + join(sub, ", "@));
        i = i + 1;
    }
    push_str(&mut r, "]");
    assert(items.subrange(0, i as int) =~= items);
    r
}

/// The dotted-quad text of `data[o..o+4]`.
pub(crate) fn dotted_quad_string(data: &[u8], o: usize) -> (r: String)
    requires
        o + 4 <= data@.len(),
    ensures
        r@ == dotted_quad(data@, o as int),
{
    let mut r = String::new();
    push_decimal(&mut r, data[o] as u64);
    push_str(&mut r, ".");
    push_decimal(&mut r, data[o + 1] as u64);
    push_str(&mut r, ".");
    push_decimal(&mut r, data[o + 2] as u64);
    push_str(&mut r, ".");
    push_decimal(&mut r, data[o + 3] as u64);
    assert(r@ =~= dotted_quad(data@, o as int));
    r
}

/// The compressed IPv6 text of `data[o..o+16]`.
pub(crate) fn ipv6_string(data: &[u8], o: usize) -> (r: String)
    requires
        buffer_fits(data@),
        o + 16 <= data@.len(),
    ensures
        r@ == ipv6_text(data@, o as int),
{
    let ghost groups = Seq::new(8, |i: int| hex_group(data@[o + 2 * i], data@[o + 2 * i + 1]));
    let mut full = String::new();
    let mut k: usize = 0;
    proof {
        reveal_strlit(":");
    }
    while k < 8
        invariant
            k <= 8,
            buffer_fits(data@),
            o + 16 <= data@.len(),
            groups == Seq::new(8, |i: int| hex_group(data@[o + 2 * i], data@[o + 2 * i + 1])),
            full@ == join(groups.subrange(0, k as int), ":"@),
        decreases 8 - k,
    {
        let ghost sub = groups.subrange(0, k + 1);
        assert(sub.drop_last() =~= groups.subrange(0, k as int));
        let ghost prev = full@;
        if k > 0 {
            push_char(&mut full, ':');
        }
        let ghost sep_part = full@;
        let a = data[o + 2 * k];
        let b = data[o + 2 * k + 1];
        push_char(&mut full, hex_char(a / 16));
        push_char(&mut full, hex_char(a % 16));
        push_char(&mut full, hex_char(b / 16));
        push_char(&mut full, hex_char(b % 16));
        assert(sub.last() == hex_group(a, b));
        assert(full@ =~= sep_part + hex_group(a, b));
        if k > 0 {
            proof {
                reveal_strlit(":");
            }
            assert(sep_part =~= prev + ":"@);
            assert(full@ =~= join(sub, ":"@));
        } else {
            assert(sep_part =~= Seq::<char>::empty());
            assert(full@ =~= join(sub, ":"@));
        }
        k = k + 1;
    }
    assert(groups.subrange(0, 8) =~= groups);
    compress_ipv6(full.as_str())
}

/// The concatenated TXT strings of `data[off..end]`.
fn txt_string(data: &[u8], off: usize, end: usize) -> (r: String)
    requires
        buffer_fits(data@),
        end <= data@.len(),
    ensures
        r@ == txt_text(data@, off as int, end as int),
{
    let mut r = String::new();
    if off >= end || off >= data.len() {
        return r;
    }
    let mut t = off;
    loop
        invariant
            buffer_fits(data@),
            end <= data@.len(),
            t <= data@.len() + 1,
            txt_text(data@, off as int, end as int) == r@ + txt_text(data@, t as int, end as int),
        decreases data@.len() + 1 - t,
    {
        if t >= end || t >= data.len() {
            assert(r@ + Seq::<char>::empty() =~= r@);
            return r;
        }
        let l = data[t] as usize;
        let o = t + 1;
        if o + l <= end && o + l <= data.len() {
            let ghost before = r@;
            match crate::text::utf8_to_string(&data[o..o + l]) {
                Some(piece) => push_str(&mut r, piece.as_str()),
                None => {
                    assert(r@ =~= before + Seq::<char>::empty());
                },
            }
            assert(txt_text(data@, off as int, end as int) =~= r@ + txt_text(data@, (o + l) as int, end as int));
            t = o + l;
        } else {
            assert(r@ + Seq::<char>::empty() =~= r@);
            return r;
        }
    }
}

/// A decoded name always ends inside the message.
proof fn lemma_name_walk_end(
    data: Seq<u8>,
    off: int,
    jumped: bool,
    end: int,
    labels: Seq<Seq<char>>,
    fuel: nat,
)
    requires
        jumped ==> 0 <= end <= data.len(),
    ensures
        name_walk(data, off, jumped, end, labels, fuel) matches Walk::Ends(Some((_, e))) ==> 0 <= e
            <= data.len(),
    decreases fuel,
{
    if fuel > 0 && 0 <= off < data.len() {
        let l = data[off];
        if l == 0 {
        } else if l >= 0xc0 {
            if off + 1 < data.len() {
                let ptr = (l - 0xc0) * 256 + data[off + 1];
                lemma_name_walk_end(data, ptr, true, if jumped { end } else { off + 2 }, labels, (fuel - 1) as nat);
            }
        } else if off + 1 + l <= data.len() {
            let bytes = data.subrange(off + 1, off + 1 + l);
            if vstd::utf8::valid_utf8(bytes) {
                let next = off + 1 + l;
                lemma_name_walk_end(data, next, jumped, if jumped { end } else { next },
                    labels.push(vstd::utf8::decode_utf8(bytes)), (fuel - 1) as nat);
            }
        }
    }
}

/// The offset after a decoded name lies within the message.
proof fn lemma_name_end(data: Seq<u8>, off: int)
    ensures
        dns_name_at(data, off) matches Walk::Ends(Some((_, e))) ==> 0 <= e <= data.len(),
{
    lemma_name_walk_end(data, off, false, off, Seq::empty(), name_fuel(data));
}

/// Decodes a name that the surrounding record requires, reporting its end offset.
pub(crate) fn name_value(data: &[u8], offset: usize) -> (r: Option<(String, usize)>)
    requires
        buffer_fits(data@),
        ends(dns_name_at(data@, offset as int)),
    ensures
        dns_name_at(data@, offset as int) == Walk::Ends(name_view(r)),
        r matches Some((_, e)) ==> e <= data@.len(),
{
    proof {
        lemma_name_end(data@, offset as int);
    }
    decode_dns_name(data, offset)
}

/// Formats the value of a record of type `rtype` with data at `data[rd..rd+rdlen]`.
fn record_value_string(data: &[u8], rtype: u16, rd: usize, rdlen: usize) -> (r: Option<String>)
    requires
        buffer_fits(data@),
        rd + rdlen <= data@.len(),
        ends(record_value(data@, rtype as int, rd as int, rdlen as int)),
    ensures
        record_value(data@, rtype as int, rd as int, rdlen as int) == Walk::Ends(
            match r {
                Some(s) => Some(s@),
                None => None::<Seq<char>>,
            },
        ),
{
    if rtype == TYPE_A {
        if rdlen == 4 {
            Some(dotted_quad_string(data, rd))
        } else {
            Some(byte_list_string(&data[rd..rd + rdlen]))
        }
    } else if rtype == TYPE_AAAA {
        if rdlen == 16 {
            Some(ipv6_string(data, rd))
        } else {
            Some(byte_list_string(&data[rd..rd + rdlen]))
        }
    } else if rtype == TYPE_CNAME || rtype == TYPE_NS {
        match name_value(data, rd) {
            Some((n, _)) => Some(n),
            None => None,
        }
    } else if rtype == TYPE_MX {
        if rdlen >= 2 {
            let preference = read_be16(data, rd);
            match name_value(data, rd + 2) {
                Some((exchange, _)) => {
                    let mut v = decimal_string(preference as u64);
                    push_str(&mut v, " ");
                    push_str(&mut v, exchange.as_str());
                    Some(v)
                },
                None => None,
            }
        } else {
            Some(String::new())
        }
    } else if rtype == TYPE_SOA {
        let (mname, off) = match name_value(data, rd) {
            Some(x) => x,
            None => return None,
        };
        let (rname, off2) = match name_value(data, off) {
            Some(x) => x,
            None => return None,
        };
        let mut v = String::new();
        push_str(&mut v, mname.as_str());
        push_str(&mut v, " ");
        push_str(&mut v, rname.as_str());
        if off2 + 20 <= data.len() {
            let mut k: usize = 0;
            let ghost base = v@;
            while k < 5
                invariant
                    k <= 5,
                    buffer_fits(data@),
                    off2 + 20 <= data@.len(),
                    v@ == base + (if k >= 1 { " "@ + decimal(be32(data@, off2 as int) as nat) } else { Seq::empty() })
                        + (if k >= 2 { " "@ + decimal(be32(data@, off2 + 4) as nat) } else { Seq::empty() })
                        + (if k >= 3 { " "@ + decimal(be32(data@, off2 + 8) as nat) } else { Seq::empty() })
                        + (if k >= 4 { " "@ + decimal(be32(data@, off2 + 12) as nat) } else { Seq::empty() })
                        + (if k >= 5 { " "@ + decimal(be32(data@, off2 + 16) as nat) } else { Seq::empty() }),
                decreases 5 - k,
            {
                let ghost prev = v@;
                push_str(&mut v, " ");
                push_decimal(&mut v, read_be32(data, off2 + 4 * k) as u64);
                proof {
                    assert(v@ =~= prev + " "@ + decimal(be32(data@, (off2 + 4 * k) as int) as nat));
                }
                k = k + 1;
                assert(v@ =~= base + (if k >= 1 { " "@ + decimal(be32(data@, off2 as int) as nat) } else { Seq::empty() })
                        + (if k >= 2 { " "@ + decimal(be32(data@, off2 + 4) as nat) } else { Seq::empty() })
                        + (if k >= 3 { " "@ + decimal(be32(data@, off2 + 8) as nat) } else { Seq::empty() })
                        + (if k >= 4 { " "@ + decimal(be32(data@, off2 + 12) as nat) } else { Seq::empty() })
                        + (if k >= 5 { " "@ + decimal(be32(data@, off2 + 16) as nat) } else { Seq::empty() }));
            }
            assert(v@ =~= mname@ + " "@ + rname@ + " "@ + decimal(be32(data@, off2 as int) as nat) + " "@
                + decimal(be32(data@, off2 + 4) as nat) + " "@ + decimal(be32(data@, off2 + 8) as nat)
                + " "@ + decimal(be32(data@, off2 + 12) as nat) + " "@ + decimal(be32(data@, off2 + 16) as nat));
        }
        Some(v)
    } else if rtype == TYPE_TXT {
        Some(txt_string(data, rd, rd + rdlen))
    } else {
        Some(byte_list_string(&data[rd..rd + rdlen]))
    }
}

/// Parses one resource record at `offset`, returning it and the offset just
/// after it; `None` when the record is truncated or a name in it is malformed.
pub fn parse_dns_record(data: &[u8], offset: usize, _target: &str) -> (r: Option<(DnsRecord, usize)>)
    requires
        buffer_fits(data@),
        ends(record_at(data@, offset as int)),
    ensures
        record_at(data@, offset as int) == Walk::Ends(record_result_view(r)),
{
    let (name, off) = match name_value(data, offset) {
        Some(x) => x,
        None => return None,
    };
    if off + 10 > data.len() {
        return None;
    }
    let rtype = read_be16(data, off);
    let ttl = read_be32(data, off + 4);
    let rdlength = read_be16(data, off + 8) as usize;
    let rd = off + 10;
    if rd + rdlength > data.len() {
        return None;
    }
    let value = match record_value_string(data, rtype, rd, rdlength) {
        Some(v) => v,
        None => return None,
    };
    let record = DnsRecord { name, record_type: qtype_to_string(rtype), value, ttl };
    Some((record, rd + rdlength))
}

/// Whether a parsed answer is kept when answers are filtered by query type
/// (type 0 keeps every answer).
pub open spec fn keep_record(rec: RecordView, qtype: u16) -> bool {
    rec.1 == qtype_name(qtype) || qtype == 0
}

/// Prepends `acc` to the records of a walk.
pub open spec fn prepend(acc: Seq<RecordView>, w: Walk<(Seq<RecordView>, int)>) -> Walk<(Seq<RecordView>, int)> {
    match w {
        Walk::Hangs => Walk::Hangs,
        Walk::Ends((rs, e)) => Walk::Ends((acc + rs, e)),
    }
}

/// Up to `count` records parsed from `off` on, stopping at the first record
/// that does not parse; answers are filtered by `qtype` when `filter` is set.
/// Also gives the offset where parsing stopped.
pub open spec fn records_from(data: Seq<u8>, off: int, count: nat, qtype: u16, filter: bool) -> Walk<(Seq<RecordView>, int)>
    decreases count,
{
    if count == 0 {
        Walk::Ends((Seq::empty(), off))
    } else {
        match record_at(data, off) {
            Walk::Hangs => Walk::Hangs,
            Walk::Ends(None) => Walk::Ends((Seq::empty(), off)),
            Walk::Ends(Some((rec, next))) => prepend(
                if !filter || keep_record(rec, qtype) { seq![rec] } else { Seq::empty() },
                records_from(data, next, (count - 1) as nat, qtype, filter),
            ),
        }
    }
}

/// The description of a non-zero response code.
pub open spec fn rcode_text(rcode: int) -> Seq<char> {
    if rcode == 1 { "Format error"@ }
    else if rcode == 2 { "Server failure"@ }
    else if rcode == 3 { "Name error (NXDOMAIN)"@ }
    else if rcode == 4 { "Not implemented"@ }
    else if rcode == 5 { "Refused"@ }
    else { "Unknown error"@ }
}

/// The records of a response to a query of type `qtype`: the answers of that
/// type, then every authority and additional record; or the error reported.
pub open spec fn dns_response(data: Seq<u8>, qtype: u16) -> Walk<Result<Seq<RecordView>, Seq<char>>> {
    if data.len() < 12 {
        Walk::Ends(Err("DNS response too short"@))
    } else if data[3] % 16 != 0 {
        Walk::Ends(Err("DNS error: "@ + rcode_text((data[3] % 16) as int)))
    } else {
        match skip_name(data, 12) {
            None => Walk::Ends(Err(name_end_msg())),
            Some(q) => match records_from(data, q + 4, be16(data, 6) as nat, qtype, true) {
                Walk::Hangs => Walk::Hangs,
                Walk::Ends((answers, o1)) => match records_from(data, o1, be16(data, 8) as nat, qtype, false) {
                    Walk::Hangs => Walk::Hangs,
                    Walk::Ends((authority, o2)) => match records_from(data, o2, be16(data, 10) as nat, qtype, false) {
                        Walk::Hangs => Walk::Hangs,
                        Walk::Ends((additional, _)) => Walk::Ends(Ok(answers + authority + additional)),
                    },
                },
            },
        }
    }
}

/// The views of a list of records.
pub open spec fn record_views(rs: Seq<DnsRecord>) -> Seq<RecordView> {
    Seq::new(rs.len(), |i: int| rs[i].view())
}

/// The view of a parsed response.
pub open spec fn response_view(r: Result<Vec<DnsRecord>, String>) -> Result<Seq<RecordView>, Seq<char>> {
    match r {
        Ok(v) => Ok(record_views(v@)),
        Err(e) => Err(e@),
    }
}

/// Parses up to `count` records from `offset`, appending them to `records`
/// (answers filtered by `qtype` when `filter` is set); returns where it stopped.
fn parse_section(
    data: &[u8],
    offset: usize,
    count: u16,
    qtype: u16,
    filter: bool,
    records: &mut Vec<DnsRecord>,
) -> (end: usize)
    requires
        buffer_fits(data@),
        offset <= data@.len() + 6,
        ends(records_from(data@, offset as int, count as nat, qtype, filter)),
    ensures
        end <= data@.len() + 6,
        final(records)@.len() >= old(records)@.len(),
        records_from(data@, offset as int, count as nat, qtype, filter) == Walk::Ends((
            record_views(final(records)@).skip(old(records)@.len() as int),
            end as int,
        )),
        record_views(final(records)@).take(old(records)@.len() as int) == record_views(old(records)@),
{
    let ghost base = old(records)@.len() as int;
    let ghost w0 = records_from(data@, offset as int, count as nat, qtype, filter);
    let wanted = qtype_to_string(qtype);
    let mut off = offset;
    let mut left = count;
    assert(record_views(records@).skip(base) =~= Seq::<RecordView>::empty());
    assert(record_views(records@).take(base) =~= record_views(old(records)@));
    assert(prepend(Seq::empty(), w0) =~= w0) by {
        match w0 {
            Walk::Hangs => {},
            Walk::Ends((rs, e)) => {
                assert(Seq::<RecordView>::empty() + rs =~= rs);
            },
        }
    }
    while left > 0
        invariant
            buffer_fits(data@),
            off <= data@.len() + 6,
            base == old(records)@.len(),
            base <= records@.len(),
            wanted@ == qtype_name(qtype),
            w0 == records_from(data@, offset as int, count as nat, qtype, filter),
            w0 == prepend(record_views(records@).skip(base), records_from(data@, off as int, left as nat, qtype, filter)),
            ends(records_from(data@, off as int, left as nat, qtype, filter)),
            record_views(records@).take(base) == record_views(old(records)@),
        decreases left,
    {
        let ghost acc = record_views(records@).skip(base);
        match parse_dns_record(data, off, "") {
            Some((rec, next)) => {
                let ghost rv = rec.view();
                let ghost rest = records_from(data@, next as int, (left - 1) as nat, qtype, filter);
                if !filter || rec.record_type == wanted || qtype == 0 {
                    records.push(rec);
                    assert(record_views(records@).skip(base) =~= acc.push(rv));
                    assert(record_views(records@).take(base) =~= record_views(old(records)@));
                    assert(w0 =~= prepend(record_views(records@).skip(base), rest)) by {
                        match rest {
                            Walk::Hangs => {},
                            Walk::Ends((rs, e)) => {
                                assert(acc + (seq![rv] + rs) =~= acc.push(rv) + rs);
                            },
                        }
                    }
                } else {
                    assert(w0 =~= prepend(record_views(records@).skip(base), rest)) by {
                        match rest {
                            Walk::Hangs => {},
                            Walk::Ends((rs, e)) => {
                                assert(acc + (Seq::<RecordView>::empty() + rs) =~= acc + rs);
                            },
                        }
                    }
                }
                off = next;
                left = left - 1;
            },
            None => {
                assert(acc + Seq::<RecordView>::empty() =~= acc);
                return off;
            },
        }
    }
    off
}

/// Parses a DNS response: checks the length and response code, skips the
/// question, then collects the answers of type `qtype` (all of them for
/// type 0) followed by every authority and additional record.
pub fn parse_dns_response(data: &[u8], _target: &str, qtype: u16) -> (r: Result<Vec<DnsRecord>, String>)
    requires
        buffer_fits(data@),
        ends(dns_response(data@, qtype)),
    ensures
        dns_response(data@, qtype) == Walk::Ends(response_view(r)),
{
    if data.len() < 12 {
        return Err(String::from_str("DNS response too short"));
    }
    let flags = read_be16(data, 2);
    let rcode = flags & 0x000f;
    let hi = data[2];
    let lo = data[3];
    assert(flags as int == hi * 256 + lo ==> (flags & 0x000f) as int == lo % 16) by (bit_vector);
    if rcode != 0 {
        let err: &str = if rcode == 1 { "Format error" }
        else if rcode == 2 { "Server failure" }
        else if rcode == 3 { "Name error (NXDOMAIN)" }
        else if rcode == 4 { "Not implemented" }
        else if rcode == 5 { "Refused" }
        else { "Unknown error" };
        let mut msg = String::from_str("DNS error: ");
        push_str(&mut msg, err);
        return Err(msg);
    }
    let ancount = read_be16(data, 6);
    let nscount = read_be16(data, 8);
    let arcount = read_be16(data, 10);
    proof {
        lemma_skip_name_bound(data@, 12);
    }
    let q = match skip_dns_name(data, 12) {
        Ok(o) => o,
        Err(e) => return Err(e),
    };
    assert(q <= data@.len() + 1);
    let offset = q + 4;
    let mut records: Vec<DnsRecord> = Vec::new();
    let o1 = parse_section(data, offset, ancount, qtype, true, &mut records);
    let ghost a = record_views(records@);
    let o2 = parse_section(data, o1, nscount, qtype, false, &mut records);
    let ghost b = record_views(records@).skip(a.len() as int);
    assert(record_views(records@) =~= record_views(records@).take(a.len() as int) + b);
    assert(record_views(records@) =~= a + b);
    let ghost ab = record_views(records@);
    let _o3 = parse_section(data, o2, arcount, qtype, false, &mut records);
    let ghost c = record_views(records@).skip(ab.len() as int);
    assert(record_views(records@) =~= record_views(records@).take(ab.len() as int) + c);
    assert(record_views(records@) =~= ab + c);
    assert(a =~= a.skip(0));
    Ok(records)
}

/// A skipped name ends at most two bytes past the message.
proof fn lemma_skip_name_bound(data: Seq<u8>, off: int)
    ensures
        skip_name(data, off) matches Some(e) ==> 0 <= e <= data.len() + 1,
    decreases data.len() - off,
{
    if 0 <= off < data.len() {
        let l = data[off];
        if l != 0 && l < 0xc0 && off + 1 + l < data.len() {
            lemma_skip_name_bound(data, off + 1 + l);
        }
    }
}

/// Whether a name walk from `off` stops within `fuel` steps (whatever it
/// has read so far).
pub open spec fn walk_stops(data: Seq<u8>, off: int, fuel: nat) -> bool
    decreases fuel,
{
    if fuel == 0 {
        false
    } else if off < 0 || off >= data.len() {
        true
    } else {
        let l = data[off];
        if l == 0 {
            true
        } else if l >= 0xc0 {
            if off + 1 >= data.len() {
                true
            } else {
                walk_stops(data, (l - 0xc0) * 256 + data[off + 1], (fuel - 1) as nat)
            }
        } else if off + 1 + l > data.len() {
            true
        } else if !vstd::utf8::valid_utf8(data.subrange(off + 1, off + 1 + l)) {
            true
        } else {
            walk_stops(data, off + 1 + l, (fuel - 1) as nat)
        }
    }
}

proof fn lemma_walk_stops(data: Seq<u8>, off: int, jumped: bool, end: int, labels: Seq<Seq<char>>, fuel: nat)
    ensures
        ends(name_walk(data, off, jumped, end, labels, fuel)) == walk_stops(data, off, fuel),
    decreases fuel,
{
    if fuel > 0 && 0 <= off < data.len() {
        let l = data[off];
        if l >= 0xc0 {
            if off + 1 < data.len() {
                lemma_walk_stops(data, (l - 0xc0) * 256 + data[off + 1], true,
                    if jumped { end } else { off + 2 }, labels, (fuel - 1) as nat);
            }
        } else if l != 0 && off + 1 + l <= data.len() {
            let bytes = data.subrange(off + 1, off + 1 + l);
            if vstd::utf8::valid_utf8(bytes) {
                let next = off + 1 + l;
                lemma_walk_stops(data, next, jumped, if jumped { end } else { next },
                    labels.push(vstd::utf8::decode_utf8(bytes)), (fuel - 1) as nat);
            }
        }
    }
}

/// Whether decoding the name at `offset` ends: `false` exactly when its
/// compression pointers cycle forever (what [`decode_dns_name`] requires).
pub fn dns_name_walk_ends(data: &[u8], offset: usize) -> (b: bool)
    requires
        buffer_fits(data@),
    ensures
        b == ends(dns_name_at(data@, offset as int)),
{
    proof {
        lemma_walk_stops(data@, offset as int, false, offset as int, Seq::empty(), name_fuel(data@));
    }
    assert(ends(dns_name_at(data@, offset as int)) == walk_stops(data@, offset as int, name_fuel(data@)));
    let n = data.len();
    let mut fuel: u128 = 2 * (n as u128) + 4;
    let mut off: usize = offset;
    while fuel > 0
        invariant
            n == data@.len(),
            buffer_fits(data@),
            walk_stops(data@, offset as int, name_fuel(data@)) == walk_stops(data@, off as int, fuel as nat),
            ends(dns_name_at(data@, offset as int)) == walk_stops(data@, offset as int, name_fuel(data@)),
        decreases fuel,
    {
        if off >= n {
            return true;
        }
        let l = data[off];
        if l == 0 {
            return true;
        }
        if l >= 0xc0 {
            if off + 1 >= n {
                return true;
            }
            off = ((l - 0xc0) as usize) * 256 + data[off + 1] as usize;
        } else {
            if off + 1 + l as usize > n {
                return true;
            }
            let valid = crate::text::utf8_to_string(&data[off + 1..off + 1 + l as usize]).is_some();
            if !valid {
                return true;
            }
            off = off + 1 + l as usize;
        }
        fuel = fuel - 1;
    }
    false
}

/// Whether reading the value of a record of type `rtype` (whose data of
/// `rdlen` bytes starts at `rd`) ends.
fn record_value_walk_ends(data: &[u8], rtype: u16, rd: usize, rdlen: usize) -> (b: bool)
    requires
        buffer_fits(data@),
        rd + rdlen <= data@.len(),
    ensures
        b == ends(record_value(data@, rtype as int, rd as int, rdlen as int)),
{
    if rtype == TYPE_CNAME || rtype == TYPE_NS {
        dns_name_walk_ends(data, rd)
    } else if rtype == TYPE_MX {
        if rdlen >= 2 { dns_name_walk_ends(data, rd + 2) } else { true }
    } else if rtype == TYPE_SOA {
        if !dns_name_walk_ends(data, rd) {
            return false;
        }
        match name_value(data, rd) {
            None => true,
            Some((_, o1)) => dns_name_walk_ends(data, o1),
        }
    } else {
        true
    }
}

/// Whether reading the record at `offset` ends: `false` exactly when a
/// name in it has compression pointers that cycle forever (what
/// [`parse_dns_record`] requires).
pub fn dns_record_walk_ends(data: &[u8], offset: usize) -> (b: bool)
    requires
        buffer_fits(data@),
    ensures
        b == ends(record_at(data@, offset as int)),
{
    if !dns_name_walk_ends(data, offset) {
        return false;
    }
    match name_value(data, offset) {
        None => true,
        Some((_, o)) => {
            let n = data.len();
            if o > n || n - o < 10 {
                return true;
            }
            let rtype = read_be16(data, o);
            let rdlen = read_be16(data, o + 8) as usize;
            let rd = o + 10;
            if rdlen > n - rd {
                return true;
            }
            record_value_walk_ends(data, rtype, rd, rdlen)
        },
    }
}

/// Where reading a run of records stops, if it ends.
pub open spec fn stop_offset(w: Walk<(Seq<RecordView>, int)>) -> Option<int> {
    match w {
        Walk::Hangs => None,
        Walk::Ends((_, e)) => Some(e),
    }
}

/// Whether reading `count` records from `offset` ends, and where it stops.
fn section_walk_ends(data: &[u8], offset: usize, count: u16, qtype: u16, filter: bool) -> (r: (bool, usize))
    requires
        buffer_fits(data@),
    ensures
        stop_offset(records_from(data@, offset as int, count as nat, qtype, filter))
            == (if r.0 { Some(r.1 as int) } else { None }),
{
    let mut off = offset;
    let mut left = count;
    while left > 0
        invariant
            buffer_fits(data@),
            stop_offset(records_from(data@, offset as int, count as nat, qtype, filter))
                == stop_offset(records_from(data@, off as int, left as nat, qtype, filter)),
        decreases left,
    {
        if !dns_record_walk_ends(data, off) {
            return (false, 0);
        }
        match parse_dns_record(data, off, "") {
            None => {
                return (true, off);
            },
            Some((_, next)) => {
                off = next;
            },
        }
        left = left - 1;
    }
    (true, off)
}

/// Whether parsing a response to a query of type `qtype` ends: `false`
/// exactly when a name in one of its records has compression pointers that
/// cycle forever (what [`parse_dns_response`] requires).
pub fn dns_response_walk_ends(data: &[u8], qtype: u16) -> (b: bool)
    requires
        buffer_fits(data@),
    ensures
        b == ends(dns_response(data@, qtype)),
{
    if data.len() < 12 {
        return true;
    }
    let lo = data[3];
    if lo % 16 != 0 {
        return true;
    }
    let ancount = read_be16(data, 6);
    let nscount = read_be16(data, 8);
    let arcount = read_be16(data, 10);
    proof {
        lemma_skip_name_bound(data@, 12);
    }
    let q = match skip_dns_name(data, 12) {
        Ok(o) => o,
        Err(_) => return true,
    };
    let (e1, o1) = section_walk_ends(data, q + 4, ancount, qtype, true);
    if !e1 {
        return false;
    }
    let (e2, o2) = section_walk_ends(data, o1, nscount, qtype, false);
    if !e2 {
        return false;
    }
    let (e3, _) = section_walk_ends(data, o2, arcount, qtype, false);
    e3
}

/// A decoded name ends inside the message: the offset after it is at most
/// the message's length.
pub proof fn law_decoded_name_end_in_buffer(data: Seq<u8>, off: int)
    ensures
        dns_name_at(data, off) matches Walk::Ends(Some((_, e))) ==> 0 <= e <= data.len(),
{
    lemma_name_end(data, off);
}

/// A response shorter than its 12-byte header is refused as too short, and
/// one whose response code is not 0 is refused with the code's description;
/// code 3 reads "Name error (NXDOMAIN)".
pub proof fn law_response_errors(data: Seq<u8>, qtype: u16)
    ensures
        data.len() < 12 ==> dns_response(data, qtype) == Walk::<Result<Seq<RecordView>, Seq<char>>>::Ends(Err("DNS response too short"@)),
        data.len() >= 12 && data[3] % 16 == 3 ==> dns_response(data, qtype)
            == Walk::<Result<Seq<RecordView>, Seq<char>>>::Ends(Err("DNS error: "@ + "Name error (NXDOMAIN)"@)),
        data.len() >= 12 && data[3] % 16 != 0 ==> (dns_response(data, qtype) matches Walk::Ends(Err(_))),
{
}

/// A record is its owner name, then type, class, TTL and data length, then
/// that many data bytes: a parsed record ends right after its data, has the
/// TTL and type written after its name, and carries that name; a record
/// whose name does not read, or whose header or data runs past the message,
/// is not parsed.
pub proof fn law_record_layout(data: Seq<u8>, off: int)
    ensures
        dns_name_at(data, off) == Walk::<Option<(Seq<char>, int)>>::Ends(None) ==> record_at(data, off) == Walk::<Option<(RecordView, int)>>::Ends(None),
        dns_name_at(data, off) matches Walk::Ends(Some((name, o))) ==> {
            &&& o + 10 > data.len() ==> record_at(data, off) == Walk::<Option<(RecordView, int)>>::Ends(None)
            &&& o + 10 <= data.len() && o + 10 + be16(data, o + 8) > data.len()
                ==> record_at(data, off) == Walk::<Option<(RecordView, int)>>::Ends(None)
            &&& record_at(data, off) matches Walk::Ends(Some((rec, next))) ==> {
                &&& next == o + 10 + be16(data, o + 8)
                &&& next <= data.len()
                &&& rec.0 == name
                &&& rec.1 == qtype_name(be16(data, o) as u16)
                &&& rec.3 == be32(data, o + 4) as u32
            }
        },
{
}

/// The value of an A record with four data bytes is a dotted quad that
/// reads back as the address those bytes hold, most significant first.
pub proof fn law_a_record_reads_back(data: Seq<u8>, rd: int)
    requires
        0 <= rd,
        rd + 4 <= data.len(),
    ensures
        record_value(data, TYPE_A as int, rd, 4) matches Walk::Ends(Some(v))
            && crate::ipaddr::ipv4_of(v) == Some(be32(data, rd)),
{
    let a = data[rd] as u32;
    let b = data[rd + 1] as u32;
    let c = data[rd + 2] as u32;
    let d = data[rd + 3] as u32;
    assert(((a * 256 + b) * 256 + c) * 256 + d <= 0xffff_ffff) by (nonlinear_arith)
        requires a < 256, b < 256, c < 256, d < 256;
    let x: u32 = (((a * 256 + b) * 256 + c) * 256 + d) as u32;
    assert(x as int == be32(data, rd));
    assert((x >> 24) & 0xff == a && (x >> 16) & 0xff == b && (x >> 8) & 0xff == c && x & 0xff == d) by (bit_vector)
        requires a < 256, b < 256, c < 256, d < 256, x == ((a * 256 + b) * 256 + c) * 256 + d;
    assert(dotted_quad(data, rd) == crate::subnet::ipv4_text(x));
    crate::ipaddr::law_ipv4_text_reads_back(x);
}

/// TXT data made of the character-strings `ss`, each written as its length
/// byte followed by its bytes, reads as the text of every string joined in
/// order (as a long SPF or DKIM record split over several strings reads
/// whole), wherever the data stands in the message.
pub proof fn law_txt_joins_every_string(before: Seq<u8>, ss: Seq<Seq<u8>>, after: Seq<u8>)
    requires
        forall|i: int| 0 <= i < ss.len() ==> #[trigger] ss[i].len() < 256 && vstd::utf8::valid_utf8(ss[i]),
    ensures
        ({
            let rdata = ss.map_values(|s: Seq<u8>| seq![s.len() as u8] + s).flatten();
            let text = ss.map_values(|s: Seq<u8>| vstd::utf8::decode_utf8(s)).flatten();
            &&& txt_text(before + rdata + after, before.len() as int, (before.len() + rdata.len()) as int) == text
            &&& record_value(before + rdata + after, TYPE_TXT as int, before.len() as int, rdata.len() as int)
                == Walk::<Option<Seq<char>>>::Ends(Some(text))
        }),
    decreases ss.len(),
{
    let rdata = ss.map_values(|s: Seq<u8>| seq![s.len() as u8] + s).flatten();
    let text = ss.map_values(|s: Seq<u8>| vstd::utf8::decode_utf8(s)).flatten();
    if ss.len() > 0 {
        let s0 = ss[0];
        let rest = ss.drop_first();
        let rest_rdata = rest.map_values(|s: Seq<u8>| seq![s.len() as u8] + s).flatten();
        let rest_text = rest.map_values(|s: Seq<u8>| vstd::utf8::decode_utf8(s)).flatten();
        assert(ss.map_values(|s: Seq<u8>| seq![s.len() as u8] + s).drop_first()
            =~= rest.map_values(|s: Seq<u8>| seq![s.len() as u8] + s));
        assert(ss.map_values(|s: Seq<u8>| vstd::utf8::decode_utf8(s)).drop_first()
            =~= rest.map_values(|s: Seq<u8>| vstd::utf8::decode_utf8(s)));
        assert(rdata == seq![s0.len() as u8] + s0 + rest_rdata);
        assert(text == vstd::utf8::decode_utf8(s0) + rest_text);
        assert forall|i: int| 0 <= i < rest.len() implies #[trigger] rest[i].len() < 256
            && vstd::utf8::valid_utf8(rest[i]) by {
            assert(rest[i] == ss[i + 1]);
        }
        let before2 = before + seq![s0.len() as u8] + s0;
        law_txt_joins_every_string(before2, rest, after);
        let data = before + rdata + after;
        assert(data =~= before2 + rest_rdata + after);
        let b = before.len() as int;
        assert(data[b] == s0.len() as u8);
        assert(data.subrange(b + 1, b + 1 + s0.len()) =~= s0);
        assert(txt_text(data, b, b + rdata.len()) == vstd::utf8::decode_utf8(s0)
            + txt_text(data, b + 1 + s0.len(), b + rdata.len()));
    }
}

/// Whether a label is too long for the wire (over 63 bytes of UTF-8).
pub open spec fn label_too_long(l: Seq<char>) -> bool {
    vstd::utf8::encode_utf8(l).len() > 63
}

/// Encoding a name's labels fails exactly when one of them is over 63
/// bytes, and then it names the first such label; when it succeeds, the
/// bytes are the wire form of each non-empty label in order.
pub proof fn law_encode_labels(labels: Seq<Seq<char>>)
    ensures
        encode_labels(labels).1 is Some <==> exists|i: int| 0 <= i < labels.len() && #[trigger] label_too_long(labels[i]),
        encode_labels(labels).1 matches Some(l) ==> exists|i: int| 0 <= i < labels.len() && labels[i] == l
            && label_too_long(l) && forall|j: int| 0 <= j < i ==> !#[trigger] label_too_long(labels[j]),
        encode_labels(labels).1 is None ==> encode_labels(labels).0 == wire_labels(labels),
    decreases labels.len(),
{
    if labels.len() > 0 {
        let dl = labels.drop_last();
        law_encode_labels(dl);
        assert forall|i: int| 0 <= i < dl.len() implies dl[i] == labels[i] by {}
        if encode_labels(dl).1 is Some {
            let i = choose|i: int| 0 <= i < dl.len() && label_too_long(dl[i]);
            assert(label_too_long(labels[i]));
        } else {
            assert forall|i: int| 0 <= i < dl.len() implies !#[trigger] label_too_long(labels[i]) by {
                assert(dl[i] == labels[i]);
            }
            if !(labels.last().len() == 0) && label_too_long(labels.last()) {
                assert(label_too_long(labels[labels.len() - 1]));
            } else {
                assert forall|i: int| 0 <= i < labels.len() implies !#[trigger] label_too_long(labels[i]) by {
                    if i < dl.len() {
                        assert(dl[i] == labels[i]);
                    } else if labels.last().len() == 0 {
                        assert(vstd::utf8::encode_utf8(labels.last()).len() == 0) by {
                            assert(labels.last() =~= Seq::<char>::empty());
                        }
                    }
                }
            }
        }
    }
}

/// Encoding a name succeeds exactly when the name is not empty and none of
/// its `.`-separated labels is over 63 bytes; then what is appended is the
/// wire form of each non-empty label in order, then the root label 0 (so
/// `example.com`, `example.com.` and `example..com` all append the same).
/// Together with [`encode_dns_name`]'s contract this is the whole outcome.
pub proof fn law_encode_dns_name(name: Seq<char>)
    ensures
        ({
            let labels = split_on(name, '.');
            let enc = encode_labels(labels);
            &&& (name.len() > 0 && enc.1 is None) <==> (name.len() > 0
                && forall|i: int| 0 <= i < labels.len() ==> !#[trigger] label_too_long(labels[i]))
            &&& enc.1 is None ==> enc.0 + seq![0u8] == wire_labels(labels) + seq![0u8]
        }),
{
    law_encode_labels(split_on(name, '.'));
}

/// The wire form of the non-empty labels of a name, in order.
pub open spec fn wire_labels(labels: Seq<Seq<char>>) -> Seq<u8>
    decreases labels.len(),
{
    if labels.len() == 0 {
        Seq::empty()
    } else if labels.last().len() == 0 {
        wire_labels(labels.drop_last())
    } else {
        wire_labels(labels.drop_last()) + label_wire(labels.last())
    }
}

/// A random 16-bit query id: two bytes from the operating system's random
/// source (`rand::rngs::OsRng`, `try_fill_bytes`), big-endian; 0 when the
/// source fails. Nothing is claimed of the value.
#[verifier::external_body]
fn random_query_id() -> (id: u16) {
    let mut b = [0u8; 2];
    match rand::rngs::OsRng.try_fill_bytes(&mut b) {
        Ok(()) => u16::from_be_bytes(b),
        Err(_) => 0,
    }
}

/// The 12-byte header of a standard recursive query with one question.
pub open spec fn query_header(id: u16) -> Seq<u8> {
    seq![(id / 256) as u8, (id % 256) as u8, 0x01, 0x00, 0x00, 0x01, 0x00, 0x00, 0x00, 0x00, 0x00, 0x00]
}

/// The query message for `target` with type `qtype` and id `id`, or the
/// error from encoding the name.
pub open spec fn query_message(id: u16, target: Seq<char>, qtype: u16) -> Result<Seq<u8>, Seq<char>> {
    if target.len() == 0 {
        Err(empty_name_msg())
    } else {
        let enc = encode_labels(split_on(target, '.'));
        match enc.1 {
            Some(l) => Err(long_label_msg(l)),
            None => Ok(query_header(id) + enc.0 + seq![0u8] + seq![(qtype / 256) as u8, (qtype % 256) as u8, 0u8, 1u8]),
        }
    }
}

/// The view of a built query.
pub open spec fn bytes_result_view(r: Result<Vec<u8>, String>) -> Result<Seq<u8>, Seq<char>> {
    match r {
        Ok(v) => Ok(v@),
        Err(e) => Err(e@),
    }
}

/// Builds a DNS query message with the given id.
pub fn build_dns_query_with_id(target: &str, qtype: u16, id: u16) -> (r: Result<Vec<u8>, String>)
    ensures
        bytes_result_view(r) == query_message(id, target@, qtype),
{
    let mut buf: Vec<u8> = Vec::with_capacity(512);
    buf.push((id / 256) as u8);
    buf.push((id % 256) as u8);
    buf.push(0x01);
    buf.push(0x00);
    buf.push(0x00);
    buf.push(0x01);
    let mut k: usize = 0;
    while k < 6
        invariant
            k <= 6,
            buf@.len() == 6 + k,
            buf@ == query_header(id).subrange(0, 6 + k as int),
        decreases 6 - k,
    {
        buf.push(0x00);
        k = k + 1;
        assert(buf@ =~= query_header(id).subrange(0, 6 + k as int));
    }
    assert(buf@ =~= query_header(id));
    match encode_dns_name(target, &mut buf) {
        Err(e) => return Err(e),
        Ok(()) => {},
    }
    buf.push((qtype / 256) as u8);
    buf.push((qtype % 256) as u8);
    buf.push(0x00);
    buf.push(0x01);
    proof {
        let enc = encode_labels(split_on(target@, '.'));
        assert(buf@ =~= query_header(id) + enc.0 + seq![0u8] + seq![(qtype / 256) as u8, (qtype % 256) as u8, 0u8, 1u8]);
    }
    Ok(buf)
}

/// Builds a DNS query message with a random id. Whatever id is drawn, the
/// message is the query for `target` and `qtype` under that id.
pub fn build_dns_query(target: &str, qtype: u16) -> (r: Result<Vec<u8>, String>)
    ensures
        exists|id: u16| bytes_result_view(r) == #[trigger] query_message(id, target@, qtype),
{
    let id = random_query_id();
    build_dns_query_with_id(target, qtype, id)
}

/// The server used when none is given.
pub open spec fn default_server() -> Seq<char> {
    "8.8.8.8:53"@
}

/// The server address a lookup uses: the default when none (or only
/// whitespace) is given; otherwise the trimmed address, with `:53` appended
/// when it has no port, provided it validates.
pub open spec fn server_choice(dns_server: Option<Seq<char>>) -> Result<Seq<char>, Seq<char>> {
    match dns_server {
        None => Ok(default_server()),
        Some(s) => {
            let t = crate::text::trim(s);
            if t.len() == 0 {
                Ok(default_server())
            } else {
                let full = if t.contains(':') { t } else { t + ":53"@ };
                match server_check(full) {
                    Ok(()) => Ok(full),
                    Err(e) => Err(e),
                }
            }
        },
    }
}

/// The view of a `Result<String, String>`.
pub open spec fn string_result_view(r: Result<String, String>) -> Result<Seq<char>, Seq<char>> {
    match r {
        Ok(s) => Ok(s@),
        Err(e) => Err(e@),
    }
}

/// Chooses the server address for a lookup (see [`server_choice`]).
pub fn resolve_server(dns_server: Option<&str>) -> (r: Result<String, String>)
    ensures
        string_result_view(r) == server_choice(match dns_server {
            Some(s) => Some(s@),
            None => None,
        }),
{
    match dns_server {
        None => Ok(String::from_str("8.8.8.8:53")),
        Some(s) => {
            let t = crate::text::trim_string(s);
            if t.as_str().is_empty() {
                return Ok(String::from_str("8.8.8.8:53"));
            }
            let tv = str_chars(t.as_str());
            let mut has_colon = false;
            let mut i: usize = 0;
            while i < tv.len()
                invariant
                    i <= tv@.len(),
                    has_colon == exists|k: int| 0 <= k < i && tv@[k] == ':',
                decreases tv@.len() - i,
            {
                if tv[i] == ':' {
                    has_colon = true;
                }
                i = i + 1;
            }
            assert(has_colon == tv@.contains(':'));
            let full = if has_colon {
                t
            } else {
                let mut f = t;
                push_str(&mut f, ":53");
                f
            };
            match validate_dns_server(full.as_str()) {
                Ok(()) => Ok(full),
                Err(e) => Err(e),
            }
        },
    }
}

/// Whether a UDP response has the TC (truncated) flag set, so the query must
/// be retried over TCP.
pub open spec fn truncated(resp: Seq<u8>) -> bool {
    resp.len() >= 12 && (resp[2] / 2) % 2 == 1
}

/// Checks the TC flag of a response.
pub fn is_truncated(resp: &[u8]) -> (b: bool)
    ensures
        b == truncated(resp@),
{
    if resp.len() < 12 {
        return false;
    }
    let flags = read_be16(resp, 2);
    let hi = resp[2];
    let lo = resp[3];
    assert(flags as int == hi * 256 + lo ==> ((flags & 0x0200 != 0) == ((hi / 2) % 2 == 1))) by (bit_vector);
    flags & 0x0200 != 0
}

/// A query framed for DNS over TCP: a big-endian two-byte length, then the message.
pub fn tcp_frame(query: &[u8]) -> (r: Vec<u8>)
    requires
        query@.len() <= 0xffff,
    ensures
        r@ == seq![(query@.len() / 256) as u8, (query@.len() % 256) as u8] + query@,
{
    let n = query.len();
    let mut r: Vec<u8> = Vec::new();
    r.push((n / 256) as u8);
    r.push((n % 256) as u8);
    push_bytes(&mut r, query);
    r
}


/// The wire form of labels: each label's length byte and bytes, in order.
pub open spec fn labels_wire(labels: Seq<Seq<char>>) -> Seq<u8>
    decreases labels.len(),
{
    if labels.len() == 0 {
        Seq::empty()
    } else {
        labels_wire(labels.drop_last()) + label_wire(labels.last())
    }
}

/// Whether every label is non-empty and at most 63 bytes long.
pub open spec fn labels_fit(labels: Seq<Seq<char>>) -> bool {
    forall|i: int| 0 <= i < labels.len() ==> #[trigger] labels[i].len() > 0
        && vstd::utf8::encode_utf8(labels[i]).len() <= 63
}

proof fn lemma_encode_labels_wire(labels: Seq<Seq<char>>)
    requires
        encode_labels(labels).1 is None,
    ensures
        encode_labels(labels).0 == labels_wire(crate::text::drop_empty(labels)),
        labels_fit(crate::text::drop_empty(labels)),
    decreases labels.len(),
{
    if labels.len() > 0 {
        let prev = encode_labels(labels.drop_last());
        if prev.1 is Some {
            assert(false);
        }
        lemma_encode_labels_wire(labels.drop_last());
        let d = crate::text::drop_empty(labels.drop_last());
        if labels.last().len() > 0 {
            assert(crate::text::drop_empty(labels) == d.push(labels.last()));
            assert(d.push(labels.last()).drop_last() =~= d);
        }
    }
}

proof fn lemma_labels_wire_front(labels: Seq<Seq<char>>)
    requires
        labels.len() > 0,
    ensures
        labels_wire(labels) == label_wire(labels[0]) + labels_wire(labels.drop_first()),
    decreases labels.len(),
{
    if labels.len() == 1 {
        assert(labels.drop_last() =~= Seq::<Seq<char>>::empty());
        assert(labels.drop_first() =~= Seq::<Seq<char>>::empty());
        assert(labels_wire(labels.drop_last()) =~= Seq::<u8>::empty());
        assert(labels_wire(labels.drop_first()) =~= Seq::<u8>::empty());
        assert(labels.last() == labels[0]);
        assert(labels_wire(labels) =~= label_wire(labels[0]) + labels_wire(labels.drop_first()));
    } else {
        lemma_labels_wire_front(labels.drop_last());
        assert(labels.drop_last().drop_first() =~= labels.drop_first().drop_last());
        assert(labels.drop_first().last() == labels.last());
        assert(labels.drop_last()[0] == labels[0]);
    }
}

proof fn lemma_labels_wire_len(labels: Seq<Seq<char>>)
    ensures
        labels_wire(labels).len() >= labels.len(),
    decreases labels.len(),
{
    if labels.len() > 0 {
        lemma_labels_wire_len(labels.drop_last());
    }
}

/// A name walk over encoded labels followed by the root label reads the
/// labels back.
proof fn lemma_walk_encoded(pre: Seq<u8>, labels: Seq<Seq<char>>, post: Seq<u8>, acc: Seq<Seq<char>>, fuel: nat)
    requires
        labels_fit(labels),
        fuel >= labels.len() + 1,
    ensures
        name_walk(pre + labels_wire(labels) + seq![0u8] + post, pre.len() as int, false, pre.len() as int, acc, fuel)
            == Walk::Ends(Some((acc + labels, (pre.len() + labels_wire(labels).len() + 1) as int))),
    decreases labels.len(),
{
    let data = pre + labels_wire(labels) + seq![0u8] + post;
    let off = pre.len() as int;
    if labels.len() == 0 {
        assert(data[off] == 0);
        assert(acc + labels =~= acc);
    } else {
        let l = labels[0];
        let rest = labels.drop_first();
        lemma_labels_wire_front(labels);
        let bytes = vstd::utf8::encode_utf8(l);
        assert(labels[0].len() > 0 && bytes.len() <= 63);
        vstd::utf8::encode_utf8_first_scalar(l);
        vstd::utf8::encode_utf8_valid_utf8(l);
        vstd::utf8::encode_utf8_decode_utf8(l);
        assert(data[off] == bytes.len() as u8);
        assert(data.subrange(off + 1, off + 1 + bytes.len()) =~= bytes);
        let pre2 = pre + label_wire(l);
        assert(labels_fit(rest)) by {
            assert forall|i: int| 0 <= i < rest.len() implies #[trigger] rest[i].len() > 0
                && vstd::utf8::encode_utf8(rest[i]).len() <= 63 by {
                assert(rest[i] == labels[i + 1]);
            }
        }
        assert(pre2 + labels_wire(rest) + seq![0u8] + post =~= data);
        lemma_walk_encoded(pre2, rest, post, acc.push(l), (fuel - 1) as nat);
        assert(acc.push(l) + rest =~= acc + labels);
    }
}

/// Reading back an encoded name gives the name, without empty labels: for
/// any bytes before and after it, the encoded labels of `name` and the root
/// label decode to the non-empty labels of `name` joined by dots, ending
/// just after the root label.
pub proof fn law_decode_encoded_name(name: Seq<char>, before: Seq<u8>, after: Seq<u8>)
    requires
        encode_labels(split_on(name, '.')).1 is None,
    ensures
        dns_name_at(before + encode_labels(split_on(name, '.')).0 + seq![0u8] + after, before.len() as int)
            == Walk::Ends(Some((
                join(crate::text::drop_empty(split_on(name, '.')), "."@),
                (before.len() + encode_labels(split_on(name, '.')).0.len() + 1) as int,
            ))),
{
    let labels = crate::text::drop_empty(split_on(name, '.'));
    lemma_encode_labels_wire(split_on(name, '.'));
    lemma_labels_wire_len(labels);
    let data = before + labels_wire(labels) + seq![0u8] + after;
    lemma_walk_encoded(before, labels, after, Seq::empty(), name_fuel(data));
    assert(Seq::<Seq<char>>::empty() + labels =~= labels);
}

} // verus!
