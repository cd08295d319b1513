//! ICMP echo packets: the RFC 1071 checksum, building an echo request, and
//! reading what came back.
use vstd::prelude::*;
use vstd::string::*;
use crate::text::{decimal, push_decimal};

verus! {

/// The 16-bit word of `data` starting at `i` (a last odd byte is the high half).
pub open spec fn word_at(data: Seq<u8>, i: int) -> int {
    if i + 1 < data.len() { data[i] * 256 + data[i + 1] } else { data[i] * 256 }
}

/// `x + y` wrapping around at 2^32.
pub open spec fn add_wrap(x: u32, y: int) -> u32 {
    if x + y > u32::MAX { (x + y - 0x1_0000_0000) as u32 } else { (x + y) as u32 }
}

/// The wrapping 32-bit sum of the first `k` words of `data`.
pub open spec fn words_sum(data: Seq<u8>, k: nat) -> u32
    decreases k,
{
    if k == 0 { 0 } else { add_wrap(words_sum(data, (k - 1) as nat), word_at(data, 2 * (k - 1))) }
}

/// `s` with its carries folded back in until it fits in 16 bits.
pub open spec fn fold_carries(s: u32) -> u32
    decreases s,
{
    if s >> 16u32 == 0 {
        s
    } else {
        proof {
            assert(s >> 16u32 != 0 ==> (s & 0xffff) + (s >> 16u32) < s) by (bit_vector);
        }
        fold_carries(((s & 0xffff) + (s >> 16u32)) as u32)
    }
}

/// The RFC 1071 checksum of `data`: the complement of the folded sum of its
/// big-endian 16-bit words.
pub open spec fn checksum_of(data: Seq<u8>) -> u16 {
    !(fold_carries(words_sum(data, ((data.len() + 1) / 2) as nat)) as u16)
}

/// Computes the RFC 1071 checksum of `data`.
pub fn compute_checksum(data: &[u8]) -> (r: u16)
    ensures
        r == checksum_of(data@),
{
    let n = data.len();
    let mut sum: u32 = 0;
    let mut i: usize = 0;
    while i < n && n - i >= 2
        invariant
            n == data@.len(),
            i <= n,
            i % 2 == 0,
            sum == words_sum(data@, (i / 2) as nat),
        decreases n - i,
    {
        let w: u32 = (data[i] as u32) * 256 + data[i + 1] as u32;
        assert(word_at(data@, i as int) == w);
        assert(((i + 2) / 2) as nat == (i / 2) as nat + 1);
        sum = sum.wrapping_add(w);
        i = i + 2;
    }
    if i < n {
        let w: u32 = (data[i] as u32) * 256;
        assert(word_at(data@, i as int) == w);
        assert(((n + 1) / 2) as nat == (i / 2) as nat + 1);
        sum = sum.wrapping_add(w);
    } else {
        assert(((n + 1) / 2) as nat == (i / 2) as nat);
    }
    let ghost total = sum;
    while sum >> 16 != 0
        invariant
            fold_carries(total) == fold_carries(sum),
        decreases sum,
    {
        assert(sum >> 16u32 != 0 ==> (sum & 0xffff) + (sum >> 16u32) < sum) by (bit_vector);
        assert((sum & 0xffff) + (sum >> 16u32) <= 0x1fffe) by (bit_vector);
        sum = (sum & 0xffff) + (sum >> 16);
    }
    !(sum as u16)
}

/// Bytes of an echo request: type 8, code 0, the checksum, identifier and
/// sequence number (big-endian), the send time in nanoseconds (big-endian),
/// and zero padding to 40 bytes.
pub open spec fn echo_request_body(identifier: u16, sequence: u16, now_nanos: u64) -> Seq<u8> {
    Seq::new(40, |i: int|
        if i == 0 { 8u8 }
        else if i == 4 { (identifier >> 8u16) as u8 }
        else if i == 5 { (identifier & 0xff) as u8 }
        else if i == 6 { (sequence >> 8u16) as u8 }
        else if i == 7 { (sequence & 0xff) as u8 }
        else if 8 <= i < 16 { ((now_nanos >> ((8 * (15 - i)) as u64)) & 0xff) as u8 }
        else { 0u8 })
}

/// The echo request with its checksum filled in at bytes 2 and 3.
pub open spec fn echo_request(identifier: u16, sequence: u16, now_nanos: u64) -> Seq<u8> {
    let body = echo_request_body(identifier, sequence, now_nanos);
    let c = checksum_of(body);
    body.update(2, (c >> 8u16) as u8).update(3, (c & 0xff) as u8)
}

/// Builds the echo request sent at `now_nanos` (nanoseconds since the Unix epoch).
pub fn build_echo_request_at(identifier: u16, sequence: u16, now_nanos: u64) -> (r: Vec<u8>)
    ensures
        r@ == echo_request(identifier, sequence, now_nanos),
{
    let mut packet: Vec<u8> = Vec::new();
    let mut i: usize = 0;
    while i < 40
        invariant
            i <= 40,
            packet@ == echo_request_body(identifier, sequence, now_nanos).subrange(0, i as int),
        decreases 40 - i,
    {
        let b: u8 = if i == 0 {
            8
        } else if i == 4 {
            (identifier >> 8) as u8
        } else if i == 5 {
            (identifier & 0xff) as u8
        } else if i == 6 {
            (sequence >> 8) as u8
        } else if i == 7 {
            (sequence & 0xff) as u8
        } else if 8 <= i && i < 16 {
            ((now_nanos >> ((8 * (15 - i)) as u64)) & 0xff) as u8
        } else {
            0
        };
        packet.push(b);
        i = i + 1;
        assert(packet@ =~= echo_request_body(identifier, sequence, now_nanos).subrange(0, i as int));
    }
    assert(packet@ =~= echo_request_body(identifier, sequence, now_nanos));
    let c = compute_checksum(packet.as_slice());
    packet.set(2, (c >> 8) as u8);
    packet.set(3, (c & 0xff) as u8);
    packet
}

/// The current time in nanoseconds since the Unix epoch
/// (`SystemTime::now().duration_since(UNIX_EPOCH)`, 0 if the clock is
/// before the epoch, truncated to 64 bits). Nothing is claimed of the value.
#[verifier::external_body]
fn now_nanos() -> u64 {
    std::time::SystemTime::now().duration_since(std::time::UNIX_EPOCH).unwrap_or_default().as_nanos() as u64
}

/// Builds an echo request stamped with the current time.
pub fn build_echo_request(identifier: u16, sequence: u16) -> (r: Vec<u8>)
    ensures
        exists|t: u64| r@ == echo_request(identifier, sequence, t),
{
    let t = now_nanos();
    build_echo_request_at(identifier, sequence, t)
}

/// What a reply to echo request `sequence` of `identifier` says, read from
/// the received IP packet (`buf[..len]`, the rest of the buffer zeroed): a
/// reply shorter than the IP header, an echo reply for this request (with the
/// TTL of its IP header), destination unreachable, time exceeded, or another
/// ICMP type.
pub open spec fn reply_status(buf: Seq<u8>, len: int, identifier: u16, sequence: u16) -> (Seq<char>, u32) {
    if len < 20 {
        ("short_reply"@, 0u32)
    } else {
        let t = buf[20];
        let id = buf[24] * 256 + buf[25];
        let seq = buf[26] * 256 + buf[27];
        if t == 0 && id == identifier && seq == sequence {
            ("success"@, buf[8] as u32)
        } else if t == 3 {
            ("unreachable"@, 0u32)
        } else if t == 11 {
            ("timeout"@, 0u32)
        } else {
            ("unexpected_type_"@ + decimal(t as nat), 0u32)
        }
    }
}

/// Reads the status and TTL of a reply (see [`reply_status`]).
pub fn read_reply(buf: &[u8], len: usize, identifier: u16, sequence: u16) -> (r: (String, u32))
    requires
        buf@.len() >= 28,
    ensures
        (r.0@, r.1) == reply_status(buf@, len as int, identifier, sequence),
{
    if len < 20 {
        return (String::from_str("short_reply"), 0);
    }
    let t = buf[20];
    let id: u16 = (buf[24] as u16) * 256 + buf[25] as u16;
    let seq: u16 = (buf[26] as u16) * 256 + buf[27] as u16;
    if t == 0 && id == identifier && seq == sequence {
        (String::from_str("success"), buf[8] as u32)
    } else if t == 3 {
        (String::from_str("unreachable"), 0)
    } else if t == 11 {
        (String::from_str("timeout"), 0)
    } else {
        let mut s = String::from_str("unexpected_type_");
        push_decimal(&mut s, t as u64);
        (s, 0)
    }
}


/// The sequence number of the `i`-th echo request of a run (counting from
/// 0): the counter starts at 0 and wraps, adding one before each request.
pub fn probe_sequence(i: u32) -> (r: u16)
    ensures
        r == (i + 1) % 65536,
{
    ((i as u64 + 1) % 65536) as u16
}

/// What became of one echo request.
pub enum ReplyOutcome {
    /// Sending failed, with the error's text.
    SendFailed(String),
    /// A packet of `len` bytes arrived in the (zero-padded) buffer.
    Received(Vec<u8>, usize),
    /// No packet arrived in time.
    TimedOut,
    /// Receiving failed otherwise, with the error's text.
    RecvFailed(String),
}

/// The result recorded for one echo request: its sequence number, the TTL
/// of the reply (0 unless it succeeded), the status, and whether a latency
/// was measured (only for a successful reply; otherwise it is reported as
/// -1).
pub struct ProbeRecord {
    pub seq: u32,
    pub ttl: u32,
    pub status: String,
    pub measured: bool,
}

/// The record for an outcome, as (status, TTL, measured).
pub open spec fn probe_result(outcome: ReplyOutcome, identifier: u16, sequence: u16) -> (Seq<char>, u32, bool) {
    match outcome {
        ReplyOutcome::SendFailed(e) => ("send_error: "@ + e@, 0u32, false),
        ReplyOutcome::Received(buf, len) => {
            let st = reply_status(buf@, len as int, identifier, sequence);
            (st.0, st.1, st.0 == "success"@)
        },
        ReplyOutcome::TimedOut => ("timeout"@, 0u32, false),
        ReplyOutcome::RecvFailed(e) => ("recv_error: "@ + e@, 0u32, false),
    }
}

/// Records the outcome of echo request `sequence` of `identifier`.
pub fn probe_record(identifier: u16, sequence: u16, outcome: ReplyOutcome) -> (r: ProbeRecord)
    requires
        outcome matches ReplyOutcome::Received(buf, _) ==> buf@.len() >= 28,
    ensures
        r.seq == sequence,
        (r.status@, r.ttl, r.measured) == probe_result(outcome, identifier, sequence),
{
    match outcome {
        ReplyOutcome::SendFailed(e) => {
            let mut s = String::from_str("send_error: ");
            crate::text::push_str(&mut s, e.as_str());
            ProbeRecord { seq: sequence as u32, ttl: 0, status: s, measured: false }
        },
        ReplyOutcome::Received(buf, len) => {
            let (status, ttl) = read_reply(buf.as_slice(), len, identifier, sequence);
            let ok = crate::text::str_eq(status.as_str(), "success");
            ProbeRecord { seq: sequence as u32, ttl, status, measured: ok }
        },
        ReplyOutcome::TimedOut => ProbeRecord { seq: sequence as u32, ttl: 0, status: String::from_str("timeout"), measured: false },
        ReplyOutcome::RecvFailed(e) => {
            let mut s = String::from_str("recv_error: ");
            crate::text::push_str(&mut s, e.as_str());
            ProbeRecord { seq: sequence as u32, ttl: 0, status: s, measured: false }
        },
    }
}

/// Records a whole run of echo requests of `identifier`: the `i`-th
/// outcome is recorded under sequence number `(i + 1) % 65536`, in order.
pub fn probe_records(identifier: u16, outcomes: Vec<ReplyOutcome>) -> (r: Vec<ProbeRecord>)
    requires
        outcomes@.len() <= u32::MAX,
        forall|i: int| 0 <= i < outcomes@.len() ==> (#[trigger] outcomes@[i] matches ReplyOutcome::Received(buf, _) ==> buf@.len() >= 28),
    ensures
        r@.len() == outcomes@.len(),
        forall|i: int| 0 <= i < r@.len() ==> (#[trigger] r@[i]).seq == (i + 1) % 65536
            && (r@[i].status@, r@[i].ttl, r@[i].measured) == probe_result(outcomes@[i], identifier, ((i + 1) % 65536) as u16),
{
    let ghost all = outcomes@;
    let n = outcomes.len();
    let mut rest = outcomes;
    let mut out: Vec<ProbeRecord> = Vec::new();
    let mut i: usize = 0;
    assert(rest@ =~= all.subrange(0, n as int));
    while i < n
        invariant
            i <= n,
            n == all.len(),
            n <= u32::MAX,
            rest@ == all.subrange(i as int, n as int),
            out@.len() == i,
            forall|k: int| 0 <= k < all.len() ==> (#[trigger] all[k] matches ReplyOutcome::Received(buf, _) ==> buf@.len() >= 28),
            forall|k: int| 0 <= k < i ==> (#[trigger] out@[k]).seq == (k + 1) % 65536
                && (out@[k].status@, out@[k].ttl, out@[k].measured) == probe_result(all[k], identifier, ((k + 1) % 65536) as u16),
        decreases n - i,
    {
        let o = rest.remove(0);
        assert(o == all[i as int]);
        let sequence = probe_sequence(i as u32);
        let rec = probe_record(identifier, sequence, o);
        out.push(rec);
        i = i + 1;
        assert(rest@ =~= all.subrange(i as int, n as int));
    }
    out
}

/// The checksum field of a built echo request (bytes 2 and 3, big-endian)
/// holds the checksum of the packet with that field zeroed, for every
/// identifier, sequence number and send time.
pub proof fn law_echo_checksum_field(identifier: u16, sequence: u16, now_nanos: u64)
    ensures
        ({
            let p = echo_request(identifier, sequence, now_nanos);
            p[2] * 256 + p[3] == checksum_of(p.update(2, 0u8).update(3, 0u8))
        }),
{
    let body = echo_request_body(identifier, sequence, now_nanos);
    let p = echo_request(identifier, sequence, now_nanos);
    let c = checksum_of(body);
    assert(p.update(2, 0u8).update(3, 0u8) =~= body);
    assert(((c >> 8u16) as u8) * 256 + ((c & 0xff) as u8) == c) by (bit_vector);
}

} // verus!
