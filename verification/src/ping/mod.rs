//! Ping: reading the system ping command's output, and native ICMP echo.
use vstd::prelude::*;
use crate::text::{
    find_seq, find_seq_exec, is_digit, lines_of, parse_uint, parse_uint_range, str_chars, string_from_range,
    text_lines, trim, trim_bounds, views,
};

pub mod icmp;

verus! {

/// The run of ASCII digits at the start of `s`.
pub open spec fn leading_digits(s: Seq<char>) -> Seq<char>
    decreases s.len(),
{
    if s.len() > 0 && is_digit(s[0]) {
        seq![s[0]] + leading_digits(s.drop_first())
    } else {
        Seq::empty()
    }
}

/// The TTL a ping reply line reports: the digits right after the first
/// `TTL=`, as a `u32`; 0 without `TTL=`, without digits, or on overflow.
pub open spec fn ttl_of(line: Seq<char>) -> u32 {
    match find_seq(line, "TTL="@, 0) {
        Some(i) => match parse_uint(leading_digits(line.subrange(i + 4, line.len() as int)), u32::MAX as int) {
            Some(v) => v as u32,
            None => 0,
        },
        None => 0,
    }
}

/// Reads the TTL of a ping reply line (see [`ttl_of`]).
pub fn extract_ttl(line: &str) -> (r: u32)
    ensures
        r == ttl_of(line@),
{
    let v = str_chars(line);
    let n = v.len();
    let start = match find_seq_exec(&v, "TTL=") {
        Some(i) => i,
        None => { return 0; },
    };
    proof {
        reveal_strlit("TTL=");
    }
    let a = start + 4;
    let mut e = a;
    while e < n && '0' <= v[e] && v[e] <= '9'
        invariant
            a <= e <= n,
            n == v@.len(),
            leading_digits(v@.subrange(a as int, n as int))
                == v@.subrange(a as int, e as int) + leading_digits(v@.subrange(e as int, n as int)),
        decreases n - e,
    {
        assert(v@.subrange(e as int, n as int).drop_first() =~= v@.subrange(e + 1, n as int));
        assert(v@.subrange(a as int, e + 1) =~= v@.subrange(a as int, e as int) + seq![v@[e as int]]);
        e = e + 1;
    }
    assert(leading_digits(v@.subrange(e as int, n as int)) =~= Seq::<char>::empty());
    assert(v@.subrange(a as int, e as int) + Seq::<char>::empty() =~= v@.subrange(a as int, e as int));
    match parse_uint_range(&v, a, e, 0xffff_ffff) {
        Some(x) => x as u32,
        None => 0,
    }
}

/// Decodes the output of the ping command: UTF-8, with invalid sequences
/// replaced by U+FFFD.
pub fn decode_ping_output(bytes: &[u8]) -> (r: String)
    ensures
        r@ == crate::text::lossy_text(bytes@),
        vstd::utf8::valid_utf8(bytes@) ==> r@ == vstd::utf8::decode_utf8(bytes@),
{
    crate::text::utf8_lossy(bytes)
}


/// The number after the first occurrence of `marker`: its leading digits
/// as a `u32`, or 0 without the marker, without digits, or on overflow.
pub open spec fn number_after(line: Seq<char>, marker: Seq<char>) -> u32 {
    match find_seq(line, marker, 0) {
        Some(i) => match parse_uint(leading_digits(line.subrange(i + marker.len(), line.len() as int)), u32::MAX as int) {
            Some(v) => v as u32,
            None => 0,
        },
        None => 0,
    }
}

fn digits_end(v: &Vec<char>, a: usize) -> (e: usize)
    requires
        a <= v@.len(),
    ensures
        a <= e <= v@.len(),
        leading_digits(v@.subrange(a as int, v@.len() as int)) == v@.subrange(a as int, e as int),
{
    let n = v.len();
    let mut e = a;
    while e < n && '0' <= v[e] && v[e] <= '9'
        invariant
            a <= e <= n,
            n == v@.len(),
            leading_digits(v@.subrange(a as int, n as int))
                == v@.subrange(a as int, e as int) + leading_digits(v@.subrange(e as int, n as int)),
        decreases n - e,
    {
        assert(v@.subrange(e as int, n as int).drop_first() =~= v@.subrange(e + 1, n as int));
        assert(v@.subrange(a as int, e + 1) =~= v@.subrange(a as int, e as int) + seq![v@[e as int]]);
        e = e + 1;
    }
    assert(leading_digits(v@.subrange(e as int, n as int)) =~= Seq::<char>::empty());
    assert(v@.subrange(a as int, e as int) + Seq::<char>::empty() =~= v@.subrange(a as int, e as int));
    e
}

fn number_after_exec(v: &Vec<char>, marker: &str, mlen: usize) -> (r: u32)
    requires
        mlen == marker@.len(),
    ensures
        r == number_after(v@, marker@),
{
    let n = v.len();
    let start = match find_seq_exec(v, marker) {
        Some(i) => i,
        None => { return 0; },
    };
    assert(start + mlen <= n);
    let a = start + mlen;
    let e = digits_end(v, a);
    match parse_uint_range(v, a, e, 0xffff_ffff) {
        Some(x) => x as u32,
        None => 0,
    }
}

/// The run of digits and dots at the start of `s`.
pub open spec fn leading_number(s: Seq<char>) -> Seq<char>
    decreases s.len(),
{
    if s.len() > 0 && (is_digit(s[0]) || s[0] == '.') {
        seq![s[0]] + leading_number(s.drop_first())
    } else {
        Seq::empty()
    }
}

/// How many times `c` occurs in `s`.
pub open spec fn count_of(s: Seq<char>, c: char) -> nat
    decreases s.len(),
{
    if s.len() == 0 { 0 } else { count_of(s.drop_last(), c) + if s.last() == c { 1nat } else { 0nat } }
}

/// Digits and dots that `f64::from_str` accepts: at least one digit and at most one dot.
pub open spec fn decimal_text(t: Seq<char>) -> bool {
    &&& forall|i: int| 0 <= i < t.len() ==> is_digit(#[trigger] t[i]) || t[i] == '.'
    &&& count_of(t, '.') <= 1
    &&& count_of(t, '.') < t.len()
}

fn is_decimal_text(v: &Vec<char>, a: usize, e: usize) -> (b: bool)
    requires
        a <= e <= v@.len(),
        forall|i: int| a <= i < e ==> is_digit(#[trigger] v@[i]) || v@[i] == '.',
    ensures
        b == decimal_text(v@.subrange(a as int, e as int)),
{
    let mut dots: usize = 0;
    let mut i = a;
    while i < e
        invariant
            a <= i <= e <= v@.len(),
            dots == count_of(v@.subrange(a as int, i as int), '.'),
            dots <= i - a,
        decreases e - i,
    {
        assert(v@.subrange(a as int, i + 1).drop_last() =~= v@.subrange(a as int, i as int));
        if v[i] == '.' {
            dots = dots + 1;
        }
        i = i + 1;
    }
    let ghost t = v@.subrange(a as int, e as int);
    assert forall|k: int| 0 <= k < t.len() implies is_digit(#[trigger] t[k]) || t[k] == '.' by {
        assert(t[k] == v@[a + k]);
    }
    dots <= 1 && dots < e - a
}

fn number_end(v: &Vec<char>, a: usize) -> (e: usize)
    requires
        a <= v@.len(),
    ensures
        a <= e <= v@.len(),
        leading_number(v@.subrange(a as int, v@.len() as int)) == v@.subrange(a as int, e as int),
        forall|i: int| a <= i < e ==> is_digit(#[trigger] v@[i]) || v@[i] == '.',
{
    let n = v.len();
    let mut e = a;
    while e < n && (('0' <= v[e] && v[e] <= '9') || v[e] == '.')
        invariant
            a <= e <= n,
            n == v@.len(),
            leading_number(v@.subrange(a as int, n as int))
                == v@.subrange(a as int, e as int) + leading_number(v@.subrange(e as int, n as int)),
            forall|i: int| a <= i < e ==> is_digit(#[trigger] v@[i]) || v@[i] == '.',
        decreases n - e,
    {
        assert(v@.subrange(e as int, n as int).drop_first() =~= v@.subrange(e + 1, n as int));
        assert(v@.subrange(a as int, e + 1) =~= v@.subrange(a as int, e as int) + seq![v@[e as int]]);
        e = e + 1;
    }
    assert(leading_number(v@.subrange(e as int, n as int)) =~= Seq::<char>::empty());
    assert(v@.subrange(a as int, e as int) + Seq::<char>::empty() =~= v@.subrange(a as int, e as int));
    e
}

/// What a ping reply line says: sequence number, TTL, status, and the
/// text of the round-trip time in milliseconds (a decimal number), if any.
pub struct PingLine {
    pub seq: u32,
    pub ttl: u32,
    pub status: String,
    pub latency: Option<String>,
}

/// A reply line as values.
pub type PingLineView = (u32, u32, Seq<char>, Option<Seq<char>>);

impl PingLine {
    pub open spec fn view(&self) -> PingLineView {
        (self.seq, self.ttl, self.status@, match self.latency { Some(l) => Some(l@), None => None })
    }
}

/// A line of the Unix ping command: a reply (`... bytes from ...`) with its
/// `icmp_seq=`, `ttl=` and ` time=`; a reply without a readable time is no result.
pub open spec fn unix_ping_line(t: Seq<char>) -> Option<PingLineView> {
    if find_seq(t, "bytes from"@, 0) is None {
        None
    } else {
        let lat = match find_seq(t, " time="@, 0) {
            Some(p) => leading_number(t.subrange(p + 6, t.len() as int)),
            None => Seq::empty(),
        };
        if decimal_text(lat) {
            Some((number_after(t, "icmp_seq="@), number_after(t, "ttl="@), "success"@, Some(lat)))
        } else {
            None
        }
    }
}

/// Parses a Unix ping reply line (see [`unix_ping_line`]).
pub fn parse_unix_ping_line(line: &str) -> (r: Option<PingLine>)
    ensures
        match r {
            Some(p) => unix_ping_line(line@) == Some(p.view()),
            None => unix_ping_line(line@) is None,
        },
{
    let v = str_chars(line);
    let n = v.len();
    if find_seq_exec(&v, "bytes from").is_none() {
        return None;
    }
    proof {
        reveal_strlit("icmp_seq=");
        reveal_strlit("ttl=");
        reveal_strlit(" time=");
    }
    let seq = number_after_exec(&v, "icmp_seq=", 9);
    let ttl = number_after_exec(&v, "ttl=", 4);
    let (a, e) = match find_seq_exec(&v, " time=") {
        Some(p) => {
            assert(p + 6 <= n);
            let a = p + 6;
            (a, number_end(&v, a))
        },
        None => (0, 0),
    };
    if !is_decimal_text(&v, a, e) {
        return None;
    }
    Some(PingLine { seq, ttl, status: String::from_str("success"), latency: Some(string_from_range(&v, a, e)) })
}

/// Where the run of digits and dots that ends at `end` starts.
pub open spec fn number_start(t: Seq<char>, end: int) -> int
    decreases end,
{
    if end > 0 && end <= t.len() && (is_digit(t[end - 1]) || t[end - 1] == '.') { number_start(t, end - 1) } else { end }
}

/// Scanning backwards from position `i` for `ms` right after `=` and a
/// decimal number: the rightmost such number.
pub open spec fn ms_latency(t: Seq<char>, i: int) -> Option<Seq<char>>
    decreases i,
{
    if i < 1 {
        None
    } else if i + 1 < t.len() && t[i] == 'm' && t[i + 1] == 's' && number_start(t, i) > 0
        && t[number_start(t, i) - 1] == '=' && number_start(t, i) < i
        && decimal_text(t.subrange(number_start(t, i), i)) {
        Some(t.subrange(number_start(t, i), i))
    } else {
        ms_latency(t, i - 1)
    }
}

/// The time of a Windows reply line (`time=11ms`, in any language): the
/// rightmost number written `=<number>ms`.
pub open spec fn windows_latency(t: Seq<char>) -> Option<Seq<char>> {
    if t.len() >= 3 { ms_latency(t, t.len() - 2) } else { None }
}

proof fn lemma_number_start(t: Seq<char>, end: int)
    requires
        0 <= end <= t.len(),
    ensures
        0 <= number_start(t, end) <= end,
        forall|i: int| number_start(t, end) <= i < end ==> is_digit(#[trigger] t[i]) || t[i] == '.',
    decreases end,
{
    if end > 0 && (is_digit(t[end - 1]) || t[end - 1] == '.') {
        lemma_number_start(t, end - 1);
    }
}

fn windows_latency_exec(v: &Vec<char>) -> (r: Option<String>)
    ensures
        match r {
            Some(l) => windows_latency(v@) == Some(l@),
            None => windows_latency(v@) is None,
        },
{
    let n = v.len();
    if n < 3 {
        return None;
    }
    let mut i = n - 2;
    while i >= 1
        invariant
            n == v@.len(),
            n >= 3,
            i <= n - 2,
            windows_latency(v@) == ms_latency(v@, i as int),
        decreases i,
    {
        if v[i] == 'm' && v[i + 1] == 's' {
            let mut s = i;
            while s > 0 && (('0' <= v[s - 1] && v[s - 1] <= '9') || v[s - 1] == '.')
                invariant
                    s <= i < n,
                    n == v@.len(),
                    number_start(v@, s as int) == number_start(v@, i as int),
                    forall|k: int| s <= k < i ==> is_digit(#[trigger] v@[k]) || v@[k] == '.',
                decreases s,
            {
                s = s - 1;
            }
            if s > 0 && v[s - 1] == '=' && s < i && is_decimal_text(v, s, i) {
                return Some(string_from_range(v, s, i));
            }
        }
        i = i - 1;
    }
    None
}

/// The text of the time in a Windows reply line (see [`windows_latency`]).
pub fn extract_latency_text(line: &str) -> (r: Option<String>)
    ensures
        match r {
            Some(l) => windows_latency(line@) == Some(l@),
            None => windows_latency(line@) is None,
        },
{
    let v = str_chars(line);
    windows_latency_exec(&v)
}

/// A line of the Windows ping command (English or Chinese): a timeout, an
/// unreachable host, or a reply (it has `TTL=`) with its TTL and time.
pub open spec fn windows_ping_line(t: Seq<char>) -> Option<PingLineView> {
    if find_seq(t, "timed out"@, 0) is Some || find_seq(t, "\u{8d85}\u{65f6}"@, 0) is Some {
        Some((0, 0, "timeout"@, None))
    } else if find_seq(t, "unreachable"@, 0) is Some || find_seq(t, "\u{65e0}\u{6cd5}\u{8bbf}\u{95ee}"@, 0) is Some {
        Some((0, 0, "unreachable"@, None))
    } else if find_seq(t, "TTL="@, 0) is None {
        None
    } else {
        Some((0, ttl_of(t), "success"@, windows_latency(t)))
    }
}

/// Parses a Windows ping line (see [`windows_ping_line`]).
pub fn parse_windows_ping_line(line: &str) -> (r: Option<PingLine>)
    ensures
        match r {
            Some(p) => windows_ping_line(line@) == Some(p.view()),
            None => windows_ping_line(line@) is None,
        },
{
    let v = str_chars(line);
    if find_seq_exec(&v, "timed out").is_some() || find_seq_exec(&v, "\u{8d85}\u{65f6}").is_some() {
        return Some(PingLine { seq: 0, ttl: 0, status: String::from_str("timeout"), latency: None });
    }
    if find_seq_exec(&v, "unreachable").is_some() || find_seq_exec(&v, "\u{65e0}\u{6cd5}\u{8bbf}\u{95ee}").is_some() {
        return Some(PingLine { seq: 0, ttl: 0, status: String::from_str("unreachable"), latency: None });
    }
    if find_seq_exec(&v, "TTL=").is_none() {
        return None;
    }
    let latency = windows_latency_exec(&v);
    let ttl = extract_ttl(line);
    Some(PingLine { seq: 0, ttl, status: String::from_str("success"), latency })
}

/// A line of the ping command's output, in the Windows or the Unix format.
pub open spec fn ping_line(t: Seq<char>, windows: bool) -> Option<PingLineView> {
    if windows { windows_ping_line(t) } else { unix_ping_line(t) }
}

/// Parses a line of the ping command's output (`windows` tells the format).
pub fn parse_ping_line(line: &str, windows: bool) -> (r: Option<PingLine>)
    ensures
        match r {
            Some(p) => ping_line(line@, windows) == Some(p.view()),
            None => ping_line(line@, windows) is None,
        },
{
    if windows { parse_windows_ping_line(line) } else { parse_unix_ping_line(line) }
}

/// The results of the lines of the output, trimmed, in order (blank lines
/// and lines that are no result skipped).
pub open spec fn ping_results(lines: Seq<Seq<char>>, windows: bool) -> Seq<PingLineView>
    decreases lines.len(),
{
    if lines.len() == 0 {
        Seq::empty()
    } else {
        let rest = ping_results(lines.drop_last(), windows);
        let t = trim(lines.last());
        if t.len() == 0 {
            rest
        } else {
            match ping_line(t, windows) {
                Some(p) => rest.push(p),
                None => rest,
            }
        }
    }
}

/// Parses the whole output of the ping command.
pub fn parse_ping_output(output: &str, windows: bool) -> (r: Vec<PingLine>)
    ensures
        Seq::new(r@.len(), |i: int| r@[i].view()) == ping_results(text_lines(output@), windows),
{
    let v = str_chars(output);
    let lines = lines_of(&v);
    let ghost ls = text_lines(v@);
    let mut out: Vec<PingLine> = Vec::new();
    let mut i: usize = 0;
    assert(Seq::new(out@.len(), |i: int| out@[i].view()) =~= ping_results(ls.subrange(0, 0), windows));
    while i < lines.len()
        invariant
            views(lines@) == ls,
            i <= lines@.len(),
            Seq::new(out@.len(), |i: int| out@[i].view()) == ping_results(ls.subrange(0, i as int), windows),
        decreases lines@.len() - i,
    {
        assert(ls.subrange(0, i + 1).drop_last() =~= ls.subrange(0, i as int));
        let line = &lines[i];
        assert(line@ == ls[i as int]);
        let (a, b) = trim_bounds(line, 0, line.len());
        assert(line@.subrange(0, line@.len() as int) =~= line@);
        if a < b {
            let t = string_from_range(line, a, b);
            let ghost before = Seq::new(out@.len(), |i: int| out@[i].view());
            if let Some(p) = parse_ping_line(t.as_str(), windows) {
                out.push(p);
                assert(Seq::new(out@.len(), |i: int| out@[i].view()) =~= before.push(out@.last().view()));
            }
        }
        i = i + 1;
    }
    assert(ls.subrange(0, lines@.len() as int) =~= ls);
    out
}

} // verus!
