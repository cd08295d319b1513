//! Text forms of IP addresses: the IPv4 dotted quad and the IPv6 grammar
//! (hex groups, one `::` for a run of zero groups, an optional trailing
//! dotted quad), and the canonical IPv6 display form of RFC 5952.
use vstd::prelude::*;
use vstd::string::*;
use crate::dns::{compressed_ipv6, hex_char, hex_digit, is_zero_group, short_group, strip_zeros};
use crate::subnet::{ipv4_text, ipv4_to_string};
use crate::text::{decimal, lemma_decimal_digits, lemma_split_on_append_run, lemma_split_on_push_sep, lemma_split_join, lemma_join_shape, lemma_join_avoids, is_digit, join, parse_uint, parse_uint_range, push_char, slice_chars, split_chars, split_on, views};

verus! {

/// An IP address read from text, as an integer (most significant byte first).
#[derive(Clone, Copy, Debug, PartialEq, Eq)]
pub enum IpValue {
    V4(u32),
    V6(u128),
}

/// The value of one dotted-quad octet: one to three decimal digits, no
/// leading zero unless the octet is `0`, at most 255.
pub open spec fn octet_value(s: Seq<char>) -> Option<int> {
    if 1 <= s.len() <= 3 && is_digit(s[0]) && !(s.len() > 1 && s[0] == '0') {
        parse_uint(s, 255)
    } else {
        None
    }
}

/// The value of four octets, most significant first.
pub open spec fn quad_value(a: int, b: int, c: int, d: int) -> int {
    a * 0x100_0000 + b * 0x1_0000 + c * 0x100 + d
}

/// The address a dotted quad stands for: exactly four `.`-separated octets.
pub open spec fn ipv4_of(s: Seq<char>) -> Option<int> {
    let p = split_on(s, '.');
    if p.len() == 4 && octet_value(p[0]) is Some && octet_value(p[1]) is Some
        && octet_value(p[2]) is Some && octet_value(p[3]) is Some {
        Some(quad_value(octet_value(p[0])->0, octet_value(p[1])->0, octet_value(p[2])->0, octet_value(p[3])->0))
    } else {
        None
    }
}

/// Reads one dotted-quad octet.
fn read_octet(s: &Vec<char>) -> (r: Option<u32>)
    ensures
        match octet_value(s@) {
            Some(x) => r == Some(x as u32) && 0 <= x <= 255,
            None => r is None,
        },
{
    let n = s.len();
    if n < 1 || n > 3 {
        return None;
    }
    let c = s[0];
    if !('0' <= c && c <= '9') {
        return None;
    }
    if n > 1 && c == '0' {
        return None;
    }
    assert(s@.subrange(0, n as int) =~= s@);
    match parse_uint_range(s, 0, n, 255) {
        Some(x) => Some(x as u32),
        None => None,
    }
}

/// Reads a dotted-quad IPv4 address.
pub fn read_ipv4(s: &Vec<char>) -> (r: Option<u32>)
    ensures
        match ipv4_of(s@) {
            Some(x) => r == Some(x as u32) && 0 <= x <= u32::MAX,
            None => r is None,
        },
{
    let parts = split_chars(s, '.');
    proof {
        assert(views(parts@).len() == parts@.len());
    }
    if parts.len() != 4 {
        return None;
    }
    let ghost p = split_on(s@, '.');
    assert(p[0] == parts@[0]@ && p[1] == parts@[1]@ && p[2] == parts@[2]@ && p[3] == parts@[3]@);
    let a = match read_octet(&parts[0]) { Some(x) => x, None => { return None; } };
    let b = match read_octet(&parts[1]) { Some(x) => x, None => { return None; } };
    let c = match read_octet(&parts[2]) { Some(x) => x, None => { return None; } };
    let d = match read_octet(&parts[3]) { Some(x) => x, None => { return None; } };
    Some(a * 0x100_0000 + b * 0x1_0000 + c * 0x100 + d)
}


/// The decimal text of a number up to 255 is a dotted-quad octet worth it.
proof fn lemma_octet_decimal(n: nat)
    requires
        n <= 255,
    ensures
        octet_value(decimal(n)) == Some(n as int),
        forall|i: int| 0 <= i < decimal(n).len() ==> decimal(n)[i] != '.',
{
    lemma_decimal_digits(n);
    let s = decimal(n);
    assert(s[0] != '+');
    assert forall|i: int| 0 <= i < s.len() implies s[i] != '.' by {
        assert(is_digit(s[i]));
    }
}

/// How a dotted quad after a `.`-free prefix splits on `.`: the prefix
/// joins the first octet.
pub(crate) proof fn lemma_dotted_split(prefix: Seq<char>, ip: u32)
    requires
        forall|i: int| 0 <= i < prefix.len() ==> prefix[i] != '.',
    ensures
        split_on(prefix + ipv4_text(ip), '.') == seq![
            prefix + decimal(((ip >> 24) & 0xff) as nat),
            decimal(((ip >> 16) & 0xff) as nat),
            decimal(((ip >> 8) & 0xff) as nat),
            decimal((ip & 0xff) as nat),
        ],
{
    let a = ((ip >> 24) & 0xff) as nat;
    let b = ((ip >> 16) & 0xff) as nat;
    let c = ((ip >> 8) & 0xff) as nat;
    let d = (ip & 0xff) as nat;
    assert(((ip >> 24) & 0xff) <= 255 && ((ip >> 16) & 0xff) <= 255 && ((ip >> 8) & 0xff) <= 255
        && (ip & 0xff) <= 255) by (bit_vector);
    lemma_octet_decimal(a);
    lemma_octet_decimal(b);
    lemma_octet_decimal(c);
    lemma_octet_decimal(d);
    reveal_strlit(".");
    let (da, db, dc, dd) = (decimal(a), decimal(b), decimal(c), decimal(d));
    lemma_split_on_append_run(Seq::empty(), prefix, '.');
    assert(Seq::<char>::empty() + prefix =~= prefix);
    lemma_split_on_append_run(prefix, da, '.');
    let s1 = (prefix + da).push('.');
    lemma_split_on_push_sep(prefix + da, '.');
    lemma_split_on_append_run(s1, db, '.');
    let s2 = (s1 + db).push('.');
    lemma_split_on_push_sep(s1 + db, '.');
    lemma_split_on_append_run(s2, dc, '.');
    let s3 = (s2 + dc).push('.');
    lemma_split_on_push_sep(s2 + dc, '.');
    lemma_split_on_append_run(s3, dd, '.');
    assert(prefix + ipv4_text(ip) =~= s3 + dd);
    assert(Seq::<char>::empty() + db =~= db);
    assert(Seq::<char>::empty() + dc =~= dc);
    assert(Seq::<char>::empty() + dd =~= dd);
    assert(seq![Seq::<char>::empty()].update(0, Seq::<char>::empty() + prefix) =~= seq![prefix]);
    assert(split_on(prefix + ipv4_text(ip), '.') =~= seq![prefix + da, db, dc, dd]);
}

/// Writing an IPv4 address as a dotted quad and reading the text back gives
/// the address again.
pub proof fn law_ipv4_text_reads_back(ip: u32)
    ensures
        ipv4_of(ipv4_text(ip)) == Some(ip as int),
{
    lemma_dotted_split(Seq::empty(), ip);
    assert(Seq::<char>::empty() + ipv4_text(ip) =~= ipv4_text(ip));
    assert(Seq::<char>::empty() + decimal(((ip >> 24) & 0xff) as nat) =~= decimal(((ip >> 24) & 0xff) as nat));
    assert(((ip >> 24) & 0xff) <= 255 && ((ip >> 16) & 0xff) <= 255 && ((ip >> 8) & 0xff) <= 255
        && (ip & 0xff) <= 255) by (bit_vector);
    lemma_octet_decimal(((ip >> 24) & 0xff) as nat);
    lemma_octet_decimal(((ip >> 16) & 0xff) as nat);
    lemma_octet_decimal(((ip >> 8) & 0xff) as nat);
    lemma_octet_decimal((ip & 0xff) as nat);
    assert(((ip >> 24) & 0xff) * 0x100_0000 + ((ip >> 16) & 0xff) * 0x1_0000 + ((ip >> 8) & 0xff) * 0x100
        + (ip & 0xff) == ip) by (bit_vector);
}

/// Whether `c` is an ASCII hex digit (either case).
pub open spec fn is_hex(c: char) -> bool {
    ('0' <= c <= '9') || ('a' <= c <= 'f') || ('A' <= c <= 'F')
}

/// The value of an ASCII hex digit.
pub open spec fn hex_value(c: char) -> int {
    if '0' <= c <= '9' {
        c as int - '0' as int
    } else if 'a' <= c <= 'f' {
        c as int - 'a' as int + 10
    } else {
        c as int - 'A' as int + 10
    }
}

/// The value of a run of hex digits, most significant first.
pub open spec fn hex_run_value(s: Seq<char>) -> int
    decreases s.len(),
{
    if s.len() == 0 {
        0
    } else {
        hex_run_value(s.drop_last()) * 16 + hex_value(s.last())
    }
}

/// The value of one IPv6 group: one to four hex digits.
pub open spec fn group_value(s: Seq<char>) -> Option<int> {
    if 1 <= s.len() <= 4 && (forall|i: int| 0 <= i < s.len() ==> is_hex(#[trigger] s[i])) {
        Some(hex_run_value(s))
    } else {
        None
    }
}

/// `16^n` for the lengths a group can have.
pub open spec fn pow16(n: int) -> int {
    if n <= 0 { 1 } else if n == 1 { 16 } else if n == 2 { 256 } else if n == 3 { 4096 } else { 65536 }
}

/// Reads one IPv6 group.
fn read_group(s: &Vec<char>) -> (r: Option<u32>)
    ensures
        match group_value(s@) {
            Some(x) => r == Some(x as u32) && 0 <= x < 65536,
            None => r is None,
        },
{
    let n = s.len();
    if n < 1 || n > 4 {
        return None;
    }
    let mut acc: u32 = 0;
    let mut i: usize = 0;
    while i < n
        invariant
            n == s@.len(),
            1 <= n <= 4,
            i <= n,
            forall|k: int| 0 <= k < i ==> is_hex(#[trigger] s@[k]),
            acc as int == hex_run_value(s@.subrange(0, i as int)),
            acc < pow16(i as int),
        decreases n - i,
    {
        let c = s[i];
        let d: u32;
        if '0' <= c && c <= '9' {
            d = (c as u32) - ('0' as u32);
        } else if 'a' <= c && c <= 'f' {
            d = (c as u32) - ('a' as u32) + 10;
        } else if 'A' <= c && c <= 'F' {
            d = (c as u32) - ('A' as u32) + 10;
        } else {
            assert(!is_hex(s@[i as int]));
            return None;
        }
        assert(s@.subrange(0, i + 1).drop_last() =~= s@.subrange(0, i as int));
        acc = acc * 16 + d;
        i = i + 1;
    }
    assert(s@.subrange(0, n as int) =~= s@);
    Some(acc)
}

/// The numbers a run of integers in `0..65536` stands for, as a list of `int`.
pub open spec fn ints(v: Seq<u32>) -> Seq<int> {
    Seq::new(v.len(), |i: int| v[i] as int)
}

/// The 16-bit groups that a run of `:`-separated IPv6 groups stands for; when
/// `v4_tail` holds its last piece may instead be a dotted quad, which stands
/// for two groups. The empty run stands for no group.
pub open spec fn pieces(s: Seq<char>, v4_tail: bool) -> Option<Seq<int>> {
    if s.len() == 0 {
        Some(Seq::empty())
    } else {
        let p = split_on(s, ':');
        let n = p.len() as int;
        let front = Seq::new((n - 1) as nat, |i: int| group_value(p[i])->0);
        if !(forall|i: int| 0 <= i < n - 1 ==> #[trigger] group_value(p[i]) is Some) {
            None
        } else if group_value(p[n - 1]) is Some {
            Some(front.push(group_value(p[n - 1])->0))
        } else if v4_tail && ipv4_of(p[n - 1]) is Some {
            let a = ipv4_of(p[n - 1])->0;
            Some(front.push(a / 65536).push(a % 65536))
        } else {
            None
        }
    }
}

/// Reads a run of `:`-separated IPv6 groups (see [`pieces`]).
fn read_pieces(s: &Vec<char>, v4_tail: bool) -> (r: Option<Vec<u32>>)
    ensures
        match pieces(s@, v4_tail) {
            Some(g) => r matches Some(v) && ints(v@) == g && (forall|i: int| 0 <= i < v@.len() ==> #[trigger] v@[i] < 65536),
            None => r is None,
        },
{
    if s.len() == 0 {
        let v: Vec<u32> = Vec::new();
        assert(ints(v@) =~= Seq::<int>::empty());
        return Some(v);
    }
    let parts = split_chars(s, ':');
    let ghost p = split_on(s@, ':');
    proof {
        crate::text::lemma_split_on_nonempty(s@, ':');
        assert(views(parts@).len() == parts@.len());
    }
    let n = parts.len();
    let mut out: Vec<u32> = Vec::new();
    let mut i: usize = 0;
    while i + 1 < n
        invariant
            n == parts@.len(),
            n >= 1,
            p == split_on(s@, ':'),
            views(parts@) == p,
            i + 1 <= n,
            out@.len() == i,
            forall|k: int| 0 <= k < i ==> #[trigger] group_value(p[k]) is Some,
            ints(out@) == Seq::new(i as nat, |k: int| group_value(p[k])->0),
            forall|k: int| 0 <= k < out@.len() ==> #[trigger] out@[k] < 65536,
        decreases n - i,
    {
        assert(p[i as int] == parts@[i as int]@);
        let ghost prev = ints(out@);
        match read_group(&parts[i]) {
            Some(g) => {
                assert(g as int == group_value(p[i as int])->0);
                out.push(g);
                assert(ints(out@) =~= prev.push(g as int));
            },
            None => {
                return None;
            },
        }
        i = i + 1;
        assert(ints(out@) =~= Seq::new(i as nat, |k: int| group_value(p[k])->0));
    }
    let ghost front = Seq::new((n - 1) as nat, |k: int| group_value(p[k])->0);
    assert(ints(out@) == front);
    assert(p[n - 1] == parts@[n - 1]@);
    match read_group(&parts[n - 1]) {
        Some(g) => {
            out.push(g);
            assert(ints(out@) =~= front.push(g as int));
            return Some(out);
        },
        None => {},
    }
    if !v4_tail {
        return None;
    }
    match read_ipv4(&parts[n - 1]) {
        Some(a) => {
            out.push(a / 65536);
            out.push(a % 65536);
            assert(ints(out@) =~= front.push(a as int / 65536).push(a as int % 65536));
            Some(out)
        },
        None => None,
    }
}


/// The first position at or after `i` where `s` holds `::`.
pub open spec fn find_double_colon(s: Seq<char>, i: int) -> Option<int>
    decreases s.len() - i,
{
    if i < 0 || i + 1 >= s.len() {
        None
    } else if s[i] == ':' && s[i + 1] == ':' {
        Some(i)
    } else {
        find_double_colon(s, i + 1)
    }
}

/// The eight 16-bit groups an IPv6 address text stands for: either eight
/// groups (the last two possibly written as a dotted quad), or groups before
/// and after the first `::`, which stands for at least one zero group.
pub open spec fn ipv6_groups(s: Seq<char>) -> Option<Seq<int>> {
    match find_double_colon(s, 0) {
        Some(k) => {
            let h = pieces(s.subrange(0, k), false);
            let t = pieces(s.subrange(k + 2, s.len() as int), true);
            if h is Some && t is Some && h->0.len() + t->0.len() <= 7 {
                Some(h->0 + Seq::new((8 - h->0.len() - t->0.len()) as nat, |i: int| 0int) + t->0)
            } else {
                None
            }
        },
        None => match pieces(s, true) {
            Some(g) => if g.len() == 8 { Some(g) } else { None },
            None => None,
        },
    }
}

/// The number a list of 16-bit groups stands for, most significant first.
pub open spec fn groups_value(g: Seq<int>) -> int
    decreases g.len(),
{
    if g.len() == 0 {
        0
    } else {
        groups_value(g.drop_last()) * 65536 + g.last()
    }
}

/// `65536^n`.
pub open spec fn pow65536(n: nat) -> int
    decreases n,
{
    if n == 0 { 1 } else { 65536 * pow65536((n - 1) as nat) }
}

proof fn lemma_pow65536_mono(a: nat, b: nat)
    requires
        a <= b,
    ensures
        1 <= pow65536(a) <= pow65536(b),
    decreases b,
{
    if b > 0 {
        if a < b {
            lemma_pow65536_mono(a, (b - 1) as nat);
        } else {
            lemma_pow65536_mono((b - 1) as nat, (b - 1) as nat);
        }
    }
}

/// The address text `std::net::IpAddr` reads: a dotted quad, or else IPv6 text.
pub open spec fn ip_of_text(s: Seq<char>) -> Option<IpValue> {
    match ipv4_of(s) {
        Some(a) => Some(IpValue::V4(a as u32)),
        None => match ipv6_groups(s) {
            Some(g) => Some(IpValue::V6(groups_value(g) as u128)),
            None => None,
        },
    }
}

fn find_double_colon_exec(v: &Vec<char>) -> (r: Option<usize>)
    ensures
        match find_double_colon(v@, 0) {
            Some(k) => r == Some(k as usize) && 0 <= k && k + 2 <= v@.len(),
            None => r is None,
        },
{
    if v.len() < 2 {
        return None;
    }
    let mut i: usize = 0;
    while i < v.len() - 1
        invariant
            v@.len() >= 2,
            i <= v@.len(),
            find_double_colon(v@, 0) == find_double_colon(v@, i as int),
        decreases v@.len() - i,
    {
        if v[i] == ':' && v[i + 1] == ':' {
            return Some(i);
        }
        i = i + 1;
    }
    None
}

/// Reads IPv6 address text.
pub fn read_ipv6(v: &Vec<char>) -> (r: Option<u128>)
    ensures
        match ipv6_groups(v@) {
            Some(g) => r == Some(groups_value(g) as u128) && 0 <= groups_value(g) <= u128::MAX,
            None => r is None,
        },
{
    let n = v.len();
    let mut groups: Vec<u32>;
    let ghost g: Seq<int>;
    match find_double_colon_exec(v) {
        Some(k) => {
            let head = slice_chars(v, 0, k);
            let tail = slice_chars(v, k + 2, n);
            let h = match read_pieces(&head, false) { Some(x) => x, None => { return None; } };
            let t = match read_pieces(&tail, true) { Some(x) => x, None => { return None; } };
            if h.len() > 7 || t.len() > 7 - h.len() {
                return None;
            }
            let zeros = 8 - h.len() - t.len();
            groups = h;
            let mut j: usize = 0;
            let ghost hv = ints(groups@);
            while j < zeros
                invariant
                    j <= zeros,
                    ints(groups@) == hv + Seq::new(j as nat, |i: int| 0int),
                    groups@.len() == hv.len() + j,
                    forall|i: int| 0 <= i < groups@.len() ==> #[trigger] groups@[i] < 65536,
                decreases zeros - j,
            {
                let ghost prev = ints(groups@);
                groups.push(0);
                assert(ints(groups@) =~= prev.push(0));
                j = j + 1;
                assert(ints(groups@) =~= hv + Seq::new(j as nat, |i: int| 0int));
            }
            let mut j: usize = 0;
            let ghost mid = ints(groups@);
            while j < t.len()
                invariant
                    j <= t@.len(),
                    ints(groups@) == mid + ints(t@).subrange(0, j as int),
                    groups@.len() == mid.len() + j,
                    forall|i: int| 0 <= i < t@.len() ==> #[trigger] t@[i] < 65536,
                    forall|i: int| 0 <= i < groups@.len() ==> #[trigger] groups@[i] < 65536,
                decreases t@.len() - j,
            {
                let ghost prev = ints(groups@);
                groups.push(t[j]);
                assert(ints(groups@) =~= prev.push(t@[j as int] as int));
                assert(ints(t@).subrange(0, j + 1) =~= ints(t@).subrange(0, j as int).push(t@[j as int] as int));
                j = j + 1;
                assert(ints(groups@) =~= mid + ints(t@).subrange(0, j as int));
            }
            assert(ints(t@).subrange(0, t@.len() as int) =~= ints(t@));
            proof {
                g = ipv6_groups(v@)->0;
            }
        },
        None => {
            groups = match read_pieces(v, true) { Some(x) => x, None => { return None; } };
            if groups.len() != 8 {
                return None;
            }
            proof {
                g = ipv6_groups(v@)->0;
            }
        },
    }
    assert(ints(groups@) == g);
    assert(groups@.len() == 8);
    let mut acc: u128 = 0;
    let mut i: usize = 0;
    proof {
        assert(g.subrange(0, 0) =~= Seq::<int>::empty());
        reveal_with_fuel(pow65536, 9);
        assert(pow65536(8) == 0x1_0000_0000_0000_0000_0000_0000_0000_0000);
    }
    while i < 8
        invariant
            i <= 8,
            groups@.len() == 8,
            ints(groups@) == g,
            forall|k: int| 0 <= k < groups@.len() ==> #[trigger] groups@[k] < 65536,
            acc as int == groups_value(g.subrange(0, i as int)),
            acc < pow65536(i as nat),
            pow65536(8) == 0x1_0000_0000_0000_0000_0000_0000_0000_0000,
        decreases 8 - i,
    {
        proof {
            lemma_pow65536_mono((i + 1) as nat, 8);
        }
        assert(g.subrange(0, i + 1).drop_last() =~= g.subrange(0, i as int));
        assert(g[i as int] == groups@[i as int] as int);
        acc = acc * 65536 + groups[i] as u128;
        i = i + 1;
    }
    assert(g.subrange(0, 8) =~= g);
    Some(acc)
}

/// Reads an IPv4 or IPv6 address from text, as `str::parse::<std::net::IpAddr>`
/// does.
pub fn parse_ip_addr(text: &str) -> (r: Option<IpValue>)
    ensures
        r == ip_of_text(text@),
{
    let v = crate::text::str_chars(text);
    match read_ipv4(&v) {
        Some(a) => Some(IpValue::V4(a)),
        None => match read_ipv6(&v) {
            Some(x) => Some(IpValue::V6(x)),
            None => None,
        },
    }
}


/// The eight 16-bit groups of an IPv6 address, most significant first.
pub open spec fn segments(v: u128) -> Seq<int> {
    Seq::new(8, |i: int| ((v >> ((112 - 16 * i) as u128)) & 0xffff) as int)
}

/// Lower-case hex digits of `n` without leading zeros (`{:x}`).
pub open spec fn hex_text(n: nat) -> Seq<char>
    decreases n,
{
    if n < 16 {
        seq![hex_digit(n as int)]
    } else {
        hex_text(n / 16).push(hex_digit((n % 16) as int))
    }
}

/// Appends `n` in lower-case hex.
pub fn push_hex(s: &mut String, n: u64)
    ensures
        final(s)@ == old(s)@ + hex_text(n as nat),
    decreases n,
{
    if n < 16 {
        push_char(s, hex_char(n as u8));
        assert(old(s)@.push(hex_digit(n as int)) =~= old(s)@ + hex_text(n as nat));
    } else {
        push_hex(s, n / 16);
        let ghost mid = s@;
        push_char(s, hex_char((n % 16) as u8));
        assert(mid.push(hex_digit((n % 16) as int)) =~= old(s)@ + hex_text(n as nat));
    }
}

/// The number of zero groups from position `i` on.
pub open spec fn zero_run(g: Seq<int>, i: int) -> nat
    decreases g.len() - i,
{
    if i < 0 || i >= g.len() || g[i] != 0 {
        0
    } else {
        1 + zero_run(g, i + 1)
    }
}

/// The first of the longest runs of zero groups at or after `i`, as
/// (start, length); (0, 0) when there is none.
pub open spec fn longest_zero_run(g: Seq<int>, i: int) -> (int, nat)
    decreases g.len() - i,
{
    if i < 0 || i >= g.len() {
        (0, 0)
    } else {
        let rest = longest_zero_run(g, i + 1);
        if zero_run(g, i) > 0 && zero_run(g, i) >= rest.1 {
            (i, zero_run(g, i))
        } else {
            rest
        }
    }
}

/// The hex text of each group.
pub open spec fn hex_groups(g: Seq<int>) -> Seq<Seq<char>> {
    Seq::new(g.len(), |i: int| hex_text(g[i] as nat))
}

/// Whether the groups are those of an IPv4-mapped address (`::ffff:a.b.c.d`).
pub open spec fn is_v4_mapped(g: Seq<int>) -> bool {
    g[0] == 0 && g[1] == 0 && g[2] == 0 && g[3] == 0 && g[4] == 0 && g[5] == 0xffff
}

/// The text `Display` of `std::net::Ipv6Addr` gives (RFC 5952): an IPv4-mapped
/// address as `::ffff:` and a dotted quad; otherwise lower-case hex groups
/// without leading zeros, the first longest run of two or more zero groups
/// written as `::`.
pub open spec fn ipv6_display(v: u128) -> Seq<char> {
    let g = segments(v);
    if is_v4_mapped(g) {
        "::ffff:"@ + ipv4_text((g[6] * 65536 + g[7]) as u32)
    } else {
        let run = longest_zero_run(g, 0);
        if run.1 > 1 {
            join(hex_groups(g.subrange(0, run.0)), ":"@) + "::"@ + join(hex_groups(g.subrange(run.0 + run.1, 8)), ":"@)
        } else {
            join(hex_groups(g), ":"@)
        }
    }
}

/// Appends the hex groups `g[lo..hi]` joined by `:`.
fn push_hex_groups(s: &mut String, g: &Vec<u32>, lo: usize, hi: usize)
    requires
        lo <= hi <= g@.len(),
        forall|i: int| 0 <= i < g@.len() ==> #[trigger] g@[i] < 65536,
    ensures
        final(s)@ == old(s)@ + join(hex_groups(ints(g@).subrange(lo as int, hi as int)), ":"@),
{
    let ghost all = ints(g@);
    let mut i = lo;
    assert(hex_groups(all.subrange(lo as int, lo as int)) =~= Seq::<Seq<char>>::empty());
    assert(old(s)@ + Seq::<char>::empty() =~= old(s)@);
    while i < hi
        invariant
            lo <= i <= hi <= g@.len(),
            all == ints(g@),
            forall|k: int| 0 <= k < g@.len() ==> #[trigger] g@[k] < 65536,
            s@ == old(s)@ + join(hex_groups(all.subrange(lo as int, i as int)), ":"@),
        decreases hi - i,
    {
        let ghost sub = hex_groups(all.subrange(lo as int, i + 1));
        assert(sub.drop_last() =~= hex_groups(all.subrange(lo as int, i as int)));
        assert(sub.last() == hex_text(g@[i as int] as nat));
        if i > lo {
            push_char(s, ':');
            proof {
                reveal_strlit(":");
            }
            push_hex(s, g[i] as u64);
            assert(s@ =~= old(s)@ + join(sub, ":"@));
        } else {
            push_hex(s, g[i] as u64);
            assert(s@ =~= old(s)@ + join(sub, ":"@));
        }
        i = i + 1;
    }
}

/// Formats an IPv6 address as `Display` of `std::net::Ipv6Addr` does.
pub fn format_ipv6(v: u128) -> (r: String)
    ensures
        r@ == ipv6_display(v),
{
    let ghost g = segments(v);
    let mut segs: Vec<u32> = Vec::new();
    let mut k: usize = 0;
    while k < 8
        invariant
            k <= 8,
            g == segments(v),
            ints(segs@) == g.subrange(0, k as int),
            segs@.len() == k,
            forall|i: int| 0 <= i < segs@.len() ==> #[trigger] segs@[i] < 65536,
        decreases 8 - k,
    {
        let sh: u128 = (112 - 16 * k) as u128;
        let x: u128 = (v >> sh) & 0xffff;
        assert(x <= 0xffff) by (bit_vector)
            requires x == (v >> sh) & 0xffff;
        let ghost prev = ints(segs@);
        segs.push(x as u32);
        assert(ints(segs@) =~= prev.push(x as int));
        k = k + 1;
        assert(ints(segs@) =~= g.subrange(0, k as int));
    }
    assert(g.subrange(0, 8) =~= g);
    if segs[0] == 0 && segs[1] == 0 && segs[2] == 0 && segs[3] == 0 && segs[4] == 0 && segs[5] == 0xffff {
        let mut r = String::from_str("::ffff:");
        let low = ipv4_to_string(segs[6] * 65536 + segs[7]);
        crate::text::push_str(&mut r, low.as_str());
        return r;
    }
    // the first longest run of zero groups, found scanning from the end
    let mut cur: usize = 0;
    let mut best_start: usize = 0;
    let mut best_len: usize = 0;
    let mut i: usize = 8;
    while i > 0
        invariant
            i <= 8,
            ints(segs@) == g,
            segs@.len() == 8,
            cur as nat == zero_run(g, i as int),
            (best_start as int, best_len as nat) == longest_zero_run(g, i as int),
            cur <= 8 - i,
            best_len <= 8 - i,
            best_start < 8,
        decreases i,
    {
        let j = i - 1;
        assert(g[j as int] == segs@[j as int] as int);
        if segs[j] == 0 {
            cur = cur + 1;
        } else {
            cur = 0;
        }
        if cur > 0 && cur >= best_len {
            best_start = j;
            best_len = cur;
        }
        i = j;
    }
    let mut r = String::new();
    if best_len > 1 {
        push_hex_groups(&mut r, &segs, 0, best_start);
        crate::text::push_str(&mut r, "::");
        proof {
            lemma_longest_zero_run(g, 0);
        }
        push_hex_groups(&mut r, &segs, best_start + best_len, 8);
    } else {
        push_hex_groups(&mut r, &segs, 0, 8);
        assert(ints(segs@).subrange(0, 8) =~= g);
    }
    r
}

/// The longest run found starts inside the list, and is as long as the run there.
proof fn lemma_longest_zero_run(g: Seq<int>, i: int)
    requires
        0 <= i <= g.len(),
    ensures
        longest_zero_run(g, i).1 > 0 ==> (i <= longest_zero_run(g, i).0 < g.len()
            && zero_run(g, longest_zero_run(g, i).0) == longest_zero_run(g, i).1
            && longest_zero_run(g, i).0 + longest_zero_run(g, i).1 <= g.len()),
    decreases g.len() - i,
{
    if i < g.len() {
        lemma_longest_zero_run(g, i + 1);
        lemma_zero_run_bound(g, i);
    }
}

proof fn lemma_zero_run_bound(g: Seq<int>, i: int)
    requires
        0 <= i <= g.len(),
    ensures
        i + zero_run(g, i) <= g.len(),
    decreases g.len() - i,
{
    if i < g.len() {
        lemma_zero_run_bound(g, i + 1);
    }
}


/// A run of zero groups found at `i` is all zeros.
proof fn lemma_zero_run_zeros(g: Seq<int>, i: int)
    requires
        0 <= i <= g.len(),
    ensures
        forall|j: int| i <= j < i + zero_run(g, i) ==> g[j] == 0,
    decreases g.len() - i,
{
    if i < g.len() && g[i] == 0 {
        lemma_zero_run_zeros(g, i + 1);
    }
}

/// The hex digit of `d` is a hex character worth `d`, neither `:` nor `.`.
proof fn lemma_hex_digit_value(d: int)
    requires
        0 <= d < 16,
    ensures
        is_hex(hex_digit(d)),
        hex_value(hex_digit(d)) == d,
        hex_digit(d) != ':',
        hex_digit(d) != '.',
{
}

/// The hex text of a 16-bit group reads back as that group.
proof fn lemma_hex_text_group(n: nat)
    requires
        n < 65536,
    ensures
        group_value(hex_text(n)) == Some(n as int),
        1 <= hex_text(n).len() <= 4,
        forall|i: int| 0 <= i < hex_text(n).len() ==> #[trigger] hex_text(n)[i] != ':' && hex_text(n)[i] != '.',
    decreases n,
{
    lemma_hex_digit_value((n % 16) as int);
    lemma_hex_text_short(n);
    let s = hex_text(n);
    if n < 16 {
        assert(n % 16 == n);
        assert(s.drop_last() =~= Seq::<char>::empty());
        assert(hex_run_value(s) == hex_run_value(Seq::<char>::empty()) * 16 + hex_value(s.last()));
        assert(is_hex(s[0]));
    } else {
        lemma_hex_text_group(n / 16);
        assert(s.drop_last() =~= hex_text(n / 16));
        assert(hex_run_value(s) == hex_run_value(hex_text(n / 16)) * 16 + hex_value(s.last()));
        assert((n / 16) * 16 + n % 16 == n);
        assert(hex_run_value(hex_text(n / 16)) == n / 16);
        assert forall|i: int| 0 <= i < s.len() implies is_hex(#[trigger] s[i]) by {
            if i < s.len() - 1 {
                assert(s[i] == hex_text(n / 16)[i]);
            }
        }
        assert forall|i: int| 0 <= i < s.len() implies #[trigger] s[i] != ':' && s[i] != '.' by {
            if i < s.len() - 1 {
                assert(s[i] == hex_text(n / 16)[i]);
            }
        }
    }
}

/// The hex text of a number below `16^k` has at most `k` digits.
proof fn lemma_hex_text_short(n: nat)
    ensures
        n < 16 ==> hex_text(n).len() == 1,
        n < 256 ==> hex_text(n).len() <= 2,
        n < 4096 ==> hex_text(n).len() <= 3,
        n < 65536 ==> hex_text(n).len() <= 4,
        hex_text(n).len() >= 1,
    decreases n,
{
    if n >= 16 {
        lemma_hex_text_short(n / 16);
    }
}


/// The eight groups of an address are 16-bit values, and together they are
/// the address.
proof fn lemma_segments_value(v: u128)
    ensures
        forall|i: int| 0 <= i < 8 ==> 0 <= #[trigger] segments(v)[i] < 65536,
        groups_value(segments(v)) == v,
{
    let g = segments(v);
    assert forall|i: int| 0 <= i < 8 implies 0 <= #[trigger] segments(v)[i] < 65536 by {
        let sh = (112 - 16 * i) as u128;
        assert(((v >> sh) & 0xffff) <= 0xffff) by (bit_vector);
    }
    let (g0, g1, g2, g3) = ((v >> 112u128) & 0xffff, (v >> 96u128) & 0xffff, (v >> 80u128) & 0xffff, (v >> 64u128) & 0xffff);
    let (g4, g5, g6, g7) = ((v >> 48u128) & 0xffff, (v >> 32u128) & 0xffff, (v >> 16u128) & 0xffff, (v >> 0u128) & 0xffff);
    assert(g[0] == g0 && g[1] == g1 && g[2] == g2 && g[3] == g3);
    assert(g[4] == g4 && g[5] == g5 && g[6] == g6 && g[7] == g7);
    assert(((((((g0 * 65536 + g1) * 65536 + g2) * 65536 + g3) * 65536 + g4) * 65536 + g5) * 65536 + g6) * 65536 + g7
        == v) by (bit_vector)
        requires
            g0 == (v >> 112u128) & 0xffff,
            g1 == (v >> 96u128) & 0xffff,
            g2 == (v >> 80u128) & 0xffff,
            g3 == (v >> 64u128) & 0xffff,
            g4 == (v >> 48u128) & 0xffff,
            g5 == (v >> 32u128) & 0xffff,
            g6 == (v >> 16u128) & 0xffff,
            g7 == (v >> 0u128) & 0xffff,
    ;
    assert(groups_value(g.subrange(0, 1)) == g0) by {
        assert(g.subrange(0, 1).drop_last() =~= Seq::<int>::empty());
        assert(groups_value(Seq::<int>::empty()) == 0);
        assert(g.subrange(0, 1).last() == g[0]);
    }
    assert(groups_value(g.subrange(0, 2)) == g0 * 65536 + g1) by {
        assert(g.subrange(0, 2).drop_last() =~= g.subrange(0, 1));
    }
    assert(groups_value(g.subrange(0, 3)) == (g0 * 65536 + g1) * 65536 + g2) by {
        assert(g.subrange(0, 3).drop_last() =~= g.subrange(0, 2));
    }
    assert(groups_value(g.subrange(0, 4)) == ((g0 * 65536 + g1) * 65536 + g2) * 65536 + g3) by {
        assert(g.subrange(0, 4).drop_last() =~= g.subrange(0, 3));
    }
    assert(groups_value(g.subrange(0, 5)) == (((g0 * 65536 + g1) * 65536 + g2) * 65536 + g3) * 65536 + g4) by {
        assert(g.subrange(0, 5).drop_last() =~= g.subrange(0, 4));
    }
    assert(groups_value(g.subrange(0, 6)) == ((((g0 * 65536 + g1) * 65536 + g2) * 65536 + g3) * 65536 + g4) * 65536
        + g5) by {
        assert(g.subrange(0, 6).drop_last() =~= g.subrange(0, 5));
    }
    assert(groups_value(g.subrange(0, 7)) == (((((g0 * 65536 + g1) * 65536 + g2) * 65536 + g3) * 65536 + g4) * 65536
        + g5) * 65536 + g6) by {
        assert(g.subrange(0, 7).drop_last() =~= g.subrange(0, 6));
    }
    assert(g.drop_last() =~= g.subrange(0, 7));
}


/// The text of 16-bit groups joined by `:` reads back as those groups.
proof fn lemma_pieces_of_groups(g: Seq<int>, v4_tail: bool)
    requires
        forall|i: int| 0 <= i < g.len() ==> 0 <= #[trigger] g[i] < 65536,
    ensures
        pieces(join(hex_groups(g), seq![':']), v4_tail) == Some(g),
        forall|i: int| 0 <= i < join(hex_groups(g), seq![':']).len() ==> #[trigger] join(hex_groups(g), seq![':'])[i] != '.',
        g.len() >= 1 ==> ({
            let t = join(hex_groups(g), seq![':']);
            &&& t.len() >= 1
            &&& t[0] != ':'
            &&& t.last() != ':'
            &&& forall|i: int| 0 <= i < t.len() - 1 && #[trigger] t[i] == ':' ==> t[i + 1] != ':'
        }),
{
    let hg = hex_groups(g);
    assert forall|k: int| 0 <= k < hg.len() implies #[trigger] hg[k].len() >= 1 && group_value(hg[k]) == Some(g[k]) by {
        lemma_hex_text_group(g[k] as nat);
    }
    assert forall|k: int, i: int| 0 <= k < hg.len() && 0 <= i < hg[k].len() implies #[trigger] hg[k][i] != ':' && hg[k][i] != '.' by {
        lemma_hex_text_group(g[k] as nat);
        assert(hex_text(g[k] as nat)[i] != ':' && hex_text(g[k] as nat)[i] != '.');
    }
    lemma_join_avoids(hg, ':', '.');
    if g.len() == 0 {
        assert(hg.len() == 0);
        assert(g =~= Seq::<int>::empty());
    } else {
        lemma_join_shape(hg, ':');
        lemma_split_join(hg, ':');
        let t = join(hg, seq![':']);
        let p = split_on(t, ':');
        let n = p.len() as int;
        let front = Seq::new((n - 1) as nat, |i: int| group_value(p[i])->0);
        assert(front.push(group_value(p[n - 1])->0) =~= g);
    }
}

/// The first `::` at or after `i` is at `k` when none comes before it.
proof fn lemma_find_double_colon_at(s: Seq<char>, i: int, k: int)
    requires
        0 <= i <= k,
        k + 1 < s.len(),
        s[k] == ':' && s[k + 1] == ':',
        forall|j: int| i <= j < k ==> !(#[trigger] s[j] == ':' && s[j + 1] == ':'),
    ensures
        find_double_colon(s, i) == Some(k),
    decreases k - i,
{
    if i < k {
        lemma_find_double_colon_at(s, i + 1, k);
    }
}

/// No `::` at or after `i` when no two colons there are adjacent.
proof fn lemma_find_double_colon_none(s: Seq<char>, i: int)
    requires
        0 <= i,
        forall|j: int| i <= j < s.len() - 1 ==> !(#[trigger] s[j] == ':' && s[j + 1] == ':'),
    ensures
        find_double_colon(s, i) is None,
    decreases s.len() - i,
{
    if i + 1 < s.len() {
        lemma_find_double_colon_none(s, i + 1);
    }
}

/// Text without a `.` is no dotted quad.
proof fn lemma_no_dot_not_ipv4(s: Seq<char>)
    requires
        forall|i: int| 0 <= i < s.len() ==> #[trigger] s[i] != '.',
    ensures
        ipv4_of(s) is None,
{
    lemma_split_on_append_run(Seq::empty(), s, '.');
    assert(Seq::<char>::empty() + s =~= s);
}


/// A dotted quad holds no `:` and is at least seven characters long.
proof fn lemma_ipv4_text_chars(x: u32)
    ensures
        ipv4_text(x).len() >= 7,
        forall|i: int| 0 <= i < ipv4_text(x).len() ==> #[trigger] ipv4_text(x)[i] != ':',
{
    let quad = ipv4_text(x);
    lemma_decimal_digits(((x >> 24) & 0xff) as nat);
    lemma_decimal_digits(((x >> 16) & 0xff) as nat);
    lemma_decimal_digits(((x >> 8) & 0xff) as nat);
    lemma_decimal_digits((x & 0xff) as nat);
    reveal_strlit(".");
    let da = decimal(((x >> 24) & 0xff) as nat);
    let db = decimal(((x >> 16) & 0xff) as nat);
    let dc = decimal(((x >> 8) & 0xff) as nat);
    let dd = decimal((x & 0xff) as nat);
    assert(quad =~= da + "."@ + db + "."@ + dc + "."@ + dd);
    assert forall|i: int| 0 <= i < quad.len() implies #[trigger] quad[i] != ':' by {
        if i < da.len() {
            assert(quad[i] == da[i] && is_digit(da[i]));
        } else if i == da.len() {
        } else if i < da.len() + 1 + db.len() {
            assert(quad[i] == db[i - da.len() - 1] && is_digit(db[i - da.len() - 1]));
        } else if i == da.len() + 1 + db.len() {
        } else if i < da.len() + 2 + db.len() + dc.len() {
            assert(quad[i] == dc[i - da.len() - 2 - db.len()] && is_digit(dc[i - da.len() - 2 - db.len()]));
        } else if i == da.len() + 2 + db.len() + dc.len() {
        } else {
            assert(quad[i] == dd[i - da.len() - 3 - db.len() - dc.len()]
                && is_digit(dd[i - da.len() - 3 - db.len() - dc.len()]));
        }
    }
}

/// An IPv4-mapped address displays as `::ffff:` and a dotted quad, which
/// reads back as its groups.
proof fn lemma_display_mapped(v: u128)
    requires
        is_v4_mapped(segments(v)),
    ensures
        ipv4_of(ipv6_display(v)) is None,
        ipv6_groups(ipv6_display(v)) == Some(segments(v)),
{
    let g = segments(v);
    lemma_segments_value(v);
    reveal_strlit("::ffff:");
    let t = ipv6_display(v);
    let x = (g[6] * 65536 + g[7]) as u32;
    assert(g[6] * 65536 + g[7] < 0x1_0000_0000) by (nonlinear_arith)
        requires 0 <= g[6] < 65536, 0 <= g[7] < 65536;
    assert(x == g[6] * 65536 + g[7]);
    let pre = "::ffff:"@;
    assert(pre =~= seq![':', ':', 'f', 'f', 'f', 'f', ':']);
    assert(t == pre + ipv4_text(x));
    lemma_dotted_split(pre, x);
    assert(octet_value(pre + decimal(((x >> 24) & 0xff) as nat)) is None);
    assert(t[0] == ':' && t[1] == ':');
    lemma_find_double_colon_at(t, 0, 0);
    assert(t.subrange(0, 0) =~= Seq::<char>::empty());
    let tail = t.subrange(2, t.len() as int);
    let ffff = seq!['f', 'f', 'f', 'f'];
    let quad = ipv4_text(x);
    assert(tail =~= ffff.push(':') + quad);
    lemma_ipv4_text_chars(x);
    lemma_split_on_append_run(Seq::empty(), ffff, ':');
    assert(Seq::<char>::empty() + ffff =~= ffff);
    lemma_split_on_push_sep(ffff, ':');
    lemma_split_on_append_run(ffff.push(':'), quad, ':');
    assert(Seq::<char>::empty() + quad =~= quad);
    let p = split_on(tail, ':');
    assert(p =~= seq![ffff, quad]);
    assert(hex_run_value(ffff) == 65535) by {
        assert(hex_value('f') == 15);
        assert(seq!['f'].drop_last() =~= Seq::<char>::empty());
        assert(hex_run_value(Seq::<char>::empty()) == 0);
        assert(seq!['f'].last() == 'f' && seq!['f', 'f'].last() == 'f' && seq!['f', 'f', 'f'].last() == 'f'
            && ffff.last() == 'f');
        assert(hex_run_value(seq!['f']) == 15);
        assert(seq!['f', 'f'].drop_last() =~= seq!['f']);
        assert(hex_run_value(seq!['f', 'f']) == 255);
        assert(seq!['f', 'f', 'f'].drop_last() =~= seq!['f', 'f']);
        assert(hex_run_value(seq!['f', 'f', 'f']) == 4095);
        assert(ffff.drop_last() =~= seq!['f', 'f', 'f']);
    }
    assert(group_value(ffff) == Some(65535int));
    assert(group_value(quad) is None);
    law_ipv4_text_reads_back(x);
    assert(x as int / 65536 == g[6] && x as int % 65536 == g[7]) by (nonlinear_arith)
        requires x as int == g[6] * 65536 + g[7], 0 <= g[6] < 65536, 0 <= g[7] < 65536;
    let front = Seq::new(1, |i: int| group_value(p[i])->0);
    assert(front =~= seq![65535int]);
    assert(pieces(tail, true) == Some(seq![65535int, g[6], g[7]]));
    assert(Seq::<int>::empty() + Seq::new(5, |i: int| 0int) + seq![65535int, g[6], g[7]] =~= g);
}

/// An address with a run of two or more zero groups displays with `::` in
/// place of the first longest run, which reads back as its groups.
proof fn lemma_display_compressed(v: u128)
    requires
        !is_v4_mapped(segments(v)),
        longest_zero_run(segments(v), 0).1 > 1,
    ensures
        ipv4_of(ipv6_display(v)) is None,
        ipv6_groups(ipv6_display(v)) == Some(segments(v)),
{
    let g = segments(v);
    lemma_segments_value(v);
    reveal_strlit(":");
    reveal_strlit("::");
    assert(":"@ =~= seq![':']);
    assert("::"@ =~= seq![':', ':']);
    let t = ipv6_display(v);
    let run = longest_zero_run(g, 0);
    lemma_longest_zero_run(g, 0);
    lemma_zero_run_zeros(g, run.0);
    let g1 = g.subrange(0, run.0);
    let g2 = g.subrange(run.0 + run.1, 8);
    lemma_pieces_of_groups(g1, false);
    lemma_pieces_of_groups(g2, true);
    let j1 = join(hex_groups(g1), seq![':']);
    let j2 = join(hex_groups(g2), seq![':']);
    assert(t =~= j1 + seq![':', ':'] + j2);
    assert forall|i: int| 0 <= i < t.len() implies #[trigger] t[i] != '.' by {
        if i < j1.len() {
            assert(t[i] == j1[i]);
        } else if i >= j1.len() + 2 {
            assert(t[i] == j2[i - j1.len() - 2]);
        }
    }
    lemma_no_dot_not_ipv4(t);
    let k = j1.len() as int;
    assert forall|j: int| 0 <= j < k implies !(#[trigger] t[j] == ':' && t[j + 1] == ':') by {
        assert(t[j] == j1[j]);
        if j < k - 1 {
            assert(t[j + 1] == j1[j + 1]);
        }
    }
    lemma_find_double_colon_at(t, 0, k);
    assert(t.subrange(0, k) =~= j1);
    assert(t.subrange(k + 2, t.len() as int) =~= j2);
    assert(g1 + Seq::new((8 - g1.len() - g2.len()) as nat, |i: int| 0int) + g2 =~= g);
}

/// An address without a run of two zero groups displays as its eight hex
/// groups, which read back as its groups.
proof fn lemma_display_plain(v: u128)
    requires
        !is_v4_mapped(segments(v)),
        longest_zero_run(segments(v), 0).1 <= 1,
    ensures
        ipv4_of(ipv6_display(v)) is None,
        ipv6_groups(ipv6_display(v)) == Some(segments(v)),
{
    let g = segments(v);
    lemma_segments_value(v);
    reveal_strlit(":");
    assert(":"@ =~= seq![':']);
    let t = ipv6_display(v);
    lemma_pieces_of_groups(g, true);
    assert(t == join(hex_groups(g), seq![':']));
    lemma_no_dot_not_ipv4(t);
    lemma_find_double_colon_none(t, 0);
}

/// Formatting an IPv6 address for display and reading the text back gives
/// the address again.
pub proof fn law_ipv6_display_reads_back(v: u128)
    ensures
        ip_of_text(ipv6_display(v)) == Some(IpValue::V6(v)),
{
    let g = segments(v);
    if is_v4_mapped(g) {
        lemma_display_mapped(v);
    } else if longest_zero_run(g, 0).1 > 1 {
        lemma_display_compressed(v);
    } else {
        lemma_display_plain(v);
    }
    lemma_segments_value(v);
}


/// A leading `0` does not change the value of a hex run.
proof fn lemma_hex_leading_zero(t: Seq<char>)
    ensures
        hex_run_value(seq!['0'] + t) == hex_run_value(t),
    decreases t.len(),
{
    if t.len() == 0 {
        assert((seq!['0'] + t).drop_last() =~= Seq::<char>::empty());
        assert(hex_run_value(Seq::<char>::empty()) == 0);
        assert((seq!['0'] + t).last() == '0');
    } else {
        lemma_hex_leading_zero(t.drop_last());
        assert((seq!['0'] + t).drop_last() =~= seq!['0'] + t.drop_last());
        assert((seq!['0'] + t).last() == t.last());
    }
}

/// Stripping leading zeros keeps a suffix of the group and its value.
proof fn lemma_strip_zeros(g: Seq<char>)
    ensures
        strip_zeros(g).len() <= g.len(),
        forall|i: int| 0 <= i < strip_zeros(g).len() ==> #[trigger] strip_zeros(g)[i] == g[i + g.len() - strip_zeros(g).len()],
        hex_run_value(strip_zeros(g)) == hex_run_value(g),
    decreases g.len(),
{
    if g.len() > 0 && g[0] == '0' {
        lemma_strip_zeros(g.drop_first());
        assert(g =~= seq!['0'] + g.drop_first());
        lemma_hex_leading_zero(g.drop_first());
    }
}

/// A group of one to four hex digits, written without leading zeros, is a
/// group text of the same value, free of `:` and `.`.
proof fn lemma_short_group(g: Seq<char>)
    requires
        1 <= g.len() <= 4,
        forall|i: int| 0 <= i < g.len() ==> is_hex(#[trigger] g[i]),
    ensures
        group_value(short_group(g)) == Some(hex_run_value(g)),
        short_group(g).len() >= 1,
        forall|i: int| 0 <= i < short_group(g).len() ==> #[trigger] short_group(g)[i] != ':' && short_group(g)[i] != '.',
{
    lemma_strip_zeros(g);
    let st = strip_zeros(g);
    reveal_strlit("0");
    if st.len() == 0 {
        assert(hex_run_value(st) == 0);
        assert("0"@ =~= seq!['0']);
        assert(seq!['0'].drop_last() =~= Seq::<char>::empty());
        assert(hex_run_value(seq!['0']) == hex_run_value(Seq::<char>::empty()) * 16 + hex_value('0'));
    } else {
        assert forall|i: int| 0 <= i < st.len() implies is_hex(#[trigger] st[i]) by {
            assert(st[i] == g[i + g.len() - st.len()]);
        }
    }
}

/// The pieces of `s` split on `sep` never hold `sep`.
proof fn lemma_split_pieces_free(s: Seq<char>, sep: char)
    ensures
        forall|k: int, i: int| 0 <= k < split_on(s, sep).len() && 0 <= i < split_on(s, sep)[k].len()
            ==> #[trigger] split_on(s, sep)[k][i] != sep,
    decreases s.len(),
{
    crate::text::lemma_split_on_nonempty(s, sep);
    if s.len() > 0 {
        lemma_split_pieces_free(s.drop_last(), sep);
        crate::text::lemma_split_on_nonempty(s.drop_last(), sep);
        let rest = split_on(s.drop_last(), sep);
        let p = split_on(s, sep);
        assert forall|k: int, i: int| 0 <= k < p.len() && 0 <= i < p[k].len() implies #[trigger] p[k][i] != sep by {
            if s.last() == sep {
                if k < rest.len() {
                    assert(p[k] == rest[k]);
                }
            } else {
                if k < rest.len() - 1 {
                    assert(p[k] == rest[k]);
                } else {
                    assert(p[k] == rest.last().push(s.last()));
                    if i < rest.last().len() {
                        assert(p[k][i] == rest[rest.len() - 1][i]);
                    }
                }
            }
        }
    }
}

/// Group texts joined by `:` read back as their values.
proof fn lemma_pieces_of_texts(parts: Seq<Seq<char>>, vals: Seq<int>, v4_tail: bool)
    requires
        parts.len() == vals.len(),
        forall|k: int| 0 <= k < parts.len() ==> group_value(#[trigger] parts[k]) == Some(vals[k]) && parts[k].len() >= 1,
        forall|k: int, i: int| 0 <= k < parts.len() && 0 <= i < parts[k].len() ==> #[trigger] parts[k][i] != ':' && parts[k][i] != '.',
    ensures
        pieces(join(parts, seq![':']), v4_tail) == Some(vals),
        forall|i: int| 0 <= i < join(parts, seq![':']).len() ==> #[trigger] join(parts, seq![':'])[i] != '.',
        parts.len() >= 1 ==> ({
            let t = join(parts, seq![':']);
            &&& t.len() >= 1
            &&& t[0] != ':'
            &&& t.last() != ':'
            &&& forall|i: int| 0 <= i < t.len() - 1 && #[trigger] t[i] == ':' ==> t[i + 1] != ':'
        }),
{
    assert forall|k: int, i: int| 0 <= k < parts.len() && 0 <= i < parts[k].len() implies #[trigger] parts[k][i] != '.' by {
        assert(parts[k][i] != ':' && parts[k][i] != '.');
    }
    lemma_join_avoids(parts, ':', '.');
    if parts.len() == 0 {
        assert(vals =~= Seq::<int>::empty());
    } else {
        assert forall|k: int, i: int| 0 <= k < parts.len() && 0 <= i < parts[k].len() implies #[trigger] parts[k][i] != ':' by {
            assert(parts[k][i] != ':' && parts[k][i] != '.');
        }
        lemma_join_shape(parts, ':');
        lemma_split_join(parts, ':');
        let t = join(parts, seq![':']);
        let p = split_on(t, ':');
        let n = p.len() as int;
        let front = Seq::new((n - 1) as nat, |i: int| group_value(p[i])->0);
        assert(front.push(group_value(p[n - 1])->0) =~= vals);
    }
}


proof fn lemma_text_zero_run(groups: Seq<Seq<char>>, i: int)
    requires
        0 <= i <= 8,
    ensures
        crate::dns::zero_run(groups, i) >= 0,
        i + crate::dns::zero_run(groups, i) <= 8,
        forall|j: int| i <= j < i + crate::dns::zero_run(groups, i) ==> is_zero_group(#[trigger] groups[j]),
    decreases 8 - i,
{
    if i < 8 && is_zero_group(groups[i]) {
        lemma_text_zero_run(groups, i + 1);
    }
}

proof fn lemma_text_longest_run(groups: Seq<Seq<char>>, i: int)
    requires
        0 <= i <= 8,
    ensures
        crate::dns::longest_zero_run(groups, i).1 > 0 ==> ({
            let r = crate::dns::longest_zero_run(groups, i);
            &&& i <= r.0 < 8
            &&& r.1 == crate::dns::zero_run(groups, r.0)
        }),
    decreases 8 - i,
{
    if i < 8 {
        lemma_text_longest_run(groups, i + 1);
    }
}

/// A group written `0000` or `0` is worth 0.
proof fn lemma_zero_group_value(g: Seq<char>)
    requires
        is_zero_group(g),
    ensures
        hex_run_value(g) == 0,
{
    reveal_strlit("0000");
    reveal_strlit("0");
    assert(seq!['0'].drop_last() =~= Seq::<char>::empty());
    assert(hex_run_value(Seq::<char>::empty()) == 0);
    assert(seq!['0'].last() == '0');
    assert(hex_run_value(seq!['0']) == 0);
    if g == "0000"@ {
        let z = seq!['0', '0', '0', '0'];
        assert(g =~= z);
        assert(seq!['0', '0'].drop_last() =~= seq!['0']);
        assert(seq!['0', '0'].last() == '0');
        assert(hex_run_value(seq!['0', '0']) == 0);
        assert(seq!['0', '0', '0'].drop_last() =~= seq!['0', '0']);
        assert(seq!['0', '0', '0'].last() == '0');
        assert(hex_run_value(seq!['0', '0', '0']) == 0);
        assert(z.drop_last() =~= seq!['0', '0', '0']);
        assert(z.last() == '0');
    } else {
        assert(g =~= seq!['0']);
    }
}

/// The eight groups of a written-out address, shortened, are group texts
/// worth the groups' values, free of `:` and `.`.
proof fn lemma_short_groups(ip: Seq<char>)
    requires
        split_on(ip, ':').len() == 8,
        forall|k: int| 0 <= k < 8 ==> 1 <= (#[trigger] split_on(ip, ':')[k]).len() <= 4,
        forall|k: int, i: int| 0 <= k < 8 && 0 <= i < split_on(ip, ':')[k].len() ==> is_hex(#[trigger] split_on(ip, ':')[k][i]),
    ensures
        ({
            let groups = split_on(ip, ':');
            let short = Seq::new(8, |k: int| short_group(groups[k]));
            &&& forall|k: int| 0 <= k < 8 ==> group_value(#[trigger] short[k]) == Some(hex_run_value(groups[k]))
                && short[k].len() >= 1
            &&& forall|k: int, i: int| 0 <= k < 8 && 0 <= i < short[k].len() ==> #[trigger] short[k][i] != ':' && short[k][i] != '.'
        }),
{
    let groups = split_on(ip, ':');
    let short = Seq::new(8, |k: int| short_group(groups[k]));
    assert forall|k: int| 0 <= k < 8 implies group_value(#[trigger] short[k]) == Some(hex_run_value(groups[k]))
        && short[k].len() >= 1 && (forall|i: int| 0 <= i < short[k].len() ==> short[k][i] != ':' && short[k][i] != '.') by {
        assert forall|i: int| 0 <= i < groups[k].len() implies is_hex(#[trigger] groups[k][i]) by {}
        lemma_short_group(groups[k]);
    }
    assert forall|k: int, i: int| 0 <= k < 8 && 0 <= i < short[k].len() implies #[trigger] short[k][i] != ':' && short[k][i] != '.' by {
        assert(forall|i: int| 0 <= i < short[k].len() ==> short[k][i] != ':' && short[k][i] != '.');
    }
}

/// Compressing an IPv6 address written as eight groups of one to four hex
/// digits gives text that reads as the same address: its groups are the
/// values of the original groups.
#[verifier::rlimit(40)]
pub proof fn law_compressed_ipv6_same_address(ip: Seq<char>)
    requires
        split_on(ip, ':').len() == 8,
        forall|k: int| 0 <= k < 8 ==> 1 <= (#[trigger] split_on(ip, ':')[k]).len() <= 4,
        forall|k: int, i: int| 0 <= k < 8 && 0 <= i < split_on(ip, ':')[k].len() ==> is_hex(#[trigger] split_on(ip, ':')[k][i]),
    ensures
        ipv6_groups(compressed_ipv6(ip)) == Some(Seq::new(8, |k: int| hex_run_value(split_on(ip, ':')[k]))),
{
    let groups = split_on(ip, ':');
    let vals = Seq::new(8, |k: int| hex_run_value(groups[k]));
    let short = Seq::new(8, |k: int| short_group(groups[k]));
    lemma_short_groups(ip);
    reveal_strlit(":");
    reveal_strlit("::");
    assert(":"@ =~= seq![':']);
    assert("::"@ =~= seq![':', ':']);
    let t = compressed_ipv6(ip);
    let run = crate::dns::longest_zero_run(groups, 0);
    let (st, l) = run;
    if l < 2 {
        lemma_pieces_of_texts(short, vals, true);
        assert(t == join(short, seq![':']));
        lemma_find_double_colon_none(t, 0);
    } else {
        lemma_text_longest_run(groups, 0);
        lemma_text_zero_run(groups, st);
        let s1 = short.subrange(0, st);
        let s2 = short.subrange(st + l, 8);
        let v1 = vals.subrange(0, st);
        let v2 = vals.subrange(st + l, 8);
        lemma_pieces_of_texts(s1, v1, false);
        lemma_pieces_of_texts(s2, v2, true);
        let j1 = join(s1, seq![':']);
        let j2 = join(s2, seq![':']);
        assert(join(Seq::<Seq<char>>::empty(), seq![':']) == Seq::<char>::empty());
        if st == 0 {
            assert(s1 =~= Seq::<Seq<char>>::empty());
        }
        if st + l == 8 {
            assert(s2 =~= Seq::<Seq<char>>::empty());
        }
        assert(t =~= j1 + seq![':', ':'] + j2);
        let k = j1.len() as int;
        assert forall|j: int| 0 <= j < k implies !(#[trigger] t[j] == ':' && t[j + 1] == ':') by {
            assert(t[j] == j1[j]);
            if j < k - 1 {
                assert(t[j + 1] == j1[j + 1]);
            }
        }
        lemma_find_double_colon_at(t, 0, k);
        assert(t.subrange(0, k) =~= j1);
        assert(t.subrange(k + 2, t.len() as int) =~= j2);
        assert forall|j: int| st <= j < st + l implies #[trigger] vals[j] == 0 by {
            lemma_zero_group_value(groups[j]);
        }
        assert(v1 + Seq::new((8 - v1.len() - v2.len()) as nat, |i: int| 0int) + v2 =~= vals);
    }
}


/// Compressing an IPv6 address written as eight groups of one to four hex
/// digits writes `::` at most once: exactly where the first longest run of
/// two or more zero groups stood (after the text of the groups before it),
/// and nowhere when there is no such run.
#[verifier::rlimit(40)]
pub proof fn law_compressed_ipv6_single_gap(ip: Seq<char>)
    requires
        split_on(ip, ':').len() == 8,
        forall|k: int| 0 <= k < 8 ==> 1 <= (#[trigger] split_on(ip, ':')[k]).len() <= 4,
        forall|k: int, i: int| 0 <= k < 8 && 0 <= i < split_on(ip, ':')[k].len() ==> is_hex(#[trigger] split_on(ip, ':')[k][i]),
    ensures
        ({
            let groups = split_on(ip, ':');
            let short = Seq::new(8, |k: int| short_group(groups[k]));
            let run = crate::dns::longest_zero_run(groups, 0);
            let t = compressed_ipv6(ip);
            forall|j: int| 0 <= j < t.len() - 1 ==> ((#[trigger] t[j] == ':' && t[j + 1] == ':')
                <==> (run.1 >= 2 && j == join(short.subrange(0, run.0), seq![':']).len()))
        }),
{
    let groups = split_on(ip, ':');
    let vals = Seq::new(8, |k: int| hex_run_value(groups[k]));
    let short = Seq::new(8, |k: int| short_group(groups[k]));
    lemma_short_groups(ip);
    reveal_strlit(":");
    reveal_strlit("::");
    assert(":"@ =~= seq![':']);
    assert("::"@ =~= seq![':', ':']);
    let t = compressed_ipv6(ip);
    let run = crate::dns::longest_zero_run(groups, 0);
    let (st, l) = run;
    if l < 2 {
        lemma_pieces_of_texts(short, vals, true);
        assert(t == join(short, seq![':']));
    } else {
        lemma_text_longest_run(groups, 0);
        lemma_text_zero_run(groups, st);
        let s1 = short.subrange(0, st);
        let s2 = short.subrange(st + l, 8);
        lemma_pieces_of_texts(s1, vals.subrange(0, st), false);
        lemma_pieces_of_texts(s2, vals.subrange(st + l, 8), true);
        let j1 = join(s1, seq![':']);
        let j2 = join(s2, seq![':']);
        assert(join(Seq::<Seq<char>>::empty(), seq![':']) == Seq::<char>::empty());
        if st == 0 {
            assert(s1 =~= Seq::<Seq<char>>::empty());
        }
        if st + l == 8 {
            assert(s2 =~= Seq::<Seq<char>>::empty());
        }
        assert(t =~= j1 + seq![':', ':'] + j2);
        let k = j1.len() as int;
        assert forall|j: int| 0 <= j < t.len() - 1 implies ((#[trigger] t[j] == ':' && t[j + 1] == ':') <==> j == k) by {
            if j < k {
                assert(t[j] == j1[j]);
                if j < k - 1 {
                    assert(t[j + 1] == j1[j + 1]);
                }
            } else if j == k + 1 {
                assert(t[j + 1] == j2[0]);
            } else if j > k + 1 {
                assert(t[j] == j2[j - k - 2]);
                assert(t[j + 1] == j2[j - k - 1]);
            }
        }
    }
}

} // verus!
