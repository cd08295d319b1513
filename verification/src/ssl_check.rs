//! The TLS certificate check: the ClientHello it sends and the heuristics
//! that pick names and dates out of the server's first certificate.
use vstd::prelude::*;
use vstd::string::*;
use vstd::utf8::{decode_utf8, valid_utf8};
use crate::text::{is_ws, utf8_to_string};
use crate::http_check::starts_with;

verus! {

/// Tags of the ASN.1 string types the scanner reads (UTF8String,
/// PrintableString, IA5String).
pub open spec fn is_string_tag(b: u8) -> bool {
    b == 0x0c || b == 0x13 || b == 0x16
}

/// Whether a string found in a certificate looks like a host name: it holds
/// a dot, no space, and takes 4 to 255 bytes.
pub open spec fn looks_like_name(s: Seq<char>, byte_len: int) -> bool {
    s.contains('.') && !s.contains(' ') && byte_len > 3 && byte_len < 256
}

/// What `char::is_alphanumeric` says of `c` (Unicode `Alphabetic` or `Numeric`).
pub uninterp spec fn alphanumeric(c: char) -> bool;

/// Tests a character with `char::is_alphanumeric`. Claimed: the answer
/// named by [`alphanumeric`], which is `true` for the ASCII letters and
/// digits (they are `Alphabetic` and `Numeric`, as std documents).
#[verifier::external_body]
fn char_is_alphanumeric(c: char) -> (b: bool)
    ensures
        b == alphanumeric(c),
        ('a' <= c <= 'z' || 'A' <= c <= 'Z' || '0' <= c <= '9') ==> b,
{
    c.is_alphanumeric()
}

/// Whether a string found in a certificate looks like an organization: no
/// dot, 3 to 127 bytes, only letters, digits, whitespace, `-` and `'`.
pub open spec fn looks_like_org(s: Seq<char>, byte_len: int) -> bool {
    !s.contains('.') && byte_len > 2 && byte_len < 128
        && (forall|k: int| 0 <= k < s.len() ==> (alphanumeric(#[trigger] s[k]) || is_ws(s[k]) || s[k] == '-' || s[k] == '\''))
}

/// The text of the string of length `l` at `i + 2`, when it is there and is UTF-8.
pub open spec fn string_at(der: Seq<u8>, i: int, l: int) -> Option<Seq<char>> {
    if l > 0 && i + 2 + l <= der.len() && valid_utf8(der.subrange(i + 2, i + 2 + l)) {
        Some(decode_utf8(der.subrange(i + 2, i + 2 + l)))
    } else {
        None
    }
}

/// The length of the string whose length byte at `i + 1` says `l`: a
/// length that runs past the end of the data stops at the end.
pub open spec fn clamped_len(der: Seq<u8>, i: int, l: int) -> int {
    if i + 2 + l <= der.len() { l } else { der.len() - i - 2 }
}

/// The position of the last `.` among the first `k` characters.
pub open spec fn last_dot(s: Seq<char>, k: int) -> Option<int>
    decreases k,
{
    if k <= 0 || k > s.len() {
        None
    } else if s[k - 1] == '.' {
        Some(k - 1)
    } else {
        last_dot(s, k - 1)
    }
}

/// The top-level domains the name heuristic knows.
pub open spec fn known_tld(t: Seq<char>) -> bool {
    t == "com"@ || t == "net"@ || t == "org"@ || t == "edu"@ || t == "gov"@ || t == "dev"@ || t == "io"@
}

/// The length of the known top-level domain a label starts with, if any.
pub open spec fn tld_prefix(label: Seq<char>) -> Option<int> {
    if starts_with(label, "com"@) || starts_with(label, "net"@) || starts_with(label, "org"@)
        || starts_with(label, "edu"@) || starts_with(label, "gov"@) || starts_with(label, "dev"@) {
        Some(3)
    } else if starts_with(label, "io"@) {
        Some(2)
    } else {
        None
    }
}

/// A host name read from a string whose text runs on past its length byte,
/// cut back where the length byte overshot it: when the last label is no
/// known top-level domain but begins with one (`example.commor`), the name
/// ends after that domain (`example.com`); otherwise it is the whole string.
pub open spec fn name_cut(s: Seq<char>) -> Seq<char> {
    match last_dot(s, s.len() as int) {
        Some(d) => {
            let label = s.subrange(d + 1, s.len() as int);
            if known_tld(label) {
                s
            } else {
                match tld_prefix(label) {
                    Some(n) => s.subrange(0, d + 1 + n),
                    None => s,
                }
            }
        },
        None => s,
    }
}

/// Whether the text runs on past the `m` bytes of the string at `i`: the
/// byte right after it is an ASCII letter, where a well-formed certificate
/// has the next element's tag (such as `0x30` or `0x31`) or its end.
pub open spec fn runs_on(der: Seq<u8>, i: int, m: int) -> bool {
    i + 2 + m < der.len() && ({
        let b = der[i + 2 + m];
        (0x41 <= b <= 0x5a) || (0x61 <= b <= 0x7a)
    })
}

/// The first string from position `i` on that looks like a host name
/// (`org` false; cut by [`name_cut`] when its text runs on past it, see
/// [`runs_on`]) or like an organization
/// (`org` true). A string tag is followed by a length byte and that many
/// bytes (fewer when the data ends first), which the scan skips.
pub open spec fn first_string(der: Seq<u8>, i: int, org: bool) -> Option<Seq<char>>
    decreases der.len() - i,
{
    if i < 0 || i >= der.len() {
        None
    } else if is_string_tag(der[i]) && i + 2 < der.len() {
        let l = der[i + 1] as int;
        let m = clamped_len(der, i, l);
        let found = match string_at(der, i, m) {
            Some(s) => if org && looks_like_org(s, m) {
                Some(s)
            } else if !org && looks_like_name(s, m) {
                Some(if runs_on(der, i, m) { name_cut(s) } else { s })
            } else {
                None
            },
            None => None,
        };
        match found {
            Some(s) => Some(s),
            None => if i + 2 + l >= der.len() { None } else { first_string(der, i + 2 + l, org) },
        }
    } else {
        first_string(der, i + 1, org)
    }
}

/// Decodes the `l` bytes at `i + 2` as UTF-8.
fn decode_at(der: &[u8], i: usize, l: usize) -> (r: Option<String>)
    requires
        l > 0,
        i + 2 + l <= der@.len(),
    ensures
        match string_at(der@, i as int, l as int) {
            Some(s) => r matches Some(x) && x@ == s,
            None => r is None,
        },
{
    let n = der.len();
    let mut bytes: Vec<u8> = Vec::new();
    let mut k: usize = 0;
    while k < l
        invariant
            k <= l,
            n == der@.len(),
            i + 2 + l <= n,
            bytes@ == der@.subrange(i + 2, i + 2 + k),
        decreases l - k,
    {
        bytes.push(der[i + 2 + k]);
        k = k + 1;
        assert(bytes@ =~= der@.subrange(i + 2, i + 2 + k));
    }
    utf8_to_string(bytes.as_slice())
}

/// Whether `v` starts with `p`.
fn starts_with_exec(v: &Vec<char>, p: &str) -> (b: bool)
    ensures
        b == starts_with(v@, p@),
{
    let pv = crate::text::str_chars(p);
    let r = crate::text::matches_at(v, 0, &pv);
    proof {
        if pv@.len() <= v@.len() {
            assert(v@.subrange(0, 0 + pv@.len() as int) =~= v@.subrange(0, pv@.len() as int));
        }
    }
    r
}

/// Cuts a host name back as [`name_cut`] says.
fn cut_name(s: &Vec<char>) -> (r: Vec<char>)
    ensures
        r@ == name_cut(s@),
{
    let n = s.len();
    let mut k: usize = n;
    while k > 0 && s[k - 1] != '.'
        invariant
            k <= n,
            n == s@.len(),
            last_dot(s@, n as int) == last_dot(s@, k as int),
        decreases k,
    {
        k = k - 1;
    }
    if k == 0 {
        return crate::text::slice_chars(s, 0, n);
    }
    let d = k - 1;
    assert(last_dot(s@, n as int) == Some(d as int));
    let label = crate::text::slice_chars(s, d + 1, n);
    let known = crate::text::chars_eq(&label, "com") || crate::text::chars_eq(&label, "net")
        || crate::text::chars_eq(&label, "org") || crate::text::chars_eq(&label, "edu")
        || crate::text::chars_eq(&label, "gov") || crate::text::chars_eq(&label, "dev")
        || crate::text::chars_eq(&label, "io");
    if known {
        return crate::text::slice_chars(s, 0, n);
    }
    proof {
        reveal_strlit("com");
        reveal_strlit("net");
        reveal_strlit("org");
        reveal_strlit("edu");
        reveal_strlit("gov");
        reveal_strlit("dev");
        reveal_strlit("io");
    }
    if starts_with_exec(&label, "com") || starts_with_exec(&label, "net") || starts_with_exec(&label, "org")
        || starts_with_exec(&label, "edu") || starts_with_exec(&label, "gov") || starts_with_exec(&label, "dev") {
        crate::text::slice_chars(s, 0, d + 4)
    } else if starts_with_exec(&label, "io") {
        crate::text::slice_chars(s, 0, d + 3)
    } else {
        crate::text::slice_chars(s, 0, n)
    }
}

/// Whether `s` holds `c`.
fn holds_char(s: &Vec<char>, c: char) -> (b: bool)
    ensures
        b == s@.contains(c),
{
    let mut i: usize = 0;
    while i < s.len()
        invariant
            i <= s@.len(),
            forall|k: int| 0 <= k < i ==> s@[k] != c,
        decreases s@.len() - i,
    {
        if s[i] == c {
            assert(s@[i as int] == c);
            return true;
        }
        i = i + 1;
    }
    false
}

/// Whether every character is a letter, digit, whitespace, `-` or `'`.
fn org_chars(s: &Vec<char>) -> (b: bool)
    ensures
        b == (forall|k: int| 0 <= k < s@.len() ==> (alphanumeric(#[trigger] s@[k]) || is_ws(s@[k]) || s@[k] == '-' || s@[k] == '\'')),
{
    let mut i: usize = 0;
    while i < s.len()
        invariant
            i <= s@.len(),
            forall|k: int| 0 <= k < i ==> (alphanumeric(#[trigger] s@[k]) || is_ws(s@[k]) || s@[k] == '-' || s@[k] == '\''),
        decreases s@.len() - i,
    {
        let c = s[i];
        if !(char_is_alphanumeric(c) || crate::text::char_is_ws(c) || c == '-' || c == '\'') {
            return false;
        }
        i = i + 1;
    }
    true
}

/// Scans `der` for the first host-name-like (`org` false) or
/// organization-like (`org` true) string (see [`first_string`]).
fn scan_strings(der: &[u8], org: bool) -> (r: Option<String>)
    ensures
        match first_string(der@, 0, org) {
            Some(s) => r matches Some(x) && x@ == s,
            None => r is None,
        },
{
    let n = der.len();
    let mut i: usize = 0;
    while i < n
        invariant
            n == der@.len(),
            first_string(der@, 0, org) == first_string(der@, i as int, org),
        decreases n - i,
    {
        if (der[i] == 0x0c || der[i] == 0x13 || der[i] == 0x16) && n - i > 2 {
            let l = der[i + 1] as usize;
            let m = if l <= n - i - 2 { l } else { n - i - 2 };
            if m > 0 {
                match decode_at(der, i, m) {
                    Some(s) => {
                        let cs = crate::text::str_chars(s.as_str());
                        if org {
                            if !holds_char(&cs, '.') && m > 2 && m < 128 && org_chars(&cs) {
                                return Some(s);
                            }
                        } else {
                            if holds_char(&cs, '.') && !holds_char(&cs, ' ') && m > 3 && m < 256 {
                                let after = i + 2 + m;
                                let runs = after < n && {
                                    let b = der[after];
                                    (0x41 <= b && b <= 0x5a) || (0x61 <= b && b <= 0x7a)
                                };
                                if runs {
                                    let cut = cut_name(&cs);
                                    return Some(crate::text::string_from_chars(&cut));
                                }
                                return Some(s);
                            }
                        }
                    },
                    None => {},
                }
            }
            if l >= n - i - 2 {
                return None;
            }
            i = i + 2 + l;
        } else {
            i = i + 1;
        }
    }
    None
}

/// Picks a host name out of a certificate (best effort): the first string
/// that holds a dot and no space, cut back as [`name_cut`] says only when
/// its text runs on past its length byte.
pub fn extract_common_name(der: &[u8]) -> (r: Option<String>)
    ensures
        match first_string(der@, 0, false) {
            Some(s) => r matches Some(x) && x@ == s,
            None => r is None,
        },
{
    scan_strings(der, false)
}

/// Picks an organization out of a certificate (best effort): the first
/// string without a dot made of letters, digits, spaces, `-` and `'`.
pub fn extract_organization(der: &[u8]) -> (r: Option<String>)
    ensures
        match first_string(der@, 0, true) {
            Some(s) => r matches Some(x) && x@ == s,
            None => r is None,
        },
{
    scan_strings(der, true)
}


/// Tags the date scanner reads: the string tags and UTCTime / GeneralizedTime.
pub open spec fn is_date_tag(b: u8) -> bool {
    is_string_tag(b) || b == 0x17 || b == 0x18
}

/// Whether `s` ends with `p`.
pub open spec fn ends_with(s: Seq<char>, p: Seq<char>) -> bool {
    s.len() >= p.len() && s.subrange(s.len() - p.len(), s.len() as int) == p
}

/// Whether `s` contains `p`.
pub open spec fn contains_text(s: Seq<char>, p: Seq<char>) -> bool {
    crate::text::find_seq(s, p, 0) is Some
}

/// Whether a string of `l` bytes read by the date scanner is a date: 13
/// bytes ending in `UTC` or `GMT`, or 15 bytes holding one of them.
pub open spec fn looks_like_date(s: Seq<char>, l: int) -> bool {
    (l == 13 && (ends_with(s, "UTC"@) || ends_with(s, "GMT"@)))
        || (l == 15 && (contains_text(s, "UTC"@) || contains_text(s, "GMT"@)))
}

/// Whether `s` has the shape of a written-out date, `Mon DD HH:MM:SS YYYY`
/// then ` UTC` or ` GMT` (24 characters).
pub open spec fn text_date_shape(s: Seq<char>) -> bool {
    s.len() == 24 && s[3] == ' ' && s[6] == ' ' && s[9] == ':' && s[12] == ':' && s[15] == ' '
        && s[20] == ' ' && (ends_with(s, " UTC"@) || ends_with(s, " GMT"@))
}

/// The date a tag at `i` carries: a 13-byte string ending in `UTC`/`GMT` or
/// a 15-byte string holding one; failing that, the 24 characters after the
/// length byte when they are a written-out date (whatever the length byte
/// says).
pub open spec fn date_at(der: Seq<u8>, i: int) -> Option<Seq<char>> {
    let l = der[i + 1] as int;
    let sized = if l == 13 || l == 15 {
        match string_at(der, i, l) {
            Some(s) => if looks_like_date(s, l) { Some(s) } else { None },
            None => None,
        }
    } else {
        None
    };
    match sized {
        Some(s) => Some(s),
        None => match string_at(der, i, 24) {
            Some(s) => if text_date_shape(s) { Some(s) } else { None },
            None => None,
        },
    }
}

/// The first date from position `i` on (see [`date_at`]), looking only at
/// tags more than 20 bytes before the end.
pub open spec fn first_date(der: Seq<u8>, i: int) -> Option<Seq<char>>
    decreases der.len() - i,
{
    if i < 0 || i + 20 >= der.len() {
        None
    } else if is_date_tag(der[i]) && i + 2 < der.len() {
        let l = der[i + 1] as int;
        match date_at(der, i) {
            Some(s) => Some(s),
            None => if i + 2 + l >= der.len() { None } else { first_date(der, i + 2 + l) },
        }
    } else {
        first_date(der, i + 1)
    }
}

/// Whether `v` ends with `p`.
fn ends_with_exec(v: &Vec<char>, p: &str) -> (b: bool)
    ensures
        b == ends_with(v@, p@),
{
    let pv = crate::text::str_chars(p);
    if pv.len() > v.len() {
        return false;
    }
    let r = crate::text::matches_at(v, v.len() - pv.len(), &pv);
    r
}

/// Reads the date a tag at `i` carries (see [`date_at`]).
fn read_date_at(der: &[u8], i: usize) -> (r: Option<String>)
    requires
        i + 2 < der@.len(),
    ensures
        match date_at(der@, i as int) {
            Some(s) => r matches Some(x) && x@ == s,
            None => r is None,
        },
{
    let n = der.len();
    let l = der[i + 1] as usize;
    if (l == 13 || l == 15) && l <= n - i - 2 {
        match decode_at(der, i, l) {
            Some(s) => {
                let cs = crate::text::str_chars(s.as_str());
                let ok = if l == 13 {
                    ends_with_exec(&cs, "UTC") || ends_with_exec(&cs, "GMT")
                } else {
                    crate::text::find_seq_exec(&cs, "UTC").is_some() || crate::text::find_seq_exec(&cs, "GMT").is_some()
                };
                if ok {
                    return Some(s);
                }
            },
            None => {},
        }
    }
    if 24 <= n - i - 2 {
        match decode_at(der, i, 24) {
            Some(s) => {
                let cs = crate::text::str_chars(s.as_str());
                if cs.len() == 24 && cs[3] == ' ' && cs[6] == ' ' && cs[9] == ':' && cs[12] == ':' && cs[15] == ' '
                    && cs[20] == ' ' && (ends_with_exec(&cs, " UTC") || ends_with_exec(&cs, " GMT")) {
                    return Some(s);
                }
                None
            },
            None => None,
        }
    } else {
        None
    }
}

/// Picks a validity date out of a certificate (best effort): the first tag
/// that carries a date as [`date_at`] says. The second argument is unused.
pub fn extract_date(der: &[u8], _marker: u8) -> (r: Option<String>)
    ensures
        match first_date(der@, 0) {
            Some(s) => r matches Some(x) && x@ == s,
            None => r is None,
        },
{
    let n = der.len();
    let mut i: usize = 0;
    while n > 20 && i < n - 20
        invariant
            n == der@.len(),
            first_date(der@, 0) == first_date(der@, i as int),
        decreases n - i,
    {
        if der[i] == 0x0c || der[i] == 0x13 || der[i] == 0x16 || der[i] == 0x17 || der[i] == 0x18 {
            let l = der[i + 1] as usize;
            match read_date_at(der, i) {
                Some(s) => {
                    return Some(s);
                },
                None => {},
            }
            if l >= n - i - 2 {
                return None;
            }
            i = i + 2 + l;
        } else {
            i = i + 1;
        }
    }
    None
}

/// Whether the organization read from a certificate marks it as self-signed:
/// `localhost`, `Self-Signed`, or starting with `Unknown`.
pub open spec fn self_signed_org(org: Option<Seq<char>>) -> bool {
    match org {
        Some(o) => o == "localhost"@ || o == "Self-Signed"@ || crate::http_check::starts_with(o, "Unknown"@),
        None => false,
    }
}

/// Guesses whether a certificate is self-signed from its organization.
pub fn is_likely_self_signed(cert_der: &[u8]) -> (b: bool)
    ensures
        b == self_signed_org(first_string(cert_der@, 0, true)),
{
    match extract_organization(cert_der) {
        Some(o) => {
            let cs = crate::text::str_chars(o.as_str());
            let un = crate::text::str_chars("Unknown");
            let starts = crate::text::matches_at(&cs, 0, &un);
            proof {
                if un@.len() <= cs@.len() {
                    assert(cs@.subrange(0, un@.len() as int) =~= cs@.subrange(0, 0 + un@.len() as int));
                }
            }
            crate::text::str_eq(o.as_str(), "localhost") || crate::text::str_eq(o.as_str(), "Self-Signed") || starts
        },
        None => false,
    }
}

/// A certificate is guessed self-signed exactly when the organization read
/// from it is `localhost`, is `Self-Signed`, or begins with the seven
/// characters `Unknown`; a certificate with no organization is not.
pub proof fn law_self_signed_organizations(der: Seq<u8>)
    ensures
        first_string(der, 0, true) == Some("localhost"@) ==> self_signed_org(first_string(der, 0, true)),
        first_string(der, 0, true) == Some("Self-Signed"@) ==> self_signed_org(first_string(der, 0, true)),
        self_signed_org(first_string(der, 0, true)) <==> (first_string(der, 0, true) matches Some(o) && (
            o =~= seq!['l', 'o', 'c', 'a', 'l', 'h', 'o', 's', 't']
            || o =~= seq!['S', 'e', 'l', 'f', '-', 'S', 'i', 'g', 'n', 'e', 'd']
            || (o.len() >= 7 && o.subrange(0, 7) =~= seq!['U', 'n', 'k', 'n', 'o', 'w', 'n']))),
{
    reveal_strlit("localhost");
    reveal_strlit("Self-Signed");
    reveal_strlit("Unknown");
    assert("localhost"@ =~= seq!['l', 'o', 'c', 'a', 'l', 'h', 'o', 's', 't']);
    assert("Self-Signed"@ =~= seq!['S', 'e', 'l', 'f', '-', 'S', 'i', 'g', 'n', 'e', 'd']);
    assert("Unknown"@ =~= seq!['U', 'n', 'k', 'n', 'o', 'w', 'n']);
}


/// A 16-bit number, big-endian.
pub open spec fn be16(v: u16) -> Seq<u8> {
    seq![(v >> 8u16) as u8, (v & 0xff) as u8]
}

/// The low 24 bits of a number, big-endian.
pub open spec fn be24(v: u32) -> Seq<u8> {
    seq![((v >> 16u32) & 0xff) as u8, ((v >> 8u32) & 0xff) as u8, (v & 0xff) as u8]
}

/// The server-name extension body for host name bytes `h`.
pub open spec fn sni_body(h: Seq<u8>) -> Seq<u8> {
    be16(((h.len() as u16) + 3) as u16) + seq![0u8] + be16(h.len() as u16) + h
}

/// The offered groups: x25519, secp256r1, secp384r1, secp521r1, x448.
pub open spec fn group_bytes() -> Seq<u8> {
    seq![0x00u8, 0x1d, 0x00, 0x17, 0x00, 0x18, 0x00, 0x19, 0x00, 0x1e]
}

/// The offered cipher suites.
pub open spec fn cipher_suite_bytes() -> Seq<u8> {
    seq![0x13u8, 0x01, 0x13, 0x02, 0x13, 0x03, 0xc0, 0x2b, 0xc0, 0x2f, 0xc0, 0x0a, 0xc0, 0x09, 0x00, 0x33]
}

/// The fixed client random: bytes 0 to 31.
pub open spec fn client_random() -> Seq<u8> {
    Seq::new(32, |i: int| i as u8)
}

/// The extensions: server name, then supported groups.
pub open spec fn hello_extensions(h: Seq<u8>) -> Seq<u8> {
    seq![0u8, 0u8] + be16(sni_body(h).len() as u16) + sni_body(h)
        + seq![0x00u8, 0x0a] + be16(12) + be16(10) + group_bytes()
}

/// The ClientHello message after its type and length.
pub open spec fn hello_body(h: Seq<u8>) -> Seq<u8> {
    seq![0x03u8, 0x03] + client_random() + seq![0u8] + be16(16) + cipher_suite_bytes()
        + seq![1u8, 0u8] + be16(hello_extensions(h).len() as u16) + hello_extensions(h)
}

/// The TLS record carrying a TLS 1.2 ClientHello for `hostname` (lengths
/// written as the fixed-width fields hold them).
pub open spec fn client_hello(h: Seq<u8>) -> Seq<u8> {
    let hs = seq![1u8] + be24(hello_body(h).len() as u32) + hello_body(h);
    seq![0x16u8, 0x03, 0x01] + be16(hs.len() as u16) + hs
}

fn push_be16(buf: &mut Vec<u8>, v: u16)
    ensures
        final(buf)@ == old(buf)@ + be16(v),
{
    buf.push((v >> 8) as u8);
    buf.push((v & 0xff) as u8);
    assert(buf@ =~= old(buf)@ + be16(v));
}

/// Builds the TLS 1.2 ClientHello (with the host name as SNI) that makes a
/// server send its certificate chain.
pub fn build_client_hello(hostname: &str) -> (r: Vec<u8>)
    requires
        (hostname.spec_bytes().len() as u16) + 3 <= 0xffff,
    ensures
        r@ == client_hello(hostname.spec_bytes()),
{
    let h = hostname.as_bytes();
    let hl = h.len() as u16;
    let mut sni: Vec<u8> = Vec::new();
    push_be16(&mut sni, hl + 3);
    sni.push(0);
    push_be16(&mut sni, hl);
    crate::text::push_bytes(&mut sni, h);
    assert(sni@ =~= sni_body(h@));
    let mut ext: Vec<u8> = Vec::new();
    ext.push(0);
    ext.push(0);
    push_be16(&mut ext, sni.len() as u16);
    crate::text::push_bytes(&mut ext, sni.as_slice());
    ext.push(0x00);
    ext.push(0x0a);
    push_be16(&mut ext, 12);
    push_be16(&mut ext, 10);
    let groups: [u8; 10] = [0x00, 0x1d, 0x00, 0x17, 0x00, 0x18, 0x00, 0x19, 0x00, 0x1e];
    crate::text::push_bytes(&mut ext, &groups);
    assert(groups@ =~= group_bytes());
    assert(ext@ =~= hello_extensions(h@));
    let mut body: Vec<u8> = Vec::new();
    body.push(0x03);
    body.push(0x03);
    let mut k: u8 = 0;
    while k < 32
        invariant
            k <= 32,
            body@ == seq![0x03u8, 0x03] + client_random().subrange(0, k as int),
        decreases 32 - k,
    {
        body.push(k);
        k = k + 1;
        assert(body@ =~= seq![0x03u8, 0x03] + client_random().subrange(0, k as int));
    }
    assert(client_random().subrange(0, 32) =~= client_random());
    body.push(0);
    push_be16(&mut body, 16);
    let suites: [u8; 16] = [0x13, 0x01, 0x13, 0x02, 0x13, 0x03, 0xc0, 0x2b, 0xc0, 0x2f, 0xc0, 0x0a, 0xc0, 0x09, 0x00, 0x33];
    crate::text::push_bytes(&mut body, &suites);
    assert(suites@ =~= cipher_suite_bytes());
    body.push(1);
    body.push(0);
    push_be16(&mut body, ext.len() as u16);
    crate::text::push_bytes(&mut body, ext.as_slice());
    assert(body@ =~= hello_body(h@));
    let mut hs: Vec<u8> = Vec::new();
    hs.push(1);
    let bl = body.len() as u32;
    hs.push(((bl >> 16) & 0xff) as u8);
    hs.push(((bl >> 8) & 0xff) as u8);
    hs.push((bl & 0xff) as u8);
    crate::text::push_bytes(&mut hs, body.as_slice());
    assert(hs@ =~= seq![1u8] + be24(hello_body(h@).len() as u32) + hello_body(h@));
    let mut record: Vec<u8> = Vec::new();
    record.push(0x16);
    record.push(0x03);
    record.push(0x01);
    push_be16(&mut record, hs.len() as u16);
    crate::text::push_bytes(&mut record, hs.as_slice());
    assert(record@ =~= client_hello(h@));
    record
}

/// The two bytes of a 16-bit number are its value in base 256.
proof fn lemma_be16_value(v: u16)
    ensures
        be16(v).len() == 2,
        be16(v)[0] * 256 + be16(v)[1] == v,
{
    assert(v >> 8u16 == v / 256 && v & 0xff == v % 256) by (bit_vector);
}

/// The three bytes of a number below 2^24 are its value in base 256.
proof fn lemma_be24_value(v: u32)
    requires
        v < 0x100_0000,
    ensures
        be24(v).len() == 3,
        be24(v)[0] * 0x1_0000 + be24(v)[1] * 256 + be24(v)[2] == v,
{
    assert((v >> 16u32) & 0xff == v / 0x1_0000 && (v >> 8u32) & 0xff == (v / 256) % 256 && v & 0xff == v % 256)
        by (bit_vector)
        requires v < 0x100_0000;
}

/// The ClientHello record for host name bytes `h` is a TLS handshake record
/// (content type 22, version 3.1) whose length field counts the rest of the
/// record; it carries one ClientHello (handshake type 1) whose 24-bit length
/// counts the rest of the message; and its server-name extension holds the
/// host name, preceded by its length, just before the 16 bytes of the
/// supported-groups extension that end the record.
pub proof fn law_client_hello_layout(h: Seq<u8>)
    requires
        h.len() + 91 <= 0xffff,
    ensures
        ({
            let r = client_hello(h);
            let n = r.len() as int;
            &&& n == h.len() + 91
            &&& r[0] == 0x16 && r[1] == 3 && r[2] == 1
            &&& r[3] * 256 + r[4] == n - 5
            &&& r[5] == 1
            &&& r[6] * 0x1_0000 + r[7] * 256 + r[8] == n - 9
            &&& r.subrange(n - 16 - h.len(), n - 16) == h
            &&& r[n - 18 - h.len()] * 256 + r[n - 17 - h.len()] == h.len()
        }),
{
    let sni = sni_body(h);
    let ext = hello_extensions(h);
    let body = hello_body(h);
    lemma_be16_value(((h.len() as u16) + 3) as u16);
    lemma_be16_value(h.len() as u16);
    assert(sni.len() == h.len() + 5);
    lemma_be16_value(sni.len() as u16);
    lemma_be16_value(12);
    lemma_be16_value(10);
    assert(ext.len() == h.len() + 25);
    lemma_be16_value(16);
    lemma_be16_value(ext.len() as u16);
    assert(body.len() == h.len() + 82);
    lemma_be24_value(body.len() as u32);
    let hs = seq![1u8] + be24(body.len() as u32) + body;
    assert(hs.len() == h.len() + 86);
    lemma_be16_value(hs.len() as u16);
    let r = client_hello(h);
    let n = r.len() as int;
    assert(r == seq![0x16u8, 0x03, 0x01] + be16(hs.len() as u16) + hs);
    assert(r[3] == be16(hs.len() as u16)[0] && r[4] == be16(hs.len() as u16)[1]);
    assert(r[5] == 1);
    assert(r[6] == be24(body.len() as u32)[0] && r[7] == be24(body.len() as u32)[1] && r[8] == be24(body.len() as u32)[2]);
    let tail = seq![0x00u8, 0x0a] + be16(12) + be16(10) + group_bytes();
    assert(tail.len() == 16);
    assert(r =~= (seq![0x16u8, 0x03, 0x01] + be16(hs.len() as u16) + seq![1u8] + be24(body.len() as u32)
        + seq![0x03u8, 0x03] + client_random() + seq![0u8] + be16(16) + cipher_suite_bytes()
        + seq![1u8, 0u8] + be16(ext.len() as u16) + seq![0u8, 0u8] + be16(sni.len() as u16)
        + be16(((h.len() as u16) + 3) as u16) + seq![0u8] + be16(h.len() as u16)) + h + tail);
    assert(r.subrange(n - 16 - h.len(), n - 16) =~= h);
    assert(r[n - 18 - h.len()] == be16(h.len() as u16)[0]);
    assert(r[n - 17 - h.len()] == be16(h.len() as u16)[1]);
}


/// The first position `i` with `0 < i < len - 4` holding `0x0b` (the
/// Certificate handshake type) at or after `i`.
pub open spec fn find_cert_type(buf: Seq<u8>, i: int) -> Option<int>
    decreases buf.len() - i,
{
    if i < 0 || i + 4 >= buf.len() {
        None
    } else if buf[i] == 0x0b && i > 0 {
        Some(i)
    } else {
        find_cert_type(buf, i + 1)
    }
}

/// A 24-bit big-endian length at `i`.
pub open spec fn len24(b: Seq<u8>, i: int) -> int {
    b[i] * 0x1_0000 + b[i + 1] * 0x100 + b[i + 2]
}

/// Where the first certificate of the server's chain lies in the reply, as
/// (start, end): after the first `0x0b` byte come a 3-byte message length,
/// the 3-byte chain length and the 3-byte length of the first certificate;
/// `None` when a length is zero or runs past the reply.
pub open spec fn first_certificate(buf: Seq<u8>) -> Option<(int, int)> {
    match find_cert_type(buf, 0) {
        None => None,
        Some(pos) => {
            let cs = pos + 4;
            if cs + 3 < buf.len() {
                let chain_len = len24(buf, cs);
                if chain_len > 0 && cs + 3 + chain_len <= buf.len() && chain_len > 3 {
                    let cert_len = len24(buf, cs + 3);
                    if cert_len > 0 && 3 + cert_len <= chain_len {
                        Some((cs + 6, cs + 6 + cert_len))
                    } else {
                        None
                    }
                } else {
                    None
                }
            } else {
                None
            }
        },
    }
}

fn find_cert_type_exec(buf: &[u8]) -> (r: Option<usize>)
    ensures
        match find_cert_type(buf@, 0) {
            Some(p) => r == Some(p as usize) && 0 < p && p + 4 < buf@.len(),
            None => r is None,
        },
{
    let n = buf.len();
    if n < 4 {
        assert(find_cert_type(buf@, 0) is None);
        return None;
    }
    let mut i: usize = 0;
    while i < n - 4
        invariant
            n == buf@.len(),
            n >= 4,
            i <= n - 4,
            find_cert_type(buf@, 0) == find_cert_type(buf@, i as int),
        decreases n - i,
    {
        if buf[i] == 0x0b && i > 0 {
            return Some(i);
        }
        i = i + 1;
    }
    None
}

/// Finds the first certificate of the chain in a server's reply (see
/// [`first_certificate`]).
pub fn find_first_certificate(buf: &[u8]) -> (r: Option<(usize, usize)>)
    ensures
        match first_certificate(buf@) {
            Some((a, b)) => r == Some((a as usize, b as usize)) && 0 <= a <= b <= buf@.len(),
            None => r is None,
        },
{
    let n = buf.len();
    let pos = match find_cert_type_exec(buf) {
        Some(p) => p,
        None => { return None; },
    };
    let cs = pos + 4;
    if !(n - cs > 3) {
        return None;
    }
    let chain_len: usize = (buf[cs] as usize) * 0x1_0000 + (buf[cs + 1] as usize) * 0x100 + buf[cs + 2] as usize;
    if !(chain_len > 0 && chain_len <= n - cs - 3 && chain_len > 3) {
        return None;
    }
    let cert_len: usize = (buf[cs + 3] as usize) * 0x1_0000 + (buf[cs + 4] as usize) * 0x100 + buf[cs + 5] as usize;
    if !(cert_len > 0 && cert_len <= chain_len - 3) {
        return None;
    }
    Some((cs + 6, cs + 6 + cert_len))
}


/// The instant (seconds since the Unix epoch, UTC) that chrono's
/// `NaiveDateTime::parse_from_str` reads from `text` in the form
/// `%b %d %H:%M:%S %Y GMT`, if it reads one.
pub uninterp spec fn cert_time(text: Seq<char>) -> Option<i64>;

/// Reads a certificate date such as `Jan 15 00:00:00 2026 GMT` with
/// `chrono::NaiveDateTime::parse_from_str` (format `%b %d %H:%M:%S %Y GMT`),
/// as UTC seconds since the epoch (`and_utc().timestamp()`); `None` when
/// chrono refuses the text. The result is named, not described.
#[verifier::external_body]
fn parse_cert_time(text: &str) -> (r: Option<i64>)
    ensures
        r == cert_time(text@),
{
    match chrono::NaiveDateTime::parse_from_str(text, "%b %d %H:%M:%S %Y GMT") {
        Ok(t) => Some(t.and_utc().timestamp()),
        Err(_) => None,
    }
}

/// Whole days from `now` to the expiry instant `e`, rounded toward zero
/// (negative once it has passed).
pub open spec fn days_between(e: i64, now: i64) -> i64 {
    if e > now { ((e - now) / 86400) as i64 } else { -((now - e) / 86400) as i64 }
}

/// The days between an expiry `e` and the time `now` (both in seconds) are
/// the whole days of the gap, counted toward zero: positive or zero before
/// the expiry, and negative only once a full day has passed since it.
pub proof fn law_days_count_whole_days(e: i64, now: i64)
    ensures
        ({
            let d = days_between(e, now) as int;
            &&& e >= now ==> d >= 0 && d * 86400 <= e - now < d * 86400 + 86400
            &&& e < now ==> d <= 0 && -d * 86400 <= now - e < -d * 86400 + 86400
            &&& d < 0 <==> now - e >= 86400
        }),
{
    let g: int = if e > now { e - now } else { now - e };
    assert(0 <= g <= 0x1_0000_0000_0000_0000int);
    assert(g / 86400 <= 0x1_0000_0000_0000_0000int / 86400) by (nonlinear_arith)
        requires 0 <= g <= 0x1_0000_0000_0000_0000int;
    assert((g / 86400) * 86400 <= g < (g / 86400) * 86400 + 86400) by (nonlinear_arith)
        requires 0 <= g;
    assert(g >= 86400 <==> g / 86400 >= 1) by (nonlinear_arith)
        requires 0 <= g;
}

/// The days a certificate valid until `valid_to` has left at `now_secs`
/// (seconds since the epoch): `None` without a date or when the date does
/// not read.
pub open spec fn days_left(valid_to: Option<Seq<char>>, now_secs: i64) -> Option<i64> {
    match valid_to {
        Some(t) => match cert_time(t) {
            Some(e) => Some(days_between(e, now_secs)),
            None => None,
        },
        None => None,
    }
}

/// The days left, as [`days_left`] says.
pub fn days_remaining_at(valid_to: Option<&str>, now_secs: i64) -> (r: Option<i64>)
    ensures
        r == days_left(
            match valid_to {
                Some(t) => Some(t@),
                None => None,
            },
            now_secs,
        ),
{
    match valid_to {
        Some(t) => match parse_cert_time(t) {
            Some(e) => {
                let ei = e as i128;
                let ni = now_secs as i128;
                if ei > ni {
                    let d = (ei - ni) / 86400;
                    assert(d <= 0x1_0000_0000_0000_0000int / 86400);
                    Some(d as i64)
                } else {
                    let d = (ni - ei) / 86400;
                    assert(d <= 0x1_0000_0000_0000_0000int / 86400);
                    Some(-(d as i64))
                }
            },
            None => None,
        },
        None => None,
    }
}

/// Whether a certificate with `days` left has expired: its days left are
/// known and negative.
pub fn is_expired(days: Option<i64>) -> (b: bool)
    ensures
        b == (days matches Some(d) && d < 0),
{
    match days {
        Some(d) => d < 0,
        None => false,
    }
}

/// What a certificate check reports.
pub struct SslCheckResult {
    pub hostname: String,
    pub issuer: Option<String>,
    pub subject: Option<String>,
    pub valid_from: Option<String>,
    pub valid_to: Option<String>,
    pub is_expired: bool,
    pub is_self_signed: bool,
    pub days_remaining: Option<i64>,
}

/// The text of an optional string.
pub open spec fn opt_text(o: Option<String>) -> Option<Seq<char>> {
    match o {
        Some(s) => Some(s@),
        None => None,
    }
}

/// The DER bytes of the first certificate in a server's reply.
pub open spec fn reply_certificate(reply: Seq<u8>) -> Option<Seq<u8>> {
    match first_certificate(reply) {
        Some((a, b)) => Some(reply.subrange(a, b)),
        None => None,
    }
}

fn copy_range(buf: &[u8], a: usize, b: usize) -> (v: Vec<u8>)
    requires
        a <= b <= buf@.len(),
    ensures
        v@ == buf@.subrange(a as int, b as int),
{
    let mut v: Vec<u8> = Vec::new();
    let mut i = a;
    while i < b
        invariant
            a <= i <= b <= buf@.len(),
            v@ == buf@.subrange(a as int, i as int),
        decreases b - i,
    {
        v.push(buf[i]);
        i = i + 1;
        assert(v@ =~= buf@.subrange(a as int, i as int));
    }
    v
}

/// The report for `hostname` from the server's first reply, at `now_secs`:
/// issuer (the organization), subject (the host name), validity dates and
/// the self-signed guess are read from the first certificate, when there is
/// one; the days left come from the second date, and the certificate counts
/// as expired when they are known and negative.
pub fn ssl_check_result(hostname: &str, reply: &[u8], now_secs: i64) -> (r: SslCheckResult)
    ensures
        r.hostname@ == hostname@,
        match reply_certificate(reply@) {
            Some(der) => {
                &&& opt_text(r.issuer) == first_string(der, 0, true)
                &&& opt_text(r.subject) == first_string(der, 0, false)
                &&& opt_text(r.valid_from) == first_date(der, 0)
                &&& opt_text(r.valid_to) == first_date(der, 0)
                &&& r.is_self_signed == self_signed_org(first_string(der, 0, true))
            },
            None => r.issuer is None && r.subject is None && r.valid_from is None && r.valid_to is None
                && !r.is_self_signed,
        },
        r.days_remaining == days_left(opt_text(r.valid_to), now_secs),
        r.is_expired == (r.days_remaining matches Some(d) && d < 0),
{
    let found = find_first_certificate(reply);
    let rn = reply.len();
    assert(reply@.len() == rn);
    let ghost fc = first_certificate(reply@);
    assert(found is Some ==> fc is Some && found == Some((fc.unwrap().0 as usize, fc.unwrap().1 as usize))
        && 0 <= fc.unwrap().0 <= fc.unwrap().1 <= reply@.len());
    let (issuer, subject, valid_from, valid_to, is_self_signed) = match found {
        Some(pair) => {
            let a = pair.0;
            let b = pair.1;
            assert(a == fc.unwrap().0 && b == fc.unwrap().1);
            let der = copy_range(reply, a, b);
            assert(reply_certificate(reply@) == Some(der@));
            let d = der.as_slice();
            (extract_organization(d), extract_common_name(d), extract_date(d, 0), extract_date(d, 1), is_likely_self_signed(d))
        },
        None => (None, None, None, None, false),
    };
    let days_remaining = match &valid_to {
        Some(t) => days_remaining_at(Some(t.as_str()), now_secs),
        None => days_remaining_at(None, now_secs),
    };
    let expired = is_expired(days_remaining);
    SslCheckResult {
        hostname: String::from_str(hostname),
        issuer,
        subject,
        valid_from,
        valid_to,
        is_expired: expired,
        is_self_signed,
        days_remaining,
    }
}

} // verus!
