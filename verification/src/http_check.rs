//! The HTTP reachability check: reading the target out of a URL, the request
//! it sends, and reading the status line and headers of the reply.
use vstd::prelude::*;
use vstd::string::*;
use crate::text::{
    decimal, find_char, find_char_exec, parse_uint, parse_uint_range, push_decimal, push_str, split_on, str_chars,
    string_from_range, trim, trim_bounds, views, split_chars, find_seq, find_seq_exec, text_lines, lines_of,
};

verus! {

/// What `parse_status_line` reads from a status line such as
/// `HTTP/1.1 200 OK`: the code after the first space and the trimmed text
/// after the second; `None` without a space or with a code that is not a
/// `u16`.
pub open spec fn status_line(line: Seq<char>) -> Option<(u16, Seq<char>)> {
    match find_char(line, ' ', 0) {
        None => None,
        Some(a) => {
            let rest = line.subrange(a + 1, line.len() as int);
            let code_text = match find_char(rest, ' ', 0) {
                Some(b) => rest.subrange(0, b),
                None => rest,
            };
            let text = match find_char(rest, ' ', 0) {
                Some(b) => trim(rest.subrange(b + 1, rest.len() as int)),
                None => Seq::empty(),
            };
            match parse_uint(code_text, 65535) {
                Some(c) => Some((c as u16, text)),
                None => None,
            }
        },
    }
}

/// Parses an HTTP status line into its code and reason text.
pub fn parse_status_line(line: &str) -> (r: Option<(u16, String)>)
    ensures
        match status_line(line@) {
            Some((c, t)) => r matches Some((c2, t2)) && c2 == c && t2@ == t,
            None => r is None,
        },
{
    let v = str_chars(line);
    let n = v.len();
    let a = match find_char_exec(&v, ' ') {
        Some(a) => a,
        None => { return None; },
    };
    let rest = crate::text::slice_chars(&v, a + 1, n);
    let (code_end, text) = match find_char_exec(&rest, ' ') {
        Some(b) => {
            let (x, y) = trim_bounds(&rest, b + 1, rest.len());
            (b, string_from_range(&rest, x, y))
        },
        None => {
            proof {
                reveal_strlit("");
            }
            (rest.len(), String::new())
        },
    };
    let ghost code_text = rest@.subrange(0, code_end as int);
    assert(code_end == rest@.len() ==> code_text =~= rest@);
    match parse_uint_range(&rest, 0, code_end, 65535) {
        Some(c) => Some((c as u16, text)),
        None => None,
    }
}

/// What `parse_header` reads from a header line: the trimmed text before the
/// first `:` and the trimmed text after it; `None` without a colon or with an
/// empty name.
pub open spec fn header_line(line: Seq<char>) -> Option<(Seq<char>, Seq<char>)> {
    match find_char(line, ':', 0) {
        None => None,
        Some(i) => {
            let key = trim(line.subrange(0, i));
            if key.len() == 0 {
                None
            } else {
                Some((key, trim(line.subrange(i + 1, line.len() as int))))
            }
        },
    }
}

/// Parses a `Name: value` header line.
pub fn parse_header(line: &str) -> (r: Option<(String, String)>)
    ensures
        match header_line(line@) {
            Some((k, v)) => r matches Some((k2, v2)) && k2@ == k && v2@ == v,
            None => r is None,
        },
{
    let v = str_chars(line);
    let i = match find_char_exec(&v, ':') {
        Some(i) => i,
        None => { return None; },
    };
    let n = v.len();
    let (a, b) = trim_bounds(&v, 0, i);
    if a == b {
        return None;
    }
    let (c, d) = trim_bounds(&v, i + 1, n);
    Some((string_from_range(&v, a, b), string_from_range(&v, c, d)))
}


/// Whether `s` starts with `p`.
pub open spec fn starts_with(s: Seq<char>, p: Seq<char>) -> bool {
    p.len() <= s.len() && s.subrange(0, p.len() as int) == p
}

/// `s` with every leading repetition of a non-empty `p` removed
/// (`str::trim_start_matches`).
pub open spec fn strip_all(s: Seq<char>, p: Seq<char>) -> Seq<char>
    decreases s.len(),
{
    if p.len() > 0 && starts_with(s, p) {
        strip_all(s.subrange(p.len() as int, s.len() as int), p)
    } else {
        s
    }
}

/// The first position at or after `i` holding `/` or `?`.
pub open spec fn find_path_start(s: Seq<char>, i: int) -> Option<int>
    decreases s.len() - i,
{
    if i < 0 || i >= s.len() {
        None
    } else if s[i] == '/' || s[i] == '?' {
        Some(i)
    } else {
        find_path_start(s, i + 1)
    }
}

/// Where an HTTP check connects and what it asks for.
#[derive(Clone, Debug)]
pub struct HttpTarget {
    pub is_tls: bool,
    pub host: String,
    pub port: u16,
    pub path: String,
}

/// The target of a URL: TLS or not, host, port (80 or 443 unless given),
/// and path (`/` unless given); an error for another scheme or a bad port.
pub open spec fn http_target(url: Seq<char>) -> Result<(bool, Seq<char>, u16, Seq<char>), Seq<char>> {
    if !starts_with(url, "http://"@) && !starts_with(url, "https://"@) {
        Err("URL must start with http:// or https://"@)
    } else {
        let is_tls = starts_with(url, "https://"@);
        let rest = strip_all(strip_all(url, "https://"@), "http://"@);
        let path = match find_char(rest, '/', 0) {
            Some(i) => rest.subrange(i, rest.len() as int),
            None => "/"@,
        };
        match find_char(rest, ':', 0) {
            Some(i) => {
                let after = rest.subrange(i + 1, rest.len() as int);
                let port_text = match find_path_start(after, 0) {
                    Some(e) => after.subrange(0, e),
                    None => after,
                };
                match parse_uint(port_text, 65535) {
                    Some(p) => Ok((is_tls, rest.subrange(0, i), p as u16, path)),
                    None => Err("Invalid port: "@ + port_text),
                }
            },
            None => {
                let host = match find_path_start(rest, 0) {
                    Some(e) => rest.subrange(0, e),
                    None => rest,
                };
                Ok((is_tls, host, if is_tls { 443u16 } else { 80u16 }, path))
            },
        }
    }
}

/// The view of a target.
pub open spec fn target_view(r: Result<HttpTarget, String>) -> Result<(bool, Seq<char>, u16, Seq<char>), Seq<char>> {
    match r {
        Ok(t) => Ok((t.is_tls, t.host@, t.port, t.path@)),
        Err(e) => Err(e@),
    }
}

/// Whether `v[i..]` starts with `p`.
fn starts_at(v: &Vec<char>, i: usize, p: &str) -> (b: bool)
    requires
        i <= v@.len(),
    ensures
        b == starts_with(v@.subrange(i as int, v@.len() as int), p@),
{
    let pv = str_chars(p);
    let r = crate::text::matches_at(v, i, &pv);
    proof {
        if i + pv@.len() <= v@.len() {
            assert(v@.subrange(i as int, v@.len() as int).subrange(0, pv@.len() as int) =~= v@.subrange(i as int, i + pv@.len()));
        }
    }
    r
}

/// The first position at or after `i` of `/` or `?` in `v`.
fn find_path_start_exec(v: &Vec<char>, i: usize) -> (r: Option<usize>)
    requires
        i <= v@.len(),
    ensures
        match find_path_start(v@, i as int) {
            Some(k) => r == Some(k as usize) && i <= k < v@.len(),
            None => r is None,
        },
{
    let mut j = i;
    while j < v.len()
        invariant
            i <= j <= v@.len(),
            find_path_start(v@, i as int) == find_path_start(v@, j as int),
        decreases v@.len() - j,
    {
        if v[j] == '/' || v[j] == '?' {
            return Some(j);
        }
        j = j + 1;
    }
    None
}

/// Reads the connection target out of an `http://` or `https://` URL.
pub fn parse_http_url(url: &str) -> (r: Result<HttpTarget, String>)
    ensures
        target_view(r) == http_target(url@),
{
    let v = str_chars(url);
    let https = starts_at(&v, 0, "https://");
    let http = starts_at(&v, 0, "http://");
    assert(v@.subrange(0, v@.len() as int) =~= v@);
    if !http && !https {
        return Err(String::from_str("URL must start with http:// or https://"));
    }
    proof {
        reveal_strlit("https://");
        reveal_strlit("http://");
    }
    // strip every leading "https://", then every leading "http://"
    let n0 = v.len();
    let mut start: usize = 0;
    while starts_at(&v, start, "https://")
        invariant
            start <= v@.len(),
            n0 == v@.len(),
            strip_all(v@, "https://"@) == strip_all(v@.subrange(start as int, v@.len() as int), "https://"@),
            "https://"@.len() == 8,
        decreases v@.len() - start,
    {
        assert(v@.subrange(start as int, v@.len() as int).subrange(8, v@.len() - start) =~= v@.subrange(start + 8, v@.len() as int));
        start = start + 8;
    }
    while starts_at(&v, start, "http://")
        invariant
            start <= v@.len(),
            n0 == v@.len(),
            strip_all(strip_all(v@, "https://"@), "http://"@) == strip_all(v@.subrange(start as int, v@.len() as int), "http://"@),
            "http://"@.len() == 7,
        decreases v@.len() - start,
    {
        assert(v@.subrange(start as int, v@.len() as int).subrange(7, v@.len() - start) =~= v@.subrange(start + 7, v@.len() as int));
        start = start + 7;
    }
    let rest = crate::text::slice_chars(&v, start, v.len());
    let n = rest.len();
    let path = match find_char_exec(&rest, '/') {
        Some(i) => string_from_range(&rest, i, n),
        None => String::from_str("/"),
    };
    match find_char_exec(&rest, ':') {
        Some(i) => {
            let pe = match find_path_start_exec(&rest, i + 1) {
                Some(e) => e,
                None => n,
            };
            let ghost after = rest@.subrange(i + 1, n as int);
            proof {
                lemma_find_path_start_shift(rest@, i + 1, 0);
                assert(after.subrange(0, pe - (i + 1)) =~= rest@.subrange(i + 1, pe as int));
                assert(pe == n ==> after =~= rest@.subrange(i + 1, pe as int));
            }
            match parse_uint_range(&rest, i + 1, pe, 65535) {
                Some(p) => Ok(HttpTarget { is_tls: https, host: string_from_range(&rest, 0, i), port: p as u16, path }),
                None => {
                    let mut msg = String::from_str("Invalid port: ");
                    let pt = string_from_range(&rest, i + 1, pe);
                    push_str(&mut msg, pt.as_str());
                    Err(msg)
                },
            }
        },
        None => {
            let pe = match find_path_start_exec(&rest, 0) {
                Some(e) => e,
                None => n,
            };
            assert(pe == n ==> rest@.subrange(0, pe as int) =~= rest@);
            Ok(HttpTarget {
                is_tls: https,
                host: string_from_range(&rest, 0, pe),
                port: if https { 443 } else { 80 },
                path,
            })
        },
    }
}

/// Searching a suffix is searching the whole from the suffix's start.
proof fn lemma_find_path_start_shift(s: Seq<char>, off: int, i: int)
    requires
        0 <= off <= s.len(),
        0 <= i,
    ensures
        find_path_start(s.subrange(off, s.len() as int), i) == match find_path_start(s, off + i) {
            Some(k) => Some(k - off),
            None => None::<int>,
        },
    decreases s.len() - off - i,
{
    if off + i < s.len() {
        lemma_find_path_start_shift(s, off, i + 1);
    }
}

/// A search from `i` finds nothing in a text without `c` from `i` on.
proof fn lemma_find_char_absent(s: Seq<char>, c: char, i: int)
    requires
        0 <= i,
        forall|j: int| i <= j < s.len() ==> s[j] != c,
    ensures
        find_char(s, c, i) is None,
    decreases s.len() - i,
{
    if i < s.len() {
        lemma_find_char_absent(s, c, i + 1);
    }
}

/// A search from `i` finds no path start in a text without `/` or `?` from `i` on.
proof fn lemma_find_path_start_absent(s: Seq<char>, i: int)
    requires
        0 <= i,
        forall|j: int| i <= j < s.len() ==> s[j] != '/' && s[j] != '?',
    ensures
        find_path_start(s, i) is None,
    decreases s.len() - i,
{
    if i < s.len() {
        lemma_find_path_start_absent(s, i + 1);
    }
}

/// A URL that gives no port (no `:` after the scheme) is read with the
/// scheme's default port: 443 for `https://`, 80 for `http://`. Where the
/// rest holds no `/` or `?` either, the whole rest is the host and the path
/// is `/`.
pub proof fn law_default_port_of_scheme(rest: Seq<char>)
    requires
        forall|j: int| 0 <= j < rest.len() ==> rest[j] != ':',
    ensures
        http_target("https://"@ + rest) matches Ok((tls, _, port, _)) && tls && port == 443,
        http_target("http://"@ + rest) matches Ok((tls, _, port, _)) && !tls && port == 80,
        (forall|j: int| 0 <= j < rest.len() ==> rest[j] != '/' && rest[j] != '?') ==> {
            &&& http_target("https://"@ + rest) == Ok::<(bool, Seq<char>, u16, Seq<char>), Seq<char>>((true, rest, 443u16, "/"@))
            &&& http_target("http://"@ + rest) == Ok::<(bool, Seq<char>, u16, Seq<char>), Seq<char>>((false, rest, 80u16, "/"@))
        },
{
    reveal_strlit("https://");
    reveal_strlit("http://");
    let s = "https://"@ + rest;
    let p = "http://"@ + rest;
    assert(s.subrange(0, 8) =~= "https://"@);
    assert(p.subrange(0, 7) =~= "http://"@);
    assert(s.subrange(8, s.len() as int) =~= rest);
    assert(p.subrange(7, p.len() as int) =~= rest);
    assert(!starts_with(p, "https://"@)) by {
        if starts_with(p, "https://"@) {
            assert(p.subrange(0, 8)[4] == 's');
        }
    }
    assert(!starts_with(rest, "https://"@)) by {
        if starts_with(rest, "https://"@) {
            assert(rest.subrange(0, 8)[5] == ':');
        }
    }
    assert(!starts_with(rest, "http://"@)) by {
        if starts_with(rest, "http://"@) {
            assert(rest.subrange(0, 7)[4] == ':');
        }
    }
    assert(strip_all(rest, "https://"@) == rest);
    assert(starts_with(s, "https://"@));
    assert(strip_all(s, "https://"@) == strip_all(rest, "https://"@));
    assert(strip_all(rest, "http://"@) == rest);
    assert(strip_all(p, "https://"@) == p);
    assert(starts_with(p, "http://"@));
    assert(strip_all(p, "http://"@) == strip_all(rest, "http://"@));
    lemma_find_char_absent(rest, ':', 0);
    if forall|j: int| 0 <= j < rest.len() ==> rest[j] != '/' && rest[j] != '?' {
        lemma_find_char_absent(rest, '/', 0);
        lemma_find_path_start_absent(rest, 0);
    }
}

/// A search from `i` finds the first `c` at `k` when none stands before it.
proof fn lemma_find_char_first(s: Seq<char>, c: char, i: int, k: int)
    requires
        0 <= i <= k < s.len(),
        s[k] == c,
        forall|j: int| i <= j < k ==> s[j] != c,
    ensures
        find_char(s, c, i) == Some(k),
    decreases k - i,
{
    if i < k {
        lemma_find_char_first(s, c, i + 1, k);
    }
}

/// A search from `i` finds the first `/` or `?` at `k` when neither stands before it.
proof fn lemma_find_path_start_first(s: Seq<char>, i: int, k: int)
    requires
        0 <= i <= k < s.len(),
        s[k] == '/' || s[k] == '?',
        forall|j: int| i <= j < k ==> s[j] != '/' && s[j] != '?',
    ensures
        find_path_start(s, i) == Some(k),
    decreases k - i,
{
    if i < k {
        lemma_find_path_start_first(s, i + 1, k);
    }
}

/// A URL without a port, `scheme://host/path`, is read as that host and
/// path with the scheme's default port (`https://example.com/health` gives
/// host `example.com`, port 443 and path `/health`).
pub proof fn law_url_host_and_path(host: Seq<char>, path: Seq<char>)
    requires
        forall|j: int| 0 <= j < host.len() ==> host[j] != ':' && host[j] != '/' && host[j] != '?',
        path.len() > 0 && path[0] == '/',
        forall|j: int| 0 <= j < path.len() ==> path[j] != ':',
    ensures
        http_target("https://"@ + host + path) == Ok::<(bool, Seq<char>, u16, Seq<char>), Seq<char>>((true, host, 443u16, path)),
        http_target("http://"@ + host + path) == Ok::<(bool, Seq<char>, u16, Seq<char>), Seq<char>>((false, host, 80u16, path)),
{
    let rest = host + path;
    assert("https://"@ + host + path =~= "https://"@ + rest);
    assert("http://"@ + host + path =~= "http://"@ + rest);
    law_default_port_of_scheme(rest);
    reveal_strlit("https://");
    reveal_strlit("http://");
    let i = host.len() as int;
    assert(rest[i] == '/');
    lemma_find_char_first(rest, '/', 0, i);
    lemma_find_path_start_first(rest, 0, i);
    lemma_find_char_absent(rest, ':', 0);
    assert(rest.subrange(0, i) =~= host);
    assert(rest.subrange(i, rest.len() as int) =~= path);
    let s = "https://"@ + rest;
    let p = "http://"@ + rest;
    assert(s.subrange(8, s.len() as int) =~= rest);
    assert(p.subrange(7, p.len() as int) =~= rest);
    assert(!starts_with(rest, "https://"@)) by {
        if starts_with(rest, "https://"@) {
            assert(rest.subrange(0, 8)[5] == ':');
        }
    }
    assert(!starts_with(rest, "http://"@)) by {
        if starts_with(rest, "http://"@) {
            assert(rest.subrange(0, 7)[4] == ':');
        }
    }
    assert(!starts_with(p, "https://"@)) by {
        if starts_with(p, "https://"@) {
            assert(p.subrange(0, 8)[4] == 's');
        }
    }
    assert(s.subrange(0, 8) =~= "https://"@);
    assert(p.subrange(0, 7) =~= "http://"@);
    assert(strip_all(rest, "https://"@) == rest);
    assert(strip_all(rest, "http://"@) == rest);
    assert(strip_all(s, "https://"@) == strip_all(rest, "https://"@));
    assert(strip_all(p, "https://"@) == p);
    assert(strip_all(p, "http://"@) == strip_all(rest, "http://"@));
}

/// A status line made of a version without spaces, a space, the decimal
/// code, a space and a reason reads as that code and the reason with
/// surrounding whitespace trimmed (`HTTP/1.1 404 Not Found` gives 404 and
/// `Not Found`).
pub proof fn law_status_line_parts(version: Seq<char>, code: u16, reason: Seq<char>)
    requires
        forall|j: int| 0 <= j < version.len() ==> version[j] != ' ',
    ensures
        status_line(version + " "@ + decimal(code as nat) + " "@ + reason) == Some((code, trim(reason))),
{
    reveal_strlit(" ");
    let d = decimal(code as nat);
    crate::text::lemma_decimal_digits(code as nat);
    let line = version + " "@ + d + " "@ + reason;
    let a = version.len() as int;
    assert(line[a] == ' ');
    lemma_find_char_first(line, ' ', 0, a);
    let rest = line.subrange(a + 1, line.len() as int);
    assert(rest =~= d + " "@ + reason);
    let b = d.len() as int;
    assert forall|j: int| 0 <= j < b implies rest[j] != ' ' by {
        assert(rest[j] == d[j]);
        assert(crate::text::is_digit(d[j]));
    }
    assert(rest[b] == ' ');
    lemma_find_char_first(rest, ' ', 0, b);
    assert(rest.subrange(0, b) =~= d);
    assert(rest.subrange(b + 1, rest.len() as int) =~= reason);
    assert(d[0] != '+') by {
        assert(crate::text::is_digit(d[0]));
    }
    assert(parse_uint(d, 65535) == Some(code as int));
}

/// A header line splits at its first `:`: a name without a colon that is
/// not blank, then the value, which may hold colons of its own
/// (`Location: http://x/`), read with surrounding whitespace trimmed.
pub proof fn law_header_splits_at_first_colon(name: Seq<char>, value: Seq<char>)
    requires
        forall|j: int| 0 <= j < name.len() ==> name[j] != ':',
        trim(name).len() > 0,
    ensures
        header_line(name + ":"@ + value) == Some((trim(name), trim(value))),
{
    reveal_strlit(":");
    let line = name + ":"@ + value;
    let i = name.len() as int;
    assert(line[i] == ':');
    lemma_find_char_first(line, ':', 0, i);
    assert(line.subrange(0, i) =~= name);
    assert(line.subrange(i + 1, line.len() as int) =~= value);
}

/// A URL that names its port after the host (`http://host:8080`) is read
/// with that port, whichever the scheme, the whole host, and path `/`.
pub proof fn law_explicit_port(host: Seq<char>, port: u16)
    requires
        forall|j: int| 0 <= j < host.len() ==> host[j] != ':' && host[j] != '/' && host[j] != '?',
    ensures
        http_target("https://"@ + host + ":"@ + decimal(port as nat))
            == Ok::<(bool, Seq<char>, u16, Seq<char>), Seq<char>>((true, host, port, "/"@)),
        http_target("http://"@ + host + ":"@ + decimal(port as nat))
            == Ok::<(bool, Seq<char>, u16, Seq<char>), Seq<char>>((false, host, port, "/"@)),
{
    reveal_strlit("https://");
    reveal_strlit("http://");
    reveal_strlit(":");
    let d = decimal(port as nat);
    crate::text::lemma_decimal_digits(port as nat);
    let rest = host + ":"@ + d;
    let s = "https://"@ + rest;
    let p = "http://"@ + rest;
    assert(s =~= "https://"@ + host + ":"@ + d);
    assert(p =~= "http://"@ + host + ":"@ + d);
    assert forall|j: int| 0 <= j < rest.len() implies rest[j] != '/' && rest[j] != '?' by {
        if j > host.len() {
            assert(rest[j] == d[j - host.len() - 1]);
            assert(crate::text::is_digit(d[j - host.len() - 1]));
        }
    }
    assert(s.subrange(0, 8) =~= "https://"@);
    assert(p.subrange(0, 7) =~= "http://"@);
    assert(s.subrange(8, s.len() as int) =~= rest);
    assert(p.subrange(7, p.len() as int) =~= rest);
    assert(!starts_with(p, "https://"@)) by {
        if starts_with(p, "https://"@) {
            assert(p.subrange(0, 8)[4] == 's');
        }
    }
    assert(!starts_with(rest, "https://"@)) by {
        if starts_with(rest, "https://"@) {
            assert(rest.subrange(0, 8)[6] == '/');
        }
    }
    assert(!starts_with(rest, "http://"@)) by {
        if starts_with(rest, "http://"@) {
            assert(rest.subrange(0, 7)[5] == '/');
        }
    }
    assert(strip_all(rest, "https://"@) == rest);
    assert(starts_with(s, "https://"@));
    assert(strip_all(s, "https://"@) == strip_all(rest, "https://"@));
    assert(strip_all(rest, "http://"@) == rest);
    assert(strip_all(p, "https://"@) == p);
    assert(starts_with(p, "http://"@));
    assert(strip_all(p, "http://"@) == strip_all(rest, "http://"@));
    let i = host.len() as int;
    lemma_find_char_first(rest, ':', 0, i);
    lemma_find_char_absent(rest, '/', 0);
    let after = rest.subrange(i + 1, rest.len() as int);
    assert(after =~= d);
    assert forall|j: int| 0 <= j < d.len() implies d[j] != '/' && d[j] != '?' by {
        assert(crate::text::is_digit(d[j]));
    }
    lemma_find_path_start_absent(d, 0);
    assert(d[0] != '+') by {
        assert(crate::text::is_digit(d[0]));
    }
    assert(crate::text::parse_uint(d, 65535) == Some(port as int));
    assert(rest.subrange(0, i) =~= host);
}

/// The request an HTTP check sends.
pub open spec fn check_request(path: Seq<char>, host: Seq<char>) -> Seq<char> {
    "GET "@ + path + " HTTP/1.0\r\nHost: "@ + host + "\r\nUser-Agent: AzurePath/1.0\r\nAccept: */*\r\nConnection: close\r\n\r\n"@
}

/// Builds the request an HTTP check sends for `path` on `host`.
pub fn build_check_request(path: &str, host: &str) -> (r: String)
    ensures
        r@ == check_request(path@, host@),
{
    let mut r = String::from_str("GET ");
    push_str(&mut r, path);
    push_str(&mut r, " HTTP/1.0\r\nHost: ");
    push_str(&mut r, host);
    push_str(&mut r, "\r\nUser-Agent: AzurePath/1.0\r\nAccept: */*\r\nConnection: close\r\n\r\n");
    r
}


/// The headers read from `lines[1..n]`, in order, skipping lines that are not headers.
pub open spec fn headers_of(lines: Seq<Seq<char>>, n: int) -> Seq<(Seq<char>, Seq<char>)>
    decreases n,
{
    if n <= 1 || n > lines.len() {
        Seq::empty()
    } else {
        headers_of(lines, n - 1) + match header_line(lines[n - 1]) {
            Some(h) => seq![h],
            None => Seq::empty(),
        }
    }
}

/// The status and headers of a reply: read from the text before the first
/// blank line; a status line that does not parse gives code 0 and `Unknown`.
pub open spec fn response_head(raw: Seq<char>) -> (u16, Seq<char>, Seq<(Seq<char>, Seq<char>)>) {
    let head = match find_seq(raw, "\r\n\r\n"@, 0) {
        Some(i) => raw.subrange(0, i),
        None => raw,
    };
    let lines = text_lines(head);
    let first = if lines.len() > 0 { lines[0] } else { Seq::empty() };
    let (code, text) = match status_line(first) {
        Some(st) => st,
        None => (0u16, "Unknown"@),
    };
    (code, text, headers_of(lines, lines.len() as int))
}

/// The status code, reason text and headers of a reply.
pub struct ResponseHead {
    pub status_code: u16,
    pub status_text: String,
    pub headers: Vec<(String, String)>,
}

impl ResponseHead {
    pub open spec fn view(&self) -> (u16, Seq<char>, Seq<(Seq<char>, Seq<char>)>) {
        (self.status_code, self.status_text@, Seq::new(self.headers@.len(), |i: int| (self.headers@[i].0@, self.headers@[i].1@)))
    }
}

/// Reads the status and headers of a reply (see [`response_head`]).
pub fn parse_response_head(raw: &str) -> (r: ResponseHead)
    ensures
        r.view() == response_head(raw@),
{
    let v = str_chars(raw);
    let head = match find_seq_exec(&v, "\r\n\r\n") {
        Some(i) => crate::text::slice_chars(&v, 0, i),
        None => crate::text::slice_chars(&v, 0, v.len()),
    };
    assert(v@.subrange(0, v@.len() as int) =~= v@);
    let lines = lines_of(&head);
    let ghost ls = text_lines(head@);
    let first = if lines.len() > 0 {
        string_from_range(&lines[0], 0, lines[0].len())
    } else {
        String::new()
    };
    proof {
        reveal_strlit("");
        if lines@.len() > 0 {
            assert(lines@[0]@.subrange(0, lines@[0]@.len() as int) =~= lines@[0]@);
            assert(first@ == ls[0]);
        } else {
            assert(first@ =~= Seq::<char>::empty());
        }
    }
    let (status_code, status_text) = match parse_status_line(first.as_str()) {
        Some(st) => st,
        None => (0, String::from_str("Unknown")),
    };
    let mut headers: Vec<(String, String)> = Vec::new();
    let mut k: usize = 1;
    while k < lines.len()
        invariant
            1 <= k <= lines@.len() || (k == 1 && lines@.len() == 0),
            views(lines@) == ls,
            Seq::new(headers@.len(), |i: int| (headers@[i].0@, headers@[i].1@)) == headers_of(ls, k as int),
        decreases lines@.len() - k,
    {
        let line = string_from_range(&lines[k], 0, lines[k].len());
        assert(lines@[k as int]@.subrange(0, lines@[k as int]@.len() as int) =~= lines@[k as int]@);
        assert(line@ == ls[k as int]);
        let ghost prev = Seq::new(headers@.len(), |i: int| (headers@[i].0@, headers@[i].1@));
        match parse_header(line.as_str()) {
            Some(h) => {
                headers.push(h);
            },
            None => {},
        }
        k = k + 1;
        assert(Seq::new(headers@.len(), |i: int| (headers@[i].0@, headers@[i].1@)) =~= headers_of(ls, k as int));
    }
    let r = ResponseHead { status_code, status_text, headers };
    proof {
        if lines@.len() == 0 {
            assert(headers_of(ls, 0) =~= Seq::<(Seq<char>, Seq<char>)>::empty());
        }
    }
    r
}


/// Reads the status and headers of the bytes of a reply, decoded as
/// `String::from_utf8_lossy` does.
pub fn read_response_head(bytes: &[u8]) -> (r: ResponseHead)
    ensures
        r.view() == response_head(crate::text::lossy_text(bytes@)),
{
    let raw = crate::text::utf8_lossy(bytes);
    parse_response_head(raw.as_str())
}

} // verus!
