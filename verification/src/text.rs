//! Character-level string helpers shared by the parsers and formatters.
use vstd::prelude::*;
use vstd::string::*;

verus! {

/// The characters `char::is_whitespace` accepts (the Unicode `White_Space` property).
pub open spec fn is_ws(c: char) -> bool {
    ||| c == '\t' || c == '\n' || c == '\u{0B}' || c == '\u{0C}' || c == '\r' || c == ' '
    ||| c == '\u{85}' || c == '\u{A0}' || c == '\u{1680}'
    ||| ('\u{2000}' <= c && c <= '\u{200A}')
    ||| c == '\u{2028}' || c == '\u{2029}' || c == '\u{202F}' || c == '\u{205F}' || c == '\u{3000}'
}

/// Executable check for [`is_ws`].
pub fn char_is_ws(c: char) -> (b: bool)
    ensures
        b == is_ws(c),
{
    c == '\t' || c == '\n' || c == '\u{0B}' || c == '\u{0C}' || c == '\r' || c == ' ' || c
        == '\u{85}' || c == '\u{A0}' || c == '\u{1680}' || ('\u{2000}' <= c && c <= '\u{200A}')
        || c == '\u{2028}' || c == '\u{2029}' || c == '\u{202F}' || c == '\u{205F}' || c
        == '\u{3000}'
}

/// `s` with leading whitespace removed.
pub open spec fn trim_start(s: Seq<char>) -> Seq<char>
    decreases s.len(),
{
    if s.len() > 0 && is_ws(s[0]) {
        trim_start(s.drop_first())
    } else {
        s
    }
}

/// `s` with trailing whitespace removed.
pub open spec fn trim_end(s: Seq<char>) -> Seq<char>
    decreases s.len(),
{
    if s.len() > 0 && is_ws(s.last()) {
        trim_end(s.drop_last())
    } else {
        s
    }
}

/// What `str::trim` returns: whitespace removed from both ends.
pub open spec fn trim(s: Seq<char>) -> Seq<char> {
    trim_end(trim_start(s))
}

/// Appends one character to a string.
#[verifier::external_body]
pub(crate) fn push_char(s: &mut String, c: char)
    ensures
        final(s)@ == old(s)@.push(c),
{
    s.push(c)
}

/// The characters of `s`, one per element.
pub fn str_chars(s: &str) -> (v: Vec<char>)
    ensures
        v@ == s@,
{
    let n = s.unicode_len();
    let mut v: Vec<char> = Vec::new();
    let mut i: usize = 0;
    while i < n
        invariant
            n == s@.len(),
            i <= n,
            v@ == s@.subrange(0, i as int),
        decreases n - i,
    {
        v.push(s.get_char(i));
        i = i + 1;
    }
    v
}

/// A string holding the characters `v[lo..hi]`.
pub fn string_from_range(v: &Vec<char>, lo: usize, hi: usize) -> (s: String)
    requires
        lo <= hi <= v.len(),
    ensures
        s@ == v@.subrange(lo as int, hi as int),
{
    let mut s = String::new();
    let mut i = lo;
    while i < hi
        invariant
            lo <= i <= hi <= v.len(),
            s@ == v@.subrange(lo as int, i as int),
        decreases hi - i,
    {
        push_char(&mut s, v[i]);
        i = i + 1;
    }
    s
}

/// A string holding all the characters of `v`.
pub fn string_from_chars(v: &Vec<char>) -> (s: String)
    ensures
        s@ == v@,
{
    string_from_range(v, 0, v.len())
}

/// Appends the characters of `t` to `s`.
pub fn push_str(s: &mut String, t: &str)
    ensures
        final(s)@ == old(s)@ + t@,
{
    s.append(t);
}

/// Index of the first character of `v[lo..hi]` that is not whitespace (or `hi`).
fn skip_ws_forward(v: &Vec<char>, lo: usize, hi: usize) -> (i: usize)
    requires
        lo <= hi <= v.len(),
    ensures
        lo <= i <= hi,
        trim_start(v@.subrange(lo as int, hi as int)) == v@.subrange(i as int, hi as int),
{
    let mut i = lo;
    while i < hi && char_is_ws(v[i])
        invariant
            lo <= i <= hi <= v.len(),
            trim_start(v@.subrange(lo as int, hi as int)) == trim_start(
                v@.subrange(i as int, hi as int),
            ),
        decreases hi - i,
    {
        assert(v@.subrange(i as int, hi as int).drop_first() =~= v@.subrange(
            i + 1,
            hi as int,
        ));
        i = i + 1;
    }
    i
}

/// Index one past the last character of `v[lo..hi]` that is not whitespace (or `lo`).
fn skip_ws_backward(v: &Vec<char>, lo: usize, hi: usize) -> (j: usize)
    requires
        lo <= hi <= v.len(),
    ensures
        lo <= j <= hi,
        trim_end(v@.subrange(lo as int, hi as int)) == v@.subrange(lo as int, j as int),
{
    let mut j = hi;
    while j > lo && char_is_ws(v[j - 1])
        invariant
            lo <= j <= hi <= v.len(),
            trim_end(v@.subrange(lo as int, hi as int)) == trim_end(
                v@.subrange(lo as int, j as int),
            ),
        decreases j - lo,
    {
        assert(v@.subrange(lo as int, j as int).drop_last() =~= v@.subrange(
            lo as int,
            j - 1,
        ));
        j = j - 1;
    }
    j
}

/// The bounds `(a, b)` such that `v[a..b]` is `v[lo..hi]` trimmed on both ends.
pub fn trim_bounds(v: &Vec<char>, lo: usize, hi: usize) -> (r: (usize, usize))
    requires
        lo <= hi <= v.len(),
    ensures
        lo <= r.0 <= r.1 <= hi,
        trim(v@.subrange(lo as int, hi as int)) == v@.subrange(r.0 as int, r.1 as int),
{
    let a = skip_ws_forward(v, lo, hi);
    let b = skip_ws_backward(v, a, hi);
    (a, b)
}

/// What `str::trim` returns, as an owned string.
pub fn trim_string(s: &str) -> (r: String)
    ensures
        r@ == trim(s@),
{
    let v = str_chars(s);
    let (a, b) = trim_bounds(&v, 0, v.len());
    assert(v@.subrange(0, v@.len() as int) =~= v@);
    string_from_range(&v, a, b)
}


/// The ASCII digit character for `d` (0 to 9).
pub open spec fn digit_char(d: int) -> char {
    if d == 0 { '0' }
    else if d == 1 { '1' }
    else if d == 2 { '2' }
    else if d == 3 { '3' }
    else if d == 4 { '4' }
    else if d == 5 { '5' }
    else if d == 6 { '6' }
    else if d == 7 { '7' }
    else if d == 8 { '8' }
    else { '9' }
}

/// Whether `c` is an ASCII decimal digit.
pub open spec fn is_digit(c: char) -> bool {
    '0' <= c && c <= '9'
}

/// The numeric value of an ASCII digit.
pub open spec fn digit_value(c: char) -> int {
    (c as int) - ('0' as int)
}

/// Decimal representation of `n`, without sign or leading zeros.
pub open spec fn decimal(n: nat) -> Seq<char>
    decreases n,
{
    if n < 10 {
        seq![digit_char(n as int)]
    } else {
        decimal(n / 10).push(digit_char((n % 10) as int))
    }
}

/// Executable [`digit_char`].
pub fn digit_to_char(d: u64) -> (c: char)
    requires
        d < 10,
    ensures
        c == digit_char(d as int),
        is_digit(c),
        digit_value(c) == d,
{
    if d == 0 { '0' }
    else if d == 1 { '1' }
    else if d == 2 { '2' }
    else if d == 3 { '3' }
    else if d == 4 { '4' }
    else if d == 5 { '5' }
    else if d == 6 { '6' }
    else if d == 7 { '7' }
    else if d == 8 { '8' }
    else { '9' }
}

/// Appends the decimal representation of `n` to `s`.
pub fn push_decimal(s: &mut String, n: u64)
    ensures
        final(s)@ == old(s)@ + decimal(n as nat),
    decreases n,
{
    if n < 10 {
        push_char(s, digit_to_char(n));
        assert(old(s)@.push(digit_char(n as int)) =~= old(s)@ + decimal(n as nat));
    } else {
        push_decimal(s, n / 10);
        let ghost mid = s@;
        push_char(s, digit_to_char(n % 10));
        assert(mid.push(digit_char((n % 10) as int)) =~= old(s)@ + decimal(n as nat));
    }
}

/// The decimal representation of `n` (what `n.to_string()` gives).
pub fn decimal_string(n: u64) -> (s: String)
    ensures
        s@ == decimal(n as nat),
{
    let mut s = String::new();
    push_decimal(&mut s, n);
    assert(s@ =~= decimal(n as nat));
    s
}

/// Whether every character of `s` is an ASCII digit.
pub open spec fn all_digits(s: Seq<char>) -> bool {
    forall|i: int| 0 <= i < s.len() ==> is_digit(#[trigger] s[i])
}

/// Value of a run of ASCII digits, most significant first.
pub open spec fn digits_value(s: Seq<char>) -> int
    decreases s.len(),
{
    if s.len() == 0 {
        0
    } else {
        digits_value(s.drop_last()) * 10 + digit_value(s.last())
    }
}

/// What `u16::from_str`/`u32::from_str`/... give for a bound `max`: an optional `+`,
/// then one or more ASCII digits whose value is at most `max`.
pub open spec fn parse_uint(s: Seq<char>, max: int) -> Option<int> {
    let body = if s.len() > 0 && s[0] == '+' { s.drop_first() } else { s };
    if body.len() > 0 && all_digits(body) && digits_value(body) <= max {
        Some(digits_value(body))
    } else {
        None
    }
}

proof fn lemma_digits_value_nonneg(s: Seq<char>)
    requires
        all_digits(s),
    ensures
        digits_value(s) >= 0,
    decreases s.len(),
{
    if s.len() > 0 {
        lemma_digits_value_nonneg(s.drop_last());
    }
}

/// The value of a digit run never decreases when digits are appended.
proof fn lemma_digits_value_prefix(s: Seq<char>, i: int)
    requires
        all_digits(s),
        0 <= i <= s.len(),
    ensures
        digits_value(s.subrange(0, i)) <= digits_value(s),
    decreases s.len() - i,
{
    if i < s.len() {
        lemma_digits_value_prefix(s, i + 1);
        assert(s.subrange(0, i + 1).drop_last() =~= s.subrange(0, i));
        lemma_digits_value_nonneg(s.subrange(0, i));
    } else {
        assert(s.subrange(0, i) =~= s);
    }
}

/// Parses `v[lo..hi]` the way `str::parse` parses an unsigned integer bounded by `max`.
pub fn parse_uint_range(v: &Vec<char>, lo: usize, hi: usize, max: u64) -> (r: Option<u64>)
    requires
        lo <= hi <= v.len(),
    ensures
        match r {
            Some(x) => parse_uint(v@.subrange(lo as int, hi as int), max as int) == Some(x as int),
            None => parse_uint(v@.subrange(lo as int, hi as int), max as int) is None,
        },
{
    let ghost s = v@.subrange(lo as int, hi as int);
    let mut start = lo;
    if lo < hi && v[lo] == '+' {
        start = lo + 1;
    }
    let ghost body = v@.subrange(start as int, hi as int);
    assert(body =~= (if s.len() > 0 && s[0] == '+' { s.drop_first() } else { s }));
    if start == hi {
        return None;
    }
    let mut acc: u64 = 0;
    let mut i = start;
    while i < hi
        invariant
            lo <= start < hi <= v.len(),
            start <= i <= hi,
            body == v@.subrange(start as int, hi as int),
            s == v@.subrange(lo as int, hi as int),
            body == (if s.len() > 0 && s[0] == '+' { s.drop_first() } else { s }),
            all_digits(v@.subrange(start as int, i as int)),
            acc as int == digits_value(v@.subrange(start as int, i as int)),
            acc <= max,
        decreases hi - i,
    {
        let c = v[i];
        if !('0' <= c && c <= '9') {
            assert(body[i - start] == c);
            assert(!is_digit(body[i - start]));
            return None;
        }
        let d = (c as u32 - '0' as u32) as u64;
        assert(v@.subrange(start as int, i + 1).drop_last() =~= v@.subrange(start as int, i as int));
        if d > max || acc > (max - d) / 10 {
            // the prefix already exceeds max, so the whole run does too
            assert(v@.subrange(start as int, i + 1) =~= body.subrange(0, i + 1 - start));
            assert(digits_value(v@.subrange(start as int, i + 1)) == acc * 10 + d);
            proof {
                if all_digits(body) {
                    lemma_digits_value_prefix(body, (i + 1 - start) as int);
                }
            }
            return None;
        }
        acc = acc * 10 + d;
        i = i + 1;
    }
    assert(v@.subrange(start as int, i as int) =~= body);
    Some(acc)
}

/// Whether `v` holds exactly the characters of `s`.
pub fn chars_eq(v: &Vec<char>, s: &str) -> (b: bool)
    ensures
        b == (v@ == s@),
{
    let w = str_chars(s);
    if v.len() != w.len() {
        return false;
    }
    let mut i: usize = 0;
    while i < v.len()
        invariant
            v@.len() == w@.len(),
            w@ == s@,
            i <= v@.len(),
            forall|k: int| 0 <= k < i ==> v@[k] == w@[k],
        decreases v@.len() - i,
    {
        if v[i] != w[i] {
            return false;
        }
        i = i + 1;
    }
    assert(v@ =~= w@);
    true
}


/// The pieces of `s` between occurrences of `sep` (what `str::split` yields):
/// always at least one piece, empty pieces included.
pub open spec fn split_on(s: Seq<char>, sep: char) -> Seq<Seq<char>>
    decreases s.len(),
{
    if s.len() == 0 {
        seq![Seq::empty()]
    } else {
        let rest = split_on(s.drop_last(), sep);
        if s.last() == sep {
            rest.push(Seq::empty())
        } else {
            rest.update(rest.len() - 1, rest.last().push(s.last()))
        }
    }
}

/// `split_on` never yields an empty list of pieces.
pub proof fn lemma_split_on_nonempty(s: Seq<char>, sep: char)
    ensures
        split_on(s, sep).len() >= 1,
    decreases s.len(),
{
    if s.len() > 0 {
        lemma_split_on_nonempty(s.drop_last(), sep);
    }
}

/// How `split_on` of a prefix grows by one character.
pub proof fn lemma_split_on_step(s: Seq<char>, sep: char, i: int)
    requires
        0 <= i < s.len(),
    ensures
        split_on(s.subrange(0, i + 1), sep) == (if s[i] == sep {
            split_on(s.subrange(0, i), sep).push(Seq::empty())
        } else {
            let rest = split_on(s.subrange(0, i), sep);
            rest.update(rest.len() - 1, rest.last().push(s[i]))
        }),
{
    assert(s.subrange(0, i + 1).drop_last() =~= s.subrange(0, i));
}

/// `parts` joined with `sep` between consecutive parts (what `join` produces).
pub open spec fn join(parts: Seq<Seq<char>>, sep: Seq<char>) -> Seq<char>
    decreases parts.len(),
{
    if parts.len() == 0 {
        Seq::empty()
    } else if parts.len() == 1 {
        parts[0]
    } else {
        join(parts.drop_last(), sep) + sep + parts.last()
    }
}

/// Decodes UTF-8 with `std::str::from_utf8`, copying the text into an owned string.
/// Claimed: `Some` exactly for valid UTF-8, holding the decoded characters.
#[verifier::external_body]
pub(crate) fn utf8_to_string(bytes: &[u8]) -> (r: Option<String>)
    ensures
        r is Some == vstd::utf8::valid_utf8(bytes@),
        r matches Some(s) ==> s@ == vstd::utf8::decode_utf8(bytes@),
{
    match std::str::from_utf8(bytes) {
        Ok(s) => Some(s.to_string()),
        Err(_) => None,
    }
}

/// Appends `bytes` to `buf`.
pub fn push_bytes(buf: &mut Vec<u8>, bytes: &[u8])
    ensures
        final(buf)@ == old(buf)@ + bytes@,
{
    let mut i: usize = 0;
    while i < bytes.len()
        invariant
            i <= bytes@.len(),
            buf@ == old(buf)@ + bytes@.subrange(0, i as int),
        decreases bytes@.len() - i,
    {
        buf.push(bytes[i]);
        i = i + 1;
        assert(buf@ =~= old(buf)@ + bytes@.subrange(0, i as int));
    }
    assert(bytes@.subrange(0, i as int) =~= bytes@);
}

/// A string holding the characters of `a` followed by those of `b`.
pub fn concat_str(a: &str, b: &str) -> (s: String)
    ensures
        s@ == a@ + b@,
{
    let mut s = String::from_str(a);
    s.append(b);
    s
}

/// The character sequences held by a list of character vectors.
pub open spec fn views(parts: Seq<Vec<char>>) -> Seq<Seq<char>> {
    Seq::new(parts.len(), |i: int| parts[i]@)
}

/// Splits `v` at every `sep` (what `str::split` yields), one vector per piece.
pub fn split_chars(v: &Vec<char>, sep: char) -> (r: Vec<Vec<char>>)
    ensures
        views(r@) == split_on(v@, sep),
{
    let mut done: Vec<Vec<char>> = Vec::new();
    let mut cur: Vec<char> = Vec::new();
    let mut i: usize = 0;
    assert(views(done@).push(cur@) =~= split_on(v@.subrange(0, 0), sep));
    while i < v.len()
        invariant
            i <= v@.len(),
            views(done@).push(cur@) == split_on(v@.subrange(0, i as int), sep),
        decreases v@.len() - i,
    {
        let c = v[i];
        proof {
            lemma_split_on_step(v@, sep, i as int);
        }
        let ghost old_views = views(done@);
        if c == sep {
            done.push(cur);
            cur = Vec::new();
            assert(views(done@) =~= old_views.push(views(done@).last()));
            assert(views(done@).push(cur@) =~= split_on(v@.subrange(0, i + 1), sep));
        } else {
            cur.push(c);
            assert(views(done@).push(cur@) =~= split_on(v@.subrange(0, i + 1), sep));
        }
        i = i + 1;
    }
    assert(v@.subrange(0, v@.len() as int) =~= v@);
    let ghost old_views = views(done@);
    done.push(cur);
    assert(views(done@) =~= split_on(v@, sep));
    done
}

/// Appends `parts[lo..hi]` joined by `sep` to `s`.
pub fn push_joined(s: &mut String, parts: &Vec<Vec<char>>, lo: usize, hi: usize, sep: &str)
    requires
        lo <= hi <= parts@.len(),
    ensures
        final(s)@ == old(s)@ + join(views(parts@).subrange(lo as int, hi as int), sep@),
{
    let ghost all = views(parts@);
    let mut i = lo;
    assert(all.subrange(lo as int, lo as int) =~= Seq::<Seq<char>>::empty());
    assert(old(s)@ + Seq::<char>::empty() =~= old(s)@);
    while i < hi
        invariant
            lo <= i <= hi <= parts@.len(),
            all == views(parts@),
            s@ == old(s)@ + join(all.subrange(lo as int, i as int), sep@),
        decreases hi - i,
    {
        let ghost prev = s@;
        let p = &parts[i];
        let ps = string_from_chars(p);
        let ghost sub = all.subrange(lo as int, i + 1);
        assert(sub.drop_last() =~= all.subrange(lo as int, i as int));
        assert(sub.last() == parts@[i as int]@);
        if i > lo {
            push_str(s, sep);
            push_str(s, ps.as_str());
            assert(s@ =~= old(s)@ + join(sub, sep@));
        } else {
            push_str(s, ps.as_str());
            assert(s@ =~= old(s)@ + join(sub, sep@));
        }
        i = i + 1;
    }
}


/// The first position at or after `i` where `s` holds `c`.
pub open spec fn find_char(s: Seq<char>, c: char, i: int) -> Option<int>
    decreases s.len() - i,
{
    if i < 0 || i >= s.len() {
        None
    } else if s[i] == c {
        Some(i)
    } else {
        find_char(s, c, i + 1)
    }
}

/// The first position of `c` in `v`.
pub fn find_char_exec(v: &Vec<char>, c: char) -> (r: Option<usize>)
    ensures
        match find_char(v@, c, 0) {
            Some(k) => r == Some(k as usize) && 0 <= k < v@.len() && v@[k] == c,
            None => r is None,
        },
{
    let mut i: usize = 0;
    while i < v.len()
        invariant
            i <= v@.len(),
            find_char(v@, c, 0) == find_char(v@, c, i as int),
        decreases v@.len() - i,
    {
        if v[i] == c {
            return Some(i);
        }
        i = i + 1;
    }
    None
}

/// Appends the decimal digits of a 128-bit number.
pub fn push_decimal_wide(s: &mut String, n: u128)
    ensures
        final(s)@ == old(s)@ + decimal(n as nat),
    decreases n,
{
    if n < 10 {
        push_char(s, digit_to_char(n as u64));
        assert(old(s)@.push(digit_char(n as int)) =~= old(s)@ + decimal(n as nat));
    } else {
        push_decimal_wide(s, n / 10);
        let ghost mid = s@;
        push_char(s, digit_to_char((n % 10) as u64));
        assert(mid.push(digit_char((n % 10) as int)) =~= old(s)@ + decimal(n as nat));
    }
}


/// Whether two strings hold the same characters.
pub fn str_eq(a: &str, b: &str) -> (r: bool)
    ensures
        r == (a@ == b@),
{
    let v = str_chars(a);
    chars_eq(&v, b)
}


/// What `str::replace(pat, rep)` makes of `s[i..]`: occurrences of a
/// non-empty `pat` replaced left to right, without overlap.
pub open spec fn replace_from(s: Seq<char>, i: int, pat: Seq<char>, rep: Seq<char>) -> Seq<char>
    decreases s.len() - i,
{
    if i < 0 || i >= s.len() {
        Seq::empty()
    } else if pat.len() > 0 && i + pat.len() <= s.len() && s.subrange(i, i + pat.len()) == pat {
        rep + replace_from(s, i + pat.len(), pat, rep)
    } else {
        seq![s[i]] + replace_from(s, i + 1, pat, rep)
    }
}

/// What `str::replace(pat, rep)` returns for a non-empty `pat`.
pub open spec fn replace_all(s: Seq<char>, pat: Seq<char>, rep: Seq<char>) -> Seq<char> {
    replace_from(s, 0, pat, rep)
}

/// Whether `v[i..]` starts with `pat`.
pub fn matches_at(v: &Vec<char>, i: usize, pat: &Vec<char>) -> (b: bool)
    requires
        i <= v@.len(),
    ensures
        b == (i + pat@.len() <= v@.len() && v@.subrange(i as int, i + pat@.len()) == pat@),
{
    if pat.len() > v.len() - i {
        return false;
    }
    let mut k: usize = 0;
    while k < pat.len()
        invariant
            i + pat@.len() <= v@.len(),
            v@.len() <= usize::MAX,
            k <= pat@.len(),
            forall|j: int| 0 <= j < k ==> v@[i + j] == pat@[j],
        decreases pat@.len() - k,
    {
        if v[i + k] != pat[k] {
            assert(v@.subrange(i as int, i + pat@.len())[k as int] != pat@[k as int]);
            return false;
        }
        k = k + 1;
    }
    assert(v@.subrange(i as int, i + pat@.len()) =~= pat@);
    true
}

/// Replaces every occurrence of a non-empty `pat` in `v`, left to right.
pub fn replace_chars(v: &Vec<char>, pat: &Vec<char>, rep: &Vec<char>) -> (r: Vec<char>)
    requires
        pat@.len() > 0,
    ensures
        r@ == replace_all(v@, pat@, rep@),
{
    let mut out: Vec<char> = Vec::new();
    let mut i: usize = 0;
    while i < v.len()
        invariant
            pat@.len() > 0,
            i <= v@.len(),
            replace_all(v@, pat@, rep@) == out@ + replace_from(v@, i as int, pat@, rep@),
        decreases v@.len() - i,
    {
        let ghost prev = out@;
        if matches_at(v, i, pat) {
            let mut k: usize = 0;
            while k < rep.len()
                invariant
                    k <= rep@.len(),
                    out@ == prev + rep@.subrange(0, k as int),
                decreases rep@.len() - k,
            {
                out.push(rep[k]);
                k = k + 1;
                assert(out@ =~= prev + rep@.subrange(0, k as int));
            }
            assert(rep@.subrange(0, rep@.len() as int) =~= rep@);
            assert(replace_from(v@, i as int, pat@, rep@) == rep@ + replace_from(v@, i + pat@.len(), pat@, rep@));
            i = i + pat.len();
            assert(replace_all(v@, pat@, rep@) =~= out@ + replace_from(v@, i as int, pat@, rep@));
        } else {
            out.push(v[i]);
            assert(replace_from(v@, i as int, pat@, rep@) == seq![v@[i as int]] + replace_from(v@, i + 1, pat@, rep@));
            i = i + 1;
            assert(replace_all(v@, pat@, rep@) =~= out@ + replace_from(v@, i as int, pat@, rep@));
        }
    }
    assert(out@ + replace_from(v@, i as int, pat@, rep@) =~= out@);
    out
}


/// The text `String::from_utf8_lossy` makes of `bytes` (invalid sequences
/// become U+FFFD).
pub uninterp spec fn lossy_text(bytes: Seq<u8>) -> Seq<char>;

/// Decodes bytes with `String::from_utf8_lossy`. Claimed: the text named by
/// [`lossy_text`], which for valid UTF-8 is the decoded text.
#[verifier::external_body]
pub(crate) fn utf8_lossy(bytes: &[u8]) -> (r: String)
    ensures
        r@ == lossy_text(bytes@),
        vstd::utf8::valid_utf8(bytes@) ==> r@ == vstd::utf8::decode_utf8(bytes@),
{
    String::from_utf8_lossy(bytes).into_owned()
}

/// The first position at or after `i` where `s` holds `pat`.
pub open spec fn find_seq(s: Seq<char>, pat: Seq<char>, i: int) -> Option<int>
    decreases s.len() + 1 - i,
{
    if i < 0 || i + pat.len() > s.len() {
        None
    } else if s.subrange(i, i + pat.len()) == pat {
        Some(i)
    } else {
        find_seq(s, pat, i + 1)
    }
}

/// The first position of `pat` in `v`.
pub fn find_seq_exec(v: &Vec<char>, pat: &str) -> (r: Option<usize>)
    ensures
        match find_seq(v@, pat@, 0) {
            Some(i) => r == Some(i as usize) && 0 <= i && i + pat@.len() <= v@.len(),
            None => r is None,
        },
{
    let pv = str_chars(pat);
    let mut i: usize = 0;
    while i < v.len()
        invariant
            i <= v@.len(),
            pv@ == pat@,
            find_seq(v@, pat@, 0) == find_seq(v@, pat@, i as int),
        decreases v@.len() - i,
    {
        if matches_at(v, i, &pv) {
            return Some(i);
        }
        i = i + 1;
    }
    if matches_at(v, i, &pv) {
        return Some(i);
    }
    assert(find_seq(v@, pat@, i + 1) is None);
    None
}

/// A line without its trailing `\r`.
pub open spec fn strip_cr(l: Seq<char>) -> Seq<char> {
    if l.len() > 0 && l.last() == '\r' { l.drop_last() } else { l }
}

/// What `str::lines` yields: the pieces between `\n`s, each ended one
/// without a trailing `\r`; an empty last piece (after a final `\n`) is not a line.
pub open spec fn text_lines(s: Seq<char>) -> Seq<Seq<char>> {
    let p = split_on(s, '\n');
    let ended = Seq::new((p.len() - 1) as nat, |i: int| strip_cr(p[i]));
    if p.last().len() == 0 { ended } else { ended.push(p.last()) }
}

/// The lines of `v` (see [`text_lines`]).
pub fn lines_of(v: &Vec<char>) -> (r: Vec<Vec<char>>)
    ensures
        views(r@) == text_lines(v@),
{
    let parts = split_chars(v, '\n');
    let ghost p = split_on(v@, '\n');
    proof {
        crate::text::lemma_split_on_nonempty(v@, '\n');
        assert(views(parts@).len() == parts@.len());
    }
    let n = parts.len();
    let mut out: Vec<Vec<char>> = Vec::new();
    let mut i: usize = 0;
    while i + 1 < n
        invariant
            n == parts@.len(),
            n >= 1,
            views(parts@) == p,
            p == split_on(v@, '\n'),
            i + 1 <= n,
            views(out@) == Seq::new(i as nat, |k: int| strip_cr(p[k])),
        decreases n - i,
    {
        let part = &parts[i];
        assert(part@ == p[i as int]);
        let m = part.len();
        let line = if m > 0 && part[m - 1] == '\r' {
            slice_chars(part, 0, m - 1)
        } else {
            slice_chars(part, 0, m)
        };
        assert(part@.subrange(0, m as int) =~= part@);
        assert(m > 0 ==> part@.subrange(0, m - 1) =~= part@.drop_last());
        let ghost prev = views(out@);
        out.push(line);
        assert(views(out@) =~= prev.push(strip_cr(p[i as int])));
        i = i + 1;
        assert(views(out@) =~= Seq::new(i as nat, |k: int| strip_cr(p[k])));
    }
    let last = &parts[n - 1];
    assert(last@ == p.last());
    if last.len() > 0 {
        let ghost prev = views(out@);
        out.push(slice_chars(last, 0, last.len()));
        assert(last@.subrange(0, last@.len() as int) =~= last@);
        assert(views(out@) =~= prev.push(p.last()));
    }
    out
}

/// The characters `v[lo..hi]` as a vector of their own.
pub fn slice_chars(v: &Vec<char>, lo: usize, hi: usize) -> (r: Vec<char>)
    requires
        lo <= hi <= v@.len(),
    ensures
        r@ == v@.subrange(lo as int, hi as int),
{
    let mut r: Vec<char> = Vec::new();
    let mut i = lo;
    while i < hi
        invariant
            lo <= i <= hi <= v@.len(),
            r@ == v@.subrange(lo as int, i as int),
        decreases hi - i,
    {
        r.push(v[i]);
        i = i + 1;
        assert(r@ =~= v@.subrange(lo as int, i as int));
    }
    r
}

/// The pieces of `s` between whitespace characters (empty pieces included).
pub open spec fn split_ws(s: Seq<char>) -> Seq<Seq<char>>
    decreases s.len(),
{
    if s.len() == 0 {
        seq![Seq::empty()]
    } else {
        let rest = split_ws(s.drop_last());
        if is_ws(s.last()) {
            rest.push(Seq::empty())
        } else {
            rest.update(rest.len() - 1, rest.last().push(s.last()))
        }
    }
}

proof fn lemma_split_ws_nonempty(s: Seq<char>)
    ensures
        split_ws(s).len() >= 1,
    decreases s.len(),
{
    if s.len() > 0 {
        lemma_split_ws_nonempty(s.drop_last());
    }
}

/// The non-empty pieces, in order.
pub open spec fn drop_empty(p: Seq<Seq<char>>) -> Seq<Seq<char>>
    decreases p.len(),
{
    if p.len() == 0 {
        p
    } else {
        let r = drop_empty(p.drop_last());
        if p.last().len() > 0 { r.push(p.last()) } else { r }
    }
}

/// What `str::split_whitespace` yields: the maximal runs of non-whitespace.
pub open spec fn words(s: Seq<char>) -> Seq<Seq<char>> {
    drop_empty(split_ws(s))
}

/// The words of `v` (see [`words`]).
pub fn split_whitespace_chars(v: &Vec<char>) -> (r: Vec<Vec<char>>)
    ensures
        views(r@) == words(v@),
{
    let mut done: Vec<Vec<char>> = Vec::new();
    let mut cur: Vec<char> = Vec::new();
    let mut i: usize = 0;
    assert(v@.subrange(0, 0) =~= Seq::<char>::empty());
    while i < v.len()
        invariant
            i <= v@.len(),
            split_ws(v@.subrange(0, i as int)).len() >= 1,
            views(done@) == drop_empty(split_ws(v@.subrange(0, i as int)).drop_last()),
            cur@ == split_ws(v@.subrange(0, i as int)).last(),
        decreases v@.len() - i,
    {
        let c = v[i];
        let ghost pre = v@.subrange(0, i as int);
        let ghost nxt = v@.subrange(0, i + 1);
        assert(nxt.drop_last() =~= pre);
        proof {
            lemma_split_ws_nonempty(pre);
        }
        if char_is_ws(c) {
            if cur.len() > 0 {
                let ghost prev = views(done@);
                done.push(cur);
                assert(views(done@) =~= prev.push(done@.last()@));
                assert(split_ws(pre).drop_last().push(split_ws(pre).last()) =~= split_ws(pre));
            } else {
                assert(split_ws(pre).drop_last().push(split_ws(pre).last()) =~= split_ws(pre));
            }
            cur = Vec::new();
            assert(split_ws(nxt).drop_last() =~= split_ws(pre));
            assert(cur@ =~= split_ws(nxt).last());
        } else {
            cur.push(c);
            assert(split_ws(nxt).drop_last() =~= split_ws(pre).drop_last());
        }
        i = i + 1;
    }
    assert(v@.subrange(0, v@.len() as int) =~= v@);
    proof {
        lemma_split_ws_nonempty(v@);
        assert(split_ws(v@).drop_last().push(split_ws(v@).last()) =~= split_ws(v@));
    }
    if cur.len() > 0 {
        let ghost prev = views(done@);
        done.push(cur);
        assert(views(done@) =~= prev.push(done@.last()@));
    }
    done
}


proof fn lemma_decimal_len(n: nat)
    ensures
        decimal(n).len() >= 1,
        n >= 10 ==> decimal(n).len() >= 2,
    decreases n,
{
    if n >= 10 {
        lemma_decimal_len(n / 10);
    }
}

/// Different numbers have different decimal texts.
pub proof fn lemma_decimal_injective(n: nat, m: nat)
    requires
        decimal(n) == decimal(m),
    ensures
        n == m,
    decreases n,
{
    lemma_decimal_len(n);
    lemma_decimal_len(m);
    assert(decimal(n).last() == decimal(m).last());
    let dn: int = if n < 10 { n as int } else { (n % 10) as int };
    let dm: int = if m < 10 { m as int } else { (m % 10) as int };
    assert(decimal(n).last() == digit_char(dn));
    assert(decimal(m).last() == digit_char(dm));
    assert(dn == dm);
    if n >= 10 && m >= 10 {
        assert(decimal(n).drop_last() =~= decimal(n / 10));
        assert(decimal(m).drop_last() =~= decimal(m / 10));
        lemma_decimal_injective(n / 10, m / 10);
    }
}


/// The decimal text of `n` is a run of digits worth `n`, with no leading
/// zero, one character per decimal place.
pub proof fn lemma_decimal_digits(n: nat)
    ensures
        all_digits(decimal(n)),
        digits_value(decimal(n)) == n,
        n >= 1 ==> decimal(n)[0] != '0',
        1 <= decimal(n).len(),
        n < 10 ==> decimal(n).len() == 1,
        n < 100 ==> decimal(n).len() <= 2,
        n < 1000 ==> decimal(n).len() <= 3,
    decreases n,
{
    lemma_digit_char_value((n % 10) as int);
    if n < 10 {
        assert(decimal(n).drop_last() =~= Seq::<char>::empty());
        assert(n % 10 == n);
        assert(digits_value(decimal(n)) == digits_value(Seq::<char>::empty()) * 10 + digit_value(decimal(n).last()));
    } else {
        lemma_decimal_digits(n / 10);
        let s = decimal(n);
        assert(s.drop_last() =~= decimal(n / 10));
        assert(digits_value(s) == digits_value(decimal(n / 10)) * 10 + digit_value(s.last()));
        assert((n / 10) * 10 + n % 10 == n);
        assert(s[0] == decimal(n / 10)[0]);
        assert forall|i: int| 0 <= i < s.len() implies is_digit(#[trigger] s[i]) by {
            if i < s.len() - 1 {
                assert(s[i] == decimal(n / 10)[i]);
            }
        }
    }
}

/// The digit character of `d` is a digit worth `d`.
pub proof fn lemma_digit_char_value(d: int)
    requires
        0 <= d < 10,
    ensures
        is_digit(digit_char(d)),
        digit_value(digit_char(d)) == d,
{
}

/// Splitting text that ends in a separator-free run: the run extends the
/// last piece.
pub proof fn lemma_split_on_append_run(x: Seq<char>, y: Seq<char>, sep: char)
    requires
        forall|i: int| 0 <= i < y.len() ==> y[i] != sep,
    ensures
        split_on(x + y, sep) == ({
            let p = split_on(x, sep);
            p.update(p.len() - 1, p.last() + y)
        }),
    decreases y.len(),
{
    lemma_split_on_nonempty(x, sep);
    if y.len() == 0 {
        assert(x + y =~= x);
        let p = split_on(x, sep);
        assert(p.last() + y =~= p.last());
        assert(p.update(p.len() - 1, p.last() + y) =~= p);
    } else {
        lemma_split_on_append_run(x, y.drop_last(), sep);
        assert((x + y).drop_last() =~= x + y.drop_last());
        assert((x + y).last() == y.last());
        let p = split_on(x, sep);
        assert((p.last() + y.drop_last()).push(y.last()) =~= p.last() + y);
        assert(split_on(x + y, sep) =~= p.update(p.len() - 1, p.last() + y));
    }
}

/// Splitting text that ends in the separator adds an empty last piece.
pub proof fn lemma_split_on_push_sep(x: Seq<char>, sep: char)
    ensures
        split_on(x.push(sep), sep) == split_on(x, sep).push(Seq::empty()),
{
    assert(x.push(sep).drop_last() =~= x);
}


/// Splitting pieces joined by a separator they do not contain gives the
/// pieces back.
pub proof fn lemma_split_join(parts: Seq<Seq<char>>, sep: char)
    requires
        parts.len() >= 1,
        forall|k: int, i: int| 0 <= k < parts.len() && 0 <= i < parts[k].len() ==> #[trigger] parts[k][i] != sep,
    ensures
        split_on(join(parts, seq![sep]), sep) == parts,
    decreases parts.len(),
{
    let last = parts.last();
    assert forall|i: int| 0 <= i < last.len() implies last[i] != sep by {
        assert(parts[parts.len() - 1][i] != sep);
    }
    if parts.len() == 1 {
        lemma_split_on_append_run(Seq::empty(), last, sep);
        assert(Seq::<char>::empty() + last =~= last);
        assert(seq![Seq::<char>::empty()].update(0, Seq::<char>::empty() + last) =~= parts);
    } else {
        let dl = parts.drop_last();
        lemma_split_join(dl, sep);
        let j = join(dl, seq![sep]);
        assert(join(parts, seq![sep]) =~= j.push(sep) + last);
        lemma_split_on_push_sep(j, sep);
        lemma_split_on_append_run(j.push(sep), last, sep);
        assert(Seq::<char>::empty() + last =~= last);
        assert(dl.push(Seq::<char>::empty()).update(dl.len() as int, last) =~= parts);
    }
}

/// Pieces that are non-empty and free of the separator, joined by it: the
/// text neither starts nor ends with the separator, and never has two of
/// them in a row.
pub proof fn lemma_join_shape(parts: Seq<Seq<char>>, sep: char)
    requires
        parts.len() >= 1,
        forall|k: int| 0 <= k < parts.len() ==> #[trigger] parts[k].len() >= 1,
        forall|k: int, i: int| 0 <= k < parts.len() && 0 <= i < parts[k].len() ==> #[trigger] parts[k][i] != sep,
    ensures
        join(parts, seq![sep]).len() >= 1,
        join(parts, seq![sep])[0] != sep,
        join(parts, seq![sep]).last() != sep,
        forall|i: int| 0 <= i < join(parts, seq![sep]).len() - 1 && #[trigger] join(parts, seq![sep])[i] == sep
            ==> join(parts, seq![sep])[i + 1] != sep,
    decreases parts.len(),
{
    let last = parts.last();
    assert(last.len() >= 1);
    assert(last[0] != sep && last[last.len() - 1] != sep) by {
        assert(parts[parts.len() - 1][0] != sep);
        assert(parts[parts.len() - 1][last.len() - 1] != sep);
    }
    if parts.len() > 1 {
        let dl = parts.drop_last();
        assert forall|k: int| 0 <= k < dl.len() implies #[trigger] dl[k].len() >= 1 by {
            assert(dl[k] == parts[k]);
        }
        assert forall|k: int, i: int| 0 <= k < dl.len() && 0 <= i < dl[k].len() implies #[trigger] dl[k][i] != sep by {
            assert(dl[k] == parts[k]);
        }
        lemma_join_shape(dl, sep);
        let j = join(dl, seq![sep]);
        let s = join(parts, seq![sep]);
        assert(s =~= j.push(sep) + last);
        assert forall|i: int| 0 <= i < s.len() - 1 && #[trigger] s[i] == sep implies s[i + 1] != sep by {
            if i < j.len() - 1 {
                assert(s[i] == j[i] && s[i + 1] == j[i + 1]);
            } else if i == j.len() - 1 {
                assert(s[i] == j.last());
            } else if i == j.len() {
                assert(s[i + 1] == last[0]);
            } else {
                assert(s[i] == last[i - j.len() - 1]);
            }
        }
    }
}


/// A character that is neither the separator nor in any piece is not in the
/// joined text.
pub proof fn lemma_join_avoids(parts: Seq<Seq<char>>, sep: char, c: char)
    requires
        c != sep,
        forall|k: int, i: int| 0 <= k < parts.len() && 0 <= i < parts[k].len() ==> #[trigger] parts[k][i] != c,
    ensures
        forall|i: int| 0 <= i < join(parts, seq![sep]).len() ==> #[trigger] join(parts, seq![sep])[i] != c,
    decreases parts.len(),
{
    if parts.len() == 1 {
        assert forall|i: int| 0 <= i < join(parts, seq![sep]).len() implies #[trigger] join(parts, seq![sep])[i] != c by {
            assert(parts[0][i] != c);
        }
    } else if parts.len() > 1 {
        let dl = parts.drop_last();
        assert forall|k: int, i: int| 0 <= k < dl.len() && 0 <= i < dl[k].len() implies #[trigger] dl[k][i] != c by {
            assert(dl[k] == parts[k]);
        }
        lemma_join_avoids(dl, sep, c);
        let j = join(dl, seq![sep]);
        let last = parts.last();
        let t = join(parts, seq![sep]);
        assert(t =~= j.push(sep) + last);
        assert forall|i: int| 0 <= i < t.len() implies #[trigger] t[i] != c by {
            if i < j.len() {
                assert(t[i] == j[i]);
            } else if i > j.len() {
                assert(t[i] == last[i - j.len() - 1]);
                assert(parts[parts.len() - 1][i - j.len() - 1] != c);
            }
        }
    }
}

} // verus!
