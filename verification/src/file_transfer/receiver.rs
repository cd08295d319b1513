//! The receiving side of a file transfer: what a peer-supplied file name is
//! turned into before anything is written.
use vstd::prelude::*;
use vstd::string::*;
use vstd::utf8::{decode_utf8, encode_utf8, is_char_boundary, valid_utf8};
use crate::text::{replace_all, replace_from, replace_chars, str_chars, string_from_range, trim, trim_bounds, utf8_to_string};

verus! {

/// Longest file id or file name accepted from the wire, in bytes.
pub const MAX_WIRE_STRING_LEN: usize = 4096;

/// Longest file name kept, in bytes.
pub const MAX_NAME_BYTES: usize = 255;

/// `s` with path separators and NUL bytes turned into `_`.
pub open spec fn without_separators(s: Seq<char>) -> Seq<char> {
    Seq::new(s.len(), |i: int| if s[i] == '/' || s[i] == '\\' || s[i] == '\0' { '_' } else { s[i] })
}

/// The name after separators are replaced, every `..` becomes `_`, and
/// surrounding whitespace is trimmed.
pub open spec fn cleaned_name(name: Seq<char>) -> Seq<char> {
    trim(replace_all(without_separators(name), ".."@, "_"@))
}

/// The last position at or before `i` of byte `0x2e` (`.`).
pub open spec fn last_dot_before(b: Seq<u8>, i: int) -> Option<int>
    decreases i + 1,
{
    if i < 0 || i >= b.len() {
        None
    } else if b[i] == 0x2e {
        Some(i)
    } else {
        last_dot_before(b, i - 1)
    }
}

/// The position of an extension worth keeping when a name is shortened:
/// the last `.`, when it is not the first byte and the extension takes at
/// most 10 bytes.
pub open spec fn kept_extension(b: Seq<u8>) -> Option<int> {
    match last_dot_before(b, b.len() - 1) {
        Some(e) => if e > 0 && b.len() - e <= 10 { Some(e) } else { None },
        None => None,
    }
}

/// Where an over-long name is cut: before the kept extension, so that the
/// result takes 255 bytes, else at 255 bytes.
pub open spec fn cut_point(b: Seq<u8>) -> int {
    match kept_extension(b) {
        Some(e) => 255 - (b.len() - e),
        None => 255,
    }
}

/// Whether shortening the cleaned name cuts at a character boundary (slicing
/// a string elsewhere panics). Always so for ASCII names.
pub open spec fn cut_on_char_boundary(name: Seq<char>) -> bool {
    let t = cleaned_name(name);
    let b = encode_utf8(t);
    b.len() <= 255 || is_char_boundary(b, cut_point(b))
}

/// The file name a peer-supplied name is stored under: the cleaned name,
/// `download` when that is empty or `.`, and shortened to 255 bytes (keeping
/// a short extension) when longer.
pub open spec fn sanitized_name(name: Seq<char>) -> Seq<char> {
    let t = cleaned_name(name);
    if t.len() == 0 || t == "."@ {
        "download"@
    } else {
        let b = encode_utf8(t);
        if b.len() <= 255 {
            t
        } else {
            match kept_extension(b) {
                Some(e) => decode_utf8(b.subrange(0, cut_point(b)) + b.subrange(e, b.len() as int)),
                None => decode_utf8(b.subrange(0, 255)),
            }
        }
    }
}

/// The position of the last `.` byte in `b`.
fn find_last_dot(b: &[u8]) -> (r: Option<usize>)
    ensures
        match last_dot_before(b@, b@.len() - 1) {
            Some(e) => r == Some(e as usize) && 0 <= e < b@.len() && b@[e] == 0x2e,
            None => r is None,
        },
{
    let mut i = b.len();
    while i > 0
        invariant
            i <= b@.len(),
            last_dot_before(b@, b@.len() - 1) == last_dot_before(b@, i - 1),
        decreases i,
    {
        if b[i - 1] == 0x2e {
            return Some(i - 1);
        }
        i = i - 1;
    }
    None
}

/// Copies `b[lo..hi]` onto the end of `out`.
fn push_byte_range(out: &mut Vec<u8>, b: &[u8], lo: usize, hi: usize)
    requires
        lo <= hi <= b@.len(),
    ensures
        final(out)@ == old(out)@ + b@.subrange(lo as int, hi as int),
{
    let mut i = lo;
    while i < hi
        invariant
            lo <= i <= hi <= b@.len(),
            out@ == old(out)@ + b@.subrange(lo as int, i as int),
        decreases hi - i,
    {
        out.push(b[i]);
        i = i + 1;
        assert(out@ =~= old(out)@ + b@.subrange(lo as int, i as int));
    }
}

/// Makes a peer-supplied file name safe to store: no path separators, no
/// `..`, no NUL, not empty, at most 255 bytes.
pub fn sanitize_filename(name: &str) -> (r: String)
    requires
        cut_on_char_boundary(name@),
    ensures
        r@ == sanitized_name(name@),
{
    let v = str_chars(name);
    let mut mapped: Vec<char> = Vec::new();
    let mut i: usize = 0;
    while i < v.len()
        invariant
            i <= v@.len(),
            v@ == name@,
            mapped@ == without_separators(v@.subrange(0, i as int)),
        decreases v@.len() - i,
    {
        let c = v[i];
        if c == '/' || c == '\\' || c == '\0' {
            mapped.push('_');
        } else {
            mapped.push(c);
        }
        i = i + 1;
        assert(mapped@ =~= without_separators(v@.subrange(0, i as int)));
    }
    assert(v@.subrange(0, v@.len() as int) =~= v@);
    let pat = str_chars("..");
    let rep = str_chars("_");
    proof {
        reveal_strlit("..");
    }
    let replaced = replace_chars(&mapped, &pat, &rep);
    let (a, b) = trim_bounds(&replaced, 0, replaced.len());
    assert(replaced@.subrange(0, replaced@.len() as int) =~= replaced@);
    let t = string_from_range(&replaced, a, b);
    assert(t@ == cleaned_name(name@));
    if b == a || (b - a == 1 && replaced[a] == '.') {
        proof {
            reveal_strlit(".");
            if b - a == 1 {
                assert(t@ =~= "."@);
            }
        }
        return String::from_str("download");
    }
    proof {
        reveal_strlit(".");
        if t@ == "."@ {
            assert(t@[0] == '.');
        }
    }
    let bytes = t.as_str().as_bytes();
    let n = bytes.len();
    if n <= 255 {
        return t;
    }
    let ghost bs = bytes@;
    proof {
        vstd::utf8::encode_utf8_valid_utf8(t@);
        vstd::utf8::encode_utf8_decode_utf8(t@);
    }
    let keep = match find_last_dot(bytes) {
        Some(e) => if e > 0 && n - e <= 10 { Some(e) } else { None },
        None => None,
    };
    let mut out: Vec<u8> = Vec::new();
    match keep {
        Some(e) => {
            let cut = 255 - (n - e);
            push_byte_range(&mut out, bytes, 0, cut);
            push_byte_range(&mut out, bytes, e, n);
            proof {
                vstd::utf8::is_char_boundary_iff_is_leading_byte(bs, e as int);
                vstd::utf8::valid_utf8_split(bs, cut as int);
                vstd::utf8::valid_utf8_split(bs, e as int);
                vstd::utf8::valid_utf8_concat(bs.subrange(0, cut as int), bs.subrange(e as int, n as int));
                assert(out@ =~= bs.subrange(0, cut as int) + bs.subrange(e as int, n as int));
            }
        },
        None => {
            push_byte_range(&mut out, bytes, 0, 255);
            proof {
                vstd::utf8::valid_utf8_split(bs, 255);
                assert(out@ =~= bs.subrange(0, 255));
            }
        },
    }
    match utf8_to_string(out.as_slice()) {
        Some(s) => s,
        None => String::from_str("download"),
    }
}


/// Whether `s` holds no `/`, `\` or NUL.
pub open spec fn no_path_chars(s: Seq<char>) -> bool {
    forall|i: int| 0 <= i < s.len() ==> #[trigger] s[i] != '/' && s[i] != '\\' && s[i] != '\0'
}

proof fn lemma_replace_keeps_safe(s: Seq<char>, i: int, pat: Seq<char>, rep: Seq<char>)
    requires
        no_path_chars(s),
        no_path_chars(rep),
    ensures
        no_path_chars(replace_from(s, i, pat, rep)),
    decreases s.len() - i,
{
    if 0 <= i < s.len() {
        if pat.len() > 0 && i + pat.len() <= s.len() && s.subrange(i, i + pat.len()) == pat {
            lemma_replace_keeps_safe(s, i + pat.len(), pat, rep);
            let r = replace_from(s, i + pat.len(), pat, rep);
            assert forall|k: int| 0 <= k < (rep + r).len() implies #[trigger] (rep + r)[k] != '/' && (rep + r)[k] != '\\' && (rep + r)[k] != '\0' by {
                if k < rep.len() {
                    assert((rep + r)[k] == rep[k]);
                } else {
                    assert((rep + r)[k] == r[k - rep.len()]);
                }
            }
        } else {
            lemma_replace_keeps_safe(s, i + 1, pat, rep);
            let r = replace_from(s, i + 1, pat, rep);
            assert forall|k: int| 0 <= k < (seq![s[i]] + r).len() implies #[trigger] (seq![s[i]] + r)[k] != '/'
                && (seq![s[i]] + r)[k] != '\\' && (seq![s[i]] + r)[k] != '\0' by {
                if k > 0 {
                    assert((seq![s[i]] + r)[k] == r[k - 1]);
                }
            }
        }
    }
}

proof fn lemma_trim_start_safe(s: Seq<char>)
    requires
        no_path_chars(s),
    ensures
        no_path_chars(crate::text::trim_start(s)),
    decreases s.len(),
{
    if s.len() > 0 && crate::text::is_ws(s[0]) {
        assert forall|i: int| 0 <= i < s.drop_first().len() implies #[trigger] s.drop_first()[i] != '/'
            && s.drop_first()[i] != '\\' && s.drop_first()[i] != '\0' by {
            assert(s.drop_first()[i] == s[i + 1]);
        }
        lemma_trim_start_safe(s.drop_first());
    }
}

proof fn lemma_trim_end_safe(s: Seq<char>)
    requires
        no_path_chars(s),
    ensures
        no_path_chars(crate::text::trim_end(s)),
    decreases s.len(),
{
    if s.len() > 0 && crate::text::is_ws(s.last()) {
        assert forall|i: int| 0 <= i < s.drop_last().len() implies #[trigger] s.drop_last()[i] != '/'
            && s.drop_last()[i] != '\\' && s.drop_last()[i] != '\0' by {
            assert(s.drop_last()[i] == s[i]);
        }
        lemma_trim_end_safe(s.drop_last());
    }
}

/// A cleaned name holds no `/`, `\` or NUL.
proof fn lemma_cleaned_safe(name: Seq<char>)
    ensures
        no_path_chars(cleaned_name(name)),
{
    let w = without_separators(name);
    assert forall|i: int| 0 <= i < w.len() implies #[trigger] w[i] != '/' && w[i] != '\\' && w[i] != '\0' by {}
    reveal_strlit("_");
    assert forall|i: int| 0 <= i < "_"@.len() implies #[trigger] "_"@[i] != '/' && "_"@[i] != '\\' && "_"@[i] != '\0' by {}
    lemma_replace_keeps_safe(w, 0, ".."@, "_"@);
    lemma_trim_start_safe(replace_all(w, ".."@, "_"@));
    lemma_trim_end_safe(crate::text::trim_start(replace_all(w, ".."@, "_"@)));
}


proof fn lemma_last_dot(b: Seq<u8>, i: int)
    ensures
        last_dot_before(b, i) matches Some(e) ==> 0 <= e <= i && e < b.len() && b[e] == 0x2e,
    decreases i + 1,
{
    if 0 <= i < b.len() && b[i] != 0x2e {
        lemma_last_dot(b, i - 1);
    }
}

/// The parts of `a + b` are safe when `a` and `b` are.
proof fn lemma_concat_safe(a: Seq<char>, b: Seq<char>)
    requires
        no_path_chars(a),
        no_path_chars(b),
    ensures
        no_path_chars(a + b),
{
    assert forall|i: int| 0 <= i < (a + b).len() implies #[trigger] (a + b)[i] != '/' && (a + b)[i] != '\\' && (a + b)[i] != '\0' by {
        if i < a.len() {
            assert((a + b)[i] == a[i]);
        } else {
            assert((a + b)[i] == b[i - a.len()]);
        }
    }
}

/// The parts of a safe text are safe.
proof fn lemma_split_safe(a: Seq<char>, b: Seq<char>)
    requires
        no_path_chars(a + b),
    ensures
        no_path_chars(a),
        no_path_chars(b),
{
    assert forall|i: int| 0 <= i < a.len() implies #[trigger] a[i] != '/' && a[i] != '\\' && a[i] != '\0' by {
        assert((a + b)[i] == a[i]);
    }
    assert forall|i: int| 0 <= i < b.len() implies #[trigger] b[i] != '/' && b[i] != '\\' && b[i] != '\0' by {
        assert((a + b)[i + a.len()] == b[i]);
    }
}

/// A stored file name is never empty, holds no `/`, `\` or NUL, and takes
/// at most 255 bytes; when the cleaned name was longer and had a short
/// extension, the stored name ends with that extension.
pub proof fn law_sanitized_name(name: Seq<char>)
    requires
        cut_on_char_boundary(name),
    ensures
        sanitized_name(name).len() > 0,
        no_path_chars(sanitized_name(name)),
        encode_utf8(sanitized_name(name)).len() <= 255,
        ({
            let b = encode_utf8(cleaned_name(name));
            b.len() > 255 && cleaned_name(name).len() > 0 && cleaned_name(name) != "."@ ==> (kept_extension(b) matches Some(e)
                ==> encode_utf8(sanitized_name(name)) == b.subrange(0, cut_point(b)) + b.subrange(e, b.len() as int))
        }),
{
    let t = cleaned_name(name);
    lemma_cleaned_safe(name);
    let b = encode_utf8(t);
    vstd::utf8::encode_utf8_valid_utf8(t);
    vstd::utf8::encode_utf8_decode_utf8(t);
    if t.len() == 0 || t == "."@ {
        reveal_strlit("download");
        let d = "download"@;
        assert(d =~= seq!['d', 'o', 'w', 'n', 'l', 'o', 'a', 'd']);
        reveal_with_fuel(vstd::utf8::encode_utf8, 9);
        assert(encode_utf8(d).len() == 8);
    } else if b.len() <= 255 {
    } else {
        match kept_extension(b) {
            None => {
                let x = b.subrange(0, 255);
                vstd::utf8::valid_utf8_split(b, 255);
                vstd::utf8::decode_utf8_split(b, 255);
                vstd::utf8::decode_utf8_encode_utf8(x);
                lemma_split_safe(decode_utf8(x), decode_utf8(b.subrange(255, b.len() as int)));
                assert(x.len() == 255);
                if decode_utf8(x).len() == 0 {
                    assert(encode_utf8(decode_utf8(x)).len() == 0);
                }
            },
            Some(e) => {
                let c = cut_point(b);
                let x1 = b.subrange(0, c);
                lemma_last_dot(b, b.len() - 1);
                let x2 = b.subrange(e, b.len() as int);
                assert(b[e] == 0x2e);
                vstd::utf8::is_char_boundary_iff_is_leading_byte(b, e);
                vstd::utf8::valid_utf8_split(b, c);
                vstd::utf8::valid_utf8_split(b, e);
                vstd::utf8::decode_utf8_split(b, c);
                vstd::utf8::decode_utf8_split(b, e);
                lemma_split_safe(decode_utf8(x1), decode_utf8(b.subrange(c, b.len() as int)));
                lemma_split_safe(decode_utf8(b.subrange(0, e)), decode_utf8(x2));
                let x = x1 + x2;
                vstd::utf8::valid_utf8_concat(x1, x2);
                assert(x[c] == 0x2e);
                vstd::utf8::is_char_boundary_iff_is_leading_byte(x, c);
                vstd::utf8::decode_utf8_split(x, c);
                assert(x.subrange(0, c) =~= x1);
                assert(x.subrange(c, x.len() as int) =~= x2);
                lemma_concat_safe(decode_utf8(x1), decode_utf8(x2));
                vstd::utf8::decode_utf8_encode_utf8(x);
                assert(x.len() == 255);
                if decode_utf8(x).len() == 0 {
                    assert(encode_utf8(decode_utf8(x)).len() == 0);
                }
            },
        }
    }
}

} // verus!
