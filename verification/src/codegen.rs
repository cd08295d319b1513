//! Code snippets (curl, JavaScript fetch, Python requests) that reproduce an
//! API request.
use vstd::prelude::*;
use vstd::string::*;
use crate::text::{join, push_char, push_str};

verus! {

/// A JSON value as the Python generator reads it: object members in key
/// order, numbers as their JSON text.
pub enum JsonValue {
    Object(Vec<(String, JsonValue)>),
    Array(Vec<JsonValue>),
    Str(String),
    Number(String),
    Bool(bool),
    Null,
}

/// The text a JSON value is written as in the Python snippet: objects as
/// dicts (one `'key': value` member per line), arrays as lists, strings in
/// single quotes, `true`/`false`, and `None` for null.
pub open spec fn py_literal(v: JsonValue) -> Seq<char>
    decreases v, 0nat,
{
    match v {
        JsonValue::Object(items) => "{\n"@ + py_members(items@, items@.len()) + "\n}"@,
        JsonValue::Array(a) => "["@ + py_elems(a@, a@.len()) + "]"@,
        JsonValue::Str(s) => "'"@ + s@ + "'"@,
        JsonValue::Number(n) => n@,
        JsonValue::Bool(b) => if b { "true"@ } else { "false"@ },
        JsonValue::Null => "None"@,
    }
}

/// The first `n` object members, one `    'key': value` per line.
pub open spec fn py_members(items: Seq<(String, JsonValue)>, n: nat) -> Seq<char>
    decreases items, n,
{
    if n == 0 || n > items.len() {
        Seq::empty()
    } else {
        let m = "    '"@ + items[n - 1].0@ + "': "@ + py_literal(items[n - 1].1);
        if n == 1 { m } else { py_members(items, (n - 1) as nat) + ",\n"@ + m }
    }
}

/// The first `n` array elements separated by `, `.
pub open spec fn py_elems(a: Seq<JsonValue>, n: nat) -> Seq<char>
    decreases a, n,
{
    if n == 0 || n > a.len() {
        Seq::empty()
    } else {
        let e = py_literal(a[n - 1]);
        if n == 1 { e } else { py_elems(a, (n - 1) as nat) + ", "@ + e }
    }
}


/// Appends the Python text of a JSON value (see [`py_literal`]).
fn push_py_literal(out: &mut String, v: &JsonValue)
    ensures
        final(out)@ == old(out)@ + py_literal(*v),
    decreases v,
{
    match v {
        JsonValue::Object(items) => {
            push_str(out, "{\n");
            let ghost start = out@;
            let mut i: usize = 0;
            while i < items.len()
                invariant
                    i <= items@.len(),
                    out@ == start + py_members(items@, i as nat),
                    *v == JsonValue::Object(*items),
                decreases items@.len() - i,
            {
                let ghost before = out@;
                if i > 0 {
                    push_str(out, ",\n");
                }
                push_str(out, "    '");
                push_str(out, items[i].0.as_str());
                push_str(out, "': ");
                proof {
                    assert(decreases_to!(*v => v->Object_0));
                    assert(decreases_to!(*items => items@));
                    assert(decreases_to!(items@ => items@[i as int]));
                    assert(decreases_to!(items@[i as int] => items@[i as int].1));
                    assert(decreases_to!(*v => items@[i as int].1));
                }
                push_py_literal(out, &items[i].1);
                i = i + 1;
                assert(out@ =~= start + py_members(items@, i as nat));
            }
            push_str(out, "\n}");
            assert(out@ =~= old(out)@ + py_literal(*v));
        },
        JsonValue::Array(a) => {
            push_str(out, "[");
            let ghost start = out@;
            let mut i: usize = 0;
            while i < a.len()
                invariant
                    i <= a@.len(),
                    out@ == start + py_elems(a@, i as nat),
                    *v == JsonValue::Array(*a),
                decreases a@.len() - i,
            {
                if i > 0 {
                    push_str(out, ", ");
                }
                proof {
                    assert(decreases_to!(*v => v->Array_0));
                    assert(decreases_to!(*a => a@));
                    assert(decreases_to!(a@ => a@[i as int]));
                    assert(decreases_to!(*v => a@[i as int]));
                }
                push_py_literal(out, &a[i]);
                i = i + 1;
                assert(out@ =~= start + py_elems(a@, i as nat));
            }
            push_str(out, "]");
            assert(out@ =~= old(out)@ + py_literal(*v));
        },
        JsonValue::Str(s) => {
            push_str(out, "'");
            push_str(out, s.as_str());
            push_str(out, "'");
            assert(out@ =~= old(out)@ + py_literal(*v));
        },
        JsonValue::Number(n) => {
            push_str(out, n.as_str());
        },
        JsonValue::Bool(b) => {
            if *b {
                push_str(out, "true");
            } else {
                push_str(out, "false");
            }
        },
        JsonValue::Null => {
            push_str(out, "None");
        },
    }
}


/// What the JSON reader of `serde_json` (`from_str` into a `Value`) makes of
/// `text`: `None` when the text is not JSON.
pub uninterp spec fn json_parse(text: Seq<char>) -> Option<JsonValue>;

/// The JSON value type of `serde_json`.
#[verifier::external_type_specification]
#[verifier::external_body]
pub struct ExSerdeJsonValue(serde_json::Value);

/// Converts a parsed `serde_json::Value`, variant by variant; object members
/// come in the order the map holds them (by key).
#[verifier::external_body]
fn json_from_serde(v: &serde_json::Value) -> JsonValue {
    match v {
        serde_json::Value::Object(m) => JsonValue::Object(m.iter().map(|(k, x)| (k.clone(), json_from_serde(x))).collect()),
        serde_json::Value::Array(a) => JsonValue::Array(a.iter().map(json_from_serde).collect()),
        serde_json::Value::String(s) => JsonValue::Str(s.clone()),
        serde_json::Value::Number(n) => JsonValue::Number(n.to_string()),
        serde_json::Value::Bool(b) => JsonValue::Bool(*b),
        serde_json::Value::Null => JsonValue::Null,
    }
}

/// Reads JSON text with `serde_json::from_str::<serde_json::Value>`.
/// Claimed: the result is the one named by [`json_parse`] for the text.
#[verifier::external_body]
fn parse_json(text: &str) -> (r: Option<JsonValue>)
    ensures
        r == json_parse(text@),
{
    match serde_json::from_str::<serde_json::Value>(text) {
        Ok(v) => Some(json_from_serde(&v)),
        Err(_) => None,
    }
}

/// The lower-case form `str::to_lowercase` gives for `s`.
pub uninterp spec fn lowercase(s: Seq<char>) -> Seq<char>;

/// Lower-cases text with `str::to_lowercase`.
/// Claimed: the result is the one named by [`lowercase`].
#[verifier::external_body]
pub(crate) fn to_lowercase(s: &str) -> (r: String)
    ensures
        r@ == lowercase(s@),
{
    s.to_lowercase()
}

/// The request a snippet is generated for.
pub struct CodegenRequest {
    pub method: String,
    pub url: String,
    pub headers: Vec<(String, String)>,
    pub body: Option<String>,
    pub body_type: Option<String>,
}

/// Mathematical form of a request: method, URL, headers, body, body type.
pub type RequestView = (Seq<char>, Seq<char>, Seq<(Seq<char>, Seq<char>)>, Option<Seq<char>>, Option<Seq<char>>);

/// The view of an optional string.
pub open spec fn opt_text(o: Option<String>) -> Option<Seq<char>> {
    match o {
        Some(s) => Some(s@),
        None => None,
    }
}

impl CodegenRequest {
    pub open spec fn view(&self) -> RequestView {
        (
            self.method@,
            self.url@,
            Seq::new(self.headers@.len(), |i: int| (self.headers@[i].0@, self.headers@[i].1@)),
            opt_text(self.body),
            opt_text(self.body_type),
        )
    }
}

/// The body when there is a non-empty one.
pub open spec fn sent_body(r: RequestView) -> Option<Seq<char>> {
    match r.3 {
        Some(b) => if b.len() > 0 { Some(b) } else { None },
        None => None,
    }
}

/// Whether the body is declared as JSON.
pub open spec fn is_json_body(r: RequestView) -> bool {
    r.4 == Some("json"@)
}

/// `s` with every `'` written as `'\''`, for use inside single quotes in a shell.
pub open spec fn shell_escape(s: Seq<char>) -> Seq<char>
    decreases s.len(),
{
    if s.len() == 0 {
        Seq::empty()
    } else {
        shell_escape(s.drop_last()) + if s.last() == '\'' { "'\\''"@ } else { seq![s.last()] }
    }
}

/// What POSIX shell quoting makes of the text `t` of a single word, read
/// from inside single quotes when `quoted`: there every character stands for
/// itself up to the `'` that closes them; outside them a `'` opens a quoted
/// part, a backslash stands for the character after it, and any other
/// character stands for itself. `None` when a quoted part is left open or a
/// backslash ends the text.
pub open spec fn shell_word(t: Seq<char>, quoted: bool) -> Option<Seq<char>>
    decreases t.len(),
{
    if t.len() == 0 {
        if quoted { None } else { Some(Seq::empty()) }
    } else if t[0] == '\'' {
        shell_word(t.drop_first(), !quoted)
    } else if !quoted && t[0] == '\\' {
        if t.len() < 2 {
            None
        } else {
            match shell_word(t.subrange(2, t.len() as int), false) {
                Some(w) => Some(seq![t[1]] + w),
                None => None,
            }
        }
    } else {
        match shell_word(t.drop_first(), quoted) {
            Some(w) => Some(seq![t[0]] + w),
            None => None,
        }
    }
}

/// Escaping text joined from two parts escapes each part.
proof fn lemma_shell_escape_concat(a: Seq<char>, b: Seq<char>)
    ensures
        shell_escape(a + b) == shell_escape(a) + shell_escape(b),
    decreases b.len(),
{
    if b.len() == 0 {
        assert(a + b =~= a);
        assert(shell_escape(a) + shell_escape(b) =~= shell_escape(a));
    } else {
        assert((a + b).drop_last() =~= a + b.drop_last());
        lemma_shell_escape_concat(a, b.drop_last());
        assert(shell_escape(a + b) =~= shell_escape(a) + shell_escape(b));
    }
}

/// Inside single quotes, the escaped text followed by the closing quote
/// reads back as the text.
proof fn lemma_shell_escape_reads_back(s: Seq<char>)
    ensures
        shell_word(shell_escape(s) + seq!['\''], true) == Some(s),
    decreases s.len(),
{
    reveal_strlit("'\\''");
    if s.len() == 0 {
        assert(shell_escape(s) + seq!['\''] =~= seq!['\'']);
        assert(seq!['\''].drop_first() =~= Seq::<char>::empty());
        assert(s =~= Seq::<char>::empty());
        assert(shell_word(seq!['\''], true) == shell_word(Seq::<char>::empty(), false));
    } else {
        let c = s[0];
        let r = s.drop_first();
        lemma_shell_escape_reads_back(r);
        assert(s =~= seq![c] + r);
        lemma_shell_escape_concat(seq![c], r);
        assert(seq![c].drop_last() =~= Seq::<char>::empty());
        assert(seq![c].last() == c);
        assert(shell_escape(Seq::<char>::empty()) == Seq::<char>::empty());
        assert(shell_escape(seq![c]) == Seq::<char>::empty() + if c == '\'' { "'\\''"@ } else { seq![c] });
        assert("'\\''"@ =~= seq!['\'', '\\', '\'', '\'']);
        let t = shell_escape(s) + seq!['\''];
        let tail = shell_escape(r) + seq!['\''];
        if c == '\'' {
            assert(shell_escape(seq![c]) =~= seq!['\'', '\\', '\'', '\'']);
            assert(t =~= seq!['\'', '\\', '\'', '\''] + tail);
            let t1 = t.drop_first();
            assert(t1 =~= seq!['\\', '\'', '\''] + tail);
            let t2 = t1.subrange(2, t1.len() as int);
            assert(t2 =~= seq!['\''] + tail);
            assert(t2.drop_first() =~= tail);
            assert(shell_word(t2, false) == shell_word(tail, true));
            assert(shell_word(t1, false) == Some(seq![c] + r));
            assert(t[0] == '\'');
            assert(shell_word(t, true) == shell_word(t1, false));
        } else {
            assert(shell_escape(seq![c]) =~= seq![c]);
            assert(t =~= seq![c] + tail);
            assert(t.drop_first() =~= tail);
            assert(t[0] == c);
            assert(shell_word(t, true) == Some(seq![c] + r));
        }
    }
}

/// Shell escaping is faithful: the escaped text between single quotes
/// reads back under POSIX shell quoting as the original text, whatever
/// quotes it holds.
pub proof fn law_shell_escape_reads_back(s: Seq<char>)
    ensures
        shell_word(seq!['\''] + shell_escape(s) + seq!['\''], false) == Some(s),
{
    lemma_shell_escape_reads_back(s);
    let t = seq!['\''] + shell_escape(s) + seq!['\''];
    assert(t.drop_first() =~= shell_escape(s) + seq!['\'']);
}

/// The pieces of the curl command: method, quoted URL, one `-H` per header,
/// and `-d` with the escaped body when there is one.
pub open spec fn curl_parts(r: RequestView) -> Seq<Seq<char>> {
    seq!["curl -X "@ + r.0, "'"@ + r.1 + "'"@]
        + Seq::new(r.2.len(), |i: int| "-H '"@ + r.2[i].0 + ": "@ + r.2[i].1 + "'"@)
        + match sent_body(r) {
            Some(b) => seq!["-d '"@ + shell_escape(b) + "'"@],
            None => Seq::empty(),
        }
}

/// The curl command text: its pieces joined by a line continuation.
pub open spec fn curl_text(r: RequestView) -> Seq<char> {
    join(curl_parts(r), " \\\n  "@)
}

/// The curl command holds the method, the quoted URL, one `-H` piece for
/// each header in order, and a `-d` piece exactly when the body is not
/// empty, last.
pub proof fn law_curl_pieces(r: RequestView)
    ensures
        curl_parts(r).len() == 2 + r.2.len() + (if sent_body(r) is Some { 1int } else { 0int }),
        curl_parts(r)[0] == "curl -X "@ + r.0,
        forall|i: int| 0 <= i < r.2.len() ==> curl_parts(r)[2 + i] == "-H '"@ + (#[trigger] r.2[i]).0 + ": "@ + r.2[i].1 + "'"@,
        sent_body(r) matches Some(b) ==> curl_parts(r).last() == "-d '"@ + shell_escape(b) + "'"@,
{
    let hs = Seq::new(r.2.len(), |i: int| "-H '"@ + r.2[i].0 + ": "@ + r.2[i].1 + "'"@);
    assert forall|i: int| 0 <= i < r.2.len() implies curl_parts(r)[2 + i] == "-H '"@ + (#[trigger] r.2[i]).0 + ": "@ + r.2[i].1 + "'"@ by {
        assert(hs[i] == "-H '"@ + r.2[i].0 + ": "@ + r.2[i].1 + "'"@);
    }
}

/// Appends `s` with every `'` written as `'\''`.
fn push_shell_escaped(out: &mut String, s: &str)
    ensures
        final(out)@ == old(out)@ + shell_escape(s@),
{
    let v = crate::text::str_chars(s);
    let mut i: usize = 0;
    while i < v.len()
        invariant
            i <= v@.len(),
            v@ == s@,
            out@ == old(out)@ + shell_escape(v@.subrange(0, i as int)),
        decreases v@.len() - i,
    {
        assert(v@.subrange(0, i + 1).drop_last() =~= v@.subrange(0, i as int));
        if v[i] == '\'' {
            push_str(out, "'\\''");
        } else {
            push_char(out, v[i]);
        }
        i = i + 1;
        assert(out@ =~= old(out)@ + shell_escape(v@.subrange(0, i as int)));
    }
    assert(v@.subrange(0, v@.len() as int) =~= v@);
}

/// Appends `part` to text holding `parts` joined by `sep`.
proof fn lemma_join_push(parts: Seq<Seq<char>>, part: Seq<char>, sep: Seq<char>)
    ensures
        join(parts.push(part), sep) == if parts.len() == 0 { part } else { join(parts, sep) + sep + part },
{
    assert(parts.push(part).drop_last() =~= parts);
}

/// A curl command that sends the request.
pub fn generate_curl(req: &CodegenRequest) -> (r: String)
    ensures
        r@ == curl_text(req.view()),
{
    let ghost rv = req.view();
    let sep = " \\\n  ";
    let mut out = String::from_str("curl -X ");
    push_str(&mut out, req.method.as_str());
    let ghost mut parts: Seq<Seq<char>> = seq![out@];
    proof {
        assert(join(parts, sep@) =~= out@);
    }
    let mut url = String::from_str("'");
    push_str(&mut url, req.url.as_str());
    push_str(&mut url, "'");
    push_str(&mut out, sep);
    push_str(&mut out, url.as_str());
    proof {
        lemma_join_push(parts, url@, sep@);
        parts = parts.push(url@);
        assert(out@ =~= join(parts, sep@));
    }
    let mut i: usize = 0;
    while i < req.headers.len()
        invariant
            rv == req.view(),
            i <= req.headers@.len(),
            parts == seq!["curl -X "@ + rv.0, "'"@ + rv.1 + "'"@]
                + Seq::new(i as nat, |k: int| "-H '"@ + rv.2[k].0 + ": "@ + rv.2[k].1 + "'"@),
            out@ == join(parts, sep@),
            parts.len() >= 2,
        decreases req.headers@.len() - i,
    {
        let mut h = String::from_str("-H '");
        push_str(&mut h, req.headers[i].0.as_str());
        push_str(&mut h, ": ");
        push_str(&mut h, req.headers[i].1.as_str());
        push_str(&mut h, "'");
        push_str(&mut out, sep);
        push_str(&mut out, h.as_str());
        proof {
            lemma_join_push(parts, h@, sep@);
            let old_parts = parts;
            parts = parts.push(h@);
            assert(out@ =~= join(parts, sep@));
            assert(parts =~= seq!["curl -X "@ + rv.0, "'"@ + rv.1 + "'"@]
                + Seq::new((i + 1) as nat, |k: int| "-H '"@ + rv.2[k].0 + ": "@ + rv.2[k].1 + "'"@));
        }
        i = i + 1;
    }
    match &req.body {
        Some(body) => {
            if body.as_str().unicode_len() > 0 {
                let mut d = String::from_str("-d '");
                push_shell_escaped(&mut d, body.as_str());
                push_str(&mut d, "'");
                push_str(&mut out, sep);
                push_str(&mut out, d.as_str());
                proof {
                    lemma_join_push(parts, d@, sep@);
                    parts = parts.push(d@);
                    assert(out@ =~= join(parts, sep@));
                }
            }
        },
        None => {},
    }
    proof {
        assert(parts =~= curl_parts(rv));
    }
    out
}


/// Appends `part` to text holding `parts` joined by `sep` (`first` when
/// there are none yet).
fn push_part(out: &mut String, Ghost(parts): Ghost<Seq<Seq<char>>>, first: bool, part: &str, sep: &str)
    requires
        old(out)@ == join(parts, sep@),
        first == (parts.len() == 0),
    ensures
        final(out)@ == join(parts.push(part@), sep@),
{
    proof {
        lemma_join_push(parts, part@, sep@);
    }
    if !first {
        push_str(out, sep);
    }
    push_str(out, part);
}

/// The lines of the JavaScript `fetch` snippet.
pub open spec fn js_lines(r: RequestView) -> Seq<Seq<char>> {
    seq!["fetch('"@ + r.1 + "', {"@, "  method: '"@ + r.0 + "',"@]
        + (if r.2.len() > 0 {
            seq!["  headers: {"@] + Seq::new(r.2.len(), |i: int| "    '"@ + r.2[i].0 + "': '"@ + r.2[i].1 + "',"@)
                + seq!["  },"@]
        } else {
            Seq::empty()
        })
        + match sent_body(r) {
            Some(b) => if is_json_body(r) {
                seq!["  body: JSON.stringify("@ + b + "),"@]
            } else {
                seq!["  body: '"@ + b + "',"@]
            },
            None => Seq::empty(),
        }
        + seq!["})"@, ".then(res => res.json())"@, ".then(console.log)"@, ".catch(console.error);"@]
}

/// The `fetch` snippet opens with the URL and the method; a `headers`
/// block of one line per header (in order) follows exactly when headers
/// are given; then a body line exactly when the body is not empty, through
/// `JSON.stringify` exactly when it is declared JSON; then the fixed close.
pub proof fn law_javascript_layout(r: RequestView)
    ensures
        ({
            let l = js_lines(r);
            let k: int = if r.2.len() > 0 { r.2.len() + 2int } else { 0int };
            let b = if sent_body(r) is Some { 1int } else { 0int };
            &&& l.len() == 2 + k + b + 4
            &&& l[0] == "fetch('"@ + r.1 + "', {"@
            &&& l[1] == "  method: '"@ + r.0 + "',"@
            &&& r.2.len() > 0 ==> l[2] == "  headers: {"@ && l[2 + k - 1] == "  },"@
                && forall|i: int| 0 <= i < r.2.len() ==> l[3 + i] == "    '"@ + (#[trigger] r.2[i]).0 + "': '"@ + r.2[i].1 + "',"@
            &&& sent_body(r) matches Some(body) ==> l[2 + k] == (if is_json_body(r) {
                "  body: JSON.stringify("@ + body + "),"@
            } else {
                "  body: '"@ + body + "',"@
            })
            &&& l[2 + k + b] == "})"@
            &&& l.last() == ".catch(console.error);"@
        }),
{
    let l = js_lines(r);
    let n = r.2.len();
    if n > 0 {
        let hs = Seq::new(n, |i: int| "    '"@ + r.2[i].0 + "': '"@ + r.2[i].1 + "',"@);
        assert forall|i: int| 0 <= i < n implies l[3 + i] == "    '"@ + (#[trigger] r.2[i]).0 + "': '"@ + r.2[i].1 + "',"@ by {
            assert(hs[i] == "    '"@ + r.2[i].0 + "': '"@ + r.2[i].1 + "',"@);
        }
    }
}

/// Whether an optional string is `Some("json")`.
fn is_json(t: &Option<String>) -> (b: bool)
    ensures
        b == (opt_text(*t) == Some("json"@)),
{
    match t {
        Some(s) => crate::text::str_eq(s.as_str(), "json"),
        None => false,
    }
}

/// A JavaScript `fetch` call that sends the request.
pub fn generate_javascript(req: &CodegenRequest) -> (r: String)
    ensures
        r@ == join(js_lines(req.view()), "\n"@),
{
    let ghost rv = req.view();
    let ghost mut lines: Seq<Seq<char>> = Seq::empty();
    let mut out = String::new();
    let mut l = String::from_str("fetch('");
    push_str(&mut l, req.url.as_str());
    push_str(&mut l, "', {");
    push_part(&mut out, Ghost(lines), true, l.as_str(), "\n");
    proof { lines = lines.push(l@); }
    let mut l = String::from_str("  method: '");
    push_str(&mut l, req.method.as_str());
    push_str(&mut l, "',");
    push_part(&mut out, Ghost(lines), false, l.as_str(), "\n");
    proof { lines = lines.push(l@); }
    let ghost head = lines;
    if req.headers.len() > 0 {
        push_part(&mut out, Ghost(lines), false, "  headers: {", "\n");
        proof { lines = lines.push("  headers: {"@); }
        let mut i: usize = 0;
        while i < req.headers.len()
            invariant
                rv == req.view(),
                i <= req.headers@.len(),
                lines == head + seq!["  headers: {"@]
                    + Seq::new(i as nat, |k: int| "    '"@ + rv.2[k].0 + "': '"@ + rv.2[k].1 + "',"@),
                out@ == join(lines, "\n"@),
            decreases req.headers@.len() - i,
        {
            let mut h = String::from_str("    '");
            push_str(&mut h, req.headers[i].0.as_str());
            push_str(&mut h, "': '");
            push_str(&mut h, req.headers[i].1.as_str());
            push_str(&mut h, "',");
            push_part(&mut out, Ghost(lines), false, h.as_str(), "\n");
            proof {
                lines = lines.push(h@);
                assert(lines =~= head + seq!["  headers: {"@]
                    + Seq::new((i + 1) as nat, |k: int| "    '"@ + rv.2[k].0 + "': '"@ + rv.2[k].1 + "',"@));
            }
            i = i + 1;
        }
        push_part(&mut out, Ghost(lines), false, "  },", "\n");
        proof { lines = lines.push("  },"@); }
    }
    let ghost mid = lines;
    match &req.body {
        Some(body) => {
            if body.as_str().unicode_len() > 0 {
                let mut b;
                if is_json(&req.body_type) {
                    b = String::from_str("  body: JSON.stringify(");
                    push_str(&mut b, body.as_str());
                    push_str(&mut b, "),");
                } else {
                    b = String::from_str("  body: '");
                    push_str(&mut b, body.as_str());
                    push_str(&mut b, "',");
                }
                push_part(&mut out, Ghost(lines), false, b.as_str(), "\n");
                proof { lines = lines.push(b@); }
            }
        },
        None => {},
    }
    push_part(&mut out, Ghost(lines), false, "})", "\n");
    proof { lines = lines.push("})"@); }
    push_part(&mut out, Ghost(lines), false, ".then(res => res.json())", "\n");
    proof { lines = lines.push(".then(res => res.json())"@); }
    push_part(&mut out, Ghost(lines), false, ".then(console.log)", "\n");
    proof { lines = lines.push(".then(console.log)"@); }
    push_part(&mut out, Ghost(lines), false, ".catch(console.error);", "\n");
    proof {
        lines = lines.push(".catch(console.error);"@);
        assert(lines =~= js_lines(rv));
    }
    out
}


/// The `json=` argument of the Python snippet: the body as a Python literal
/// when it reads as JSON, else the body in single quotes.
pub open spec fn py_json_arg(parsed: Option<JsonValue>, body: Seq<char>) -> Seq<char> {
    match parsed {
        Some(v) => py_literal(v),
        None => "'"@ + body + "'"@,
    }
}

/// Writes the `json=` argument for a body from what the JSON reader made of it.
pub fn python_json_arg(parsed: &Option<JsonValue>, body: &str) -> (r: String)
    ensures
        r@ == py_json_arg(*parsed, body@),
{
    let mut out = String::new();
    match parsed {
        Some(v) => {
            push_py_literal(&mut out, v);
        },
        None => {
            push_str(&mut out, "'");
            push_str(&mut out, body);
            push_str(&mut out, "'");
        },
    }
    out
}

/// The lines of the Python `requests` snippet, given what the JSON reader
/// makes of the body.
pub open spec fn python_lines(r: RequestView, parsed: Option<JsonValue>) -> Seq<Seq<char>> {
    seq!["import requests"@, Seq::empty(), "response = requests."@ + lowercase(r.0) + ".\\"@, "    '"@ + r.1 + "',\\"@]
        + (if r.2.len() > 0 {
            seq!["    headers={"@] + Seq::new(r.2.len(), |i: int| "        '"@ + r.2[i].0 + "': '"@ + r.2[i].1 + "'"@)
                + seq!["    },"@]
        } else {
            Seq::empty()
        })
        + match sent_body(r) {
            Some(b) => if is_json_body(r) {
                seq!["    json="@ + py_json_arg(parsed, b) + ","@]
            } else {
                seq!["    data='"@ + b + "',"@]
            },
            None => Seq::empty(),
        }
        + seq![Seq::empty(), "print(response.status_code)"@, "print(response.text)"@]
}

/// The `requests` snippet opens with the import, a blank line, the call of
/// the lower-cased method and the URL; a `headers` block of one line per
/// header (in order) follows exactly when headers are given; then a body
/// line exactly when the body is not empty, `json=` exactly when it is
/// declared JSON and `data='...'` otherwise; then the fixed close.
pub proof fn law_python_layout(r: RequestView, parsed: Option<JsonValue>)
    ensures
        ({
            let l = python_lines(r, parsed);
            let k: int = if r.2.len() > 0 { r.2.len() + 2int } else { 0int };
            let b = if sent_body(r) is Some { 1int } else { 0int };
            &&& l.len() == 4 + k + b + 3
            &&& l[0] == "import requests"@
            &&& l[2] == "response = requests."@ + lowercase(r.0) + ".\\"@
            &&& l[3] == "    '"@ + r.1 + "',\\"@
            &&& r.2.len() > 0 ==> l[4] == "    headers={"@ && l[4 + k - 1] == "    },"@
                && forall|i: int| 0 <= i < r.2.len() ==> l[5 + i] == "        '"@ + (#[trigger] r.2[i]).0 + "': '"@ + r.2[i].1 + "'"@
            &&& sent_body(r) matches Some(body) ==> l[4 + k] == (if is_json_body(r) {
                "    json="@ + py_json_arg(parsed, body) + ","@
            } else {
                "    data='"@ + body + "',"@
            })
            &&& l[4 + k + b] == Seq::<char>::empty()
            &&& l.last() == "print(response.text)"@
        }),
{
    let l = python_lines(r, parsed);
    let n = r.2.len();
    if n > 0 {
        let hs = Seq::new(n, |i: int| "        '"@ + r.2[i].0 + "': '"@ + r.2[i].1 + "'"@);
        assert forall|i: int| 0 <= i < n implies l[5 + i] == "        '"@ + (#[trigger] r.2[i]).0 + "': '"@ + r.2[i].1 + "'"@ by {
            assert(hs[i] == "        '"@ + r.2[i].0 + "': '"@ + r.2[i].1 + "'"@);
        }
    }
}

/// The Python snippet for a request: the JSON argument comes from reading the
/// body with the JSON reader.
pub open spec fn python_text(r: RequestView) -> Seq<char> {
    join(python_lines(r, match r.3 { Some(b) => json_parse(b), None => None }), "\n"@)
}

/// A Python `requests` call that sends the request.
pub fn generate_python(req: &CodegenRequest) -> (r: String)
    ensures
        r@ == python_text(req.view()),
{
    let ghost rv = req.view();
    let ghost parsed = match rv.3 { Some(b) => json_parse(b), None => None };
    let ghost mut lines: Seq<Seq<char>> = Seq::empty();
    let mut out = String::new();
    proof {
        reveal_strlit("");
        assert(""@ =~= Seq::<char>::empty());
    }
    push_part(&mut out, Ghost(lines), true, "import requests", "\n");
    proof { lines = lines.push("import requests"@); }
    push_part(&mut out, Ghost(lines), false, "", "\n");
    proof { lines = lines.push(Seq::empty()); }
    let method_lower = to_lowercase(req.method.as_str());
    let mut l = String::from_str("response = requests.");
    push_str(&mut l, method_lower.as_str());
    push_str(&mut l, ".\\");
    push_part(&mut out, Ghost(lines), false, l.as_str(), "\n");
    proof { lines = lines.push(l@); }
    let mut l = String::from_str("    '");
    push_str(&mut l, req.url.as_str());
    push_str(&mut l, "',\\");
    push_part(&mut out, Ghost(lines), false, l.as_str(), "\n");
    proof { lines = lines.push(l@); }
    let ghost head = lines;
    if req.headers.len() > 0 {
        push_part(&mut out, Ghost(lines), false, "    headers={", "\n");
        proof { lines = lines.push("    headers={"@); }
        let mut i: usize = 0;
        while i < req.headers.len()
            invariant
                rv == req.view(),
                i <= req.headers@.len(),
                lines == head + seq!["    headers={"@]
                    + Seq::new(i as nat, |k: int| "        '"@ + rv.2[k].0 + "': '"@ + rv.2[k].1 + "'"@),
                out@ == join(lines, "\n"@),
            decreases req.headers@.len() - i,
        {
            let mut h = String::from_str("        '");
            push_str(&mut h, req.headers[i].0.as_str());
            push_str(&mut h, "': '");
            push_str(&mut h, req.headers[i].1.as_str());
            push_str(&mut h, "'");
            push_part(&mut out, Ghost(lines), false, h.as_str(), "\n");
            proof {
                lines = lines.push(h@);
                assert(lines =~= head + seq!["    headers={"@]
                    + Seq::new((i + 1) as nat, |k: int| "        '"@ + rv.2[k].0 + "': '"@ + rv.2[k].1 + "'"@));
            }
            i = i + 1;
        }
        push_part(&mut out, Ghost(lines), false, "    },", "\n");
        proof { lines = lines.push("    },"@); }
    }
    match &req.body {
        Some(body) => {
            if body.as_str().unicode_len() > 0 {
                let mut b;
                if is_json(&req.body_type) {
                    let parsed_body = parse_json(body.as_str());
                    let arg = python_json_arg(&parsed_body, body.as_str());
                    b = String::from_str("    json=");
                    push_str(&mut b, arg.as_str());
                    push_str(&mut b, ",");
                } else {
                    b = String::from_str("    data='");
                    push_str(&mut b, body.as_str());
                    push_str(&mut b, "',");
                }
                push_part(&mut out, Ghost(lines), false, b.as_str(), "\n");
                proof { lines = lines.push(b@); }
            }
        },
        None => {},
    }
    push_part(&mut out, Ghost(lines), false, "", "\n");
    proof { lines = lines.push(Seq::empty()); }
    push_part(&mut out, Ghost(lines), false, "print(response.status_code)", "\n");
    proof { lines = lines.push("print(response.status_code)"@); }
    push_part(&mut out, Ghost(lines), false, "print(response.text)", "\n");
    proof {
        lines = lines.push("print(response.text)"@);
        assert(lines =~= python_lines(rv, parsed));
    }
    out
}

} // verus!
