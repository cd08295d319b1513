//! The registry behind the local download server: which file each id
//! serves, and the URL a peer downloads it from.
use vstd::prelude::*;
use vstd::hash_map::StringHashMap;
use vstd::string::*;
use crate::text::{decimal, push_char, push_decimal, push_str};

verus! {

/// The port of the local download server and the files it serves, by id.
pub struct FileServerHandle {
    port: u16,
    files: StringHashMap<String>,
}

/// Whether a byte is left as it is in a URL (`A-Z a-z 0-9 - _ . ~`).
pub open spec fn is_unreserved(b: u8) -> bool {
    (0x41 <= b <= 0x5a) || (0x61 <= b <= 0x7a) || (0x30 <= b <= 0x39) || b == 0x2d || b == 0x5f || b == 0x2e || b == 0x7e
}

/// An upper-case hex digit.
pub open spec fn upper_hex(d: int) -> char {
    if d < 10 { crate::text::digit_char(d) }
    else if d == 10 { 'A' }
    else if d == 11 { 'B' }
    else if d == 12 { 'C' }
    else if d == 13 { 'D' }
    else if d == 14 { 'E' }
    else { 'F' }
}

/// How one byte of the UTF-8 text is written in a URL path segment.
pub open spec fn encode_byte(b: u8) -> Seq<char> {
    if is_unreserved(b) {
        seq![b as char]
    } else if b == 0x20 {
        "%20"@
    } else {
        seq!['%', upper_hex((b / 16) as int), upper_hex((b % 16) as int)]
    }
}

/// Percent-encoding of the bytes `bytes`.
pub open spec fn url_encoded(bytes: Seq<u8>) -> Seq<char>
    decreases bytes.len(),
{
    if bytes.len() == 0 {
        Seq::empty()
    } else {
        url_encoded(bytes.drop_last()) + encode_byte(bytes.last())
    }
}

fn upper_hex_char(d: u8) -> (c: char)
    requires
        d < 16,
    ensures
        c == upper_hex(d as int),
{
    if d < 10 {
        crate::text::digit_to_char(d as u64)
    } else if d == 10 { 'A' }
    else if d == 11 { 'B' }
    else if d == 12 { 'C' }
    else if d == 13 { 'D' }
    else if d == 14 { 'E' }
    else { 'F' }
}

/// Percent-encodes the UTF-8 bytes of `s` for use in a URL path.
pub fn url_encode(s: &str) -> (r: String)
    ensures
        r@ == url_encoded(s.spec_bytes()),
{
    let bytes = s.as_bytes();
    let mut out = String::new();
    let mut i: usize = 0;
    while i < bytes.len()
        invariant
            i <= bytes@.len(),
            bytes@ == s.spec_bytes(),
            out@ == url_encoded(bytes@.subrange(0, i as int)),
        decreases bytes@.len() - i,
    {
        let b = bytes[i];
        let ghost prev = out@;
        assert(bytes@.subrange(0, i + 1).drop_last() =~= bytes@.subrange(0, i as int));
        if (0x41 <= b && b <= 0x5a) || (0x61 <= b && b <= 0x7a) || (0x30 <= b && b <= 0x39) || b == 0x2d || b == 0x5f
            || b == 0x2e || b == 0x7e {
            push_char(&mut out, b as char);
        } else if b == 0x20 {
            push_str(&mut out, "%20");
        } else {
            push_char(&mut out, '%');
            push_char(&mut out, upper_hex_char(b / 16));
            push_char(&mut out, upper_hex_char(b % 16));
        }
        i = i + 1;
        assert(out@ =~= url_encoded(bytes@.subrange(0, i as int)));
    }
    assert(bytes@.subrange(0, i as int) =~= bytes@);
    out
}

/// The download URL of a file: `http://127.0.0.1:{port}/download/{id}/{encoded name}`.
pub open spec fn download_link(port: u16, file_id: Seq<char>, filename: &str) -> Seq<char> {
    "http://127.0.0.1:"@ + decimal(port as nat) + "/download/"@ + file_id + "/"@ + url_encoded(filename.spec_bytes())
}

impl FileServerHandle {
    /// The port and the path registered for each file id.
    pub closed spec fn view(&self) -> (u16, Map<Seq<char>, Seq<char>>) {
        (self.port, self.files@.map_values(|p: String| p@))
    }

    /// A handle for a server on `port` that serves no file yet.
    pub fn new(port: u16) -> (r: Self)
        ensures
            r.view() == (port, Map::<Seq<char>, Seq<char>>::empty()),
    {
        let r = FileServerHandle { port, files: StringHashMap::new() };
        assert(r.files@.map_values(|p: String| p@) =~= Map::<Seq<char>, Seq<char>>::empty());
        r
    }

    /// The port the server listens on.
    pub fn port(&self) -> (r: u16)
        ensures
            r == self.view().0,
    {
        self.port
    }

    /// Serves `file_path` under `file_id` (replacing any earlier path).
    pub fn register_file(&mut self, file_id: &str, file_path: &str)
        ensures
            final(self).view() == (old(self).view().0, old(self).view().1.insert(file_id@, file_path@)),
    {
        self.files.insert(file_id.to_string(), file_path.to_string());
        assert(self.files@.map_values(|p: String| p@) =~= old(self).files@.map_values(|p: String| p@).insert(file_id@, file_path@));
    }

    /// The path served under `file_id`, if any.
    pub fn get_path(&self, file_id: &str) -> (r: Option<String>)
        ensures
            match r {
                Some(p) => self.view().1.contains_key(file_id@) && p@ == self.view().1[file_id@],
                None => !self.view().1.contains_key(file_id@),
            },
    {
        match self.files.get(file_id) {
            Some(p) => Some(p.clone()),
            None => None,
        }
    }

    /// The URL a peer downloads the file from.
    pub fn download_url(&self, file_id: &str, filename: &str) -> (r: String)
        ensures
            r@ == download_link(self.view().0, file_id@, filename),
    {
        let mut out = String::from_str("http://127.0.0.1:");
        push_decimal(&mut out, self.port as u64);
        push_str(&mut out, "/download/");
        push_str(&mut out, file_id);
        push_str(&mut out, "/");
        let enc = url_encode(filename);
        push_str(&mut out, enc.as_str());
        out
    }
}


/// The path a file was last registered with is the one served for its id;
/// other ids keep theirs.
pub proof fn law_registered_path_is_served(files: Map<Seq<char>, Seq<char>>, id: Seq<char>, path: Seq<char>, other: Seq<char>)
    ensures
        files.insert(id, path).contains_key(id),
        files.insert(id, path)[id] == path,
        other != id ==> (files.insert(id, path).contains_key(other) == files.contains_key(other)
            && (files.contains_key(other) ==> files.insert(id, path)[other] == files[other])),
{
}


/// URL encoding works byte by byte: the encoding of two byte strings one
/// after the other is the two encodings one after the other, and a single
/// byte is written as [`encode_byte`] says.
pub proof fn law_url_encoding_bytewise(a: Seq<u8>, b: Seq<u8>, x: u8)
    ensures
        url_encoded(a + b) == url_encoded(a) + url_encoded(b),
        url_encoded(seq![x]) == encode_byte(x),
    decreases b.len(),
{
    let single = seq![x];
    assert(single.drop_last() =~= Seq::<u8>::empty());
    assert(url_encoded(Seq::<u8>::empty()) == Seq::<char>::empty());
    assert(Seq::<char>::empty() + encode_byte(x) =~= encode_byte(x));
    if b.len() == 0 {
        assert(a + b =~= a);
        assert(url_encoded(a) + url_encoded(b) =~= url_encoded(a));
    } else {
        law_url_encoding_bytewise(a, b.drop_last(), x);
        assert((a + b).drop_last() =~= a + b.drop_last());
        assert((a + b).last() == b.last());
        assert(url_encoded(a + b) =~= url_encoded(a) + url_encoded(b));
    }
}


/// Every byte of a file name is written either as itself (the unreserved
/// `A-Z a-z 0-9 - _ . ~`) or as `%` and its two upper-case hex digits (a
/// space as `%20`), and the download URL is
/// `http://127.0.0.1:{port}/download/{id}/` followed by the name's bytes so
/// written, in order.
pub proof fn law_download_url_format(port: u16, file_id: Seq<char>, filename: &str, x: u8)
    ensures
        encode_byte(x) == if is_unreserved(x) {
            seq![x as char]
        } else {
            seq!['%', upper_hex((x / 16) as int), upper_hex((x % 16) as int)]
        },
        download_link(port, file_id, filename) == "http://127.0.0.1:"@ + decimal(port as nat) + "/download/"@ + file_id
            + "/"@ + url_encoded(filename.spec_bytes()),
        filename.spec_bytes().len() > 0 ==> url_encoded(filename.spec_bytes()) == url_encoded(
            filename.spec_bytes().drop_last(),
        ) + encode_byte(filename.spec_bytes().last()),
{
    reveal_strlit("%20");
    if x == 0x20 {
        assert((x / 16) as int == 2 && (x % 16) as int == 0);
        assert(upper_hex(2) == '2' && upper_hex(0) == '0');
        assert("%20"@ =~= seq!['%', '2', '0']);
    }
}

} // verus!
