//! Clipboard history: what a poll of the clipboard is turned into, and when
//! it counts as new content.
use std::hash::{Hash, Hasher};
use vstd::prelude::*;
use vstd::string::*;
use crate::text::{decimal, decimal_string};

verus! {

/// Largest clipboard content kept, in bytes (20 MiB).
pub const MAX_CLIPBOARD_BYTES: u64 = 20971520;

/// Default polling interval, in milliseconds.
pub const DEFAULT_INTERVAL_MS: u64 = 1000;

/// What was read from the clipboard, with its content hash.
pub enum ClipboardContent {
    Text { text: String, hash: u64 },
    Image { rgba: Vec<u8>, width: u32, height: u32, hash: u64 },
}

/// Hashes text with a fresh `std::hash::DefaultHasher`. Nothing is stated
/// of the value: the standard library does not promise it across releases
/// or machines.
#[verifier::external_body]
fn hash_text(text: &str) -> (h: u64) {
    let mut hasher = std::hash::DefaultHasher::new();
    text.hash(&mut hasher);
    hasher.finish()
}

/// Hashes pixels, width and height with a fresh `std::hash::DefaultHasher`.
/// Nothing is stated of the value: it depends on the machine's word size
/// and byte order.
#[verifier::external_body]
fn hash_image(rgba: &[u8], width: u32, height: u32) -> (h: u64) {
    let mut hasher = std::hash::DefaultHasher::new();
    rgba.hash(&mut hasher);
    width.hash(&mut hasher);
    height.hash(&mut hasher);
    hasher.finish()
}

/// Whether content of `len` bytes is kept: not empty and at most 20 MiB.
pub open spec fn size_kept(len: int) -> bool {
    0 < len <= MAX_CLIPBOARD_BYTES
}

/// Turns text read from the clipboard into content, unless it is empty or
/// too large.
pub fn text_content(text: String) -> (r: Option<ClipboardContent>)
    ensures
        match r {
            Some(ClipboardContent::Text { text: t, .. }) =>
                size_kept(vstd::utf8::encode_utf8(text@).len() as int) && t@ == text@,
            Some(_) => false,
            None => !size_kept(vstd::utf8::encode_utf8(text@).len() as int),
        },
{
    let ts = text.as_str();
    assert(ts@ == text@);
    let n = ts.as_bytes().len();
    if n == 0 || n as u64 > MAX_CLIPBOARD_BYTES {
        return None;
    }
    let hash = hash_text(ts);
    Some(ClipboardContent::Text { text, hash })
}

/// Turns an image read from the clipboard into content, unless its pixel
/// data is empty or too large.
pub fn image_content(rgba: Vec<u8>, width: u32, height: u32) -> (r: Option<ClipboardContent>)
    ensures
        match r {
            Some(ClipboardContent::Image { rgba: px, width: w, height: h, .. }) =>
                size_kept(rgba@.len() as int) && px@ == rgba@ && w == width && h == height,
            Some(_) => false,
            None => !size_kept(rgba@.len() as int),
        },
{
    let n = rgba.len();
    if n == 0 || n as u64 > MAX_CLIPBOARD_BYTES {
        return None;
    }
    let hash = hash_image(rgba.as_slice(), width, height);
    Some(ClipboardContent::Image { rgba, width, height, hash })
}

/// The decimal text a content hash is stored as.
pub fn hash_text_form(hash: u64) -> (r: String)
    ensures
        r@ == decimal(hash as nat),
{
    decimal_string(hash)
}

/// Whether content with `hash` differs from the last stored content.
pub fn is_new_content(last_hash: &str, hash: u64) -> (b: bool)
    ensures
        b == (last_hash@ != decimal(hash as nat)),
{
    let h = decimal_string(hash);
    !crate::text::str_eq(last_hash, h.as_str())
}


/// The polling monitor's state: whether it runs, its interval, and the
/// hash of the last content stored.
pub struct MonitorState {
    running: bool,
    interval_ms: u64,
    last_hash: String,
}

/// The monitor state as values: running, interval, last stored hash.
pub type MonitorView = (bool, u64, Seq<char>);

impl MonitorState {
    pub closed spec fn view(&self) -> MonitorView {
        (self.running, self.interval_ms, self.last_hash@)
    }

    /// A stopped monitor polling every second, with nothing stored yet.
    pub fn new() -> (r: Self)
        ensures
            r.view() == (false, DEFAULT_INTERVAL_MS, Seq::<char>::empty()),
    {
        MonitorState { running: false, interval_ms: DEFAULT_INTERVAL_MS, last_hash: String::new() }
    }

    /// Whether the monitor is running.
    pub fn is_running(&self) -> (b: bool)
        ensures
            b == self.view().0,
    {
        self.running
    }

    /// Marks the monitor running; `false` when it already was (the poll loop
    /// must then not be started twice).
    pub fn start(&mut self) -> (started: bool)
        ensures
            started == !old(self).view().0,
            final(self).view() == (true, old(self).view().1, old(self).view().2),
    {
        let was = self.running;
        self.running = true;
        !was
    }

    /// Stops the monitor (harmless when it is not running).
    pub fn stop(&mut self)
        ensures
            final(self).view() == (false, old(self).view().1, old(self).view().2),
    {
        self.running = false;
    }

    /// The polling interval in milliseconds.
    pub fn get_interval_ms(&self) -> (ms: u64)
        ensures
            ms == self.view().1,
    {
        self.interval_ms
    }

    /// Changes the polling interval.
    pub fn set_interval_ms(&mut self, ms: u64)
        ensures
            final(self).view() == (old(self).view().0, ms, old(self).view().2),
    {
        self.interval_ms = ms;
    }

    /// Takes the saved interval setting, if there is one that is a number.
    pub fn load_interval(&mut self, saved: Option<&str>)
        ensures
            final(self).view() == match saved {
                Some(t) => match crate::text::parse_uint(t@, u64::MAX as int) {
                    Some(ms) => (old(self).view().0, ms as u64, old(self).view().2),
                    None => old(self).view(),
                },
                None => old(self).view(),
            },
    {
        if let Some(t) = saved {
            let v = crate::text::str_chars(t);
            assert(v@.subrange(0, v@.len() as int) =~= v@);
            if let Some(ms) = crate::text::parse_uint_range(&v, 0, v.len(), u64::MAX) {
                self.interval_ms = ms;
            }
        }
    }

    /// Starts from the hash of the newest stored entry, if there is one.
    pub fn seed_last_hash(&mut self, newest: Option<&str>)
        ensures
            final(self).view() == match newest {
                Some(h) => (old(self).view().0, old(self).view().1, h@),
                None => old(self).view(),
            },
    {
        if let Some(h) = newest {
            self.last_hash = String::from_str(h);
        }
    }

    /// Whether polled content with `hash` is new (differs from the last stored).
    pub fn is_new(&self, hash: u64) -> (b: bool)
        ensures
            b == (self.view().2 != decimal(hash as nat)),
    {
        is_new_content(self.last_hash.as_str(), hash)
    }

    /// Records that content with `hash` was stored. Until this is called
    /// (only after a successful store), the same content counts as new again.
    pub fn stored(&mut self, hash: u64)
        ensures
            final(self).view() == (old(self).view().0, old(self).view().1, decimal(hash as nat)),
    {
        self.last_hash = hash_text_form(hash);
    }
}

/// After content with hash `stored` is recorded, polled content is new
/// exactly when its hash differs from `stored`.
pub proof fn law_only_different_content_is_new(stored: u64, polled: u64)
    ensures
        (decimal(stored as nat) != decimal(polled as nat)) <==> stored != polled,
{
    if decimal(stored as nat) == decimal(polled as nat) {
        crate::text::lemma_decimal_injective(stored as nat, polled as nat);
    }
}

} // verus!
