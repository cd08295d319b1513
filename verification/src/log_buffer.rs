//! The in-memory log: the newest log entries (at most 1000) and how an
//! event's fields are written into its message.
use vstd::prelude::*;
use vstd::string::*;
use crate::text::{push_char, push_str, str_chars, str_eq, string_from_range};

verus! {

/// Most entries the buffer keeps.
pub const MAX_LOG_ENTRIES: usize = 1000;

/// One log entry.
pub struct LogEntry {
    pub timestamp: String,
    pub level: String,
    pub target: String,
    pub message: String,
}

/// Mathematical form of an entry: timestamp, level, target, message.
pub type EntryView = (Seq<char>, Seq<char>, Seq<char>, Seq<char>);

impl LogEntry {
    pub open spec fn view(&self) -> EntryView {
        (self.timestamp@, self.level@, self.target@, self.message@)
    }
}

/// A copy of an entry.
pub fn clone_entry(e: &LogEntry) -> (r: LogEntry)
    ensures
        r.view() == e.view(),
{
    LogEntry { timestamp: e.timestamp.clone(), level: e.level.clone(), target: e.target.clone(), message: e.message.clone() }
}

/// The newest log entries, oldest first.
pub struct LogBuffer {
    entries: Vec<LogEntry>,
}

/// The last `n` entries of `s` (all of them when there are fewer).
pub open spec fn last_n<A>(s: Seq<A>, n: int) -> Seq<A> {
    if s.len() > n { s.subrange(s.len() - n, s.len() as int) } else { s }
}

impl LogBuffer {
    /// The entries, oldest first.
    pub closed spec fn view(&self) -> Seq<EntryView> {
        Seq::new(self.entries@.len(), |i: int| self.entries@[i].view())
    }

    /// An empty buffer.
    pub fn new() -> (r: Self)
        ensures
            r.view() == Seq::<EntryView>::empty(),
    {
        let r = LogBuffer { entries: Vec::new() };
        assert(r.view() =~= Seq::<EntryView>::empty());
        r
    }

    /// Adds an entry, dropping the oldest ones beyond 1000.
    pub fn push(&mut self, entry: LogEntry)
        requires
            old(self).view().len() <= MAX_LOG_ENTRIES,
        ensures
            final(self).view() == last_n(old(self).view().push(entry.view()), MAX_LOG_ENTRIES as int),
            final(self).view().len() <= MAX_LOG_ENTRIES,
    {
        let ghost before = self.view().push(entry.view());
        self.entries.push(entry);
        assert(self.view() =~= before);
        if self.entries.len() > MAX_LOG_ENTRIES {
            let ghost prev = self.view();
            let _ = self.entries.remove(0);
            assert(self.view() =~= prev.subrange(1, prev.len() as int));
        }
    }

    /// The newest `count` entries (all of them when there are fewer), oldest first.
    pub fn get_logs(&self, count: usize) -> (r: Vec<LogEntry>)
        ensures
            Seq::new(r@.len(), |i: int| r@[i].view()) == last_n(self.view(), count as int),
    {
        let n = self.entries.len();
        let start = if n > count { n - count } else { 0 };
        let mut out: Vec<LogEntry> = Vec::new();
        let mut i = start;
        while i < n
            invariant
                start <= i <= n,
                n == self.entries@.len(),
                start == (if n > count { n - count } else { 0 }),
                out@.len() == i - start,
                forall|k: int| 0 <= k < i - start ==> #[trigger] out@[k].view() == self.entries@[start + k].view(),
            decreases n - i,
        {
            out.push(clone_entry(&self.entries[i]));
            i = i + 1;
        }
        assert(Seq::new(out@.len(), |i: int| out@[i].view()) =~= last_n(self.view(), count as int));
        out
    }

    /// Removes every entry.
    pub fn clear_logs(&mut self)
        ensures
            final(self).view() == Seq::<EntryView>::empty(),
    {
        self.entries = Vec::new();
        assert(self.view() =~= Seq::<EntryView>::empty());
    }
}

/// The message after a field is recorded: the `message` field's text is
/// appended as it is; any other field is appended as `name=value`, after a
/// space unless the message is still empty.
pub open spec fn with_field(message: Seq<char>, name: Seq<char>, value: Seq<char>) -> Seq<char> {
    if name == "message"@ {
        message + value
    } else {
        message + (if message.len() > 0 { " "@ } else { Seq::empty() }) + name + "="@ + value
    }
}

/// Records a field of an event into its message (see [`with_field`]).
pub fn record_field(message: &mut String, name: &str, value: &str)
    ensures
        final(message)@ == with_field(old(message)@, name@, value@),
{
    if str_eq(name, "message") {
        push_str(message, value);
    } else {
        proof {
            reveal_strlit(" ");
        }
        if message.as_str().unicode_len() > 0 {
            push_char(message, ' ');
            assert(message@ =~= old(message)@ + " "@);
        } else {
            assert(old(message)@ + Seq::<char>::empty() =~= old(message)@);
        }
        push_str(message, name);
        push_str(message, "=");
        push_str(message, value);
    }
}

/// The text a `Debug`-formatted message field contributes: without its
/// surrounding double quotes when it has them.
pub open spec fn unquoted(formatted: Seq<char>) -> Seq<char> {
    if formatted.len() >= 2 && formatted[0] == '"' && formatted.last() == '"' {
        formatted.subrange(1, formatted.len() - 1)
    } else {
        formatted
    }
}

/// Strips the double quotes `Debug` puts around a message (see [`unquoted`]).
pub fn strip_debug_quotes(formatted: &str) -> (r: String)
    ensures
        r@ == unquoted(formatted@),
{
    let v = str_chars(formatted);
    let n = v.len();
    if n >= 2 && v[0] == '"' && v[n - 1] == '"' {
        string_from_range(&v, 1, n - 1)
    } else {
        assert(v@.subrange(0, n as int) =~= v@);
        string_from_range(&v, 0, n)
    }
}


/// The buffer never holds more than 1000 entries, and the newest entry is
/// always the last one kept.
pub proof fn law_buffer_bounded(entries: Seq<EntryView>, e: EntryView)
    requires
        entries.len() <= MAX_LOG_ENTRIES,
    ensures
        last_n(entries.push(e), MAX_LOG_ENTRIES as int).len() <= MAX_LOG_ENTRIES,
        last_n(entries.push(e), MAX_LOG_ENTRIES as int).last() == e,
{
}

/// Asking for the newest `count` entries gives at most `count` of them, and
/// all of them when there are no more than `count`.
pub proof fn law_get_logs_count(entries: Seq<EntryView>, count: nat)
    ensures
        last_n(entries, count as int).len() <= count,
        entries.len() <= count ==> last_n(entries, count as int) == entries,
{
}

} // verus!
