//! The table of peers seen on the network, keyed by peer id: updated from
//! heartbeats, listed newest first, and swept for peers gone silent.
use vstd::prelude::*;
use vstd::seq_lib::{to_multiset_build, to_multiset_insert};
use crate::text::str_eq;

verus! {

/// What a peer announces about itself, and its state in the table.
pub struct PeerInfo {
    pub id: String,
    pub hostname: String,
    pub ip: String,
    pub os: String,
    pub listen_port: u16,
    /// RFC 3339 time of the last heartbeat.
    pub last_seen: String,
    /// `"online"` or `"offline"`.
    pub status: String,
}

/// A peer as values: id, hostname, ip, os, port, last seen, status.
pub type PeerView = (Seq<char>, Seq<char>, Seq<char>, Seq<char>, u16, Seq<char>, Seq<char>);

impl PeerInfo {
    pub open spec fn view(&self) -> PeerView {
        (self.id@, self.hostname@, self.ip@, self.os@, self.listen_port, self.last_seen@, self.status@)
    }
}

/// A copy of a peer record.
pub fn clone_peer(p: &PeerInfo) -> (r: PeerInfo)
    ensures
        r.view() == p.view(),
{
    PeerInfo {
        id: p.id.clone(),
        hostname: p.hostname.clone(),
        ip: p.ip.clone(),
        os: p.os.clone(),
        listen_port: p.listen_port,
        last_seen: p.last_seen.clone(),
        status: p.status.clone(),
    }
}

/// The peers of a list, as values.
pub open spec fn peers_view(v: Seq<PeerInfo>) -> Seq<PeerView> {
    Seq::new(v.len(), |i: int| v[i].view())
}

/// No id occurs twice.
pub open spec fn ids_unique(s: Seq<PeerView>) -> bool {
    forall|i: int, j: int| 0 <= i < j < s.len() ==> s[i].0 != s[j].0
}

/// Where the peer with this id stands, if it is there.
pub open spec fn index_of_id(s: Seq<PeerView>, id: Seq<char>) -> Option<int>
    decreases s.len(),
{
    if s.len() == 0 {
        None
    } else if s.last().0 == id {
        Some(s.len() - 1)
    } else {
        index_of_id(s.drop_last(), id)
    }
}

/// The peer with this id, if it is there.
pub open spec fn peer_with_id(s: Seq<PeerView>, id: Seq<char>) -> Option<PeerView> {
    match index_of_id(s, id) {
        Some(i) => Some(s[i]),
        None => None,
    }
}

/// The table after recording `p`: it replaces the peer with the same id
/// in place, or joins at the end.
pub open spec fn upserted(s: Seq<PeerView>, p: PeerView) -> Seq<PeerView> {
    match index_of_id(s, p.0) {
        Some(i) => s.update(i, p),
        None => s.push(p),
    }
}

/// A peer with its status set to offline.
pub open spec fn offline(p: PeerView) -> PeerView {
    (p.0, p.1, p.2, p.3, p.4, p.5, "offline"@)
}

/// The online peers, in table order.
pub open spec fn online_of(s: Seq<PeerView>) -> Seq<PeerView>
    decreases s.len(),
{
    if s.len() == 0 {
        Seq::empty()
    } else {
        let rest = online_of(s.drop_last());
        if s.last().6 == "online"@ { rest.push(s.last()) } else { rest }
    }
}

/// The UTF-8 bytes of a text, which `String` compares by.
pub open spec fn utf8(s: Seq<char>) -> Seq<u8> {
    vstd::utf8::encode_utf8(s)
}

/// Lexicographic order of byte strings.
pub open spec fn bytes_le(a: Seq<u8>, b: Seq<u8>) -> bool
    decreases a.len(),
{
    if a.len() == 0 {
        true
    } else if b.len() == 0 {
        false
    } else if a[0] != b[0] {
        a[0] < b[0]
    } else {
        bytes_le(a.drop_first(), b.drop_first())
    }
}

/// Newest first: the last-seen times do not increase along the list.
pub open spec fn newest_first(s: Seq<PeerView>) -> bool {
    forall|i: int, j: int| 0 <= i < j < s.len() ==> bytes_le(utf8(s[j].5), utf8(s[i].5))
}

/// The instant an RFC 3339 text names, as whole seconds since the Unix
/// epoch and the nanoseconds past that second, as chrono parses it.
pub uninterp spec fn rfc3339_instant(text: Seq<char>) -> Option<(i64, u32)>;

/// Parses an RFC 3339 time with `chrono::DateTime::parse_from_rfc3339`,
/// giving `timestamp()` and `timestamp_subsec_nanos()`; `None` when chrono
/// refuses the text. The result is named, not described.
#[verifier::external_body]
fn parse_rfc3339(text: &str) -> (r: Option<(i64, u32)>)
    ensures
        r == rfc3339_instant(text@),
{
    match chrono::DateTime::parse_from_rfc3339(text) {
        Ok(t) => Some((t.timestamp(), t.timestamp_subsec_nanos())),
        Err(_) => None,
    }
}

/// The current time as whole seconds since the Unix epoch and nanoseconds
/// past that second (`SystemTime::now().duration_since(UNIX_EPOCH)`; the
/// epoch itself when the clock is set before it). Nothing is promised of it.
#[verifier::external_body]
fn now_utc() -> (r: (i64, u32)) {
    let d = std::time::SystemTime::now().duration_since(std::time::UNIX_EPOCH).unwrap_or_default();
    (d.as_secs() as i64, d.subsec_nanos())
}

/// An instant in nanoseconds.
pub open spec fn nanos(t: (i64, u32)) -> int {
    t.0 * 1_000_000_000 + t.1
}

/// The whole seconds from `last` to `now`, rounded toward zero, as chrono's
/// `num_seconds` counts them, then taken as `u64` (a later `last` wraps
/// around to a huge count).
pub open spec fn elapsed_secs(now: (i64, u32), last: (i64, u32)) -> u64 {
    let d = nanos(now) - nanos(last);
    let whole = if d >= 0 { d / 1_000_000_000 } else { -((-d) / 1_000_000_000) };
    whole as u64
}

/// A peer counts as stale at `now`: it is online, its last-seen time
/// parses, and more than `timeout` seconds have passed since.
pub open spec fn is_stale(p: PeerView, now: (i64, u32), timeout: u64) -> bool {
    &&& p.6 == "online"@
    &&& rfc3339_instant(p.5) is Some
    &&& elapsed_secs(now, rfc3339_instant(p.5)->0) > timeout
}

/// The table after the stale peers are marked offline.
pub open spec fn swept(s: Seq<PeerView>, now: (i64, u32), timeout: u64) -> Seq<PeerView> {
    Seq::new(s.len(), |i: int| if is_stale(s[i], now, timeout) { offline(s[i]) } else { s[i] })
}

/// The ids of the stale peers, in table order.
pub open spec fn stale_ids(s: Seq<PeerView>, now: (i64, u32), timeout: u64) -> Seq<Seq<char>>
    decreases s.len(),
{
    if s.len() == 0 {
        Seq::empty()
    } else {
        let rest = stale_ids(s.drop_last(), now, timeout);
        if is_stale(s.last(), now, timeout) { rest.push(s.last().0) } else { rest }
    }
}

/// The peers seen, each id once.
pub struct PeerTable {
    peers: Vec<PeerInfo>,
}

impl PeerTable {
    /// The peers in the order they joined the table.
    pub closed spec fn view(&self) -> Seq<PeerView> {
        peers_view(self.peers@)
    }

    #[verifier::type_invariant]
    closed spec fn inv(&self) -> bool {
        ids_unique(peers_view(self.peers@))
    }

    /// An empty table.
    pub fn new() -> (r: Self)
        ensures
            r.view() == Seq::<PeerView>::empty(),
    {
        let r = PeerTable { peers: Vec::new() };
        assert(r.view() =~= Seq::<PeerView>::empty());
        r
    }

    fn find(&self, id: &str) -> (r: Option<usize>)
        ensures
            match r {
                Some(k) => index_of_id(self.view(), id@) == Some(k as int),
                None => index_of_id(self.view(), id@) is None,
            },
    {
        proof { use_type_invariant(self); }
        let mut i = self.peers.len();
        assert(self.view().subrange(0, i as int) =~= self.view());
        while i > 0
            invariant
                i <= self.peers@.len(),
                index_of_id(self.view(), id@) == index_of_id(self.view().subrange(0, i as int), id@),
            decreases i,
        {
            let ghost pre = self.view().subrange(0, i as int);
            assert(pre.drop_last() =~= self.view().subrange(0, i - 1));
            if str_eq(self.peers[i - 1].id.as_str(), id) {
                return Some(i - 1);
            }
            i = i - 1;
        }
        None
    }

    /// Records a peer from a heartbeat, replacing the record with the same
    /// id; `true` when the id was not in the table before.
    pub fn upsert(&mut self, info: PeerInfo) -> (is_new: bool)
        ensures
            is_new == (index_of_id(old(self).view(), info.view().0) is None),
            final(self).view() == upserted(old(self).view(), info.view()),
    {
        proof { use_type_invariant(&*self); }
        let ghost s = self.view();
        let ghost p = info.view();
        let key = info.id.as_str();
        assert(key@ == p.0);
        match self.find(key) {
            Some(i) => {
                assert(index_of_id(s, p.0) == Some(i as int));
                proof { lemma_index_of_id(s, p.0); }
                assert(s[i as int].0 == p.0);
                let mut peers = Vec::new();
                std::mem::swap(&mut peers, &mut self.peers);
                peers.set(i, info);
                assert(peers_view(peers@) =~= s.update(i as int, p));
                proof { lemma_update_keeps_unique(s, i as int, p); }
                *self = PeerTable { peers };
                false
            },
            None => {
                proof { lemma_index_of_id_absent(s, p.0); }
                let mut peers = Vec::new();
                std::mem::swap(&mut peers, &mut self.peers);
                peers.push(info);
                assert(peers_view(peers@) =~= s.push(p));
                *self = PeerTable { peers };
                true
            },
        }
    }

    /// Marks a peer offline; `true` when it was in the table.
    pub fn mark_offline(&mut self, id: &str) -> (found: bool)
        ensures
            found == (index_of_id(old(self).view(), id@) is Some),
            final(self).view() == match index_of_id(old(self).view(), id@) {
                Some(i) => old(self).view().update(i, offline(old(self).view()[i])),
                None => old(self).view(),
            },
    {
        proof { use_type_invariant(&*self); }
        let ghost s = self.view();
        match self.find(id) {
            Some(i) => {
                proof { lemma_index_of_id(s, id@); }
                let mut peers = Vec::new();
                std::mem::swap(&mut peers, &mut self.peers);
                let mut p = clone_peer(&peers[i]);
                p.status = String::from_str("offline");
                peers.set(i, p);
                assert(peers_view(peers@) =~= s.update(i as int, offline(s[i as int])));
                proof { lemma_update_keeps_unique(s, i as int, offline(s[i as int])); }
                *self = PeerTable { peers };
                true
            },
            None => false,
        }
    }

    /// The peer with this id, if it is in the table.
    pub fn get(&self, id: &str) -> (r: Option<PeerInfo>)
        ensures
            match r {
                Some(p) => peer_with_id(self.view(), id@) == Some(p.view()),
                None => peer_with_id(self.view(), id@) is None,
            },
    {
        match self.find(id) {
            Some(i) => {
                proof { lemma_index_of_id(self.view(), id@); }
                Some(clone_peer(&self.peers[i]))
            },
            None => None,
        }
    }

    /// The online peers.
    pub fn online_peers(&self) -> (r: Vec<PeerInfo>)
        ensures
            peers_view(r@) == online_of(self.view()),
    {
        let mut r: Vec<PeerInfo> = Vec::new();
        let mut i: usize = 0;
        while i < self.peers.len()
            invariant
                i <= self.peers@.len(),
                peers_view(r@) == online_of(self.view().subrange(0, i as int)),
            decreases self.peers@.len() - i,
        {
            let ghost pre = self.view().subrange(0, i + 1);
            assert(pre.drop_last() =~= self.view().subrange(0, i as int));
            if str_eq(self.peers[i].status.as_str(), "online") {
                r.push(clone_peer(&self.peers[i]));
            }
            i = i + 1;
            assert(peers_view(r@) =~= online_of(self.view().subrange(0, i as int)));
        }
        assert(self.view().subrange(0, self.peers@.len() as int) =~= self.view());
        r
    }

    /// Every peer, the most recently seen first (by the last-seen text, as
    /// `String` orders it).
    pub fn list(&self) -> (r: Vec<PeerInfo>)
        ensures
            peers_view(r@).to_multiset() == self.view().to_multiset(),
            newest_first(peers_view(r@)),
    {
        let mut r: Vec<PeerInfo> = Vec::new();
        let mut i: usize = 0;
        assert(peers_view(r@) =~= self.view().subrange(0, 0));
        while i < self.peers.len()
            invariant
                i <= self.peers@.len(),
                peers_view(r@).to_multiset() == self.view().subrange(0, i as int).to_multiset(),
                newest_first(peers_view(r@)),
            decreases self.peers@.len() - i,
        {
            let p = clone_peer(&self.peers[i]);
            let ghost before = peers_view(r@);
            let ghost pv = p.view();
            let mut k = r.len();
            while k > 0 && !bytes_le_exec(p.last_seen.as_str().as_bytes(), r[k - 1].last_seen.as_str().as_bytes())
                invariant
                    k <= r@.len(),
                    peers_view(r@) == before,
                    pv == p.view(),
                    forall|j: int| k <= j < before.len() ==> !bytes_le(utf8(pv.5), utf8(#[trigger] before[j].5)),
                decreases k,
            {
                k = k - 1;
            }
            r.insert(k, p);
            proof {
                let now = peers_view(r@);
                assert(now =~= before.insert(k as int, pv));
                to_multiset_insert(before, k as int, pv);
                assert(self.view().subrange(0, i + 1) =~= self.view().subrange(0, i as int).push(pv));
                to_multiset_build(self.view().subrange(0, i as int), pv);
                assert forall|a: int, b: int| 0 <= a < b < now.len() implies bytes_le(utf8(now[b].5), utf8(now[a].5)) by {
                    if a < k && b < k {
                    } else if a > k && b > k {
                        assert(now[a] == before[a - 1] && now[b] == before[b - 1]);
                    } else if a < k && b > k {
                        assert(now[a] == before[a] && now[b] == before[b - 1]);
                        lemma_bytes_le_total(utf8(pv.5), utf8(before[b - 1].5));
                        lemma_bytes_le_transitive(utf8(before[b - 1].5), utf8(pv.5), utf8(before[k - 1].5));
                        if a < k - 1 {
                            lemma_bytes_le_transitive(utf8(before[b - 1].5), utf8(before[k - 1].5), utf8(before[a].5));
                        }
                    } else if a == k {
                        assert(now[b] == before[b - 1]);
                        lemma_bytes_le_total(utf8(pv.5), utf8(before[b - 1].5));
                    } else {
                        assert(b == k && now[a] == before[a]);
                        if a < k - 1 {
                            lemma_bytes_le_transitive(utf8(pv.5), utf8(before[k - 1].5), utf8(before[a].5));
                        }
                    }
                }
            }
            i = i + 1;
        }
        assert(self.view().subrange(0, self.peers@.len() as int) =~= self.view());
        r
    }

    /// Marks offline every online peer whose last heartbeat is more than
    /// `timeout_secs` seconds before `now`, returning their ids. A peer
    /// whose last-seen time does not parse is left as it is.
    pub fn check_stale_at(&mut self, now: (i64, u32), timeout_secs: u64) -> (stale: Vec<String>)
        ensures
            final(self).view() == swept(old(self).view(), now, timeout_secs),
            stale@.map_values(|s: String| s@) == stale_ids(old(self).view(), now, timeout_secs),
    {
        proof { use_type_invariant(&*self); }
        let ghost s = self.view();
        let mut peers = Vec::new();
        std::mem::swap(&mut peers, &mut self.peers);
        let mut stale: Vec<String> = Vec::new();
        let mut i: usize = 0;
        while i < peers.len()
            invariant
                peers@.len() == s.len(),
                i <= s.len(),
                forall|j: int| 0 <= j < i ==> #[trigger] peers@[j].view() == if is_stale(s[j], now, timeout_secs) { offline(s[j]) } else { s[j] },
                forall|j: int| i <= j < s.len() ==> #[trigger] peers@[j].view() == s[j],
                stale@.map_values(|x: String| x@) == stale_ids(s.subrange(0, i as int), now, timeout_secs),
            decreases s.len() - i,
        {
            let ghost pre = s.subrange(0, i + 1);
            assert(pre.drop_last() =~= s.subrange(0, i as int));
            assert(pre.last() == s[i as int]);
            let ghost old_ids = stale@.map_values(|x: String| x@);
            assert(peers@[i as int].view() == s[i as int]);
            let mut marked = false;
            if str_eq(peers[i].status.as_str(), "online") {
                match parse_rfc3339(peers[i].last_seen.as_str()) {
                    Some(last) => {
                        if elapsed_exec(now, last) > timeout_secs {
                            let mut p = clone_peer(&peers[i]);
                            p.status = String::from_str("offline");
                            stale.push(peers[i].id.clone());
                            assert(stale@.map_values(|x: String| x@) =~= old_ids.push(s[i as int].0));
                            peers.set(i, p);
                            marked = true;
                        }
                    },
                    None => {},
                }
            }
            assert(marked == is_stale(s[i as int], now, timeout_secs));
            i = i + 1;
            assert(stale@.map_values(|x: String| x@) =~= stale_ids(s.subrange(0, i as int), now, timeout_secs));
        }
        assert(peers_view(peers@) =~= swept(s, now, timeout_secs));
        assert(s.subrange(0, s.len() as int) =~= s);
        proof { lemma_swept_keeps_unique(s, now, timeout_secs); }
        *self = PeerTable { peers };
        stale
    }

    /// Marks offline the peers silent for more than `timeout_secs` seconds,
    /// at the current time, returning their ids.
    pub fn check_stale(&mut self, timeout_secs: u64) -> (stale: Vec<String>)
        ensures
            exists|now: (i64, u32)|
                final(self).view() == swept(old(self).view(), now, timeout_secs)
                && stale@.map_values(|s: String| s@) == stale_ids(old(self).view(), now, timeout_secs),
    {
        let now = now_utc();
        self.check_stale_at(now, timeout_secs)
    }
}

fn elapsed_exec(now: (i64, u32), last: (i64, u32)) -> (r: u64)
    ensures
        r == elapsed_secs(now, last),
{
    let d: i128 = (now.0 as i128 * 1_000_000_000 + now.1 as i128) - (last.0 as i128 * 1_000_000_000 + last.1 as i128);
    let whole: i128 = if d >= 0 { d / 1_000_000_000 } else { -((-d) / 1_000_000_000) };
    whole as u64
}

pub(crate) fn bytes_le_exec(a: &[u8], b: &[u8]) -> (r: bool)
    ensures
        r == bytes_le(a@, b@),
{
    let mut i: usize = 0;
    assert(a@.subrange(0, a@.len() as int) =~= a@);
    assert(b@.subrange(0, b@.len() as int) =~= b@);
    while i < a.len()
        invariant
            i <= a@.len(),
            i <= b@.len(),
            forall|j: int| 0 <= j < i ==> j < b@.len() && a@[j] == b@[j],
            bytes_le(a@, b@) == bytes_le(a@.subrange(i as int, a@.len() as int), b@.subrange(i as int, b@.len() as int)),
        decreases a@.len() - i,
    {
        if i >= b.len() {
            return false;
        }
        if a[i] != b[i] {
            return a[i] < b[i];
        }
        let ghost (x, y) = (a@.subrange(i as int, a@.len() as int), b@.subrange(i as int, b@.len() as int));
        assert(x.drop_first() =~= a@.subrange(i + 1, a@.len() as int));
        assert(y.drop_first() =~= b@.subrange(i + 1, b@.len() as int));
        i = i + 1;
    }
    true
}

proof fn lemma_index_of_id(s: Seq<PeerView>, id: Seq<char>)
    requires
        index_of_id(s, id) is Some,
    ensures
        0 <= index_of_id(s, id)->0 < s.len(),
        s[index_of_id(s, id)->0].0 == id,
    decreases s.len(),
{
    if s.last().0 != id {
        lemma_index_of_id(s.drop_last(), id);
    }
}

proof fn lemma_index_of_id_absent(s: Seq<PeerView>, id: Seq<char>)
    requires
        index_of_id(s, id) is None,
    ensures
        forall|i: int| 0 <= i < s.len() ==> s[i].0 != id,
    decreases s.len(),
{
    if s.len() > 0 {
        lemma_index_of_id_absent(s.drop_last(), id);
        assert forall|i: int| 0 <= i < s.len() implies s[i].0 != id by {
            if i < s.len() - 1 {
                assert(s[i] == s.drop_last()[i]);
            }
        }
    }
}

proof fn lemma_update_keeps_unique(s: Seq<PeerView>, i: int, p: PeerView)
    requires
        ids_unique(s),
        0 <= i < s.len(),
        p.0 == s[i].0,
    ensures
        ids_unique(s.update(i, p)),
{
}

proof fn lemma_swept_keeps_unique(s: Seq<PeerView>, now: (i64, u32), timeout: u64)
    requires
        ids_unique(s),
    ensures
        ids_unique(swept(s, now, timeout)),
{
}

pub(crate) proof fn lemma_bytes_le_transitive(a: Seq<u8>, b: Seq<u8>, c: Seq<u8>)
    requires
        bytes_le(a, b),
        bytes_le(b, c),
    ensures
        bytes_le(a, c),
    decreases a.len(),
{
    if a.len() > 0 && b.len() > 0 && c.len() > 0 && a[0] == b[0] && b[0] == c[0] {
        lemma_bytes_le_transitive(a.drop_first(), b.drop_first(), c.drop_first());
    }
}

pub(crate) proof fn lemma_bytes_le_total(a: Seq<u8>, b: Seq<u8>)
    ensures
        bytes_le(a, b) || bytes_le(b, a),
    decreases a.len(),
{
    if a.len() > 0 && b.len() > 0 && a[0] == b[0] {
        lemma_bytes_le_total(a.drop_first(), b.drop_first());
    }
}


proof fn lemma_same_ids_same_index(s: Seq<PeerView>, t: Seq<PeerView>, id: Seq<char>)
    requires
        s.len() == t.len(),
        forall|k: int| 0 <= k < s.len() ==> #[trigger] s[k].0 == t[k].0,
    ensures
        index_of_id(s, id) == index_of_id(t, id),
    decreases s.len(),
{
    if s.len() > 0 {
        assert(s.last().0 == t.last().0);
        lemma_same_ids_same_index(s.drop_last(), t.drop_last(), id);
    }
}

/// After a peer is recorded, looking up its id gives exactly that record.
pub proof fn law_upsert_then_get(s: Seq<PeerView>, p: PeerView)
    ensures
        peer_with_id(upserted(s, p), p.0) == Some(p),
{
    match index_of_id(s, p.0) {
        Some(i) => {
            lemma_index_of_id(s, p.0);
            lemma_same_ids_same_index(s.update(i, p), s, p.0);
        },
        None => {
            assert(s.push(p).drop_last() =~= s);
        },
    }
}

/// Recording a peer leaves what a lookup of any other id gives unchanged.
pub proof fn law_upsert_keeps_others(s: Seq<PeerView>, p: PeerView, other: Seq<char>)
    requires
        other != p.0,
    ensures
        peer_with_id(upserted(s, p), other) == peer_with_id(s, other),
{
    match index_of_id(s, p.0) {
        Some(i) => {
            lemma_index_of_id(s, p.0);
            lemma_same_ids_same_index(s.update(i, p), s, other);
            if index_of_id(s, other) is Some {
                lemma_index_of_id(s, other);
            }
        },
        None => {
            assert(s.push(p).drop_last() =~= s);
            if index_of_id(s, other) is Some {
                lemma_index_of_id(s, other);
            }
        },
    }
}

/// A peer marked offline is no longer among the online peers, and a lookup
/// gives its record with status `"offline"`.
pub proof fn law_mark_offline_then_offline(s: Seq<PeerView>, id: Seq<char>)
    requires
        ids_unique(s),
        index_of_id(s, id) is Some,
    ensures
        ({
            let i = index_of_id(s, id)->0;
            let t = s.update(i, offline(s[i]));
            &&& peer_with_id(t, id) == Some(offline(s[i]))
            &&& forall|k: int| 0 <= k < online_of(t).len() ==> #[trigger] online_of(t)[k].0 != id
        }),
{
    let i = index_of_id(s, id)->0;
    lemma_index_of_id(s, id);
    let t = s.update(i, offline(s[i]));
    lemma_same_ids_same_index(t, s, id);
    lemma_online_of_members(t);
    assert forall|k: int| 0 <= k < online_of(t).len() implies #[trigger] online_of(t)[k].0 != id by {
        let j = choose|j: int| 0 <= j < t.len() && t[j] == online_of(t)[k];
        if j == i {
            assert(t[j].6 == "offline"@);
            assert("offline"@ != "online"@) by {
                reveal_strlit("offline");
                reveal_strlit("online");
            }
        } else {
            assert(t[j].0 == s[j].0);
        }
    }
}

proof fn lemma_online_of_members(s: Seq<PeerView>)
    ensures
        forall|k: int| 0 <= k < online_of(s).len()
            ==> (exists|j: int| 0 <= j < s.len() && s[j] == #[trigger] online_of(s)[k]) && online_of(s)[k].6 == "online"@,
    decreases s.len(),
{
    if s.len() > 0 {
        lemma_online_of_members(s.drop_last());
        let rest = online_of(s.drop_last());
        assert forall|k: int| 0 <= k < online_of(s).len()
            implies (exists|j: int| 0 <= j < s.len() && s[j] == #[trigger] online_of(s)[k]) && online_of(s)[k].6 == "online"@ by {
            if k < rest.len() {
                let j = choose|j: int| 0 <= j < s.drop_last().len() && s.drop_last()[j] == rest[k];
                assert(s[j] == s.drop_last()[j]);
            } else {
                assert(s[s.len() - 1] == online_of(s)[k]);
            }
        }
    }
}

} // verus!
