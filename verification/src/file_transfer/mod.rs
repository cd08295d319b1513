//! File transfer between peers: the state of the transfers a node knows
//! of, who sent each incoming request, and the files offered to everyone.
use vstd::prelude::*;
use crate::keyed::{
    entries_view, find_keyed, insert_keyed, keyed_get, keyed_insert, keyed_remove, key_pos, remove_keyed,
};
use crate::discovery::peer_table::{bytes_le, utf8};
use crate::text::push_str;

pub mod receiver;

verus! {

/// A peer's answer to a file offer: whether it accepted, and the port to send to.
#[derive(Clone, Copy, Debug)]
pub struct FileResponseInfo {
    pub accepted: bool,
    pub data_port: u16,
}

/// A file offered to every peer at once: where it is, its name and size.
#[derive(Clone, Debug)]
pub struct BroadcastFileState {
    pub file_path: String,
    pub filename: String,
    pub file_size: u64,
}


/// A transfer in one direction, as the interface shows it.
pub struct FileTransfer {
    pub id: String,
    pub filename: String,
    pub path: Option<String>,
    pub size: u64,
    pub received: u64,
    /// `pending`, `transferring`, `completed` or `error: ...`.
    pub status: String,
    pub peer_id: String,
    pub is_incoming: bool,
    /// RFC 3339 creation time.
    pub created_at: String,
    pub download_url: Option<String>,
}

/// A transfer as values.
pub struct TransferView {
    pub id: Seq<char>,
    pub filename: Seq<char>,
    pub path: Option<Seq<char>>,
    pub size: u64,
    pub received: u64,
    pub status: Seq<char>,
    pub peer_id: Seq<char>,
    pub is_incoming: bool,
    pub created_at: Seq<char>,
    pub download_url: Option<Seq<char>>,
}

/// An optional text as values.
pub open spec fn opt_view(o: Option<String>) -> Option<Seq<char>> {
    match o {
        Some(s) => Some(s@),
        None => None,
    }
}

impl FileTransfer {
    pub open spec fn view(&self) -> TransferView {
        TransferView {
            id: self.id@,
            filename: self.filename@,
            path: opt_view(self.path),
            size: self.size,
            received: self.received,
            status: self.status@,
            peer_id: self.peer_id@,
            is_incoming: self.is_incoming,
            created_at: self.created_at@,
            download_url: opt_view(self.download_url),
        }
    }
}

fn clone_opt(o: &Option<String>) -> (r: Option<String>)
    ensures
        opt_view(r) == opt_view(*o),
{
    match o {
        Some(s) => Some(s.clone()),
        None => None,
    }
}

/// A copy of a transfer record.
pub fn clone_transfer(t: &FileTransfer) -> (r: FileTransfer)
    ensures
        r.view() == t.view(),
{
    FileTransfer {
        id: t.id.clone(),
        filename: t.filename.clone(),
        path: clone_opt(&t.path),
        size: t.size,
        received: t.received,
        status: t.status.clone(),
        peer_id: t.peer_id.clone(),
        is_incoming: t.is_incoming,
        created_at: t.created_at.clone(),
        download_url: clone_opt(&t.download_url),
    }
}

/// A broadcast file as values: path, name, size.
pub type BroadcastView = (Seq<char>, Seq<char>, u64);

impl BroadcastFileState {
    pub open spec fn view(&self) -> BroadcastView {
        (self.file_path@, self.filename@, self.file_size)
    }
}

/// The state of the transfer service as values.
pub struct ServiceView {
    pub transfers: Seq<(Seq<char>, TransferView)>,
    pub receiver_port: Option<u16>,
    pub request_senders: Seq<(Seq<char>, Seq<char>)>,
    pub broadcasts: Seq<(Seq<char>, BroadcastView)>,
}

/// A new incoming transfer, waiting to be accepted.
pub open spec fn incoming_transfer(id: Seq<char>, filename: Seq<char>, size: u64, peer_id: Seq<char>, created_at: Seq<char>) -> TransferView {
    TransferView {
        id, filename, path: None, size, received: 0, status: "pending"@, peer_id,
        is_incoming: true, created_at, download_url: None,
    }
}

/// A new outgoing transfer, being sent.
pub open spec fn outgoing_transfer(id: Seq<char>, filename: Seq<char>, path: Seq<char>, size: u64, peer_id: Seq<char>, created_at: Seq<char>) -> TransferView {
    TransferView {
        id, filename, path: Some(path), size, received: 0, status: "transferring"@, peer_id,
        is_incoming: false, created_at, download_url: None,
    }
}

/// Newest first: the creation times do not increase along the list.
pub open spec fn newest_transfers_first(s: Seq<TransferView>) -> bool {
    forall|i: int, j: int| 0 <= i < j < s.len() ==> bytes_le(utf8(s[j].created_at), utf8(s[i].created_at))
}

/// The transfers a node knows of, the senders of incoming requests, the
/// port its receiver listens on, and the files offered to every peer.
pub struct FileTransferService {
    transfers: Vec<(String, FileTransfer)>,
    receiver_port: Option<u16>,
    request_senders: Vec<(String, String)>,
    broadcast_files: Vec<(String, BroadcastFileState)>,
}

/// The transfers of a list, as values.
pub open spec fn transfers_view(v: Seq<(String, FileTransfer)>) -> Seq<(Seq<char>, TransferView)> {
    Seq::new(v.len(), |i: int| (v[i].0@, v[i].1.view()))
}

/// The broadcast files of a list, as values.
pub open spec fn broadcasts_view(v: Seq<(String, BroadcastFileState)>) -> Seq<(Seq<char>, BroadcastView)> {
    Seq::new(v.len(), |i: int| (v[i].0@, v[i].1.view()))
}

/// The request senders of a list, as values.
pub open spec fn senders_view(v: Seq<(String, String)>) -> Seq<(Seq<char>, Seq<char>)> {
    Seq::new(v.len(), |i: int| (v[i].0@, v[i].1@))
}

proof fn lemma_key_pos_views<V, W>(s: Seq<(Seq<char>, V)>, t: Seq<(Seq<char>, W)>, k: Seq<char>)
    requires
        s.len() == t.len(),
        forall|i: int| 0 <= i < s.len() ==> #[trigger] s[i].0 == t[i].0,
    ensures
        key_pos(s, k) == key_pos(t, k),
        key_pos(s, k) matches Some(i) ==> 0 <= i < s.len(),
    decreases s.len(),
{
    if s.len() > 0 {
        assert(s.last().0 == t.last().0);
        lemma_key_pos_views(s.drop_last(), t.drop_last(), k);
    }
}

impl FileTransferService {
    pub closed spec fn view(&self) -> ServiceView {
        ServiceView {
            transfers: transfers_view(self.transfers@),
            receiver_port: self.receiver_port,
            request_senders: senders_view(self.request_senders@),
            broadcasts: broadcasts_view(self.broadcast_files@),
        }
    }

    /// A service whose receiver listens on `receiver_port`, with nothing recorded.
    pub fn new(receiver_port: Option<u16>) -> (r: Self)
        ensures
            r.view().transfers == Seq::<(Seq<char>, TransferView)>::empty(),
            r.view().receiver_port == receiver_port,
            r.view().request_senders == Seq::<(Seq<char>, Seq<char>)>::empty(),
            r.view().broadcasts == Seq::<(Seq<char>, BroadcastView)>::empty(),
    {
        let r = FileTransferService {
            transfers: Vec::new(),
            receiver_port,
            request_senders: Vec::new(),
            broadcast_files: Vec::new(),
        };
        assert(r.view().transfers =~= Seq::<(Seq<char>, TransferView)>::empty());
        assert(r.view().request_senders =~= Seq::<(Seq<char>, Seq<char>)>::empty());
        assert(r.view().broadcasts =~= Seq::<(Seq<char>, BroadcastView)>::empty());
        r
    }

    /// The port the receiver listens on.
    pub fn get_receiver_port(&self) -> (r: Option<u16>)
        ensures
            r == self.view().receiver_port,
    {
        self.receiver_port
    }

    /// Records who sent the request for `file_id`.
    pub fn register_request_sender(&mut self, file_id: &str, peer_id: &str)
        ensures
            final(self).view() == (ServiceView {
                request_senders: keyed_insert(old(self).view().request_senders, file_id@, peer_id@),
                ..old(self).view()
            }),
    {
        let ghost before = self.request_senders@;
        let k = String::from_str(file_id);
        let val = String::from_str(peer_id);
        let ghost vv = val;
        insert_keyed(&mut self.request_senders, k, val);
        proof {
            lemma_entries_senders_insert(before, file_id@, vv);
            lemma_senders_entries(self.request_senders@);
            lemma_senders_entries(before);
        }
    }

    /// The sender of the request for `file_id`.
    pub fn get_request_sender(&self, file_id: &str) -> (r: Option<String>)
        ensures
            opt_view(r) == keyed_get(self.view().request_senders, file_id@),
    {
        proof { lemma_key_pos_views(entries_view(self.request_senders@), senders_view(self.request_senders@), file_id@); }
        match find_keyed(&self.request_senders, file_id) {
            Some(i) => Some(self.request_senders[i].1.clone()),
            None => None,
        }
    }

    /// Forgets the sender of the request for `file_id`.
    pub fn remove_request_sender(&mut self, file_id: &str)
        ensures
            final(self).view() == (ServiceView {
                request_senders: keyed_remove(old(self).view().request_senders, file_id@),
                ..old(self).view()
            }),
    {
        let _ = self.take_request_sender(file_id);
    }

    /// Removes and returns the sender of the request for `file_id`, so that
    /// only one handler gets it.
    pub fn take_request_sender(&mut self, file_id: &str) -> (r: Option<String>)
        ensures
            opt_view(r) == keyed_get(old(self).view().request_senders, file_id@),
            final(self).view() == (ServiceView {
                request_senders: keyed_remove(old(self).view().request_senders, file_id@),
                ..old(self).view()
            }),
    {
        let ghost before = self.request_senders@;
        proof { lemma_key_pos_views(entries_view(before), senders_view(before), file_id@); }
        let r = remove_keyed(&mut self.request_senders, file_id);
        assert(senders_view(self.request_senders@) =~= keyed_remove(senders_view(before), file_id@)) by {
            lemma_key_pos_views(entries_view(before), senders_view(before), file_id@);
            match key_pos(senders_view(before), file_id@) {
                Some(i) => {
                    assert(entries_view(self.request_senders@) == entries_view(before).remove(i));
                    assert(self.request_senders@.len() == before.len() - 1);
                    assert forall|j: int| 0 <= j < self.request_senders@.len() implies
                        #[trigger] senders_view(self.request_senders@)[j] == senders_view(before).remove(i)[j] by {
                        assert(entries_view(self.request_senders@)[j] == entries_view(before).remove(i)[j]);
                        if j < i {
                            assert(entries_view(before)[j] == (before[j].0@, before[j].1));
                        } else {
                            assert(entries_view(before)[j + 1] == (before[j + 1].0@, before[j + 1].1));
                        }
                    }
                },
                None => {
                    assert(entries_view(self.request_senders@) == entries_view(before));
                    assert forall|j: int| 0 <= j < self.request_senders@.len() implies
                        #[trigger] senders_view(self.request_senders@)[j] == senders_view(before)[j] by {
                        assert(entries_view(self.request_senders@)[j] == entries_view(before)[j]);
                    }
                },
            }
        }
        match r {
            Some(v) => {
                proof {
                    let i = key_pos(entries_view(before), file_id@)->0;
                    assert(entries_view(before)[i].1 == before[i].1);
                }
                Some(v)
            },
            None => None,
        }
    }
}

proof fn lemma_senders_entries(v: Seq<(String, String)>)
    ensures
        senders_view(v) == entries_view(v).map_values(|e: (Seq<char>, String)| (e.0, e.1@)),
{
    assert(senders_view(v) =~= entries_view(v).map_values(|e: (Seq<char>, String)| (e.0, e.1@)));
}

proof fn lemma_entries_senders_insert(s: Seq<(String, String)>, k: Seq<char>, v: String)
    ensures
        keyed_insert(entries_view(s), k, v).map_values(|e: (Seq<char>, String)| (e.0, e.1@))
            == keyed_insert(entries_view(s).map_values(|e: (Seq<char>, String)| (e.0, e.1@)), k, v@),
{
    let m = entries_view(s);
    lemma_key_pos_views(m, m.map_values(|e: (Seq<char>, String)| (e.0, e.1@)), k);
    match key_pos(m, k) {
        Some(i) => {
            assert(keyed_insert(m, k, v).map_values(|e: (Seq<char>, String)| (e.0, e.1@))
                =~= m.map_values(|e: (Seq<char>, String)| (e.0, e.1@)).update(i, (k, v@)));
        },
        None => {
            assert(keyed_insert(m, k, v).map_values(|e: (Seq<char>, String)| (e.0, e.1@))
                =~= m.map_values(|e: (Seq<char>, String)| (e.0, e.1@)).push((k, v@)));
        },
    }
}


fn find_transfer(v: &Vec<(String, FileTransfer)>, id: &str) -> (r: Option<usize>)
    ensures
        match r {
            Some(i) => key_pos(transfers_view(v@), id@) == Some(i as int) && i < v@.len(),
            None => key_pos(transfers_view(v@), id@) is None,
        },
{
    proof { lemma_key_pos_views(entries_view(v@), transfers_view(v@), id@); }
    find_keyed(v, id)
}

fn put_transfer(v: &mut Vec<(String, FileTransfer)>, t: FileTransfer)
    ensures
        transfers_view(final(v)@) == keyed_insert(transfers_view(old(v)@), t.view().id, t.view()),
{
    let ghost before = transfers_view(v@);
    let ghost tv = t.view();
    match find_transfer(v, t.id.as_str()) {
        Some(i) => {
            let k = t.id.clone();
            v.set(i, (k, t));
            assert(transfers_view(v@) =~= before.update(i as int, (tv.id, tv)));
        },
        None => {
            let k = t.id.clone();
            v.push((k, t));
            assert(transfers_view(v@) =~= before.push((tv.id, tv)));
        },
    }
}

fn replace_transfer(v: &mut Vec<(String, FileTransfer)>, i: usize, t: FileTransfer)
    requires
        i < old(v)@.len(),
    ensures
        transfers_view(final(v)@) == transfers_view(old(v)@).update(i as int, (old(v)@[i as int].0@, t.view())),
{
    let ghost before = transfers_view(v@);
    let ghost tv = t.view();
    let k = v[i].0.clone();
    v.set(i, (k, t));
    assert(transfers_view(v@) =~= before.update(i as int, (before[i as int].0, tv)));
}

/// The transfer after its progress is reported.
pub open spec fn with_progress(t: TransferView, received: u64, total: u64) -> TransferView {
    TransferView { received, size: total, ..t }
}

/// The transfer once complete: all bytes received, at `path`.
pub open spec fn completed(t: TransferView, path: Option<Seq<char>>) -> TransferView {
    TransferView { status: "completed"@, path, received: t.size, ..t }
}

/// The transfer after a failure.
pub open spec fn failed(t: TransferView, error: Seq<char>) -> TransferView {
    TransferView { status: "error: "@ + error, ..t }
}

/// The transfer with its download address.
pub open spec fn with_url(t: TransferView, url: Seq<char>) -> TransferView {
    TransferView { download_url: Some(url), ..t }
}

/// The transfers with the one for `id` changed by `f`, if it is there.
pub open spec fn changed(s: Seq<(Seq<char>, TransferView)>, id: Seq<char>, f: spec_fn(TransferView) -> TransferView) -> Seq<(Seq<char>, TransferView)> {
    match key_pos(s, id) {
        Some(i) => s.update(i, (id, f(s[i].1))),
        None => s,
    }
}

impl FileTransferService {
    /// Records an incoming file offer as a pending transfer created at `created_at`.
    pub fn register_incoming(&mut self, file_id: &str, filename: &str, file_size: u64, peer_id: &str, created_at: &str)
        ensures
            final(self).view() == (ServiceView {
                transfers: keyed_insert(old(self).view().transfers, file_id@,
                    incoming_transfer(file_id@, filename@, file_size, peer_id@, created_at@)),
                ..old(self).view()
            }),
    {
        let t = FileTransfer {
            id: String::from_str(file_id),
            filename: String::from_str(filename),
            path: None,
            size: file_size,
            received: 0,
            status: String::from_str("pending"),
            peer_id: String::from_str(peer_id),
            is_incoming: true,
            created_at: String::from_str(created_at),
            download_url: None,
        };
        put_transfer(&mut self.transfers, t);
    }

    /// Records an accepted outgoing transfer as being sent, created at `created_at`.
    pub fn start_outgoing(&mut self, file_id: &str, file_path: &str, filename: &str, file_size: u64, peer_id: &str, created_at: &str)
        ensures
            final(self).view() == (ServiceView {
                transfers: keyed_insert(old(self).view().transfers, file_id@,
                    outgoing_transfer(file_id@, filename@, file_path@, file_size, peer_id@, created_at@)),
                ..old(self).view()
            }),
    {
        let t = FileTransfer {
            id: String::from_str(file_id),
            filename: String::from_str(filename),
            path: Some(String::from_str(file_path)),
            size: file_size,
            received: 0,
            status: String::from_str("transferring"),
            peer_id: String::from_str(peer_id),
            is_incoming: false,
            created_at: String::from_str(created_at),
            download_url: None,
        };
        put_transfer(&mut self.transfers, t);
    }

    /// Reports progress: bytes received so far and the total.
    pub fn update_progress(&mut self, file_id: &str, received: u64, total: u64)
        ensures
            final(self).view() == (ServiceView {
                transfers: changed(old(self).view().transfers, file_id@, |t: TransferView| with_progress(t, received, total)),
                ..old(self).view()
            }),
    {
        if let Some(i) = find_transfer(&self.transfers, file_id) {
            let mut t = clone_transfer(&self.transfers[i].1);
            t.received = received;
            t.size = total;
            proof { crate::keyed::lemma_key_pos_found_pub(self.view().transfers, file_id@); }
            replace_transfer(&mut self.transfers, i, t);
        }
    }

    /// Marks a transfer complete, with the path of the file.
    pub fn mark_complete(&mut self, file_id: &str, path: Option<String>)
        ensures
            final(self).view() == (ServiceView {
                transfers: changed(old(self).view().transfers, file_id@, |t: TransferView| completed(t, opt_view(path))),
                ..old(self).view()
            }),
    {
        if let Some(i) = find_transfer(&self.transfers, file_id) {
            let mut t = clone_transfer(&self.transfers[i].1);
            t.status = String::from_str("completed");
            t.path = path;
            t.received = t.size;
            proof { crate::keyed::lemma_key_pos_found_pub(self.view().transfers, file_id@); }
            replace_transfer(&mut self.transfers, i, t);
        }
    }

    /// Marks a transfer failed with `error`.
    pub fn mark_error(&mut self, file_id: &str, error: &str)
        ensures
            final(self).view() == (ServiceView {
                transfers: changed(old(self).view().transfers, file_id@, |t: TransferView| failed(t, error@)),
                ..old(self).view()
            }),
    {
        if let Some(i) = find_transfer(&self.transfers, file_id) {
            let mut t = clone_transfer(&self.transfers[i].1);
            let mut st = String::from_str("error: ");
            push_str(&mut st, error);
            t.status = st;
            proof { crate::keyed::lemma_key_pos_found_pub(self.view().transfers, file_id@); }
            replace_transfer(&mut self.transfers, i, t);
        }
    }

    /// Gives a transfer its download address.
    pub fn set_download_url(&mut self, file_id: &str, url: &str)
        ensures
            final(self).view() == (ServiceView {
                transfers: changed(old(self).view().transfers, file_id@, |t: TransferView| with_url(t, url@)),
                ..old(self).view()
            }),
    {
        if let Some(i) = find_transfer(&self.transfers, file_id) {
            let mut t = clone_transfer(&self.transfers[i].1);
            t.download_url = Some(String::from_str(url));
            proof { crate::keyed::lemma_key_pos_found_pub(self.view().transfers, file_id@); }
            replace_transfer(&mut self.transfers, i, t);
        }
    }

    /// Records how an outgoing transfer ended: completed with every byte
    /// received, or the error.
    pub fn finish_outgoing(&mut self, file_id: &str, result: Result<(), String>)
        ensures
            final(self).view() == (ServiceView {
                transfers: match result {
                    Ok(()) => changed(old(self).view().transfers, file_id@, |t: TransferView|
                        TransferView { status: "completed"@, received: t.size, ..t }),
                    Err(e) => changed(old(self).view().transfers, file_id@, |t: TransferView| failed(t, e@)),
                },
                ..old(self).view()
            }),
    {
        if let Some(i) = find_transfer(&self.transfers, file_id) {
            let mut t = clone_transfer(&self.transfers[i].1);
            match result {
                Ok(()) => {
                    t.status = String::from_str("completed");
                    t.received = t.size;
                },
                Err(e) => {
                    let mut st = String::from_str("error: ");
                    push_str(&mut st, e.as_str());
                    t.status = st;
                },
            }
            proof { crate::keyed::lemma_key_pos_found_pub(self.view().transfers, file_id@); }
            replace_transfer(&mut self.transfers, i, t);
        }
    }

    /// The file name of a transfer.
    pub fn get_filename(&self, file_id: &str) -> (r: Option<String>)
        ensures
            opt_view(r) == match keyed_get(self.view().transfers, file_id@) {
                Some(t) => Some(t.filename),
                None => None,
            },
    {
        match find_transfer(&self.transfers, file_id) {
            Some(i) => Some(self.transfers[i].1.filename.clone()),
            None => None,
        }
    }

    /// Every transfer, the most recently created first (by the creation
    /// text, as `String` orders it).
    pub fn list_transfers(&self) -> (r: Vec<FileTransfer>)
        ensures
            Seq::new(r@.len(), |i: int| r@[i].view()).to_multiset()
                == self.view().transfers.map_values(|e: (Seq<char>, TransferView)| e.1).to_multiset(),
            newest_transfers_first(Seq::new(r@.len(), |i: int| r@[i].view())),
    {
        let ghost all = self.view().transfers.map_values(|e: (Seq<char>, TransferView)| e.1);
        let mut r: Vec<FileTransfer> = Vec::new();
        let mut i: usize = 0;
        assert(Seq::new(r@.len(), |i: int| r@[i].view()) =~= all.subrange(0, 0));
        while i < self.transfers.len()
            invariant
                all == self.view().transfers.map_values(|e: (Seq<char>, TransferView)| e.1),
                all.len() == self.transfers@.len(),
                i <= self.transfers@.len(),
                Seq::new(r@.len(), |i: int| r@[i].view()).to_multiset() == all.subrange(0, i as int).to_multiset(),
                newest_transfers_first(Seq::new(r@.len(), |i: int| r@[i].view())),
            decreases self.transfers@.len() - i,
        {
            let t = clone_transfer(&self.transfers[i].1);
            assert(t.view() == all[i as int]);
            let ghost before = Seq::new(r@.len(), |i: int| r@[i].view());
            let ghost tv = t.view();
            let mut k = r.len();
            while k > 0 && !crate::discovery::peer_table::bytes_le_exec(t.created_at.as_str().as_bytes(), r[k - 1].created_at.as_str().as_bytes())
                invariant
                    k <= r@.len(),
                    Seq::new(r@.len(), |i: int| r@[i].view()) == before,
                    tv == t.view(),
                    forall|j: int| k <= j < before.len() ==> !bytes_le(utf8(tv.created_at), utf8(#[trigger] before[j].created_at)),
                decreases k,
            {
                k = k - 1;
            }
            r.insert(k, t);
            proof {
                let now = Seq::new(r@.len(), |i: int| r@[i].view());
                assert(now =~= before.insert(k as int, tv));
                vstd::seq_lib::to_multiset_insert(before, k as int, tv);
                assert(all.subrange(0, i + 1) =~= all.subrange(0, i as int).push(tv));
                vstd::seq_lib::to_multiset_build(all.subrange(0, i as int), tv);
                assert forall|a: int, b: int| 0 <= a < b < now.len() implies bytes_le(utf8(now[b].created_at), utf8(now[a].created_at)) by {
                    if a < k && b < k {
                    } else if a > k && b > k {
                        assert(now[a] == before[a - 1] && now[b] == before[b - 1]);
                    } else if a < k && b > k {
                        assert(now[a] == before[a] && now[b] == before[b - 1]);
                        crate::discovery::peer_table::lemma_bytes_le_total(utf8(tv.created_at), utf8(before[b - 1].created_at));
                        crate::discovery::peer_table::lemma_bytes_le_transitive(utf8(before[b - 1].created_at), utf8(tv.created_at), utf8(before[k - 1].created_at));
                        if a < k - 1 {
                            crate::discovery::peer_table::lemma_bytes_le_transitive(utf8(before[b - 1].created_at), utf8(before[k - 1].created_at), utf8(before[a].created_at));
                        }
                    } else if a == k {
                        assert(now[b] == before[b - 1]);
                        crate::discovery::peer_table::lemma_bytes_le_total(utf8(tv.created_at), utf8(before[b - 1].created_at));
                    } else {
                        assert(b == k && now[a] == before[a]);
                        if a < k - 1 {
                            crate::discovery::peer_table::lemma_bytes_le_transitive(utf8(tv.created_at), utf8(before[k - 1].created_at), utf8(before[a].created_at));
                        }
                    }
                }
            }
            i = i + 1;
        }
        assert(all.subrange(0, self.transfers@.len() as int) =~= all);
        r
    }

    /// Offers a file to every peer.
    pub fn register_broadcast(&mut self, file_id: &str, file_path: &str, filename: &str, file_size: u64)
        ensures
            final(self).view() == (ServiceView {
                broadcasts: keyed_insert(old(self).view().broadcasts, file_id@, (file_path@, filename@, file_size)),
                ..old(self).view()
            }),
    {
        let ghost before = broadcasts_view(self.broadcast_files@);
        let st = BroadcastFileState {
            file_path: String::from_str(file_path),
            filename: String::from_str(filename),
            file_size,
        };
        proof { lemma_key_pos_views(entries_view(self.broadcast_files@), before, file_id@); }
        match find_keyed(&self.broadcast_files, file_id) {
            Some(i) => {
                self.broadcast_files.set(i, (String::from_str(file_id), st));
                assert(broadcasts_view(self.broadcast_files@) =~= before.update(i as int, (file_id@, (file_path@, filename@, file_size))));
            },
            None => {
                self.broadcast_files.push((String::from_str(file_id), st));
                assert(broadcasts_view(self.broadcast_files@) =~= before.push((file_id@, (file_path@, filename@, file_size))));
            },
        }
    }

    /// Whether `file_id` is a file offered to every peer.
    pub fn is_broadcast_file(&self, file_id: &str) -> (b: bool)
        ensures
            b == (key_pos(self.view().broadcasts, file_id@) is Some),
    {
        proof { lemma_key_pos_views(entries_view(self.broadcast_files@), broadcasts_view(self.broadcast_files@), file_id@); }
        find_keyed(&self.broadcast_files, file_id).is_some()
    }

    /// The broadcast file `file_id`.
    pub fn get_broadcast_info(&self, file_id: &str) -> (r: Option<BroadcastFileState>)
        ensures
            match r {
                Some(b) => keyed_get(self.view().broadcasts, file_id@) == Some(b.view()),
                None => keyed_get(self.view().broadcasts, file_id@) is None,
            },
    {
        proof { lemma_key_pos_views(entries_view(self.broadcast_files@), broadcasts_view(self.broadcast_files@), file_id@); }
        match find_keyed(&self.broadcast_files, file_id) {
            Some(i) => {
                let b = &self.broadcast_files[i].1;
                Some(BroadcastFileState { file_path: b.file_path.clone(), filename: b.filename.clone(), file_size: b.file_size })
            },
            None => None,
        }
    }

    /// Forgets the broadcast file `file_id`.
    pub fn remove_broadcast(&mut self, file_id: &str)
        ensures
            final(self).view() == (ServiceView {
                broadcasts: keyed_remove(old(self).view().broadcasts, file_id@),
                ..old(self).view()
            }),
    {
        let ghost before = broadcasts_view(self.broadcast_files@);
        proof { lemma_key_pos_views(entries_view(self.broadcast_files@), before, file_id@); }
        match find_keyed(&self.broadcast_files, file_id) {
            Some(i) => {
                let _ = self.broadcast_files.remove(i);
                assert(broadcasts_view(self.broadcast_files@) =~= before.remove(i as int));
            },
            None => {},
        }
    }
}


/// After a request's sender is registered, taking it gives that sender,
/// and taking it again gives nothing (when each file id is registered once).
pub proof fn law_take_request_sender_once(s: Seq<(Seq<char>, Seq<char>)>, file_id: Seq<char>, peer_id: Seq<char>)
    requires
        forall|i: int, j: int| 0 <= i < j < s.len() ==> s[i].0 != s[j].0,
    ensures
        keyed_get(keyed_insert(s, file_id, peer_id), file_id) == Some(peer_id),
        keyed_get(keyed_remove(keyed_insert(s, file_id, peer_id), file_id), file_id) is None,
{
    crate::keyed::lemma_get_after_insert(s, file_id, peer_id);
    crate::keyed::lemma_insert_keeps_unique(s, file_id, peer_id);
    crate::keyed::lemma_removed_absent(keyed_insert(s, file_id, peer_id), file_id);
}

} // verus!
