//! Peer discovery on the local network: the UDP port, the heartbeat period,
//! the time after which a silent peer counts as offline, the heartbeat a
//! node sends and what a received one does to the peer table.
use vstd::prelude::*;
use crate::text::str_eq;
use peer_table::{PeerInfo, PeerTable, PeerView, index_of_id, upserted};

pub mod peer_table;

verus! {

/// UDP port the discovery heartbeats are broadcast to.
pub const DISCOVERY_PORT: u16 = 42069;

/// Seconds between two heartbeats.
pub const HEARTBEAT_INTERVAL_SECS: u64 = 5;

/// Seconds without a heartbeat after which a peer counts as offline.
pub const STALE_TIMEOUT_SECS: u64 = 30;


/// The heartbeat a node broadcasts about itself: the address is left as
/// `0.0.0.0` for receivers to fill in from the packet's source.
pub fn heartbeat_info(my_id: &str, hostname: &str, os: &str, listen_port: u16, now_rfc3339: &str) -> (r: PeerInfo)
    ensures
        r.view() == (my_id@, hostname@, "0.0.0.0"@, os@, listen_port, now_rfc3339@, "online"@),
{
    PeerInfo {
        id: String::from_str(my_id),
        hostname: String::from_str(hostname),
        ip: String::from_str("0.0.0.0"),
        os: String::from_str(os),
        listen_port,
        last_seen: String::from_str(now_rfc3339),
        status: String::from_str("online"),
    }
}

/// The record kept for a heartbeat received from `src_ip`: the sender's
/// announced fields with the real source address and the listening port.
pub open spec fn received_peer(p: PeerView, src_ip: Seq<char>, listen_port: u16) -> PeerView {
    (p.0, p.1, src_ip, p.3, listen_port, p.5, p.6)
}

/// Handles a heartbeat: one's own is ignored (`None`); any other is
/// recorded with the packet's source address and the connection port,
/// and `Some(true)` tells that the peer is new.
pub fn accept_heartbeat(table: &mut PeerTable, peer: PeerInfo, my_id: &str, src_ip: String, listen_port: u16) -> (r: Option<bool>)
    ensures
        peer.view().0 == my_id@ ==> r is None && final(table).view() == old(table).view(),
        peer.view().0 != my_id@ ==> ({
            let rec = received_peer(peer.view(), src_ip@, listen_port);
            &&& r == Some(index_of_id(old(table).view(), rec.0) is None)
            &&& final(table).view() == upserted(old(table).view(), rec)
        }),
{
    if str_eq(peer.id.as_str(), my_id) {
        return None;
    }
    let mut peer = peer;
    peer.ip = src_ip;
    peer.listen_port = listen_port;
    Some(table.upsert(peer))
}

} // verus!
