//! Verified core logic of a desktop network toolkit: DNS wire-format
//! encoding and decoding, subnet arithmetic, MAC vendor lookup, port and
//! banner fingerprinting, ICMP packet building, HTTP line parsing and more.
use vstd::prelude::*;

pub mod text;
pub mod port_scan;
pub mod network_sniffer;
pub mod mac_lookup;
pub mod cancel;
pub mod connection;
pub mod dns;
pub mod subnet;
pub mod ipaddr;
pub mod codegen;
pub mod file_server;
pub mod file_transfer;
pub mod bookmark;
pub mod settings;
pub mod http_check;
pub mod ping;
pub mod ssl_check;
pub mod clipboard;
pub mod discovery;
pub mod remote_desktop;
pub mod bandwidth;
pub mod preset;
pub mod env;
pub mod log_buffer;
pub mod keyed;
pub mod mdns;
pub mod snmp;
pub mod monitor;

verus! {
}
