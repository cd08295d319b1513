//! Local-network device discovery: probe strings, MAC vendors, banner
//! fingerprints, OS guesses and the default port list.
use vstd::prelude::*;

pub mod banner;
pub mod discovery;
pub mod fingerprint;
pub mod os_detect;
pub mod port_scanner;

verus! {

/// What a scan learned about one port.
#[derive(Clone, Debug)]
pub struct PortResult {
    pub port: u16,
    pub protocol: String,
    pub state: String,
    pub service: Option<String>,
    pub version: Option<String>,
    pub banner: Option<String>,
    pub confidence: u8,
    pub probe_method: String,
}

/// Mathematical form of a port result, field by field.
pub type PortView = (u16, Seq<char>, Seq<char>, Option<Seq<char>>, Option<Seq<char>>, Option<Seq<char>>, u8, Seq<char>);

impl PortResult {
    pub open spec fn view(&self) -> PortView {
        (self.port, self.protocol@, self.state@, fingerprint::opt_view(self.service),
            fingerprint::opt_view(self.version), fingerprint::opt_view(self.banner), self.confidence, self.probe_method@)
    }
}

} // verus!
