//! The RDP client: the protocol is not supported, so every session request
//! is refused with one error and the framebuffer stays empty.
use vstd::prelude::*;
use super::frame_encoder::DesktopFrame;
use super::{KeyEvent, MouseEvent};

verus! {

/// The error every RDP request answers with.
pub open spec fn rdp_unsupported() -> Seq<char> {
    "RDP support is not yet implemented"@
}

fn unsupported<T>() -> (r: Result<T, String>)
    ensures
        r matches Err(e) && e@ == rdp_unsupported(),
{
    Err(String::from_str("RDP support is not yet implemented"))
}

/// An RDP session handle.
pub struct RdpClient {
    pub session_id: String,
}

impl RdpClient {
    /// A client for the session `session_id`.
    pub fn new(session_id: String) -> (r: Self)
        ensures
            r.session_id@ == session_id@,
    {
        RdpClient { session_id }
    }

    /// Connecting is refused.
    pub fn connect(&mut self, password: &str) -> (r: Result<(), String>)
        ensures
            r matches Err(e) && e@ == rdp_unsupported(),
            final(self).session_id@ == old(self).session_id@,
    {
        unsupported()
    }

    /// No frame can be read.
    pub fn poll_frame(&mut self) -> (r: Result<Option<DesktopFrame>, String>)
        ensures
            r matches Err(e) && e@ == rdp_unsupported(),
            final(self).session_id@ == old(self).session_id@,
    {
        unsupported()
    }

    /// Key events are refused.
    pub fn send_key_event(&mut self, event: KeyEvent) -> (r: Result<(), String>)
        ensures
            r matches Err(e) && e@ == rdp_unsupported(),
            final(self).session_id@ == old(self).session_id@,
    {
        unsupported()
    }

    /// Pointer events are refused.
    pub fn send_mouse_event(&mut self, event: MouseEvent) -> (r: Result<(), String>)
        ensures
            r matches Err(e) && e@ == rdp_unsupported(),
            final(self).session_id@ == old(self).session_id@,
    {
        unsupported()
    }

    /// Resizing is refused.
    pub fn resize(&mut self, width: u16, height: u16) -> (r: Result<(), String>)
        ensures
            r matches Err(e) && e@ == rdp_unsupported(),
            final(self).session_id@ == old(self).session_id@,
    {
        unsupported()
    }

    /// Disconnecting always succeeds: there is nothing to close.
    pub fn disconnect(&mut self) -> (r: Result<(), String>)
        ensures
            r is Ok,
            final(self).session_id@ == old(self).session_id@,
    {
        Ok(())
    }

    /// The framebuffer has no width.
    pub fn framebuffer_width(&self) -> (r: u16)
        ensures
            r == 0,
    {
        0
    }

    /// The framebuffer has no height.
    pub fn framebuffer_height(&self) -> (r: u16)
        ensures
            r == 0,
    {
        0
    }
}

} // verus!
