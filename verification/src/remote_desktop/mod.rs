//! Remote desktop: the RFB (VNC) protocol messages and handshake decisions,
//! the framebuffer, and the tile encoder that turns it into JPEG frames.
use vstd::prelude::*;

pub mod vnc;
pub mod frame_encoder;
pub mod rdp;

verus! {

/// A keyboard event to forward: an X11 keysym, pressed or released.
#[derive(Clone, Copy, Debug)]
pub struct KeyEvent {
    pub key_code: u32,
    pub pressed: bool,
}

/// A pointer event to forward: position, button number and state.
#[derive(Clone, Copy, Debug)]
pub struct MouseEvent {
    pub x: u16,
    pub y: u16,
    pub button: u8,
    pub pressed: bool,
}

} // verus!
