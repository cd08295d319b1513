//! Framing of the peer-to-peer connection: each frame is its serialized
//! bytes after a 4-byte big-endian length.
use vstd::prelude::*;
use crate::text::{decimal, push_bytes, push_decimal};

verus! {

/// TCP port a node listens on for peer connections.
pub const LISTEN_PORT: u16 = 42070;

/// A frame received from a peer: the sender's id and the frame's serialized
/// bytes (as read off the connection, before decoding).
pub struct IncomingFrame {
    pub peer_id: String,
    pub frame: Vec<u8>,
}

/// The largest frame, in bytes (16 MiB).
pub const MAX_FRAME_SIZE: usize = 16777216;

/// The 4 big-endian bytes of a length.
pub open spec fn be32_bytes(n: nat) -> Seq<u8> {
    seq![(n / 0x100_0000) as u8, ((n / 0x1_0000) % 256) as u8, ((n / 0x100) % 256) as u8, (n % 256) as u8]
}

/// The number four big-endian bytes give.
pub open spec fn be32_of(b: Seq<u8>) -> nat {
    (b[0] * 0x100_0000 + b[1] * 0x1_0000 + b[2] * 0x100 + b[3]) as nat
}

/// Frames serialized bytes: their length, then the bytes; more than
/// 16 MiB is an error.
pub fn frame_bytes(data: &[u8]) -> (r: Result<Vec<u8>, String>)
    ensures
        data@.len() > MAX_FRAME_SIZE ==> (r matches Err(e) && e@ == "Frame too large"@),
        data@.len() <= MAX_FRAME_SIZE ==> (r matches Ok(v) && v@ == be32_bytes(data@.len()) + data@),
{
    if data.len() > MAX_FRAME_SIZE {
        return Err(String::from_str("Frame too large"));
    }
    let n = data.len() as u32;
    let mut v: Vec<u8> = vec![(n / 0x100_0000) as u8, ((n / 0x1_0000) % 256) as u8, ((n / 0x100) % 256) as u8, (n % 256) as u8];
    push_bytes(&mut v, data);
    assert(v@ =~= be32_bytes(data@.len()) + data@);
    Ok(v)
}

/// The message for a length that is 0 or over the limit.
pub open spec fn bad_size_msg(n: nat) -> Seq<char> {
    "Invalid frame size: "@ + decimal(n)
}

/// Reads a frame's 4-byte length: the number of bytes to read next, or an
/// error for 0 or more than 16 MiB.
pub fn frame_length(len_buf: &[u8]) -> (r: Result<usize, String>)
    requires
        len_buf@.len() == 4,
    ensures
        0 < be32_of(len_buf@) <= MAX_FRAME_SIZE ==> r == Ok::<usize, String>(be32_of(len_buf@) as usize),
        !(0 < be32_of(len_buf@) <= MAX_FRAME_SIZE) ==> (r matches Err(e) && e@ == bad_size_msg(be32_of(len_buf@))),
{
    let n: u32 = (len_buf[0] as u32) * 0x100_0000 + (len_buf[1] as u32) * 0x1_0000 + (len_buf[2] as u32) * 0x100
        + len_buf[3] as u32;
    if n == 0 || n as usize > MAX_FRAME_SIZE {
        let mut m = String::from_str("Invalid frame size: ");
        push_decimal(&mut m, n as u64);
        return Err(m);
    }
    Ok(n as usize)
}

/// A framed message's length prefix reads back as the length of its bytes.
pub proof fn law_length_roundtrip(n: nat)
    requires
        n <= MAX_FRAME_SIZE,
    ensures
        be32_of(be32_bytes(n)) == n,
{
    assert(be32_of(be32_bytes(n)) == n) by (nonlinear_arith)
        requires n <= 16777216;
}

} // verus!
