//! The RFB 3.3 protocol as the VNC client speaks it: the handshake
//! decisions, VNC authentication, the messages it sends, and copying
//! received pixels into the framebuffer.
use cipher::{BlockEncrypt, KeyInit};
use vstd::prelude::*;
use vstd::string::*;
use crate::text::{decimal, push_decimal, push_str};
use super::{KeyEvent, MouseEvent};

verus! {

/// Bytes per framebuffer pixel (R, G, B, padding).
pub const BPP: usize = 4;

/// The protocol version the client answers with.
pub fn client_version() -> (r: Vec<u8>)
    ensures
        r@ == seq![0x52u8, 0x46, 0x42, 0x20, 0x30, 0x30, 0x33, 0x2e, 0x30, 0x30, 0x33, 0x0a],
{
    let r: Vec<u8> = vec![0x52u8, 0x46, 0x42, 0x20, 0x30, 0x30, 0x33, 0x2e, 0x30, 0x30, 0x33, 0x0a];
    assert(r@ =~= seq![0x52u8, 0x46, 0x42, 0x20, 0x30, 0x30, 0x33, 0x2e, 0x30, 0x30, 0x33, 0x0a]);
    r
}

/// A 32-bit big-endian number.
pub open spec fn be32_value(b: Seq<u8>) -> int {
    b[0] * 0x100_0000 + b[1] * 0x1_0000 + b[2] * 0x100 + b[3]
}

fn read_be32(b: &[u8]) -> (r: u32)
    requires
        b@.len() == 4,
    ensures
        r == be32_value(b@),
{
    (b[0] as u32) * 0x100_0000 + (b[1] as u32) * 0x1_0000 + (b[2] as u32) * 0x100 + b[3] as u32
}

/// What the client does after the server names its security type.
#[derive(Clone, Debug, PartialEq, Eq)]
pub enum SecurityStep {
    /// Type 0: the server refuses; it sends the reason next.
    ReadFailureReason,
    /// Type 1: no authentication.
    Proceed,
    /// Type 2: VNC authentication; a 16-byte challenge follows.
    Authenticate,
    /// Any other type: the handshake fails with this message.
    Unsupported(String),
}

/// The step the client takes for a security type (see [`SecurityStep`]).
pub open spec fn security_step_for(sec_type: u32) -> (int, Seq<char>) {
    if sec_type == 0 {
        (0, Seq::empty())
    } else if sec_type == 1 {
        (1, Seq::empty())
    } else if sec_type == 2 {
        (2, Seq::empty())
    } else {
        (3, "VNC unsupported security type: "@ + decimal(sec_type as nat))
    }
}

/// The view of a step: its number and, when unsupported, the message.
pub open spec fn step_view(s: SecurityStep) -> (int, Seq<char>) {
    match s {
        SecurityStep::ReadFailureReason => (0, Seq::empty()),
        SecurityStep::Proceed => (1, Seq::empty()),
        SecurityStep::Authenticate => (2, Seq::empty()),
        SecurityStep::Unsupported(m) => (3, m@),
    }
}

/// Reads the 4-byte security type the server sends and decides the next step.
pub fn security_step(sec_buf: &[u8]) -> (r: SecurityStep)
    requires
        sec_buf@.len() == 4,
    ensures
        step_view(r) == security_step_for(be32_value(sec_buf@) as u32),
{
    let t = read_be32(sec_buf);
    if t == 0 {
        SecurityStep::ReadFailureReason
    } else if t == 1 {
        SecurityStep::Proceed
    } else if t == 2 {
        SecurityStep::Authenticate
    } else {
        let mut m = String::from_str("VNC unsupported security type: ");
        push_decimal(&mut m, t as u64);
        SecurityStep::Unsupported(m)
    }
}

/// The error when the server refuses the connection, with its reason text.
pub fn refusal_message(reason: &[u8]) -> (r: String)
    ensures
        r@ == "VNC server refused connection: "@ + crate::text::lossy_text(reason@),
{
    let mut m = String::from_str("VNC server refused connection: ");
    let text = crate::text::utf8_lossy(reason);
    push_str(&mut m, text.as_str());
    m
}

/// Reads the 4-byte security result: accepted when it is 0.
pub fn security_result(result_buf: &[u8]) -> (r: Result<(), String>)
    requires
        result_buf@.len() == 4,
    ensures
        match r {
            Ok(()) => be32_value(result_buf@) == 0,
            Err(e) => be32_value(result_buf@) != 0
                && e@ == "VNC authentication failed (result="@ + decimal(be32_value(result_buf@) as nat) + ")"@,
        },
{
    let v = read_be32(result_buf);
    if v == 0 {
        Ok(())
    } else {
        let mut m = String::from_str("VNC authentication failed (result=");
        push_decimal(&mut m, v as u64);
        push_str(&mut m, ")");
        Err(m)
    }
}

/// What the ServerInit header says: framebuffer width and height, and the
/// length of the desktop name that follows.
pub fn parse_server_init(header: &[u8]) -> (r: (u16, u16, u32))
    requires
        header@.len() == 24,
    ensures
        r.0 == header@[0] * 256 + header@[1],
        r.1 == header@[2] * 256 + header@[3],
        r.2 == be32_value(header@.subrange(20, 24)),
{
    let w: u16 = (header[0] as u16) * 256 + header[1] as u16;
    let h: u16 = (header[2] as u16) * 256 + header[3] as u16;
    let n: u32 = (header[20] as u32) * 0x100_0000 + (header[21] as u32) * 0x1_0000 + (header[22] as u32) * 0x100
        + header[23] as u32;
    (w, h, n)
}

/// The bytes of a 16-bit number, big-endian.
pub open spec fn be16_bytes(v: u16) -> Seq<u8> {
    seq![(v / 256) as u8, (v % 256) as u8]
}

/// A FramebufferUpdateRequest for the whole screen, incremental after the first.
pub open spec fn update_request(first: bool, width: u16, height: u16) -> Seq<u8> {
    seq![3u8, if first { 0u8 } else { 1u8 }, 0, 0, 0, 0] + be16_bytes(width) + be16_bytes(height)
}

/// Builds a FramebufferUpdateRequest for the whole `width` x `height` screen.
pub fn framebuffer_update_request(first: bool, width: u16, height: u16) -> (r: Vec<u8>)
    ensures
        r@ == update_request(first, width, height),
{
    let r: Vec<u8> = vec![3u8, if first { 0u8 } else { 1u8 }, 0, 0, 0, 0,
        (width / 256) as u8, (width % 256) as u8, (height / 256) as u8, (height % 256) as u8];
    assert(r@ =~= update_request(first, width, height));
    r
}

/// A KeyEvent message: type 4, down flag, two padding bytes, the keysym big-endian.
pub open spec fn key_event_bytes(e: KeyEvent) -> Seq<u8> {
    seq![4u8, if e.pressed { 1u8 } else { 0u8 }, 0, 0,
        (e.key_code / 0x100_0000) as u8, ((e.key_code / 0x1_0000) % 256) as u8,
        ((e.key_code / 0x100) % 256) as u8, (e.key_code % 256) as u8]
}

/// Builds the KeyEvent message for `event`.
pub fn key_event_message(event: KeyEvent) -> (r: Vec<u8>)
    ensures
        r@ == key_event_bytes(event),
{
    let k = event.key_code;
    let r: Vec<u8> = vec![4u8, if event.pressed { 1u8 } else { 0u8 }, 0, 0,
        (k / 0x100_0000) as u8, ((k / 0x1_0000) % 256) as u8, ((k / 0x100) % 256) as u8, (k % 256) as u8];
    assert(r@ =~= key_event_bytes(event));
    r
}

/// A PointerEvent message: type 5, the button mask (only the event's button
/// when pressed), and the position big-endian.
pub open spec fn pointer_event_bytes(e: MouseEvent) -> Seq<u8> {
    seq![5u8, if e.pressed { (1u8 << e.button) as u8 } else { 0u8 }] + be16_bytes(e.x) + be16_bytes(e.y)
}

/// Builds the PointerEvent message for `event` (a pressed button is 0 to 7).
pub fn pointer_event_message(event: MouseEvent) -> (r: Vec<u8>)
    requires
        event.pressed ==> event.button < 8,
    ensures
        r@ == pointer_event_bytes(event),
{
    let mask: u8 = if event.pressed { 1u8 << event.button } else { 0u8 };
    let r: Vec<u8> = vec![5u8, mask, (event.x / 256) as u8, (event.x % 256) as u8, (event.y / 256) as u8, (event.y % 256) as u8];
    assert(r@ =~= pointer_event_bytes(event));
    r
}

/// The client messages read back field by field as a server reads them,
/// numbers big-endian: the update request gives its incremental flag (set
/// after the first request) and the screen size; the key event its down
/// flag and keysym; the pointer event its position; the cut-text message
/// the text's length, then the text.
pub proof fn law_client_messages_read_back(first: bool, width: u16, height: u16, k: KeyEvent, m: MouseEvent, t: Seq<u8>)
    requires
        t.len() <= MAX_CUT_TEXT,
    ensures
        ({
            let u = update_request(first, width, height);
            &&& u.len() == 10 && u[0] == 3 && (u[1] == 0 <==> first)
            &&& u[6] * 256 + u[7] == width && u[8] * 256 + u[9] == height
        }),
        ({
            let b = key_event_bytes(k);
            &&& b.len() == 8 && b[0] == 4 && (b[1] == 1 <==> k.pressed)
            &&& be32_value(b.subrange(4, 8)) == k.key_code
        }),
        ({
            let b = pointer_event_bytes(m);
            &&& b.len() == 6 && b[0] == 5
            &&& b[2] * 256 + b[3] == m.x && b[4] * 256 + b[5] == m.y
        }),
        ({
            let b = cut_text_bytes(t);
            &&& b[0] == 6
            &&& be32_value(b.subrange(4, 8)) == t.len()
            &&& b.subrange(8, b.len() as int) == t
        }),
{
    let c = k.key_code as int;
    assert((c / 0x100_0000) * 0x100_0000 + ((c / 0x1_0000) % 256) * 0x1_0000 + ((c / 0x100) % 256) * 0x100 + c % 256 == c)
        by (nonlinear_arith)
        requires 0 <= c;
    let n = t.len() as int;
    assert((n / 0x100_0000) * 0x100_0000 + ((n / 0x1_0000) % 256) * 0x1_0000 + ((n / 0x100) % 256) * 0x100 + n % 256 == n)
        by (nonlinear_arith)
        requires 0 <= n;
    assert(c / 0x100_0000 < 256) by (nonlinear_arith)
        requires 0 <= c < 0x1_0000_0000;
    assert(n / 0x100_0000 < 256) by (nonlinear_arith)
        requires 0 <= n <= 1048576;
    let b = cut_text_bytes(t);
    assert(b.subrange(8, b.len() as int) =~= t);
}

/// Largest clipboard text sent to the server, in bytes.
pub const MAX_CUT_TEXT: usize = 1048576;

/// A ClientCutText message: type 6, three padding bytes, the text length
/// big-endian, the UTF-8 text.
pub open spec fn cut_text_bytes(t: Seq<u8>) -> Seq<u8> {
    seq![6u8, 0, 0, 0, (t.len() / 0x100_0000) as u8, ((t.len() / 0x1_0000) % 256) as u8,
        ((t.len() / 0x100) % 256) as u8, (t.len() % 256) as u8] + t
}

/// Builds the ClientCutText message that puts `text` on the server's
/// clipboard; refuses text over 1 MiB.
pub fn client_cut_text(text: &str) -> (r: Result<Vec<u8>, String>)
    ensures
        match r {
            Ok(m) => text.spec_bytes().len() <= MAX_CUT_TEXT && m@ == cut_text_bytes(text.spec_bytes()),
            Err(e) => text.spec_bytes().len() > MAX_CUT_TEXT && e@ == "VNC clipboard text too large"@,
        },
{
    let t = text.as_bytes();
    let len = t.len();
    if len > MAX_CUT_TEXT {
        return Err(String::from_str("VNC clipboard text too large"));
    }
    let mut buf: Vec<u8> = vec![6u8, 0, 0, 0, (len / 0x100_0000) as u8, ((len / 0x1_0000) % 256) as u8,
        ((len / 0x100) % 256) as u8, (len % 256) as u8];
    crate::text::push_bytes(&mut buf, t);
    assert(buf@ =~= cut_text_bytes(t@));
    Ok(buf)
}


/// The byte offset in the framebuffer of pixel `k` (counted row by row) of a
/// `rw`-wide rectangle at (`rx`, `ry`), in a framebuffer `fb_w` pixels wide.
pub open spec fn rect_pixel_offset(fb_w: int, rx: int, ry: int, rw: int, k: int) -> int {
    ((ry + k / rw) * fb_w + (rx + k % rw)) * 4
}

/// `fb` with the 4 bytes at `dst` replaced by `raw[src..src + 4]`.
pub open spec fn put_pixel(fb: Seq<u8>, dst: int, raw: Seq<u8>, src: int) -> Seq<u8> {
    Seq::new(fb.len(), |j: int| if dst <= j < dst + 4 { raw[src + j - dst] } else { fb[j] })
}

/// The framebuffer after the first `k` pixels of a raw rectangle are copied
/// in, row by row; a pixel whose bytes would fall past the end of the
/// framebuffer is skipped.
pub open spec fn blit_prefix(fb: Seq<u8>, fb_w: int, rx: int, ry: int, rw: int, raw: Seq<u8>, k: int) -> Seq<u8>
    decreases k,
{
    if k <= 0 {
        fb
    } else {
        let prev = blit_prefix(fb, fb_w, rx, ry, rw, raw, k - 1);
        let dst = rect_pixel_offset(fb_w, rx, ry, rw, k - 1);
        if dst + 4 <= prev.len() { put_pixel(prev, dst, raw, (k - 1) * 4) } else { prev }
    }
}

proof fn lemma_blit_len(fb: Seq<u8>, fb_w: int, rx: int, ry: int, rw: int, raw: Seq<u8>, k: int)
    ensures
        blit_prefix(fb, fb_w, rx, ry, rw, raw, k).len() == fb.len(),
    decreases k,
{
    if k > 0 {
        lemma_blit_len(fb, fb_w, rx, ry, rw, raw, k - 1);
    }
}

/// Copies a Raw-encoded rectangle (`rw` x `rh` pixels, 4 bytes each, row by
/// row) into the framebuffer at (`rx`, `ry`).
pub fn blit_raw_rect(fb: &mut Vec<u8>, fb_w: u16, rx: u16, ry: u16, rw: u16, rh: u16, raw: &[u8])
    requires
        raw@.len() == rw * rh * 4,
    ensures
        final(fb)@ == blit_prefix(old(fb)@, fb_w as int, rx as int, ry as int, rw as int, raw@, rw * rh),
{
    let ghost fb0 = fb@;
    let fb_len = fb.len() as u64;
    let rl = raw.len();
    let mut row: u16 = 0;
    proof {
        assert(0 * rw == 0) by (nonlinear_arith);
    }
    while row < rh
        invariant
            row <= rh,
            raw@.len() == rw * rh * 4,
            rl == raw@.len(),
            fb@.len() <= usize::MAX,
            fb_len == fb@.len(),
            fb@.len() == fb0.len(),
            fb@ == blit_prefix(fb0, fb_w as int, rx as int, ry as int, rw as int, raw@, row * rw),
        decreases rh - row,
    {
        let mut col: u16 = 0;
        while col < rw
            invariant
                row < rh,
                col <= rw,
                raw@.len() == rw * rh * 4,
                rl == raw@.len(),
                fb@.len() <= usize::MAX,
                fb_len == fb@.len(),
                fb@.len() == fb0.len(),
                fb@ == blit_prefix(fb0, fb_w as int, rx as int, ry as int, rw as int, raw@, row * rw + col),
            decreases rw - col,
        {
            let ghost k = row * rw + col;
            proof {
                assert(k / (rw as int) == row && k % (rw as int) == col) by (nonlinear_arith)
                    requires k == row * rw + col, 0 <= col < rw;
                assert(k * 4 + 4 <= raw@.len()) by (nonlinear_arith)
                    requires k == row * rw + col, 0 <= col < rw, 0 <= row < rh, raw@.len() == rw * rh * 4;
                lemma_blit_len(fb0, fb_w as int, rx as int, ry as int, rw as int, raw@, k);
            }
            assert((ry as u64 + row as u64) * (fb_w as u64) <= 131070 * 65535) by (nonlinear_arith)
                requires ry as u64 + row as u64 <= 131070, fb_w <= 65535;
            let dst: u64 = ((ry as u64 + row as u64) * fb_w as u64 + (rx as u64 + col as u64)) * 4;
            assert(dst == rect_pixel_offset(fb_w as int, rx as int, ry as int, rw as int, k));
            assert(row * rw <= k);
            let src: usize = ((row as usize) * (rw as usize) + col as usize) * 4;
            assert(src == k * 4) by (nonlinear_arith)
                requires src == (row * rw + col) * 4, k == row * rw + col;
            if dst + 4 <= fb_len {
                assert(dst + 4 <= fb@.len());
                let d = dst as usize;
                assert(d == dst);
                let ghost prev = fb@;
                fb.set(d, raw[src]);
                fb.set(d + 1, raw[src + 1]);
                fb.set(d + 2, raw[src + 2]);
                fb.set(d + 3, raw[src + 3]);
                assert(fb@ =~= put_pixel(prev, dst as int, raw@, k * 4));
            }
            col = col + 1;
            assert(row * rw + col == k + 1);
        }
        assert((row + 1) * rw == row * rw + rw) by (nonlinear_arith);
        row = row + 1;
    }
    assert(rh * rw == rw * rh) by (nonlinear_arith);
}


/// Whether `r` holds the bits of `b` in reverse order.
pub open spec fn bits_reversed(b: u8, r: u8) -> bool {
    forall|k: u8| k < 8 ==> #[trigger] ((r >> k) & 1) == ((b >> (7 - k) as u8) & 1)
}

/// Reversing the bits of a byte twice gives the byte back.
pub proof fn law_reverse_bits_twice(b: u8, r: u8, s: u8)
    requires
        bits_reversed(b, r),
        bits_reversed(r, s),
    ensures
        s == b,
{
    assert forall|k: u8| k < 8 implies ((s >> k) & 1) == ((b >> k) & 1) by {
        assert(((s >> k) & 1) == ((r >> (7 - k) as u8) & 1));
        assert(((r >> (7 - k) as u8) & 1) == ((b >> (7 - (7 - k) as u8) as u8) & 1));
        assert((7 - (7 - k) as u8) as u8 == k);
    }
    assert(((s >> 0u8) & 1) == ((b >> 0u8) & 1));
    assert(((s >> 1u8) & 1) == ((b >> 1u8) & 1));
    assert(((s >> 2u8) & 1) == ((b >> 2u8) & 1));
    assert(((s >> 3u8) & 1) == ((b >> 3u8) & 1));
    assert(((s >> 4u8) & 1) == ((b >> 4u8) & 1));
    assert(((s >> 5u8) & 1) == ((b >> 5u8) & 1));
    assert(((s >> 6u8) & 1) == ((b >> 6u8) & 1));
    assert(((s >> 7u8) & 1) == ((b >> 7u8) & 1));
    assert(s == b) by (bit_vector)
        requires
            ((s >> 0u8) & 1) == ((b >> 0u8) & 1),
            ((s >> 1u8) & 1) == ((b >> 1u8) & 1),
            ((s >> 2u8) & 1) == ((b >> 2u8) & 1),
            ((s >> 3u8) & 1) == ((b >> 3u8) & 1),
            ((s >> 4u8) & 1) == ((b >> 4u8) & 1),
            ((s >> 5u8) & 1) == ((b >> 5u8) & 1),
            ((s >> 6u8) & 1) == ((b >> 6u8) & 1),
            ((s >> 7u8) & 1) == ((b >> 7u8) & 1),
    ;
}

/// Reverses the order of the bits of a byte.
pub fn reverse_bits(b: u8) -> (r: u8)
    ensures
        bits_reversed(b, r),
{
    let r: u8 = ((b & 1) << 7) | ((b & 2) << 5) | ((b & 4) << 3) | ((b & 8) << 1) | ((b & 16) >> 1) | ((b & 32) >> 3)
        | ((b & 64) >> 5) | ((b & 128) >> 7);
    assert(forall|k: u8| k < 8 ==> #[trigger] ((r >> k) & 1) == ((b >> (7 - k) as u8) & 1)) by (bit_vector)
        requires
            r == ((b & 1) << 7) | ((b & 2) << 5) | ((b & 4) << 3) | ((b & 8) << 1) | ((b & 16) >> 1) | ((b & 32) >> 3)
                | ((b & 64) >> 5) | ((b & 128) >> 7);
    r
}

/// The DES key VNC authentication derives from a password: its first 8
/// bytes, each with its bits reversed, zero-padded to 8 bytes.
pub open spec fn vnc_key_of(pw: Seq<u8>, key: Seq<u8>) -> bool {
    key.len() == 8 && forall|i: int| 0 <= i < 8 ==> if i < pw.len() { bits_reversed(pw[i], #[trigger] key[i]) } else { key[i] == 0 }
}

/// Derives the DES key of VNC authentication from a password.
pub fn vnc_key(password: &str) -> (key: Vec<u8>)
    ensures
        vnc_key_of(password.spec_bytes(), key@),
{
    let pw = password.as_bytes();
    let mut key: Vec<u8> = Vec::new();
    let mut i: usize = 0;
    while i < 8
        invariant
            i <= 8,
            key@.len() == i,
            pw@ == password.spec_bytes(),
            forall|j: int| 0 <= j < i ==> if j < pw@.len() { bits_reversed(pw@[j], #[trigger] key@[j]) } else { key@[j] == 0 },
        decreases 8 - i,
    {
        if i < pw.len() {
            let r = reverse_bits(pw[i]);
            key.push(r);
        } else {
            key.push(0);
        }
        i = i + 1;
    }
    key
}

/// What DES (`des::Des`) makes of the 8-byte `block` under the 8-byte `key`.
pub uninterp spec fn des_block(key: Seq<u8>, block: Seq<u8>) -> Seq<u8>;

/// Encrypts one 8-byte block with DES (`des::Des::new` and `encrypt_block`).
/// Claimed: the result is the block named by [`des_block`], 8 bytes long.
#[verifier::external_body]
fn des_encrypt_block(key: &[u8], block: &[u8]) -> (r: Vec<u8>)
    requires
        key@.len() == 8,
        block@.len() == 8,
    ensures
        r@ == des_block(key@, block@),
        r@.len() == 8,
{
    let cipher = des::Des::new(cipher::generic_array::GenericArray::from_slice(key));
    let mut b = cipher::generic_array::GenericArray::clone_from_slice(block);
    cipher.encrypt_block(&mut b);
    b.to_vec()
}

/// The response to a VNC challenge: each 8-byte block encrypted in turn.
pub open spec fn challenge_response(key: Seq<u8>, challenge: Seq<u8>, n: nat) -> Seq<u8>
    decreases n,
{
    if n == 0 {
        Seq::empty()
    } else {
        challenge_response(key, challenge, (n - 1) as nat)
            + des_block(key, challenge.subrange(8 * (n - 1), 8 * n as int))
    }
}

/// Answers a VNC authentication challenge (a whole number of 8-byte
/// blocks) with the password: DES in ECB mode under [`vnc_key`].
pub fn vnc_encrypt_challenge(password: &str, challenge: &[u8]) -> (r: Vec<u8>)
    requires
        challenge@.len() % 8 == 0,
    ensures
        exists|key: Seq<u8>| vnc_key_of(password.spec_bytes(), key)
            && r@ == challenge_response(key, challenge@, (challenge@.len() / 8) as nat),
{
    let key = vnc_key(password);
    let cl = challenge.len();
    let n = cl / 8;
    let mut out: Vec<u8> = Vec::new();
    let mut b: usize = 0;
    while b < n
        invariant
            b <= n,
            n == challenge@.len() / 8,
            cl == challenge@.len(),
            challenge@.len() % 8 == 0,
            key@.len() == 8,
            out@ == challenge_response(key@, challenge@, b as nat),
        decreases n - b,
    {
        assert(8 * b + 8 <= challenge@.len()) by (nonlinear_arith)
            requires b < n, n == challenge@.len() / 8;
        let mut block: Vec<u8> = Vec::new();
        let mut k: usize = 0;
        while k < 8
            invariant
                k <= 8,
                b < n,
                8 * b + 8 <= challenge@.len(),
                cl == challenge@.len(),
                n == challenge@.len() / 8,
                block@ == challenge@.subrange(8 * b, 8 * b + k),
            decreases 8 - k,
        {
            block.push(challenge[8 * b + k]);
            k = k + 1;
            assert(block@ =~= challenge@.subrange(8 * b, 8 * b + k));
        }
        let enc = des_encrypt_block(key.as_slice(), block.as_slice());
        crate::text::push_bytes(&mut out, enc.as_slice());
        b = b + 1;
    }
    assert(vnc_key_of(password.spec_bytes(), key@));
    out
}


/// A rectangle header of a framebuffer update: position, size, encoding.
#[derive(Clone, Copy, Debug)]
pub struct RectHeader {
    pub x: u16,
    pub y: u16,
    pub width: u16,
    pub height: u16,
    pub encoding: i32,
}

/// A big-endian 16-bit number.
pub open spec fn be16_value(b: Seq<u8>, o: int) -> int {
    b[o] * 256 + b[o + 1]
}

/// The signed 32-bit number of four big-endian bytes.
pub open spec fn be_i32(b: Seq<u8>, o: int) -> int {
    let u = b[o] * 0x100_0000 + b[o + 1] * 0x1_0000 + b[o + 2] * 0x100 + b[o + 3];
    if u >= 0x8000_0000 { u - 0x1_0000_0000 } else { u }
}

/// Reads a 12-byte rectangle header: x, y, width, height, encoding.
pub fn parse_rect_header(h: &[u8]) -> (r: RectHeader)
    requires
        h@.len() == 12,
    ensures
        r.x == be16_value(h@, 0),
        r.y == be16_value(h@, 2),
        r.width == be16_value(h@, 4),
        r.height == be16_value(h@, 6),
        r.encoding == be_i32(h@, 8),
{
    let x = (h[0] as u16) * 256 + h[1] as u16;
    let y = (h[2] as u16) * 256 + h[3] as u16;
    let width = (h[4] as u16) * 256 + h[5] as u16;
    let height = (h[6] as u16) * 256 + h[7] as u16;
    let u = read_be32(&h[8..12]);
    assert(h@.subrange(8, 12)[0] == h@[8] && h@.subrange(8, 12)[1] == h@[9]);
    assert(h@.subrange(8, 12)[2] == h@[10] && h@.subrange(8, 12)[3] == h@[11]);
    let encoding: i32 = if u >= 0x8000_0000 { (u as i64 - 0x1_0000_0000i64) as i32 } else { u as i32 };
    RectHeader { x, y, width, height, encoding }
}

/// How a rectangle's pixel data is read.
#[derive(Clone, Copy, Debug, PartialEq, Eq)]
pub enum RectPayload {
    /// Encoding 0: raw pixels, 4 bytes each.
    Raw,
    /// Encoding -239: a length-prefixed JPEG image.
    Jpeg,
    /// Any other encoding: this many bytes (4 per pixel) are skipped.
    Skip(u64),
}

/// The payload kind of a rectangle with this encoding and size.
pub fn rect_payload(encoding: i32, width: u16, height: u16) -> (r: RectPayload)
    ensures
        encoding == 0 ==> r == RectPayload::Raw,
        encoding == -239 ==> r == RectPayload::Jpeg,
        encoding != 0 && encoding != -239 ==> r == RectPayload::Skip((width * height * 4) as u64),
{
    if encoding == 0 {
        RectPayload::Raw
    } else if encoding == -239 {
        RectPayload::Jpeg
    } else {
        assert(width * height * 4 <= 0xffff * 0xffff * 4) by (nonlinear_arith)
            requires width <= 0xffff, height <= 0xffff;
        RectPayload::Skip(width as u64 * height as u64 * 4)
    }
}

/// The server-to-client messages the client handles.
#[derive(Clone, Copy, Debug, PartialEq, Eq)]
pub enum ServerMessage {
    FramebufferUpdate,
    SetColorMapEntries,
    Bell,
    ServerCutText,
    Unknown(u8),
}

/// The message a type byte announces.
pub fn server_message(msg_type: u8) -> (r: ServerMessage)
    ensures
        r == (if msg_type == 0 { ServerMessage::FramebufferUpdate }
            else if msg_type == 1 { ServerMessage::SetColorMapEntries }
            else if msg_type == 2 { ServerMessage::Bell }
            else if msg_type == 3 { ServerMessage::ServerCutText }
            else { ServerMessage::Unknown(msg_type) }),
{
    match msg_type {
        0 => ServerMessage::FramebufferUpdate,
        1 => ServerMessage::SetColorMapEntries,
        2 => ServerMessage::Bell,
        3 => ServerMessage::ServerCutText,
        other => ServerMessage::Unknown(other),
    }
}

/// Whether server cut text of this length is read (non-empty, under 1 MiB).
pub fn cut_text_readable(len: u32) -> (b: bool)
    ensures
        b == (0 < len < 1024 * 1024),
{
    len > 0 && len < 1024 * 1024
}

/// The message for a JPEG rectangle over 10 MiB.
pub open spec fn jpeg_too_large_msg(len: u32) -> Seq<char> {
    "VNC JPEG rect too large: "@ + decimal(len as nat)
}

/// Checks the announced length of a JPEG rectangle (at most 10 MiB).
pub fn jpeg_length(len: u32) -> (r: Result<usize, String>)
    ensures
        len <= 10 * 1024 * 1024 ==> r == Ok::<usize, String>(len as usize),
        len > 10 * 1024 * 1024 ==> (r matches Err(e) && e@ == jpeg_too_large_msg(len)),
{
    if len > 10 * 1024 * 1024 {
        let mut msg = String::from_str("VNC JPEG rect too large: ");
        push_decimal(&mut msg, len as u64);
        return Err(msg);
    }
    Ok(len as usize)
}

/// The image a JPEG file decodes to with the `image` crate (width, height,
/// RGB888 pixels row by row), or `None` when it does not decode.
pub uninterp spec fn jpeg_rgb(data: Seq<u8>) -> Option<(u32, u32, Seq<u8>)>;

/// Decodes a JPEG file with `image::load_from_memory` and converts it with
/// `to_rgb8`. Claimed: the result named by [`jpeg_rgb`], whose pixel buffer
/// holds `width * height * 3` bytes.
#[verifier::external_body]
fn decode_jpeg(data: &[u8]) -> (r: Option<(u32, u32, Vec<u8>)>)
    ensures
        match r {
            Some((w, h, px)) => jpeg_rgb(data@) == Some((w, h, px@)) && px@.len() == w * h * 3,
            None => jpeg_rgb(data@) is None,
        },
{
    match image::load_from_memory(data) {
        Ok(img) => {
            let rgb = img.to_rgb8();
            Some((rgb.width(), rgb.height(), rgb.into_raw()))
        },
        Err(_) => None,
    }
}

/// `fb` with the 3 bytes at `dst` replaced by `rgb[src..src + 3]`.
pub open spec fn put_rgb(fb: Seq<u8>, dst: int, rgb: Seq<u8>, src: int) -> Seq<u8> {
    Seq::new(fb.len(), |j: int| if dst <= j < dst + 3 { rgb[src + j - dst] } else { fb[j] })
}

/// The framebuffer after the first `k` pixels (row by row) of a `rw`-wide
/// rectangle at (`rx`, `ry`) take their R, G, B from an image `img_w`
/// pixels wide; the padding byte is kept, and a pixel whose bytes would
/// fall past the end of the framebuffer is skipped.
pub open spec fn blit_rgb_prefix(fb: Seq<u8>, fb_w: int, rx: int, ry: int, rw: int, img_w: int, rgb: Seq<u8>, k: int) -> Seq<u8>
    decreases k,
{
    if k <= 0 {
        fb
    } else {
        let prev = blit_rgb_prefix(fb, fb_w, rx, ry, rw, img_w, rgb, k - 1);
        let dst = rect_pixel_offset(fb_w, rx, ry, rw, k - 1);
        let src = ((k - 1) / rw * img_w + (k - 1) % rw) * 3;
        if dst + 4 <= prev.len() { put_rgb(prev, dst, rgb, src) } else { prev }
    }
}

proof fn lemma_blit_rgb_len(fb: Seq<u8>, fb_w: int, rx: int, ry: int, rw: int, img_w: int, rgb: Seq<u8>, k: int)
    ensures
        blit_rgb_prefix(fb, fb_w, rx, ry, rw, img_w, rgb, k).len() == fb.len(),
    decreases k,
{
    if k > 0 {
        lemma_blit_rgb_len(fb, fb_w, rx, ry, rw, img_w, rgb, k - 1);
    }
}

/// Copies the top-left `rw` x `rh` pixels of a decoded image into the
/// framebuffer at (`rx`, `ry`) (R, G and B of each pixel).
pub fn blit_rgb_rect(fb: &mut Vec<u8>, fb_w: u16, rx: u16, ry: u16, rw: u16, rh: u16, img_w: u32, img_h: u32, rgb: &[u8])
    requires
        rw <= img_w,
        rh <= img_h,
        rgb@.len() == img_w * img_h * 3,
    ensures
        final(fb)@ == blit_rgb_prefix(old(fb)@, fb_w as int, rx as int, ry as int, rw as int, img_w as int, rgb@, rw * rh),
{
    let ghost fb0 = fb@;
    let fb_len = fb.len() as u64;
    let rl = rgb.len();
    let mut row: u16 = 0;
    proof {
        assert(0 * rw == 0) by (nonlinear_arith);
    }
    while row < rh
        invariant
            row <= rh,
            rw <= img_w,
            rh <= img_h,
            rgb@.len() == img_w * img_h * 3,
            rl == rgb@.len(),
            fb@.len() <= usize::MAX,
            fb_len == fb@.len(),
            fb@.len() == fb0.len(),
            fb@ == blit_rgb_prefix(fb0, fb_w as int, rx as int, ry as int, rw as int, img_w as int, rgb@, row * rw),
        decreases rh - row,
    {
        let mut col: u16 = 0;
        while col < rw
            invariant
                row < rh,
                col <= rw,
                rw <= img_w,
                rh <= img_h,
                rgb@.len() == img_w * img_h * 3,
                rl == rgb@.len(),
                fb@.len() <= usize::MAX,
                fb_len == fb@.len(),
                fb@.len() == fb0.len(),
                fb@ == blit_rgb_prefix(fb0, fb_w as int, rx as int, ry as int, rw as int, img_w as int, rgb@, row * rw + col),
            decreases rw - col,
        {
            let ghost k = row * rw + col;
            proof {
                assert(k / (rw as int) == row && k % (rw as int) == col) by (nonlinear_arith)
                    requires k == row * rw + col, 0 <= col < rw;
                assert((row * img_w + col) * 3 + 3 <= img_w * img_h * 3) by (nonlinear_arith)
                    requires 0 <= col < rw, rw <= img_w, 0 <= row < rh, rh <= img_h;
                lemma_blit_rgb_len(fb0, fb_w as int, rx as int, ry as int, rw as int, img_w as int, rgb@, k);
            }
            assert((ry as u64 + row as u64) * (fb_w as u64) <= 131070 * 65535) by (nonlinear_arith)
                requires ry as u64 + row as u64 <= 131070, fb_w <= 65535;
            let dst: u64 = ((ry as u64 + row as u64) * fb_w as u64 + (rx as u64 + col as u64)) * 4;
            assert(dst == rect_pixel_offset(fb_w as int, rx as int, ry as int, rw as int, k));
            assert((row as u64) * (img_w as u64) <= 0xffff * 0xffff_ffff) by (nonlinear_arith)
                requires row <= 0xffff, img_w <= 0xffff_ffff;
            let src64: u64 = ((row as u64) * (img_w as u64) + col as u64) * 3;
            assert(src64 + 3 <= rgb@.len());
            let src = src64 as usize;
            assert(src == src64);
            if dst + 4 <= fb_len {
                assert(dst + 4 <= fb@.len());
                let d = dst as usize;
                assert(d == dst);
                let ghost prev = fb@;
                fb.set(d, rgb[src]);
                fb.set(d + 1, rgb[src + 1]);
                fb.set(d + 2, rgb[src + 2]);
                assert(fb@ =~= put_rgb(prev, dst as int, rgb@, src as int));
            }
            col = col + 1;
            assert(row * rw + col == k + 1);
        }
        assert((row + 1) * rw == row * rw + rw) by (nonlinear_arith);
        row = row + 1;
    }
    assert(rh * rw == rw * rh) by (nonlinear_arith);
}

/// What a JPEG rectangle does to the framebuffer: if the data decodes to an
/// image at least as large as the rectangle, its top-left pixels are
/// copied in; if it does not decode, nothing changes. `None` when the image
/// is smaller than the rectangle.
pub open spec fn jpeg_rect_result(fb: Seq<u8>, fb_w: u16, rx: u16, ry: u16, rw: u16, rh: u16, data: Seq<u8>) -> Option<Seq<u8>> {
    match jpeg_rgb(data) {
        None => Some(fb),
        Some((w, h, px)) => if rw <= w && rh <= h {
            Some(blit_rgb_prefix(fb, fb_w as int, rx as int, ry as int, rw as int, w as int, px, rw * rh))
        } else {
            None
        },
    }
}

/// Applies a JPEG rectangle to the framebuffer. An image smaller than the
/// rectangle is refused (`false`, framebuffer unchanged).
pub fn apply_jpeg_rect(fb: &mut Vec<u8>, fb_w: u16, rx: u16, ry: u16, rw: u16, rh: u16, data: &[u8]) -> (ok: bool)
    ensures
        ok == (jpeg_rect_result(old(fb)@, fb_w, rx, ry, rw, rh, data@) is Some),
        ok ==> Some(final(fb)@) == jpeg_rect_result(old(fb)@, fb_w, rx, ry, rw, rh, data@),
        !ok ==> final(fb)@ == old(fb)@,
{
    match decode_jpeg(data) {
        None => true,
        Some((w, h, px)) => {
            if (rw as u32) <= w && (rh as u32) <= h {
                blit_rgb_rect(fb, fb_w, rx, ry, rw, rh, w, h, px.as_slice());
                true
            } else {
                false
            }
        },
    }
}

} // verus!
