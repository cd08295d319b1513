//! The tile encoder: splits a framebuffer (4 bytes per pixel: R, G, B,
//! padding) into 64x64 tiles, compares each tile with the frame it sent
//! before, and JPEG-encodes the tiles that changed (every tile of the first
//! frame after creation or a resize).
use vstd::prelude::*;
use vstd::arithmetic::div_mod::{
    lemma_fundamental_div_mod, lemma_fundamental_div_mod_converse, lemma_mod_pos_bound,
};

verus! {

/// Bytes per framebuffer pixel (R, G, B, padding).
const BYTES_PER_PIXEL: usize = 4;

/// The side of a square tile, in pixels.
const TILE_SIZE: u32 = 64;

/// One encoded rectangle of the remote screen.
pub struct DesktopFrame {
    pub session_id: String,
    pub x: u16,
    pub y: u16,
    pub width: u16,
    pub height: u16,
    pub data: Vec<u8>,
    pub encoding: String,
}

/// A frame as values: session id, x, y, width, height, data, encoding.
pub type FrameView = (Seq<char>, u16, u16, u16, u16, Seq<u8>, Seq<char>);

impl DesktopFrame {
    pub open spec fn view(&self) -> FrameView {
        (self.session_id@, self.x, self.y, self.width, self.height, self.data@, self.encoding@)
    }
}

/// The frames of a list, as values.
pub open spec fn frames_view(v: Seq<DesktopFrame>) -> Seq<FrameView> {
    Seq::new(v.len(), |i: int| v[i].view())
}

/// The JPEG file that the `image` crate's encoder writes for RGB888 pixels
/// of the given size at the given quality.
pub uninterp spec fn jpeg_of(rgb: Seq<u8>, width: u32, height: u32, quality: u8) -> Seq<u8>;

/// JPEG-encodes RGB888 pixels with `image::codecs::jpeg::JpegEncoder`
/// (`new_with_quality`, then `encode` as `Rgb8`). The encoder panics unless
/// the buffer holds exactly `width * height * 3` bytes; an encoding error
/// leaves what was written so far. The result is named, not described.
#[verifier::external_body]
fn encode_jpeg(data: &[u8], width: u32, height: u32, quality: u8) -> (r: Vec<u8>)
    requires
        data@.len() == width * height * 3,
    ensures
        r@ == jpeg_of(data@, width, height, quality),
{
    let mut buf: Vec<u8> = Vec::new();
    {
        let mut encoder = image::codecs::jpeg::JpegEncoder::new_with_quality(&mut buf, quality);
        let _ = encoder.encode(data, width, height, image::ExtendedColorType::Rgb8);
    }
    buf
}

/// The number of tiles needed to cover `n` pixels.
pub open spec fn tile_count(n: int) -> int {
    (n + 63) / 64
}

/// The extent of the tile that starts at `start` on a side of `n` pixels.
pub open spec fn tile_span(n: int, start: int) -> int {
    if n - start < 64 { n - start } else { 64 }
}

/// The offset of pixel (`x`, `y`) in a framebuffer `w` pixels wide.
pub open spec fn pixel_offset(w: int, x: int, y: int) -> int {
    (y * w + x) * 4
}

/// The bytes of the first `rows` rows of the `tw`-pixel-wide tile at
/// (`x0`, `y0`), row after row.
pub open spec fn tile_bytes(buf: Seq<u8>, w: int, x0: int, y0: int, tw: int, rows: nat) -> Seq<u8>
    decreases rows,
{
    if rows == 0 {
        Seq::empty()
    } else {
        let s = pixel_offset(w, x0, y0 + rows - 1);
        tile_bytes(buf, w, x0, y0, tw, (rows - 1) as nat) + buf.subrange(s, s + tw * 4)
    }
}

/// `b` with the bytes from `at` on replaced by `s`.
pub open spec fn splice(b: Seq<u8>, at: int, s: Seq<u8>) -> Seq<u8> {
    b.subrange(0, at) + s + b.subrange(at + s.len(), b.len() as int)
}

/// `buf` with the first `rows` rows of the tile at (`x0`, `y0`) copied from `src`.
pub open spec fn put_tile(buf: Seq<u8>, src: Seq<u8>, w: int, x0: int, y0: int, tw: int, rows: nat) -> Seq<u8>
    decreases rows,
{
    if rows == 0 {
        buf
    } else {
        let s = pixel_offset(w, x0, y0 + rows - 1);
        splice(put_tile(buf, src, w, x0, y0, tw, (rows - 1) as nat), s, src.subrange(s, s + tw * 4))
    }
}

/// The R, G, B bytes of 4-byte pixels (the padding byte dropped).
pub open spec fn rgb_of(px: Seq<u8>) -> Seq<u8>
    decreases px.len(),
{
    if px.len() < 4 {
        Seq::empty()
    } else {
        let n = px.len() - 4;
        rgb_of(px.subrange(0, n)) + seq![px[n], px[n + 1], px[n + 2]]
    }
}

/// The frame reported for a tile.
pub open spec fn tile_frame(x0: int, y0: int, tw: int, th: int, data: Seq<u8>) -> FrameView {
    (Seq::empty(), x0 as u16, y0 as u16, tw as u16, th as u16, data, "jpeg"@)
}

/// The frames emitted so far and the stored previous frame.
pub type EncodeState = (Seq<FrameView>, Seq<u8>);

/// Encoding the tile in column `tx` and row `ty`: it is emitted (and stored
/// as the previous frame's content) when this is the first frame or its
/// bytes differ from the stored ones.
pub open spec fn encode_tile(st: EncodeState, raw: Seq<u8>, w: int, h: int, first: bool, quality: u8, tx: int, ty: int) -> EncodeState {
    let x0 = tx * 64;
    let y0 = ty * 64;
    let tw = tile_span(w, x0);
    let th = tile_span(h, y0);
    let tile = tile_bytes(raw, w, x0, y0, tw, th as nat);
    if first || tile_bytes(st.1, w, x0, y0, tw, th as nat) != tile {
        (
            st.0.push(tile_frame(x0, y0, tw, th, jpeg_of(rgb_of(tile), tw as u32, th as u32, quality))),
            put_tile(st.1, raw, w, x0, y0, tw, th as nat),
        )
    } else {
        st
    }
}

/// Encoding the first `n` tiles of tile row `ty`, left to right.
pub open spec fn encode_tile_row(st: EncodeState, raw: Seq<u8>, w: int, h: int, first: bool, quality: u8, ty: int, n: nat) -> EncodeState
    decreases n,
{
    if n == 0 {
        st
    } else {
        encode_tile(encode_tile_row(st, raw, w, h, first, quality, ty, (n - 1) as nat), raw, w, h, first, quality, n - 1, ty)
    }
}

/// Encoding the first `m` tile rows, top to bottom.
pub open spec fn encode_tile_rows(st: EncodeState, raw: Seq<u8>, w: int, h: int, first: bool, quality: u8, m: nat) -> EncodeState
    decreases m,
{
    if m == 0 {
        st
    } else {
        let prior = encode_tile_rows(st, raw, w, h, first, quality, (m - 1) as nat);
        encode_tile_row(prior, raw, w, h, first, quality, m - 1, tile_count(w) as nat)
    }
}

/// The first frame: the whole screen as one JPEG frame at (0, 0) (nothing
/// for an empty screen), with the screen stored.
pub open spec fn first_frame_state(raw: Seq<u8>, w: int, h: int, quality: u8) -> EncodeState {
    let px = raw.subrange(0, w * h * 4);
    if w > 0 && h > 0 {
        (seq![tile_frame(0, 0, w, h, jpeg_of(rgb_of(px), w as u32, h as u32, quality))], px)
    } else {
        (Seq::empty(), px)
    }
}

/// The whole frame: on the first frame the screen as a single frame;
/// after it the tiles that changed. Also the stored frame after.
pub open spec fn encode_all(previous: Seq<u8>, raw: Seq<u8>, w: int, h: int, first: bool, quality: u8) -> EncodeState {
    if first {
        first_frame_state(raw, w, h, quality)
    } else {
        encode_tile_rows((Seq::empty(), previous), raw, w, h, false, quality, tile_count(h) as nat)
    }
}


/// The `tw` x `th` tile at (`x0`, `y0`) lies inside a `w` x `h` screen.
pub open spec fn tile_fits(w: int, h: int, x0: int, y0: int, tw: int, th: int) -> bool {
    0 <= x0 && 0 <= tw && x0 + tw <= w && 0 <= y0 && 0 <= th && y0 + th <= h
}

/// Byte `k` of row `r` of the tile at (`x0`, `y0`).
pub open spec fn tile_at(buf: Seq<u8>, w: int, x0: int, y0: int, r: int, k: int) -> u8 {
    buf[pixel_offset(w, x0, y0 + r) + k]
}

proof fn lemma_row_fits(w: int, h: int, x0: int, y0: int, tw: int, r: int)
    requires
        0 <= x0,
        0 <= tw,
        x0 + tw <= w,
        0 <= y0,
        0 <= r,
        y0 + r < h,
    ensures
        0 <= pixel_offset(w, x0, y0 + r),
        pixel_offset(w, x0, y0 + r) + tw * 4 <= w * h * 4,
{
    assert(0 <= ((y0 + r) * w + x0) * 4) by (nonlinear_arith)
        requires 0 <= x0, 0 <= y0 + r, 0 <= w;
    assert(((y0 + r) * w + x0) * 4 + tw * 4 <= w * h * 4) by (nonlinear_arith)
        requires x0 + tw <= w, y0 + r + 1 <= h, 0 <= w;
}

proof fn lemma_tile_bytes_len(buf: Seq<u8>, w: int, h: int, x0: int, y0: int, tw: int, rows: nat)
    requires
        tile_fits(w, h, x0, y0, tw, rows as int),
        w * h * 4 <= buf.len(),
    ensures
        tile_bytes(buf, w, x0, y0, tw, rows).len() == rows * tw * 4,
    decreases rows,
{
    if rows > 0 {
        lemma_tile_bytes_len(buf, w, h, x0, y0, tw, (rows - 1) as nat);
        lemma_row_fits(w, h, x0, y0, tw, rows - 1);
        let s = pixel_offset(w, x0, y0 + rows - 1);
        assert(buf.subrange(s, s + tw * 4).len() == tw * 4);
        assert((rows - 1) * tw * 4 + tw * 4 == rows * tw * 4) by (nonlinear_arith);
        assert(tile_bytes(buf, w, x0, y0, tw, rows) == tile_bytes(buf, w, x0, y0, tw, (rows - 1) as nat) + buf.subrange(s, s + tw * 4));
    } else {
        assert(rows * tw * 4 == 0) by (nonlinear_arith) requires rows == 0;
    }
}

proof fn lemma_tile_bytes_index(buf: Seq<u8>, w: int, h: int, x0: int, y0: int, tw: int, rows: nat, r: int, k: int)
    requires
        tile_fits(w, h, x0, y0, tw, rows as int),
        w * h * 4 <= buf.len(),
        0 <= r < rows,
        0 <= k < tw * 4,
    ensures
        tile_bytes(buf, w, x0, y0, tw, rows)[r * tw * 4 + k] == buf[pixel_offset(w, x0, y0 + r) + k],
    decreases rows,
{
    lemma_tile_bytes_len(buf, w, h, x0, y0, tw, (rows - 1) as nat);
    lemma_row_fits(w, h, x0, y0, tw, rows - 1);
    if r < rows - 1 {
        lemma_tile_bytes_index(buf, w, h, x0, y0, tw, (rows - 1) as nat, r, k);
        assert(r * tw * 4 + k < (rows - 1) * tw * 4) by (nonlinear_arith)
            requires r + 1 <= rows - 1, k < tw * 4, 0 <= tw;
    } else {
        assert(r * tw * 4 == (rows - 1) * tw * 4);
    }
}

proof fn lemma_tile_bytes_eq(a: Seq<u8>, b: Seq<u8>, w: int, h: int, x0: int, y0: int, tw: int, rows: nat)
    requires
        tile_fits(w, h, x0, y0, tw, rows as int),
        w * h * 4 <= a.len(),
        w * h * 4 <= b.len(),
        forall|r: int, k: int| 0 <= r < rows && 0 <= k < tw * 4
            ==> #[trigger] tile_at(a, w, x0, y0, r, k) == tile_at(b, w, x0, y0, r, k),
    ensures
        tile_bytes(a, w, x0, y0, tw, rows) == tile_bytes(b, w, x0, y0, tw, rows),
    decreases rows,
{
    if rows > 0 {
        lemma_tile_bytes_eq(a, b, w, h, x0, y0, tw, (rows - 1) as nat);
        lemma_row_fits(w, h, x0, y0, tw, rows - 1);
        let s = pixel_offset(w, x0, y0 + rows - 1);
        assert forall|k: int| 0 <= k < tw * 4
            implies #[trigger] a.subrange(s, s + tw * 4)[k] == b.subrange(s, s + tw * 4)[k] by {
            assert(tile_at(a, w, x0, y0, rows - 1, k) == tile_at(b, w, x0, y0, rows - 1, k));
        }
        assert(a.subrange(s, s + tw * 4) =~= b.subrange(s, s + tw * 4));
    }
}

fn copy_tile(raw: &[u8], w: usize, h: usize, x0: usize, y0: usize, tw: usize, th: usize) -> (t: Vec<u8>)
    requires
        tile_fits(w as int, h as int, x0 as int, y0 as int, tw as int, th as int),
        w * h * 4 <= raw@.len(),
        w * h * 4 <= usize::MAX,
    ensures
        t@ == tile_bytes(raw@, w as int, x0 as int, y0 as int, tw as int, th as nat),
{
    let mut t: Vec<u8> = Vec::new();
    let mut row: usize = 0;
    while row < th
        invariant
            tile_fits(w as int, h as int, x0 as int, y0 as int, tw as int, th as int),
            w * h * 4 <= raw@.len(),
            w * h * 4 <= usize::MAX,
            row <= th,
            t@ == tile_bytes(raw@, w as int, x0 as int, y0 as int, tw as int, row as nat),
        decreases th - row,
    {
        proof { lemma_row_fits(w as int, h as int, x0 as int, y0 as int, tw as int, row as int); }
        let start: usize = ((y0 + row) * w + x0) * BYTES_PER_PIXEL;
        let n: usize = tw * BYTES_PER_PIXEL;
        let ghost before = t@;
        let mut k: usize = 0;
        while k < n
            invariant
                start + n <= raw@.len(),
                start + n <= w * h * 4,
                w * h * 4 <= usize::MAX,
                start as int == pixel_offset(w as int, x0 as int, y0 + row),
                k <= n,
                t@ == before + raw@.subrange(start as int, start + k),
            decreases n - k,
        {
            t.push(raw[start + k]);
            k = k + 1;
            assert(t@ =~= before + raw@.subrange(start as int, start + k));
        }
        row = row + 1;
    }
    t
}

fn tile_changed(previous: &Vec<u8>, raw: &[u8], w: usize, h: usize, x0: usize, y0: usize, tw: usize, th: usize) -> (b: bool)
    requires
        tile_fits(w as int, h as int, x0 as int, y0 as int, tw as int, th as int),
        w * h * 4 <= raw@.len(),
        w * h * 4 <= previous@.len(),
        w * h * 4 <= usize::MAX,
    ensures
        b == (tile_bytes(previous@, w as int, x0 as int, y0 as int, tw as int, th as nat)
            != tile_bytes(raw@, w as int, x0 as int, y0 as int, tw as int, th as nat)),
{
    let ghost (wi, hi, xi, yi, twi) = (w as int, h as int, x0 as int, y0 as int, tw as int);
    let mut row: usize = 0;
    while row < th
        invariant
            tile_fits(wi, hi, xi, yi, twi, th as int),
            wi == w, hi == h, xi == x0, yi == y0, twi == tw,
            w * h * 4 <= raw@.len(),
            w * h * 4 <= previous@.len(),
            w * h * 4 <= usize::MAX,
            row <= th,
            forall|r: int, k: int| 0 <= r < row && 0 <= k < twi * 4
                ==> #[trigger] tile_at(previous@, wi, xi, yi, r, k) == tile_at(raw@, wi, xi, yi, r, k),
        decreases th - row,
    {
        proof { lemma_row_fits(wi, hi, xi, yi, twi, row as int); }
        let start: usize = ((y0 + row) * w + x0) * BYTES_PER_PIXEL;
        let n: usize = tw * BYTES_PER_PIXEL;
        let mut k: usize = 0;
        while k < n
            invariant
                tile_fits(wi, hi, xi, yi, twi, th as int),
                wi == w, hi == h, xi == x0, yi == y0, twi == tw,
                row < th,
                w * h * 4 <= raw@.len(),
                w * h * 4 <= previous@.len(),
                start + n <= w * h * 4,
                w * h * 4 <= usize::MAX,
                start as int == pixel_offset(wi, xi, yi + row),
                n == twi * 4,
                k <= n,
                forall|kk: int| 0 <= kk < k ==> #[trigger] tile_at(previous@, wi, xi, yi, row as int, kk) == tile_at(raw@, wi, xi, yi, row as int, kk),
            decreases n - k,
        {
            if previous[start + k] != raw[start + k] {
                proof {
                    lemma_tile_bytes_index(previous@, wi, hi, xi, yi, twi, th as nat, row as int, k as int);
                    lemma_tile_bytes_index(raw@, wi, hi, xi, yi, twi, th as nat, row as int, k as int);
                }
                return true;
            }
            k = k + 1;
        }
        proof {
            assert forall|r: int, kk: int| 0 <= r < row + 1 && 0 <= kk < twi * 4
                implies #[trigger] tile_at(previous@, wi, xi, yi, r, kk) == tile_at(raw@, wi, xi, yi, r, kk) by {
                if r == row {
                    assert(tile_at(previous@, wi, xi, yi, row as int, kk) == tile_at(raw@, wi, xi, yi, row as int, kk));
                }
            }
        }
        row = row + 1;
    }
    proof { lemma_tile_bytes_eq(previous@, raw@, wi, hi, xi, yi, twi, th as nat); }
    false
}

fn put_tile_exec(previous: &mut Vec<u8>, raw: &[u8], w: usize, h: usize, x0: usize, y0: usize, tw: usize, th: usize)
    requires
        tile_fits(w as int, h as int, x0 as int, y0 as int, tw as int, th as int),
        w * h * 4 <= raw@.len(),
        w * h * 4 == old(previous)@.len(),
        w * h * 4 <= usize::MAX,
    ensures
        final(previous)@ == put_tile(old(previous)@, raw@, w as int, x0 as int, y0 as int, tw as int, th as nat),
        final(previous)@.len() == old(previous)@.len(),
{
    let ghost orig = previous@;
    let mut row: usize = 0;
    while row < th
        invariant
            tile_fits(w as int, h as int, x0 as int, y0 as int, tw as int, th as int),
            w * h * 4 <= raw@.len(),
            w * h * 4 == previous@.len(),
            w * h * 4 <= usize::MAX,
            row <= th,
            previous@ == put_tile(orig, raw@, w as int, x0 as int, y0 as int, tw as int, row as nat),
        decreases th - row,
    {
        proof { lemma_row_fits(w as int, h as int, x0 as int, y0 as int, tw as int, row as int); }
        let start: usize = ((y0 + row) * w + x0) * BYTES_PER_PIXEL;
        let n: usize = tw * BYTES_PER_PIXEL;
        let ghost before = previous@;
        assert(splice(before, start as int, raw@.subrange(start as int, start as int)) =~= before);
        let mut k: usize = 0;
        while k < n
            invariant
                start + n <= raw@.len(),
                start + n <= previous@.len(),
                start + n <= w * h * 4,
                w * h * 4 <= usize::MAX,
                before.len() == previous@.len(),
                start as int == pixel_offset(w as int, x0 as int, y0 + row),
                k <= n,
                previous@ == splice(before, start as int, raw@.subrange(start as int, start + k)),
            decreases n - k,
        {
            let b = raw[start + k];
            previous.set(start + k, b);
            k = k + 1;
            assert(previous@ =~= splice(before, start as int, raw@.subrange(start as int, start + k)));
        }
        row = row + 1;
    }
}

#[verifier::rlimit(40)]
fn rgb_pixels(px: &Vec<u8>) -> (r: Vec<u8>)
    requires
        px@.len() % 4 == 0,
    ensures
        r@ == rgb_of(px@),
        r@.len() == px@.len() / 4 * 3,
{
    let mut r: Vec<u8> = Vec::new();
    let mut i: usize = 0;
    while i < px.len()
        invariant
            px@.len() % 4 == 0,
            i % 4 == 0,
            i <= px@.len(),
            r@ == rgb_of(px@.subrange(0, i as int)),
            r@.len() == i / 4 * 3,
        decreases px@.len() - i,
    {
        let ghost pre = px@.subrange(0, i + 4);
        assert(pre.subrange(0, i as int) =~= px@.subrange(0, i as int));
        r.push(px[i]);
        r.push(px[i + 1]);
        r.push(px[i + 2]);
        i = i + 4;
        assert(r@ =~= rgb_of(px@.subrange(0, i as int)));
    }
    assert(px@.subrange(0, px@.len() as int) =~= px@);
    r
}


/// The pixel row of byte `i` of a framebuffer `w` pixels wide.
pub open spec fn row_of(i: int, w: int) -> int {
    i / (w * 4)
}

/// The byte of byte `i` within its pixel row.
pub open spec fn col_of(i: int, w: int) -> int {
    i % (w * 4)
}

/// Byte `i` lies in the first `rows` rows of the `tw`-pixel-wide tile at (`x0`, `y0`).
pub open spec fn in_tile(i: int, w: int, x0: int, y0: int, tw: int, rows: int) -> bool {
    y0 <= row_of(i, w) < y0 + rows && x0 * 4 <= col_of(i, w) < (x0 + tw) * 4
}

proof fn lemma_offset_coords(w: int, x0: int, tw: int, y: int, k: int)
    requires
        w > 0,
        0 <= x0,
        0 <= tw,
        x0 + tw <= w,
        0 <= y,
        0 <= k < tw * 4,
    ensures
        row_of(pixel_offset(w, x0, y) + k, w) == y,
        col_of(pixel_offset(w, x0, y) + k, w) == x0 * 4 + k,
{
    assert(pixel_offset(w, x0, y) + k == y * (w * 4) + (x0 * 4 + k)) by (nonlinear_arith);
    lemma_fundamental_div_mod_converse(pixel_offset(w, x0, y) + k, w * 4, y, x0 * 4 + k);
}

proof fn lemma_coords_offset(i: int, w: int, x0: int)
    requires
        w > 0,
        0 <= i,
    ensures
        i == pixel_offset(w, x0, row_of(i, w)) + (col_of(i, w) - x0 * 4),
        0 <= col_of(i, w) < w * 4,
        0 <= row_of(i, w),
{
    lemma_fundamental_div_mod(i, w * 4);
    lemma_mod_pos_bound(i, w * 4);
    assert(0 <= row_of(i, w)) by (nonlinear_arith)
        requires i == (w * 4) * (i / (w * 4)) + i % (w * 4), 0 <= i % (w * 4) < w * 4, 0 <= i, w > 0;
    assert(pixel_offset(w, x0, row_of(i, w)) + (col_of(i, w) - x0 * 4) == (w * 4) * row_of(i, w) + col_of(i, w))
        by (nonlinear_arith);
}

proof fn lemma_put_tile_index(buf: Seq<u8>, src: Seq<u8>, w: int, h: int, x0: int, y0: int, tw: int, rows: nat, i: int)
    requires
        tile_fits(w, h, x0, y0, tw, rows as int),
        w > 0,
        buf.len() == w * h * 4,
        src.len() >= w * h * 4,
        0 <= i < buf.len(),
    ensures
        put_tile(buf, src, w, x0, y0, tw, rows).len() == buf.len(),
        put_tile(buf, src, w, x0, y0, tw, rows)[i] == if in_tile(i, w, x0, y0, tw, rows as int) { src[i] } else { buf[i] },
    decreases rows,
{
    if rows > 0 {
        lemma_put_tile_index(buf, src, w, h, x0, y0, tw, (rows - 1) as nat, i);
        lemma_row_fits(w, h, x0, y0, tw, rows - 1);
        let s = pixel_offset(w, x0, y0 + rows - 1);
        let b = put_tile(buf, src, w, x0, y0, tw, (rows - 1) as nat);
        assert(put_tile(buf, src, w, x0, y0, tw, rows) == splice(b, s, src.subrange(s, s + tw * 4)));
        lemma_coords_offset(i, w, x0);
        if s <= i < s + tw * 4 {
            lemma_offset_coords(w, x0, tw, y0 + rows - 1, i - s);
        } else if row_of(i, w) == y0 + rows - 1 && x0 * 4 <= col_of(i, w) < (x0 + tw) * 4 {
            assert(false);
        }
    }
}

proof fn lemma_tile_eq_pointwise(a: Seq<u8>, b: Seq<u8>, w: int, h: int, x0: int, y0: int, tw: int, rows: nat, i: int)
    requires
        tile_fits(w, h, x0, y0, tw, rows as int),
        w > 0,
        a.len() >= w * h * 4,
        b.len() >= w * h * 4,
        tile_bytes(a, w, x0, y0, tw, rows) == tile_bytes(b, w, x0, y0, tw, rows),
        0 <= i,
        in_tile(i, w, x0, y0, tw, rows as int),
    ensures
        a[i] == b[i],
{
    lemma_coords_offset(i, w, x0);
    let r = row_of(i, w) - y0;
    let k = col_of(i, w) - x0 * 4;
    lemma_tile_bytes_index(a, w, h, x0, y0, tw, rows, r, k);
    lemma_tile_bytes_index(b, w, h, x0, y0, tw, rows, r, k);
}

/// The tile column and tile row of byte `i`.
pub open spec fn tile_of(i: int, w: int) -> (int, int) {
    (col_of(i, w) / 256, row_of(i, w) / 64)
}

proof fn lemma_tile_membership(i: int, w: int, h: int, tx: int, ty: int)
    requires
        w > 0,
        h > 0,
        0 <= i < w * h * 4,
        0 <= tx < tile_count(w),
        0 <= ty < tile_count(h),
    ensures
        tile_fits(w, h, tx * 64, ty * 64, tile_span(w, tx * 64), tile_span(h, ty * 64)),
        in_tile(i, w, tx * 64, ty * 64, tile_span(w, tx * 64), tile_span(h, ty * 64)) <==> tile_of(i, w) == (tx, ty),
        0 <= tile_of(i, w).0 < tile_count(w),
        0 <= tile_of(i, w).1 < tile_count(h),
{
    lemma_coords_offset(i, w, 0);
    let c = col_of(i, w);
    let y = row_of(i, w);
    assert(y < h) by (nonlinear_arith)
        requires i == (y * w + 0) * 4 + (c - 0 * 4), 0 <= c, i < w * h * 4, w > 0, 0 <= y;
    assert(tx * 64 < w) by (nonlinear_arith)
        requires tx < (w + 63) / 64, w > 0;
    assert(ty * 64 < h) by (nonlinear_arith)
        requires ty < (h + 63) / 64, h > 0;
    lemma_fundamental_div_mod(c, 256);
    lemma_mod_pos_bound(c, 256);
    lemma_fundamental_div_mod(y, 64);
    lemma_mod_pos_bound(y, 64);
    assert(c / 256 < tile_count(w)) by (nonlinear_arith)
        requires c == 256 * (c / 256) + c % 256, 0 <= c % 256, c < w * 4;
    assert(y / 64 < tile_count(h)) by (nonlinear_arith)
        requires y == 64 * (y / 64) + y % 64, 0 <= y % 64, y < h;
    assert(0 <= c / 256) by (nonlinear_arith)
        requires c == 256 * (c / 256) + c % 256, c % 256 < 256, 0 <= c;
    assert(0 <= y / 64) by (nonlinear_arith)
        requires y == 64 * (y / 64) + y % 64, y % 64 < 64, 0 <= y;
    if tile_of(i, w) == (tx, ty) {
        assert(in_tile(i, w, tx * 64, ty * 64, tile_span(w, tx * 64), tile_span(h, ty * 64)));
    }
    if in_tile(i, w, tx * 64, ty * 64, tile_span(w, tx * 64), tile_span(h, ty * 64)) {
        lemma_fundamental_div_mod_converse(c, 256, tx, c - tx * 256);
        lemma_fundamental_div_mod_converse(y, 64, ty, y - ty * 64);
    }
}

/// Bytes whose tile comes before tile `n` of tile row `m`.
pub open spec fn tile_done(i: int, w: int, m: int, n: int) -> bool {
    tile_of(i, w).1 < m || (tile_of(i, w).1 == m && tile_of(i, w).0 < n)
}

/// The stored frame agrees with `raw` on every byte of the tiles before tile `n` of row `m`.
pub open spec fn stored_upto(st: EncodeState, raw: Seq<u8>, w: int, h: int, m: int, n: int) -> bool {
    &&& st.1.len() == w * h * 4
    &&& forall|i: int| 0 <= i < w * h * 4 && #[trigger] tile_done(i, w, m, n) ==> st.1[i] == raw[i]
}

proof fn lemma_encode_tile_stores(st: EncodeState, raw: Seq<u8>, w: int, h: int, first: bool, quality: u8, tx: int, ty: int)
    requires
        w > 0,
        h > 0,
        0 <= tx < tile_count(w),
        0 <= ty < tile_count(h),
        st.1.len() == w * h * 4,
        raw.len() >= w * h * 4,
    ensures
        ({
            let res = encode_tile(st, raw, w, h, first, quality, tx, ty);
            &&& res.1.len() == w * h * 4
            &&& forall|i: int| 0 <= i < w * h * 4 ==> #[trigger] res.1[i] == if tile_of(i, w) == (tx, ty) { raw[i] } else { st.1[i] }
        }),
{
    let x0 = tx * 64;
    let y0 = ty * 64;
    let tw = tile_span(w, x0);
    let th = tile_span(h, y0);
    let res = encode_tile(st, raw, w, h, first, quality, tx, ty);
    assert(0 < w * h * 4) by (nonlinear_arith) requires w > 0, h > 0;
    lemma_tile_membership(0, w, h, tx, ty);
    lemma_put_tile_index(st.1, raw, w, h, x0, y0, tw, th as nat, 0);
    assert forall|i: int| 0 <= i < w * h * 4 implies #[trigger] res.1[i] == if tile_of(i, w) == (tx, ty) { raw[i] } else { st.1[i] } by {
        lemma_tile_membership(i, w, h, tx, ty);
        lemma_put_tile_index(st.1, raw, w, h, x0, y0, tw, th as nat, i);
        if !(first || tile_bytes(st.1, w, x0, y0, tw, th as nat) != tile_bytes(raw, w, x0, y0, tw, th as nat)) {
            if tile_of(i, w) == (tx, ty) {
                lemma_tile_eq_pointwise(st.1, raw, w, h, x0, y0, tw, th as nat, i);
            }
        }
    }
}

proof fn lemma_encode_row_stores(st: EncodeState, raw: Seq<u8>, w: int, h: int, first: bool, quality: u8, ty: int, n: nat)
    requires
        w > 0,
        h > 0,
        n <= tile_count(w),
        0 <= ty < tile_count(h),
        raw.len() >= w * h * 4,
        stored_upto(st, raw, w, h, ty, 0),
    ensures
        stored_upto(encode_tile_row(st, raw, w, h, first, quality, ty, n), raw, w, h, ty, n as int),
    decreases n,
{
    if n > 0 {
        let prior = encode_tile_row(st, raw, w, h, first, quality, ty, (n - 1) as nat);
        lemma_encode_row_stores(st, raw, w, h, first, quality, ty, (n - 1) as nat);
        lemma_encode_tile_stores(prior, raw, w, h, first, quality, n - 1, ty);
        let res = encode_tile_row(st, raw, w, h, first, quality, ty, n);
        assert forall|i: int| 0 <= i < w * h * 4 && #[trigger] tile_done(i, w, ty, n as int) implies res.1[i] == raw[i] by {
            if tile_of(i, w) != (n - 1, ty) {
                assert(tile_done(i, w, ty, n - 1));
            }
        }
    } else {
        assert forall|i: int| 0 <= i < w * h * 4 && #[trigger] tile_done(i, w, ty, 0) implies st.1[i] == raw[i] by {
            assert(tile_done(i, w, ty, 0));
        }
    }
}

proof fn lemma_encode_rows_stores(st: EncodeState, raw: Seq<u8>, w: int, h: int, first: bool, quality: u8, m: nat)
    requires
        w > 0,
        h > 0,
        m <= tile_count(h),
        raw.len() >= w * h * 4,
        st.1.len() == w * h * 4,
    ensures
        stored_upto(encode_tile_rows(st, raw, w, h, first, quality, m), raw, w, h, m as int, 0),
    decreases m,
{
    if m > 0 {
        let prior = encode_tile_rows(st, raw, w, h, first, quality, (m - 1) as nat);
        lemma_encode_rows_stores(st, raw, w, h, first, quality, (m - 1) as nat);
        lemma_encode_row_stores(prior, raw, w, h, first, quality, m - 1, tile_count(w) as nat);
        let res = encode_tile_rows(st, raw, w, h, first, quality, m);
        assert forall|i: int| 0 <= i < w * h * 4 && #[trigger] tile_done(i, w, m as int, 0) implies res.1[i] == raw[i] by {
            lemma_tile_membership(i, w, h, 0, 0);
            assert(tile_done(i, w, m - 1, tile_count(w)));
        }
    }
}

/// After a frame is encoded, the encoder holds exactly that frame: every
/// tile that was sent was stored, and every tile that was not sent already
/// held the same bytes.
pub proof fn law_encoder_stores_frame(previous: Seq<u8>, raw: Seq<u8>, w: u16, h: u16, first: bool, quality: u8)
    requires
        previous.len() == w * h * 4,
        raw.len() >= w * h * 4,
    ensures
        encode_all(previous, raw, w as int, h as int, first, quality).1 == raw.subrange(0, w * h * 4),
{
    let res = encode_all(previous, raw, w as int, h as int, first, quality);
    if first {
    } else if w == 0 || h == 0 {
        assert(w * h * 4 == 0) by (nonlinear_arith) requires w == 0 || h == 0;
        assert(tile_count(w as int) == 0 || tile_count(h as int) == 0);
        if h == 0 {
            assert(res.1 =~= raw.subrange(0, w * h * 4));
        } else {
            lemma_empty_rows_keep(previous, raw, w as int, h as int, first, quality, tile_count(h as int) as nat);
            assert(res.1 =~= raw.subrange(0, w * h * 4));
        }
    } else {
        lemma_encode_rows_stores((Seq::empty(), previous), raw, w as int, h as int, first, quality, tile_count(h as int) as nat);
        assert forall|i: int| 0 <= i < w * h * 4 implies #[trigger] res.1[i] == raw.subrange(0, w * h * 4)[i] by {
            lemma_tile_membership(i, w as int, h as int, 0, 0);
            assert(tile_done(i, w as int, tile_count(h as int), 0));
        }
        assert(res.1 =~= raw.subrange(0, w * h * 4));
    }
}

proof fn lemma_empty_rows_keep(previous: Seq<u8>, raw: Seq<u8>, w: int, h: int, first: bool, quality: u8, m: nat)
    requires
        tile_count(w) == 0,
    ensures
        encode_tile_rows((Seq::empty(), previous), raw, w, h, first, quality, m) == (Seq::<FrameView>::empty(), previous),
    decreases m,
{
    if m > 0 {
        lemma_empty_rows_keep(previous, raw, w, h, first, quality, (m - 1) as nat);
    }
}


proof fn lemma_same_tile_unchanged(raw: Seq<u8>, w: int, h: int, quality: u8, tx: int, ty: int)
    requires
        w > 0,
        h > 0,
        0 <= tx < tile_count(w),
        0 <= ty < tile_count(h),
        raw.len() >= w * h * 4,
    ensures
        ({
            let st: EncodeState = (Seq::empty(), raw.subrange(0, w * h * 4));
            encode_tile(st, raw, w, h, false, quality, tx, ty) == st
        }),
{
    let p = raw.subrange(0, w * h * 4);
    let x0 = tx * 64;
    let y0 = ty * 64;
    let tw = tile_span(w, x0);
    let th = tile_span(h, y0);
    assert(0 < w * h * 4) by (nonlinear_arith) requires w > 0, h > 0;
    lemma_tile_membership(0, w, h, tx, ty);
    assert forall|r: int, k: int| 0 <= r < th && 0 <= k < tw * 4
        implies #[trigger] tile_at(p, w, x0, y0, r, k) == tile_at(raw, w, x0, y0, r, k) by {
        lemma_row_fits(w, h, x0, y0, tw, r);
    }
    lemma_tile_bytes_eq(p, raw, w, h, x0, y0, tw, th as nat);
}

proof fn lemma_same_row_unchanged(raw: Seq<u8>, w: int, h: int, quality: u8, ty: int, n: nat)
    requires
        w > 0,
        h > 0,
        n <= tile_count(w),
        0 <= ty < tile_count(h),
        raw.len() >= w * h * 4,
    ensures
        ({
            let st: EncodeState = (Seq::empty(), raw.subrange(0, w * h * 4));
            encode_tile_row(st, raw, w, h, false, quality, ty, n) == st
        }),
    decreases n,
{
    if n > 0 {
        lemma_same_row_unchanged(raw, w, h, quality, ty, (n - 1) as nat);
        lemma_same_tile_unchanged(raw, w, h, quality, n - 1, ty);
    }
}

proof fn lemma_same_rows_unchanged(raw: Seq<u8>, w: int, h: int, quality: u8, m: nat)
    requires
        w > 0,
        h > 0,
        m <= tile_count(h),
        raw.len() >= w * h * 4,
    ensures
        ({
            let st: EncodeState = (Seq::empty(), raw.subrange(0, w * h * 4));
            encode_tile_rows(st, raw, w, h, false, quality, m) == st
        }),
    decreases m,
{
    if m > 0 {
        lemma_same_rows_unchanged(raw, w, h, quality, (m - 1) as nat);
        lemma_same_row_unchanged(raw, w, h, quality, m - 1, tile_count(w) as nat);
    }
}

/// Encoding, after the first frame, the very frame the encoder holds
/// emits no tile and leaves the stored frame as it is.
pub proof fn law_unchanged_frame_emits_nothing(raw: Seq<u8>, w: u16, h: u16, quality: u8)
    requires
        raw.len() >= w * h * 4,
    ensures
        encode_all(raw.subrange(0, w * h * 4), raw, w as int, h as int, false, quality)
            == (Seq::<FrameView>::empty(), raw.subrange(0, w * h * 4)),
{
    if w == 0 {
        lemma_empty_rows_keep(raw.subrange(0, w * h * 4), raw, w as int, h as int, false, quality, tile_count(h as int) as nat);
    } else if h > 0 {
        lemma_same_rows_unchanged(raw, w as int, h as int, quality, tile_count(h as int) as nat);
    }
}

/// The frame for the tile in column `tx` and row `ty` when its bytes in
/// `raw` differ from those in `previous`; nothing otherwise.
pub open spec fn changed_tile(previous: Seq<u8>, raw: Seq<u8>, w: int, h: int, quality: u8, tx: int, ty: int) -> Seq<FrameView> {
    let x0 = tx * 64;
    let y0 = ty * 64;
    let tw = tile_span(w, x0);
    let th = tile_span(h, y0);
    let tile = tile_bytes(raw, w, x0, y0, tw, th as nat);
    if tile_bytes(previous, w, x0, y0, tw, th as nat) != tile {
        seq![tile_frame(x0, y0, tw, th, jpeg_of(rgb_of(tile), tw as u32, th as u32, quality))]
    } else {
        Seq::empty()
    }
}

/// The changed-tile frames of the first `n` tiles of tile row `ty`.
pub open spec fn changed_in_row(previous: Seq<u8>, raw: Seq<u8>, w: int, h: int, quality: u8, ty: int, n: nat) -> Seq<FrameView>
    decreases n,
{
    if n == 0 {
        Seq::empty()
    } else {
        changed_in_row(previous, raw, w, h, quality, ty, (n - 1) as nat) + changed_tile(previous, raw, w, h, quality, n - 1, ty)
    }
}

/// The changed-tile frames of the first `m` tile rows, in row-major order.
pub open spec fn changed_in_rows(previous: Seq<u8>, raw: Seq<u8>, w: int, h: int, quality: u8, m: nat) -> Seq<FrameView>
    decreases m,
{
    if m == 0 {
        Seq::empty()
    } else {
        changed_in_rows(previous, raw, w, h, quality, (m - 1) as nat)
            + changed_in_row(previous, raw, w, h, quality, m - 1, tile_count(w) as nat)
    }
}

/// The stored frame still holds `previous` on every tile not yet reached.
pub open spec fn agrees_ahead(st: EncodeState, previous: Seq<u8>, w: int, h: int, m: int, n: int) -> bool {
    &&& st.1.len() == w * h * 4
    &&& forall|i: int| 0 <= i < w * h * 4 && !#[trigger] tile_done(i, w, m, n) ==> st.1[i] == previous[i]
}

proof fn lemma_changed_tile_step(st: EncodeState, previous: Seq<u8>, raw: Seq<u8>, w: int, h: int, quality: u8, tx: int, ty: int)
    requires
        w > 0,
        h > 0,
        0 <= tx < tile_count(w),
        0 <= ty < tile_count(h),
        st.1.len() == w * h * 4,
        previous.len() == w * h * 4,
        raw.len() >= w * h * 4,
        forall|i: int| 0 <= i < w * h * 4 && #[trigger] tile_of(i, w) == (tx, ty) ==> st.1[i] == previous[i],
    ensures
        encode_tile(st, raw, w, h, false, quality, tx, ty).0 == st.0 + changed_tile(previous, raw, w, h, quality, tx, ty),
{
    let x0 = tx * 64;
    let y0 = ty * 64;
    let tw = tile_span(w, x0);
    let th = tile_span(h, y0);
    assert(0 < w * h * 4) by (nonlinear_arith) requires w > 0, h > 0;
    lemma_tile_membership(0, w, h, tx, ty);
    assert forall|r: int, k: int| 0 <= r < th && 0 <= k < tw * 4
        implies #[trigger] tile_at(st.1, w, x0, y0, r, k) == tile_at(previous, w, x0, y0, r, k) by {
        lemma_row_fits(w, h, x0, y0, tw, r);
        lemma_offset_coords(w, x0, tw, y0 + r, k);
        let i = pixel_offset(w, x0, y0 + r) + k;
        lemma_tile_membership(i, w, h, tx, ty);
    }
    lemma_tile_bytes_eq(st.1, previous, w, h, x0, y0, tw, th as nat);
    let res = encode_tile(st, raw, w, h, false, quality, tx, ty);
    if tile_bytes(previous, w, x0, y0, tw, th as nat) != tile_bytes(raw, w, x0, y0, tw, th as nat) {
        assert(res.0 =~= st.0 + changed_tile(previous, raw, w, h, quality, tx, ty));
    } else {
        assert(res.0 =~= st.0 + changed_tile(previous, raw, w, h, quality, tx, ty));
    }
}

proof fn lemma_changed_row(st: EncodeState, previous: Seq<u8>, raw: Seq<u8>, w: int, h: int, quality: u8, ty: int, n: nat)
    requires
        w > 0,
        h > 0,
        n <= tile_count(w),
        0 <= ty < tile_count(h),
        previous.len() == w * h * 4,
        raw.len() >= w * h * 4,
        agrees_ahead(st, previous, w, h, ty, 0),
    ensures
        encode_tile_row(st, raw, w, h, false, quality, ty, n).0 == st.0 + changed_in_row(previous, raw, w, h, quality, ty, n),
        agrees_ahead(encode_tile_row(st, raw, w, h, false, quality, ty, n), previous, w, h, ty, n as int),
    decreases n,
{
    if n == 0 {
        assert(st.0 + Seq::<FrameView>::empty() =~= st.0);
        assert forall|i: int| 0 <= i < w * h * 4 && !#[trigger] tile_done(i, w, ty, 0) implies st.1[i] == previous[i] by {}
    } else {
        let prior = encode_tile_row(st, raw, w, h, false, quality, ty, (n - 1) as nat);
        lemma_changed_row(st, previous, raw, w, h, quality, ty, (n - 1) as nat);
        assert forall|i: int| 0 <= i < w * h * 4 && #[trigger] tile_of(i, w) == (n - 1, ty) implies prior.1[i] == previous[i] by {
            assert(!tile_done(i, w, ty, n - 1));
        }
        lemma_changed_tile_step(prior, previous, raw, w, h, quality, n - 1, ty);
        lemma_encode_tile_stores(prior, raw, w, h, false, quality, n - 1, ty);
        let res = encode_tile_row(st, raw, w, h, false, quality, ty, n);
        assert(res.0 =~= st.0 + changed_in_row(previous, raw, w, h, quality, ty, n));
        assert forall|i: int| 0 <= i < w * h * 4 && !#[trigger] tile_done(i, w, ty, n as int) implies res.1[i] == previous[i] by {
            assert(!tile_done(i, w, ty, n - 1));
        }
    }
}

proof fn lemma_changed_rows(previous: Seq<u8>, raw: Seq<u8>, w: int, h: int, quality: u8, m: nat)
    requires
        w > 0,
        h > 0,
        m <= tile_count(h),
        previous.len() == w * h * 4,
        raw.len() >= w * h * 4,
    ensures
        encode_tile_rows((Seq::empty(), previous), raw, w, h, false, quality, m).0 == changed_in_rows(previous, raw, w, h, quality, m),
        agrees_ahead(encode_tile_rows((Seq::empty(), previous), raw, w, h, false, quality, m), previous, w, h, m as int, 0),
    decreases m,
{
    let st0: EncodeState = (Seq::empty(), previous);
    if m == 0 {
        assert forall|i: int| 0 <= i < w * h * 4 && !#[trigger] tile_done(i, w, 0, 0) implies st0.1[i] == previous[i] by {}
    } else {
        let prior = encode_tile_rows(st0, raw, w, h, false, quality, (m - 1) as nat);
        lemma_changed_rows(previous, raw, w, h, quality, (m - 1) as nat);
        assert forall|i: int| 0 <= i < w * h * 4 && !#[trigger] tile_done(i, w, m - 1, 0) implies prior.1[i] == previous[i] by {}
        lemma_changed_row(prior, previous, raw, w, h, quality, m - 1, tile_count(w) as nat);
        let res = encode_tile_rows(st0, raw, w, h, false, quality, m);
        assert(res.0 =~= changed_in_rows(previous, raw, w, h, quality, m));
        assert forall|i: int| 0 <= i < w * h * 4 && !#[trigger] tile_done(i, w, m as int, 0) implies res.1[i] == previous[i] by {
            lemma_tile_membership(i, w, h, 0, 0);
            assert(!tile_done(i, w, m - 1, tile_count(w)));
        }
    }
}

/// After the first frame, encoding emits exactly one frame for each 64x64
/// tile whose bytes differ from the stored frame, in row-major order, each
/// at the tile's place and size with the tile's JPEG.
pub proof fn law_later_frames_send_changed_tiles(previous: Seq<u8>, raw: Seq<u8>, w: u16, h: u16, quality: u8)
    requires
        w > 0,
        h > 0,
        previous.len() == w * h * 4,
        raw.len() >= w * h * 4,
    ensures
        encode_all(previous, raw, w as int, h as int, false, quality).0
            == changed_in_rows(previous, raw, w as int, h as int, quality, tile_count(h as int) as nat),
{
    lemma_changed_rows(previous, raw, w as int, h as int, quality, tile_count(h as int) as nat);
}

/// Whatever the encoder held and whether it was the first frame, encoding a
/// framebuffer and then the same framebuffer again emits nothing the second
/// time and keeps the stored frame.
pub proof fn law_repeat_frame_emits_nothing(previous: Seq<u8>, raw: Seq<u8>, w: u16, h: u16, first: bool, quality: u8)
    requires
        previous.len() == w * h * 4,
        raw.len() >= w * h * 4,
    ensures
        ({
            let stored = encode_all(previous, raw, w as int, h as int, first, quality).1;
            encode_all(stored, raw, w as int, h as int, false, quality) == (Seq::<FrameView>::empty(), stored)
        }),
{
    law_encoder_stores_frame(previous, raw, w, h, first, quality);
    law_unchanged_frame_emits_nothing(raw, w, h, quality);
}

/// The first frame (after creation or a resize) of a non-empty screen is a
/// single JPEG frame of the whole screen at (0, 0).
pub proof fn law_first_frame_is_whole_screen(previous: Seq<u8>, raw: Seq<u8>, w: u16, h: u16, quality: u8)
    requires
        w > 0,
        h > 0,
    ensures
        encode_all(previous, raw, w as int, h as int, true, quality).0 == seq![
            tile_frame(0, 0, w as int, h as int, jpeg_of(rgb_of(raw.subrange(0, w * h * 4)), w as u32, h as u32, quality)),
        ],
{
}

/// The encoder's state as values.
pub struct EncoderView {
    pub width: u16,
    pub height: u16,
    pub quality: u8,
    pub previous: Seq<u8>,
    pub first_frame: bool,
}

/// Encodes framebuffers into JPEG tiles, keeping the last frame to find
/// the tiles that changed.
pub struct FrameEncoder {
    width: u16,
    height: u16,
    quality: u8,
    previous: Vec<u8>,
    first_frame: bool,
}

impl FrameEncoder {
    pub closed spec fn view(&self) -> EncoderView {
        EncoderView {
            width: self.width,
            height: self.height,
            quality: self.quality,
            previous: self.previous@,
            first_frame: self.first_frame,
        }
    }

    #[verifier::type_invariant]
    closed spec fn inv(&self) -> bool {
        &&& self.width * self.height * 4 <= usize::MAX
        &&& self.previous@.len() == self.width * self.height * 4
    }

    /// An encoder for a `width` x `height` screen; the first frame is sent whole.
    pub fn new(width: u16, height: u16, quality: u8) -> (r: Self)
        requires
            width * height * 4 <= usize::MAX,
        ensures
            r.view() == (EncoderView {
                width,
                height,
                quality,
                previous: Seq::new((width * height * 4) as nat, |i: int| 0u8),
                first_frame: true,
            }),
    {
        let total = width as usize * height as usize * BYTES_PER_PIXEL;
        let previous = zeroed(total);
        FrameEncoder { width, height, quality, previous, first_frame: true }
    }

    /// Starts over for a screen of a new size: the stored frame is cleared
    /// and the next frame is sent whole.
    pub fn resize(&mut self, width: u16, height: u16)
        requires
            width * height * 4 <= usize::MAX,
        ensures
            final(self).view() == (EncoderView {
                width,
                height,
                quality: old(self).view().quality,
                previous: Seq::new((width * height * 4) as nat, |i: int| 0u8),
                first_frame: true,
            }),
    {
        let total = width as usize * height as usize * BYTES_PER_PIXEL;
        let previous = zeroed(total);
        *self = FrameEncoder { width, height, quality: self.quality, previous, first_frame: true };
    }
    /// Encodes a framebuffer (4 bytes per pixel, row after row): the first
    /// frame as one JPEG frame of the whole screen; after it, the 64x64 JPEG
    /// tiles that changed since the stored frame, left to right and top to
    /// bottom. Whatever is emitted is stored as the previous frame's content.
    /// The frames' session id is left empty for the caller to fill.
    pub fn encode_frame(&mut self, raw_4bpp: &[u8]) -> (frames: Vec<DesktopFrame>)
        requires
            raw_4bpp@.len() >= old(self).view().width * old(self).view().height * 4,
        ensures
            (frames_view(frames@), final(self).view().previous) == encode_all(
                old(self).view().previous,
                raw_4bpp@,
                old(self).view().width as int,
                old(self).view().height as int,
                old(self).view().first_frame,
                old(self).view().quality,
            ),
            final(self).view().width == old(self).view().width,
            final(self).view().height == old(self).view().height,
            final(self).view().quality == old(self).view().quality,
            !final(self).view().first_frame,
    {
        proof { use_type_invariant(&*self); }
        let mut taken = FrameEncoder { width: 0, height: 0, quality: self.quality, previous: Vec::new(), first_frame: false };
        std::mem::swap(self, &mut taken);
        let FrameEncoder { width, height, quality, previous: mut prev, first_frame: first } = taken;
        let w: usize = width as usize;
        let h: usize = height as usize;
        let tile: usize = TILE_SIZE as usize;
        let tiles_x: usize = (w + 63) / 64;
        let tiles_y: usize = (h + 63) / 64;
        let ghost (wi, hi) = (w as int, h as int);
        let ghost init: EncodeState = (Seq::empty(), prev@);
        let ghost raw = raw_4bpp@;
        let mut frames: Vec<DesktopFrame> = Vec::new();
        assert(frames_view(frames@) =~= Seq::<FrameView>::empty());
        if first {
            let total = w * h * BYTES_PER_PIXEL;
            let px = copy_prefix(raw_4bpp, total);
            if w > 0 && h > 0 {
                assert(px@.len() % 4 == 0 && px@.len() / 4 * 3 == w * h * 3) by (nonlinear_arith)
                    requires px@.len() == w * h * 4;
                let rgb = rgb_pixels(&px);
                let data = encode_jpeg(rgb.as_slice(), w as u32, h as u32, quality);
                let frame = DesktopFrame {
                    session_id: String::new(),
                    x: 0,
                    y: 0,
                    width: width,
                    height: height,
                    data,
                    encoding: String::from_str("jpeg"),
                };
                let ghost fv = frame.view();
                frames.push(frame);
                assert(frames_view(frames@) =~= seq![fv]);
            }
            *self = FrameEncoder { width, height, quality, previous: px, first_frame: false };
            return frames;
        }
        let mut ty: usize = 0;
        while ty < tiles_y
            invariant
                w == width, h == height, wi == w, hi == h,
                tile == 64,
                tiles_x == tile_count(wi), tiles_y == tile_count(hi),
                raw == raw_4bpp@,
                w * h * 4 <= raw.len(),
                w * h * 4 <= usize::MAX,
                prev@.len() == w * h * 4,
                ty <= tiles_y,
                (frames_view(frames@), prev@) == encode_tile_rows(init, raw, wi, hi, first, quality, ty as nat),
            decreases tiles_y - ty,
        {
            let ghost row_start = encode_tile_rows(init, raw, wi, hi, first, quality, ty as nat);
            let mut tx: usize = 0;
            while tx < tiles_x
                invariant
                    w == width, h == height, wi == w, hi == h,
                    tile == 64,
                    tiles_x == tile_count(wi), tiles_y == tile_count(hi),
                    raw == raw_4bpp@,
                    w * h * 4 <= raw.len(),
                    w * h * 4 <= usize::MAX,
                    prev@.len() == w * h * 4,
                    ty < tiles_y,
                    tx <= tiles_x,
                    (frames_view(frames@), prev@) == encode_tile_row(row_start, raw, wi, hi, first, quality, ty as int, tx as nat),
                decreases tiles_x - tx,
            {
                assert(tx * 64 < w) by (nonlinear_arith)
                    requires tx < tiles_x, tiles_x == (w + 63) / 64;
                assert(ty * 64 < h) by (nonlinear_arith)
                    requires ty < tiles_y, tiles_y == (h + 63) / 64;
                let x0: usize = tx * tile;
                let y0: usize = ty * tile;
                let tw: usize = if w - x0 < tile { w - x0 } else { tile };
                let th: usize = if h - y0 < tile { h - y0 } else { tile };
                let ghost st = (frames_view(frames@), prev@);
                let tile_px = copy_tile(raw_4bpp, w, h, x0, y0, tw, th);
                let changed = first || tile_changed(&prev, raw_4bpp, w, h, x0, y0, tw, th);
                if changed {
                    proof { lemma_tile_bytes_len(raw, wi, hi, x0 as int, y0 as int, tw as int, th as nat); }
                    assert(tile_px@.len() % 4 == 0 && tile_px@.len() / 4 * 3 == tw * th * 3) by (nonlinear_arith)
                        requires tile_px@.len() == th * tw * 4;
                    let rgb = rgb_pixels(&tile_px);
                    let data = encode_jpeg(rgb.as_slice(), tw as u32, th as u32, quality);
                    let frame = DesktopFrame {
                        session_id: String::new(),
                        x: x0 as u16,
                        y: y0 as u16,
                        width: tw as u16,
                        height: th as u16,
                        data,
                        encoding: String::from_str("jpeg"),
                    };
                    let ghost fv = frame.view();
                    frames.push(frame);
                    assert(frames_view(frames@) =~= st.0.push(fv));
                    put_tile_exec(&mut prev, raw_4bpp, w, h, x0, y0, tw, th);
                }
                tx = tx + 1;
            }
            ty = ty + 1;
        }
        *self = FrameEncoder { width, height, quality, previous: prev, first_frame: false };
        frames
    }
}

fn copy_prefix(raw: &[u8], n: usize) -> (v: Vec<u8>)
    requires
        n <= raw@.len(),
    ensures
        v@ == raw@.subrange(0, n as int),
{
    let mut v: Vec<u8> = Vec::new();
    let mut i: usize = 0;
    while i < n
        invariant
            i <= n,
            n <= raw@.len(),
            v@ == raw@.subrange(0, i as int),
        decreases n - i,
    {
        v.push(raw[i]);
        i = i + 1;
        assert(v@ =~= raw@.subrange(0, i as int));
    }
    v
}

fn zeroed(n: usize) -> (v: Vec<u8>)
    ensures
        v@ == Seq::new(n as nat, |i: int| 0u8),
{
    let mut v: Vec<u8> = Vec::new();
    while v.len() < n
        invariant
            v@.len() <= n,
            forall|i: int| 0 <= i < v@.len() ==> v@[i] == 0u8,
        decreases n - v@.len(),
    {
        v.push(0u8);
    }
    assert(v@ =~= Seq::new(n as nat, |i: int| 0u8));
    v
}

} // verus!
