use azurepath::remote_desktop::frame_encoder::FrameEncoder;

fn solid_frame(width: usize, height: usize, value: u8) -> Vec<u8> {
    vec![value; width * height * 4]
}

#[test]
fn first_frame_is_the_whole_screen() {
    let mut enc = FrameEncoder::new(130, 70, 80);
    let frames = enc.encode_frame(&solid_frame(130, 70, 10));
    assert_eq!(frames.len(), 1);
    let f = &frames[0];
    assert_eq!((f.x, f.y, f.width, f.height), (0, 0, 130, 70));
    assert_eq!(f.encoding, "jpeg");
    assert_eq!(f.session_id, "");
    // JPEG start-of-image marker
    assert!(f.data.len() > 2);
    assert_eq!(f.data[0], 0xFF);
    assert_eq!(f.data[1], 0xD8);
}

#[test]
fn later_frames_send_changed_tiles() {
    let mut enc = FrameEncoder::new(130, 70, 80);
    let mut raw = solid_frame(130, 70, 10);
    assert_eq!(enc.encode_frame(&raw).len(), 1);
    // change a pixel in the last column tile of each tile row
    raw[(5 * 130 + 129) * 4] = 0;
    raw[(66 * 130 + 129) * 4] = 0;
    let frames = enc.encode_frame(&raw);
    let positions: Vec<(u16, u16, u16, u16)> =
        frames.iter().map(|f| (f.x, f.y, f.width, f.height)).collect();
    assert_eq!(positions, vec![(128, 0, 2, 64), (128, 64, 2, 6)]);
}

#[test]
fn unchanged_frame_emits_nothing() {
    let mut enc = FrameEncoder::new(100, 100, 75);
    let raw = solid_frame(100, 100, 200);
    assert_eq!(enc.encode_frame(&raw).len(), 1);
    assert_eq!(enc.encode_frame(&raw).len(), 0);
    assert_eq!(enc.encode_frame(&raw).len(), 0);
}

#[test]
fn only_changed_tile_is_sent() {
    let mut enc = FrameEncoder::new(128, 128, 75);
    let mut raw = solid_frame(128, 128, 0);
    let first = enc.encode_frame(&raw);
    assert_eq!(first.len(), 1);
    // change one pixel in the bottom-right tile (x = 100, y = 90)
    let idx = (90 * 128 + 100) * 4;
    raw[idx] = 255;
    let frames = enc.encode_frame(&raw);
    assert_eq!(frames.len(), 1);
    assert_eq!((frames[0].x, frames[0].y, frames[0].width, frames[0].height), (64, 64, 64, 64));
    // the stored frame now matches, so nothing more is sent
    assert_eq!(enc.encode_frame(&raw).len(), 0);
}

#[test]
fn padding_byte_change_is_a_change() {
    let mut enc = FrameEncoder::new(8, 8, 50);
    let mut raw = solid_frame(8, 8, 1);
    assert_eq!(enc.encode_frame(&raw).len(), 1);
    raw[3] = 9;
    assert_eq!(enc.encode_frame(&raw).len(), 1);
}

#[test]
fn first_frame_of_identical_content_is_still_sent() {
    // a fresh encoder's stored frame is all zeros, but the first frame is sent anyway
    let mut enc = FrameEncoder::new(16, 16, 50);
    let frames = enc.encode_frame(&solid_frame(16, 16, 0));
    assert_eq!(frames.len(), 1);
    assert_eq!(enc.encode_frame(&solid_frame(16, 16, 0)).len(), 0);
}

#[test]
fn resize_starts_over() {
    let mut enc = FrameEncoder::new(64, 64, 60);
    let raw = solid_frame(64, 64, 5);
    assert_eq!(enc.encode_frame(&raw).len(), 1);
    assert_eq!(enc.encode_frame(&raw).len(), 0);
    enc.resize(65, 64);
    let frames = enc.encode_frame(&solid_frame(65, 64, 5));
    assert_eq!(frames.len(), 1);
    assert_eq!((frames[0].x, frames[0].y, frames[0].width, frames[0].height), (0, 0, 65, 64));
}

#[test]
fn empty_screen_emits_nothing() {
    let mut enc = FrameEncoder::new(0, 10, 60);
    assert_eq!(enc.encode_frame(&[]).len(), 0);
}

#[test]
fn longer_buffer_than_screen_is_accepted() {
    let mut enc = FrameEncoder::new(4, 4, 60);
    let mut raw = solid_frame(4, 4, 7);
    raw.extend_from_slice(&[1, 2, 3, 4]);
    assert_eq!(enc.encode_frame(&raw).len(), 1);
    assert_eq!(enc.encode_frame(&raw).len(), 0);
}
