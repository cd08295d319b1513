use azurepath::connection::{frame_bytes, frame_length, MAX_FRAME_SIZE};

#[test]
fn frame_has_length_prefix() {
    let f = frame_bytes(b"{\"type\":\"ping\"}").unwrap();
    assert_eq!(&f[0..4], &[0, 0, 0, 15]);
    assert_eq!(&f[4..], b"{\"type\":\"ping\"}");
}

#[test]
fn length_roundtrip() {
    let data = vec![7u8; 70000];
    let f = frame_bytes(&data).unwrap();
    assert_eq!(frame_length(&f[0..4]).unwrap(), 70000);
}

#[test]
fn too_large_frame_refused() {
    let data = vec![0u8; MAX_FRAME_SIZE + 1];
    assert_eq!(frame_bytes(&data).unwrap_err(), "Frame too large");
    assert!(frame_bytes(&vec![0u8; MAX_FRAME_SIZE]).is_ok());
}

#[test]
fn invalid_lengths() {
    assert_eq!(frame_length(&[0, 0, 0, 0]).unwrap_err(), "Invalid frame size: 0");
    assert_eq!(frame_length(&[1, 0, 0, 1]).unwrap_err(), "Invalid frame size: 16777217");
    assert_eq!(frame_length(&[1, 0, 0, 0]).unwrap(), 16777216);
}
