use azurepath::remote_desktop::frame_encoder::FrameEncoder;
use azurepath::remote_desktop::vnc::{
    apply_jpeg_rect, blit_raw_rect, client_cut_text, client_version, cut_text_readable,
    framebuffer_update_request, jpeg_length, key_event_message, parse_rect_header, parse_server_init,
    pointer_event_message, rect_payload, refusal_message, reverse_bits, security_result, security_step,
    server_message, vnc_encrypt_challenge, vnc_key, RectPayload, SecurityStep, ServerMessage,
};
use azurepath::remote_desktop::{KeyEvent, MouseEvent};

#[test]
fn version_and_security() {
    assert_eq!(client_version(), b"RFB 003.003\n".to_vec());
    assert_eq!(security_step(&[0, 0, 0, 1]), SecurityStep::Proceed);
    assert_eq!(security_step(&[0, 0, 0, 2]), SecurityStep::Authenticate);
    assert_eq!(security_step(&[0, 0, 0, 0]), SecurityStep::ReadFailureReason);
    assert_eq!(
        security_step(&[0, 0, 0, 16]),
        SecurityStep::Unsupported("VNC unsupported security type: 16".to_string())
    );
    assert_eq!(refusal_message(b"too many"), "VNC server refused connection: too many");
    assert!(security_result(&[0, 0, 0, 0]).is_ok());
    assert_eq!(security_result(&[0, 0, 0, 1]).unwrap_err(), "VNC authentication failed (result=1)");
}

#[test]
fn server_init_fields() {
    let mut h = vec![0u8; 24];
    h[0] = 0x05;
    h[1] = 0x00;
    h[2] = 0x03;
    h[3] = 0x20;
    h[23] = 7;
    assert_eq!(parse_server_init(&h), (1280, 800, 7));
}

#[test]
fn client_messages() {
    assert_eq!(framebuffer_update_request(true, 1280, 800), vec![3, 0, 0, 0, 0, 0, 5, 0, 3, 32]);
    assert_eq!(framebuffer_update_request(false, 1, 2)[1], 1);
    assert_eq!(
        key_event_message(KeyEvent { key_code: 0xff0d, pressed: true }),
        vec![4, 1, 0, 0, 0, 0, 0xff, 0x0d]
    );
    assert_eq!(
        pointer_event_message(MouseEvent { x: 300, y: 2, button: 2, pressed: true }),
        vec![5, 4, 1, 44, 0, 2]
    );
    assert_eq!(pointer_event_message(MouseEvent { x: 0, y: 0, button: 9, pressed: false })[1], 0);
    assert_eq!(client_cut_text("hi").unwrap(), vec![6, 0, 0, 0, 0, 0, 0, 2, b'h', b'i']);
}

#[test]
fn password_key_and_challenge() {
    assert_eq!(reverse_bits(0b0000_0001), 0b1000_0000);
    assert_eq!(reverse_bits(0b1100_0000), 0b0000_0011);
    assert_eq!(vnc_key("ab"), vec![reverse_bits(b'a'), reverse_bits(b'b'), 0, 0, 0, 0, 0, 0]);
    assert_eq!(vnc_key("123456789").len(), 8);
    let challenge = [7u8; 16];
    let resp = vnc_encrypt_challenge("secret", &challenge);
    assert_eq!(resp.len(), 16);
    // both halves are the same block encrypted with the same key
    assert_eq!(resp[0..8], resp[8..16]);
    assert_ne!(resp[0..8], challenge[0..8]);
}

#[test]
fn raw_rect_blit() {
    let mut fb = vec![0u8; 4 * 4 * 4];
    let raw: Vec<u8> = (1..=16).collect(); // 2x2 pixels
    blit_raw_rect(&mut fb, 4, 1, 1, 2, 2, &raw);
    assert_eq!(&fb[(1 * 4 + 1) * 4..(1 * 4 + 3) * 4], &raw[0..8]);
    assert_eq!(&fb[(2 * 4 + 1) * 4..(2 * 4 + 3) * 4], &raw[8..16]);
    assert_eq!(&fb[0..4], &[0, 0, 0, 0]);
    // a rectangle past the end of the framebuffer is clipped
    let mut small = vec![0u8; 4];
    blit_raw_rect(&mut small, 1, 0, 0, 2, 1, &[9; 8]);
    assert_eq!(small, vec![9, 9, 9, 9]);
}

#[test]
fn rect_headers_and_payloads() {
    let h = [0, 10, 0, 20, 0, 64, 0, 32, 0xff, 0xff, 0xff, 0x11];
    let r = parse_rect_header(&h);
    assert_eq!((r.x, r.y, r.width, r.height, r.encoding), (10, 20, 64, 32, -239));
    assert_eq!(rect_payload(0, 3, 3), RectPayload::Raw);
    assert_eq!(rect_payload(-239, 3, 3), RectPayload::Jpeg);
    assert_eq!(rect_payload(5, 3, 2), RectPayload::Skip(24));
    assert_eq!(server_message(0), ServerMessage::FramebufferUpdate);
    assert_eq!(server_message(3), ServerMessage::ServerCutText);
    assert_eq!(server_message(9), ServerMessage::Unknown(9));
    assert!(cut_text_readable(5));
    assert!(!cut_text_readable(0));
    assert!(!cut_text_readable(1024 * 1024));
    assert_eq!(jpeg_length(100).unwrap(), 100);
    assert_eq!(jpeg_length(10 * 1024 * 1024 + 1).unwrap_err(), "VNC JPEG rect too large: 10485761");
}

#[test]
fn jpeg_rect_applied() {
    let mut enc = FrameEncoder::new(8, 8, 100);
    let frames = enc.encode_frame(&vec![200u8; 8 * 8 * 4]);
    let jpeg = &frames[0].data;
    let mut fb = vec![0u8; 16 * 16 * 4];
    assert!(apply_jpeg_rect(&mut fb, 16, 0, 0, 8, 8, jpeg));
    // a decoded flat gray image is close to 200; the padding byte stays 0
    assert!(fb[0] > 190 && fb[1] > 190 && fb[2] > 190);
    assert_eq!(fb[3], 0);
    assert_eq!(fb[8 * 4], 0);
    // an image smaller than the rectangle is refused
    let before = fb.clone();
    assert!(!apply_jpeg_rect(&mut fb, 16, 0, 0, 9, 8, jpeg));
    assert_eq!(fb, before);
    // data that does not decode changes nothing
    assert!(apply_jpeg_rect(&mut fb, 16, 0, 0, 8, 8, &[1, 2, 3]));
    assert_eq!(fb, before);
}

#[test]
fn reversing_bits_twice_gives_the_byte_back() {
    for b in 0u8..=255 {
        assert_eq!(reverse_bits(reverse_bits(b)), b);
    }
    assert_eq!(reverse_bits(0b1010_0110), 0b0110_0101);
}
