use azurepath::remote_desktop::rdp::RdpClient;
use azurepath::remote_desktop::{KeyEvent, MouseEvent};

const UNSUPPORTED: &str = "RDP support is not yet implemented";

#[test]
fn rdp_requests_are_refused() {
    let mut client = RdpClient::new("s1".to_string());
    assert_eq!(client.session_id, "s1");
    assert_eq!(client.connect("pw"), Err(UNSUPPORTED.to_string()));
    assert!(matches!(client.poll_frame(), Err(e) if e == UNSUPPORTED));
    assert_eq!(client.send_key_event(KeyEvent { key_code: 65, pressed: true }), Err(UNSUPPORTED.to_string()));
    assert_eq!(
        client.send_mouse_event(MouseEvent { x: 1, y: 2, button: 0, pressed: false }),
        Err(UNSUPPORTED.to_string())
    );
    assert_eq!(client.resize(800, 600), Err(UNSUPPORTED.to_string()));
}

#[test]
fn rdp_disconnect_succeeds_and_framebuffer_is_empty() {
    let mut client = RdpClient::new("s2".to_string());
    assert_eq!(client.disconnect(), Ok(()));
    assert_eq!(client.framebuffer_width(), 0);
    assert_eq!(client.framebuffer_height(), 0);
}
