use std::hash::{Hash, Hasher};
use azurepath::clipboard::{ClipboardContent, MAX_CLIPBOARD_BYTES};

#[test]
fn test_clipboard_content_text_variant() {
    let content = ClipboardContent::Text {
        text: "hello world".into(),
        hash: 42,
    };
    match &content {
        ClipboardContent::Text { text, hash } => {
            assert_eq!(text, "hello world");
            assert_eq!(*hash, 42);
        }
        _ => panic!("expected Text variant"),
    }
}

#[test]
fn test_clipboard_content_image_variant() {
    let rgba = vec![255u8; 100];
    let content = ClipboardContent::Image {
        rgba: rgba.clone(),
        width: 10,
        height: 10,
        hash: 99,
    };
    match &content {
        ClipboardContent::Image { rgba: r, width, height, hash } => {
            assert_eq!(*r, rgba);
            assert_eq!(*width, 10);
            assert_eq!(*height, 10);
            assert_eq!(*hash, 99);
        }
        _ => panic!("expected Image variant"),
    }
}

#[test]
fn test_text_hash_is_deterministic() {
    let text = "same content";
    let mut h1 = std::hash::DefaultHasher::new();
    text.hash(&mut h1);
    let mut h2 = std::hash::DefaultHasher::new();
    text.hash(&mut h2);
    assert_eq!(h1.finish(), h2.finish());
}

#[test]
fn test_different_texts_produce_different_hashes() {
    let mut h1 = std::hash::DefaultHasher::new();
    "hello".hash(&mut h1);
    let mut h2 = std::hash::DefaultHasher::new();
    "world".hash(&mut h2);
    assert_ne!(h1.finish(), h2.finish());
}

#[test]
fn test_empty_text_hash_is_deterministic() {
    let mut h1 = std::hash::DefaultHasher::new();
    "".hash(&mut h1);
    let mut h2 = std::hash::DefaultHasher::new();
    "".hash(&mut h2);
    assert_eq!(h1.finish(), h2.finish());
}

#[test]
fn test_image_hash_is_deterministic() {
    let rgba = vec![128u8; 256];
    let width = 16u32;
    let height = 16u32;

    let mut h1 = std::hash::DefaultHasher::new();
    rgba.hash(&mut h1);
    width.hash(&mut h1);
    height.hash(&mut h1);

    let mut h2 = std::hash::DefaultHasher::new();
    rgba.hash(&mut h2);
    width.hash(&mut h2);
    height.hash(&mut h2);

    assert_eq!(h1.finish(), h2.finish());
}

#[test]
fn test_image_hash_differs_with_dimensions() {
    let rgba = vec![128u8; 256];

    // (16, 16)
    let mut h1 = std::hash::DefaultHasher::new();
    rgba.hash(&mut h1);
    16u32.hash(&mut h1);
    16u32.hash(&mut h1);

    // (8, 32) — same pixel count, different arrangement
    let mut h2 = std::hash::DefaultHasher::new();
    rgba.hash(&mut h2);
    8u32.hash(&mut h2);
    32u32.hash(&mut h2);

    assert_ne!(h1.finish(), h2.finish());
}

#[test]
fn test_image_hash_differs_with_rgba_content() {
    let mut h1 = std::hash::DefaultHasher::new();
    vec![255u8; 100].hash(&mut h1);
    10u32.hash(&mut h1);
    10u32.hash(&mut h1);

    let mut h2 = std::hash::DefaultHasher::new();
    vec![0u8; 100].hash(&mut h2);
    10u32.hash(&mut h2);
    10u32.hash(&mut h2);

    assert_ne!(h1.finish(), h2.finish());
}

#[test]
fn test_image_hash_differs_from_text_hash() {
    // An image and text with the "same data" should hash differently
    // because image includes width+height in the hash.
    let data = vec![0u8; 16];

    // Image-style hash: rgba + width + height
    let mut h_img = std::hash::DefaultHasher::new();
    data.hash(&mut h_img);
    4u32.hash(&mut h_img); // width
    4u32.hash(&mut h_img); // height

    // Text-style hash: just the string representation
    let text = String::from_utf8_lossy(&data);
    let mut h_text = std::hash::DefaultHasher::new();
    text.hash(&mut h_text);

    assert_ne!(h_img.finish(), h_text.finish());
}

#[test]
fn test_max_clipboard_bytes_equals_20_mb() {
    assert_eq!(MAX_CLIPBOARD_BYTES, 20 * 1024 * 1024);
}

#[test]
fn test_empty_image_rgba_skipped() {
    // detect() returns None when rgba.is_empty()
    let empty: Vec<u8> = vec![];
    assert!(empty.is_empty());
}

#[test]
fn test_empty_text_skipped() {
    // detect() returns None when text.is_empty()
    let empty = String::new();
    assert!(empty.is_empty());
}

#[test]
fn test_oversized_content_skipped() {
    let oversized = vec![0u8; (MAX_CLIPBOARD_BYTES + 1) as usize];
    assert!(oversized.len() as u64 > MAX_CLIPBOARD_BYTES);
}

#[test]
fn test_content_at_max_size_accepted() {
    let at_limit = vec![0u8; MAX_CLIPBOARD_BYTES as usize];
    assert!(!at_limit.is_empty());
    assert!(!(at_limit.len() as u64 > MAX_CLIPBOARD_BYTES));
}

use azurepath::clipboard::{MonitorState, DEFAULT_INTERVAL_MS};

#[test]
fn test_default_interval() {
    let monitor = MonitorState::new();
    assert_eq!(monitor.get_interval_ms(), DEFAULT_INTERVAL_MS);
    assert_eq!(DEFAULT_INTERVAL_MS, 1000);
}

#[test]
fn test_running_starts_false() {
    let monitor = MonitorState::new();
    assert!(!monitor.is_running());
}

#[test]
fn test_set_and_get_interval() {
    let mut monitor = MonitorState::new();
    monitor.set_interval_ms(500);
    assert_eq!(monitor.get_interval_ms(), 500);
    monitor.set_interval_ms(30000);
    assert_eq!(monitor.get_interval_ms(), 30000);
}

#[test]
fn test_set_interval_boundary_values() {
    let mut monitor = MonitorState::new();
    monitor.set_interval_ms(200);
    assert_eq!(monitor.get_interval_ms(), 200);
    monitor.set_interval_ms(60000);
    assert_eq!(monitor.get_interval_ms(), 60000);
}

#[test]
fn test_get_interval_reflects_last_set() {
    let mut monitor = MonitorState::new();
    monitor.set_interval_ms(1000);
    assert_eq!(monitor.get_interval_ms(), 1000);
    monitor.set_interval_ms(5000);
    assert_eq!(monitor.get_interval_ms(), 5000);
    monitor.set_interval_ms(1000);
    assert_eq!(monitor.get_interval_ms(), 1000);
}

#[test]
fn test_stop_before_start_is_safe() {
    let mut monitor = MonitorState::new();
    monitor.stop();
}

#[test]
fn test_stop_is_idempotent() {
    let mut monitor = MonitorState::new();
    monitor.stop();
    monitor.stop();
    assert!(!monitor.is_running());
}

#[test]
fn test_stop_sets_running_false() {
    let mut monitor = MonitorState::new();
    assert!(monitor.start());
    assert!(monitor.is_running());
    monitor.stop();
    assert!(!monitor.is_running());
}

#[test]
fn start_twice_reports_already_running() {
    let mut monitor = MonitorState::new();
    assert!(monitor.start());
    assert!(!monitor.start());
}

#[test]
fn interval_loaded_from_saved_setting() {
    let mut monitor = MonitorState::new();
    monitor.load_interval(Some("abc"));
    assert_eq!(monitor.get_interval_ms(), 1000);
    monitor.load_interval(Some("250"));
    assert_eq!(monitor.get_interval_ms(), 250);
    monitor.load_interval(None);
    assert_eq!(monitor.get_interval_ms(), 250);
}

#[test]
fn dedup_after_store_only() {
    let mut monitor = MonitorState::new();
    assert!(monitor.is_new(42));
    monitor.seed_last_hash(Some("42"));
    assert!(!monitor.is_new(42));
    assert!(monitor.is_new(43));
    monitor.stored(43);
    assert!(!monitor.is_new(43));
    assert!(monitor.is_new(42));
}
