use azurepath::settings::AppSettings;

#[test]
fn test_default_settings() {
    let s = AppSettings::default();
    assert_eq!(s.theme, "system");
    assert_eq!(s.clipboard_interval, 1000);
    assert_eq!(s.clipboard_max_entries, 500);
    assert_eq!(s.ping_default_count, 4);
    assert_eq!(s.ping_default_timeout, 3000);
    assert!(s.notify_file_transfer);
    assert!(s.notify_chat_message);
    assert!(!s.notify_scan_complete);
    assert_eq!(s.retention_days, 30);
}

#[test]
fn test_default_download_dir() {
    let s = AppSettings::default();
    assert!(!s.download_dir.is_empty());
}
