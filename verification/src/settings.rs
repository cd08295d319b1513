//! Application-wide settings and their defaults.
use vstd::prelude::*;
use vstd::string::*;

verus! {

/// The user's application settings.
#[derive(Clone, Debug)]
pub struct AppSettings {
    pub theme: String,
    pub clipboard_interval: u64,
    pub clipboard_max_entries: usize,
    pub ping_default_count: u32,
    pub ping_default_timeout: u64,
    pub download_dir: String,
    pub retention_days: u32,
    pub notify_file_transfer: bool,
    pub notify_chat_message: bool,
    pub notify_scan_complete: bool,
}

impl AppSettings {
    /// The default settings with the given download directory.
    pub fn defaults_with_download_dir(download_dir: String) -> (r: Self)
        ensures
            r.theme@ == "system"@,
            r.clipboard_interval == 1000,
            r.clipboard_max_entries == 500,
            r.ping_default_count == 4,
            r.ping_default_timeout == 3000,
            r.download_dir@ == download_dir@,
            r.retention_days == 30,
            r.notify_file_transfer,
            r.notify_chat_message,
            !r.notify_scan_complete,
    {
        AppSettings {
            theme: String::from_str("system"),
            clipboard_interval: 1000,
            clipboard_max_entries: 500,
            ping_default_count: 4,
            ping_default_timeout: 3000,
            download_dir,
            retention_days: 30,
            notify_file_transfer: true,
            notify_chat_message: true,
            notify_scan_complete: false,
        }
    }
}

impl Default for AppSettings {
    /// The default settings; the download directory is `.` (the application
    /// replaces it with the user's download folder when it knows one).
    fn default() -> (r: Self)
        ensures
            r.theme@ == "system"@,
            r.clipboard_interval == 1000,
            r.clipboard_max_entries == 500,
            r.ping_default_count == 4,
            r.ping_default_timeout == 3000,
            r.download_dir@ == "."@,
            r.retention_days == 30,
            r.notify_file_transfer,
            r.notify_chat_message,
            !r.notify_scan_complete,
    {
        AppSettings::defaults_with_download_dir(String::from_str("."))
    }
}

} // verus!
