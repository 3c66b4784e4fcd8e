//! The user's preferences: UI language, a custom packs folder, and whether
//! a scan runs at startup.
use vstd::prelude::*;

verus! {

/// The user's preferences; an absent value means the default.
#[derive(Debug)]
pub struct Settings {
    pub language: Option<String>,
    pub custom_path: Option<String>,
    /// Absent means false: startup never auto-scans unless enabled.
    pub auto_scan_on_start: Option<bool>,
}

impl Default for Settings {
    fn default() -> (s: Settings)
        ensures
            s.language is None,
            s.custom_path is None,
            s.auto_scan_on_start is None,
    {
        Settings { language: None, custom_path: None, auto_scan_on_start: None }
    }
}

} // verus!
