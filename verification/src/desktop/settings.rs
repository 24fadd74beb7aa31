//! What the user wants of the desktop shell.

use vstd::prelude::*;
use vstd::string::*;

verus! {

/// What the user wants of the desktop shell.
#[derive(Debug, Clone, Copy, PartialEq, Eq, Structural)]
pub struct DesktopSettings {
    /// Whether a start with the machine shows no window.
    pub silent_start: bool,
}

impl Default for DesktopSettings {
    fn default() -> (r: Self)
        ensures
            !r.silent_start,
    {
        DesktopSettings { silent_start: false }
    }
}

/// The name of the file of the settings.
pub const SETTINGS_FILE: &'static str = "desktop-settings.json";

impl DesktopSettings {
    /// The settings: those that could be read, or else the default ones.
    pub fn load(read: Option<DesktopSettings>) -> (r: Self)
        ensures
            r == match read {
                Some(s) => s,
                None => DesktopSettings { silent_start: false },
            },
    {
        match read {
            Some(s) => s,
            None => DesktopSettings::default(),
        }
    }

    /// What is written for the settings.
    pub fn save(&self) -> (r: String)
        ensures
            r@ == if self.silent_start {
                "{\n  \"silent_start\": true\n}"@
            } else {
                "{\n  \"silent_start\": false\n}"@
            },
    {
        if self.silent_start {
            "{\n  \"silent_start\": true\n}".to_owned()
        } else {
            "{\n  \"silent_start\": false\n}".to_owned()
        }
    }
}

} // verus!
