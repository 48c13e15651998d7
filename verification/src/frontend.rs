//! The mode that the machine was started in, from the configuration of the
//! recovery partition.

use crate::udev::find_value;
use crate::udev::lookup;
use crate::udev::entries_view;
use crate::udev::Entries;
use crate::text::str_eq;
use vstd::prelude::*;

verus! {

/// The mode that the machine was started in.
#[derive(Clone, Copy, Debug, PartialEq, Eq, Structural)]
pub enum Mode {
    Live,
    Oem,
    Recovery,
    Refresh,
}

/// The mode that a configuration stands for: without one the machine runs
/// live; with one it is in OEM mode where `OEM_MODE` is `1`, else in
/// refresh mode where `MODE` is `refresh`, else in recovery mode.
pub open spec fn mode_of(env: Option<Entries>) -> Mode {
    match env {
        Some(env) => if lookup(env, "OEM_MODE"@) == Some("1"@) {
            Mode::Oem
        } else if lookup(env, "MODE"@) == Some("refresh"@) {
            Mode::Refresh
        } else {
            Mode::Recovery
        },
        None => Mode::Live,
    }
}

/// The view of an optional configuration.
pub open spec fn env_view(env: Option<&Vec<(String, String)>>) -> Option<Entries> {
    match env {
        Some(env) => Some(entries_view(env@)),
        None => None,
    }
}

impl Mode {
    /// The number that stands for the mode on the wire.
    pub open spec fn spec_code(self) -> u8 {
        match self {
            Mode::Live => 0,
            Mode::Oem => 1,
            Mode::Recovery => 2,
            Mode::Refresh => 3,
        }
    }

    /// The number that stands for the mode on the wire.
    pub fn code(self) -> (r: u8)
        ensures
            r == self.spec_code(),
    {
        match self {
            Mode::Live => 0,
            Mode::Oem => 1,
            Mode::Recovery => 2,
            Mode::Refresh => 3,
        }
    }
}

/// Determines which mode the system is currently in, from the keys and
/// values of the recovery configuration, if there is one.
pub fn mode(env: Option<&Vec<(String, String)>>) -> (r: Mode)
    ensures
        r == mode_of(env_view(env)),
{
    let env = match env {
        Some(env) => env,
        None => return Mode::Live,
    };
    let oem = match find_value(env, "OEM_MODE") {
        Some(value) => str_eq(value, "1"),
        None => false,
    };
    if oem {
        return Mode::Oem;
    }
    let refresh = match find_value(env, "MODE") {
        Some(value) => str_eq(value, "refresh"),
        None => false,
    };
    if refresh {
        Mode::Refresh
    } else {
        Mode::Recovery
    }
}

} // verus!
