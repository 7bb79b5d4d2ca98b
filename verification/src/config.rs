//! The shell's settings and their defaults.
use vstd::prelude::*;
use crate::text::{chars_of, parse_span, parse_uint, span_string, trim, trim_span, Pat};

verus! {

/// The harness profile this shell shares with the local `dsh web` service.
///
/// One profile means one plugin set and one config for both surfaces. Never
/// `desktop`: that name is reserved for the official Electron app and the CLI
/// rejects it.
pub const DEFAULT_PROFILE: &'static str = "web";

/// The loopback port the window shares with the local `dsh web`.
pub const DEFAULT_WEB_PORT: u16 = 3080;

/// How long to wait, in seconds, for the harness to announce its
/// authenticated URL.
pub const BOOT_TIMEOUT_SECS: u64 = 90;

/// The profile to boot, given the `DSH_DESKTOP_PROFILE` setting: the setting
/// with surrounding whitespace trimmed, unless that leaves nothing.
pub open spec fn chosen_profile(setting: Option<Seq<char>>) -> Seq<char> {
    match setting {
        Some(s) => if trim(s, Pat::Space).len() > 0 {
            trim(s, Pat::Space)
        } else {
            "web"@
        },
        None => "web"@,
    }
}

/// The port to share, given the `DSH_DESKTOP_PORT` setting: the setting read
/// as a port number after trimming whitespace, unless it is not one or is 0.
pub open spec fn chosen_port(setting: Option<Seq<char>>) -> u16 {
    match setting {
        Some(s) => match parse_uint(trim(s, Pat::Space), u16::MAX as nat) {
            Some(port) => if port > 0 {
                port as u16
            } else {
                3080
            },
            None => 3080,
        },
        None => 3080,
    }
}

/// The profile this shell boots, from the value of `DSH_DESKTOP_PROFILE`
/// (`None` when it is unset or not Unicode).
pub fn profile_name(setting: Option<&str>) -> (r: String)
    ensures
        r@ == chosen_profile(
            match setting {
                Some(s) => Some(s@),
                None => None,
            },
        ),
{
    if let Some(value) = setting {
        let v = chars_of(value);
        let (lo, hi) = trim_span(&v, 0, v.len(), Pat::Space);
        assert(v@.subrange(0, v.len() as int) =~= value@);
        if lo < hi {
            return span_string(value, &v, lo, hi);
        }
    }
    String::from_str(DEFAULT_PROFILE)
}

/// The loopback port this shell shares, from the value of
/// `DSH_DESKTOP_PORT` (`None` when it is unset or not Unicode). The port has
/// to be fixed, so `0` and anything that is not a port number fall back to
/// the default.
pub fn web_port(setting: Option<&str>) -> (r: u16)
    ensures
        r == chosen_port(
            match setting {
                Some(s) => Some(s@),
                None => None,
            },
        ),
        r > 0,
{
    if let Some(value) = setting {
        let v = chars_of(value);
        let (lo, hi) = trim_span(&v, 0, v.len(), Pat::Space);
        assert(v@.subrange(0, v.len() as int) =~= value@);
        if let Some(port) = parse_span(&v, lo, hi, 65535) {
            if port > 0 {
                return port as u16;
            }
        }
    }
    DEFAULT_WEB_PORT
}

} // verus!
