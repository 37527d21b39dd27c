//! Whether the runtime that the interface needs is there, and what to do if not.

use vstd::prelude::*;

use crate::text::{chars_of, is_text, trim, trim_chars, CharClass};

verus! {

pub const WEBVIEW2_GUID: &'static str = "{F3017226-FE2A-4295-8BDF-00C3A9A7E4C5}";

pub const WEBVIEW2_DOWNLOAD_URL: &'static str =
    "https://developer.microsoft.com/en-us/microsoft-edge/webview2/#download-section";

/// A version that the registry gives for an installed runtime.
pub fn is_installed_version(version: &str) -> (r: bool)
    ensures
        r == (trim(version@, CharClass::Space).len() > 0 && trim(version@, CharClass::Space)
            != "0.0.0.0"@),
{
    let chars = chars_of(version);
    let trimmed = trim_chars(chars.as_slice(), CharClass::Space);
    trimmed.len() > 0 && !is_text(trimmed, "0.0.0.0")
}

/// The key of the runtime below `root` in the registry.
pub fn client_key(root: &str) -> (r: String)
    ensures
        r@ == root@ + "Microsoft\\EdgeUpdate\\Clients\\"@ + WEBVIEW2_GUID@,
{
    let mut out = root.to_string();
    out.push_str("Microsoft\\EdgeUpdate\\Clients\\");
    out.push_str(WEBVIEW2_GUID);
    out
}

/// What is known of the runtime and of the user's answer.
#[derive(Debug, Clone, Copy, PartialEq, Eq, Structural)]
pub enum RuntimeCheck {
    /// Whether the runtime is there.
    Looked { in_registry: bool, on_disk: bool },
    /// Whether the user wants to install it.
    Asked { install: bool },
}

/// What is done next.
#[derive(Debug, Clone, Copy, PartialEq, Eq, Structural)]
pub enum RuntimeStep {
    Start,
    Ask,
    OpenDownloadPage,
    Quit,
}

/// The program starts only where the runtime is there; else the user is asked,
/// and the page to download it from is opened where they want that.
pub fn ensure_runtime_or_open_installer(check: RuntimeCheck) -> (r: RuntimeStep)
    ensures
        r == match check {
            RuntimeCheck::Looked { in_registry, on_disk } => if in_registry || on_disk {
                RuntimeStep::Start
            } else {
                RuntimeStep::Ask
            },
            RuntimeCheck::Asked { install } => if install {
                RuntimeStep::OpenDownloadPage
            } else {
                RuntimeStep::Quit
            },
        },
{
    match check {
        RuntimeCheck::Looked { in_registry, on_disk } => if in_registry || on_disk {
            RuntimeStep::Start
        } else {
            RuntimeStep::Ask
        },
        RuntimeCheck::Asked { install } => if install {
            RuntimeStep::OpenDownloadPage
        } else {
            RuntimeStep::Quit
        },
    }
}

} // verus!
