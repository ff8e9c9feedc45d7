//! The crash report written when the application panics.
use crate::text::{push_str, string_from_chars};
use vstd::prelude::*;

verus! {

/// Where users are asked to file crash reports.
pub const ISSUES_URL: &'static str = "https://github.com/aatishbagal/synapt-clip/issues";

/// The text of a crash report.
pub open spec fn report_text(
    version: Seq<char>,
    timestamp: Seq<char>,
    os: Seq<char>,
    arch: Seq<char>,
    location: Seq<char>,
    message: Seq<char>,
) -> Seq<char> {
    "SynaptClip crash report\n=======================\nVersion:   "@ + version + "\nTimestamp: "@
        + timestamp + "\nOS:        "@ + os + " "@ + arch + "\n\nPanic location: "@ + location
        + "\nPanic message:  "@ + message + "\n\nPlease report this at "@ + ISSUES_URL@
        + "\nAttach this file when filing the report.\n\n"@
}

/// The crash report for a panic at `location` with `message`, in a build
/// of `version` running on `os` and `arch`, at `timestamp`.
pub fn crash_report(
    version: &str,
    timestamp: &str,
    os: &str,
    arch: &str,
    location: &str,
    message: &str,
) -> (r: String)
    ensures
        r@ == report_text(version@, timestamp@, os@, arch@, location@, message@),
{
    let mut v: Vec<char> = Vec::new();
    push_str(&mut v, "SynaptClip crash report\n=======================\nVersion:   ");
    push_str(&mut v, version);
    push_str(&mut v, "\nTimestamp: ");
    push_str(&mut v, timestamp);
    push_str(&mut v, "\nOS:        ");
    push_str(&mut v, os);
    push_str(&mut v, " ");
    push_str(&mut v, arch);
    push_str(&mut v, "\n\nPanic location: ");
    push_str(&mut v, location);
    push_str(&mut v, "\nPanic message:  ");
    push_str(&mut v, message);
    push_str(&mut v, "\n\nPlease report this at ");
    push_str(&mut v, ISSUES_URL);
    push_str(&mut v, "\nAttach this file when filing the report.\n\n");
    string_from_chars(&v)
}

} // verus!
