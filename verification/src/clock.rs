//! The local wall clock, as the library stamps records with it.
use vstd::prelude::*;

verus! {

/// The formats the library stamps records with: `%Y-%m-%d %H:%M` for
/// memory entries and sessions, `%Y-%m-%dT%H:%M:%S` for workspaces.
pub open spec fn known_format(fmt: Seq<char>) -> bool {
    fmt == "%Y-%m-%d %H:%M"@ || fmt == "%Y-%m-%dT%H:%M:%S"@
}

/// The current local time, `chrono::Local::now().format(fmt).to_string()`.
/// Nothing is stated of the value: it is the clock. Both known formats are
/// valid strftime formats, with which formatting does not fail.
#[verifier::external_body]
pub(crate) fn local_time(fmt: &str) -> (r: String)
    requires
        known_format(fmt@),
{
    chrono::Local::now().format(fmt).to_string()
}

} // verus!
