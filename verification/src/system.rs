//! Decisions taken on what the operating system and the desktop report.

use vstd::prelude::*;

verus! {

/// The page size in bytes that a raw answer of the operating system stands for.
///
/// A negative answer reports a failed query and stands for no size; so does
/// an answer that does not fit the machine's word.
pub open spec fn page_size_of(raw: i64) -> Option<usize> {
    if 0 <= raw && raw <= usize::MAX {
        Some(raw as usize)
    } else {
        None
    }
}

/// Turns the raw answer of the page-size query into the page size, if there is one.
pub fn get_page_size(raw: i64) -> (size: Option<usize>)
    ensures
        size == page_size_of(raw),
{
    if raw < 0 {
        None
    } else if raw as u64 > usize::MAX as u64 {
        None
    } else {
        Some(raw as usize)
    }
}

/// How an attempt to show a dialog ended.
#[derive(Debug, Clone, Copy, PartialEq, Eq, Structural)]
pub enum DialogOutcome {
    /// The dialog backend could not be invoked.
    Unavailable,
    /// The user acknowledged the dialog.
    Affirmed,
    /// The user dismissed the dialog.
    Rejected,
    /// The backend answered what it should not.
    Unknown,
}

/// Says whether the user acknowledged the dialog. Every other ending,
/// a backend that is missing among them, counts as not acknowledged.
pub fn acknowledged(outcome: DialogOutcome) -> (yes: bool)
    ensures
        yes == (outcome == DialogOutcome::Affirmed),
{
    match outcome {
        DialogOutcome::Affirmed => true,
        _ => false,
    }
}

} // verus!
