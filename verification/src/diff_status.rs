//! Per-line and per-fragment diff status.
use vstd::prelude::*;

verus! {

/// Whether a line or fragment was added, removed, or left unchanged.
#[derive(Debug, Clone, Copy, PartialEq, Eq, Structural)]
pub enum DiffStatus {
    Added,
    Removed,
    Unmodified,
}

/// The marker-character reading of a diff status, as used at the front of
/// each hunk line: `+` added, `-` removed, space unmodified.
pub open spec fn status_of_marker(c: char) -> Option<DiffStatus> {
    if c == '+' {
        Some(DiffStatus::Added)
    } else if c == '-' {
        Some(DiffStatus::Removed)
    } else if c == ' ' {
        Some(DiffStatus::Unmodified)
    } else {
        None
    }
}

impl DiffStatus {
    /// Parse a hunk line marker character.
    pub fn try_from(value: char) -> (r: Result<Self, String>)
        ensures
            match r {
                Ok(s) => status_of_marker(value) == Some(s),
                Err(_) => status_of_marker(value) is None,
            },
    {
        if value == '+' {
            Ok(Self::Added)
        } else if value == '-' {
            Ok(Self::Removed)
        } else if value == ' ' {
            Ok(Self::Unmodified)
        } else {
            Err("Invalid diff status".to_owned())
        }
    }
}

} // verus!
