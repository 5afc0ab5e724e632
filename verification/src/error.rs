//! Errors surfaced by the log store and the update engine.

use vstd::prelude::*;

verus! {

/// Why a single record line failed to decode.
#[derive(Clone, Copy, Debug, PartialEq, Eq, Structural)]
pub enum RowErrorKind {
    /// The date cell is not a valid `YYYY-MM-DD` calendar date.
    BadDate,
    /// A time cell is present but is not a valid `HH:MM:SS` time.
    BadTime,
    /// The record has more cells than the five columns of the format.
    TooManyFields,
}

/// One malformed record: the 1-based line number in the file and the reason.
#[derive(Clone, Copy, Debug, PartialEq, Eq, Structural)]
pub struct RowError {
    pub line: usize,
    pub kind: RowErrorKind,
}

/// Every failure one invocation can surface.
#[derive(Debug)]
pub enum ClockerError {
    /// The last entry of the log is already `DayFinished` for today.
    ShiftComplete,
    /// At least one record failed to decode; one element per malformed line.
    FileParseError(Vec<RowError>),
    /// A file could not be read or written. The library itself never
    /// touches the file system; this variant is built by the surrounding
    /// application, which keeps the failing operation and path here.
    Io { operation: String, path: String },
}

impl ClockerError {
    /// The single human-readable headline for this error.
    pub fn message(&self) -> (s: &'static str)
        ensures
            self is ShiftComplete ==> s@ == "Shift already complete for today."@,
            self is FileParseError ==> s@ == "Malformed lines in the input file:"@,
            self is Io ==> s@ == "IO error."@,
    {
        match self {
            ClockerError::ShiftComplete => "Shift already complete for today.",
            ClockerError::FileParseError(_) => "Malformed lines in the input file:",
            ClockerError::Io { .. } => "IO error.",
        }
    }
}

} // verus!
