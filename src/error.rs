//! The ways an operation of the journal can be refused.
use vstd::prelude::*;

verus! {

#[derive(Debug, Clone, Copy, PartialEq, Eq, Structural)]
pub enum LogbookError {
    /// The UTC offset is not a decimal number of hours, not a multiple of a
    /// quarter hour, or a day or more.
    InvalidOffset,
    /// No message was given for a new entry.
    MissingMessage,
    /// `on` was given together with `before` or `after`.
    ConflictingFilters,
    /// A field of a date filter is not a decimal number.
    MalformedDate,
    /// A date filter has none of the shapes `YYYY`, `YYYY-MM`, `YYYY-MM-DD`.
    UnrecognizedDateFormat,
    /// A date filter names no day of the calendar.
    DateOutOfRange,
    /// Neither an answer, a home directory nor a working directory was at hand
    /// to place the journal in.
    NoLogbookDir,
}

} // verus!
