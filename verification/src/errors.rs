//! Typed failures of parsing, conversion and counting.

use vstd::prelude::*;

verus! {

/// Failure of parsing caller-supplied text.
#[derive(Clone, Debug, PartialEq, Eq)]
pub enum ParseError {
    /// The text holds no `YYwWW.D` pattern.
    Malformed,
    /// A workweek token is not an unsigned integer; carries the token.
    InvalidWorkday(String),
    /// A workweek token is an integer outside 1..=7; carries the value.
    WorkdayOutOfRange(u32),
}

/// Failure of turning a parsed version triple into a date.
#[derive(Clone, Copy, Debug, PartialEq, Eq, Structural)]
pub enum ConversionError {
    /// The weekday digit is outside 1..=7; carries the digit.
    WeekdayOutOfRange(u32),
    /// The (year, week, weekday) triple names no real ISO week date.
    NoSuchWeekDate,
}

/// Failure of turning a version string into a date.
#[derive(Clone, Debug, PartialEq, Eq)]
pub enum CwverError {
    Parse(ParseError),
    Convert(ConversionError),
}

/// Failure of counting over a date range.
#[derive(Clone, Copy, Debug, PartialEq, Eq, Structural)]
pub enum RangeError {
    /// The range's start lies after its end.
    Unordered,
}

} // verus!
