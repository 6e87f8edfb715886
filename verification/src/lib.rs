//! Calendar-week version strings.
//!
//! A calendar-week version string has the form `YYwWW.D` (for example
//! `21w45.7`): a two-digit ISO week-based year, a two-digit ISO week number,
//! and an ISO weekday digit (1 = Monday .. 7 = Sunday). This crate converts
//! between such strings and calendar dates, counts workdays between two dates
//! under a configurable workweek, and computes the workday midpoint(s) of a
//! date range for bisection.

pub mod bisect;
pub mod codec;
pub mod date;
pub mod errors;
pub mod isoweek;
pub mod workdays;
pub mod workweek;

pub use date::CalendarDate;
pub use workweek::WorkweekSet;
