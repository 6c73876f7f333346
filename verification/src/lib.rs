//! Business-day counting over date ranges with fixed UTC offsets.
//!
//! The library models an instant as a Gregorian calendar date, a second of
//! the day, and a fixed UTC offset, and counts the business days (days that
//! are neither Saturday nor Sunday nor in an excluded-date set) in an
//! inclusive range of instants.

mod arith;
pub mod calendar;
pub mod counter;
