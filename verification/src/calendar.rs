//! The proleptic Gregorian calendar: dates, leap years, day numbers
//! (days elapsed since the start of year 0), weekdays, and instants
//! (a date, a time of day, and a fixed UTC offset).

use vstd::prelude::*;
use crate::arith::lemma_div_step_at_multiple;
use crate::arith::lemma_divisibility_by_year_periods;
use vstd::arithmetic::div_mod::lemma_fundamental_div_mod;
use vstd::arithmetic::div_mod::lemma_fundamental_div_mod_converse;

verus! {

/// A calendar date: a year/month/day triple with no time of day or offset.
/// Two calendar dates are equal exactly when all three fields match.
#[derive(Clone, Copy, PartialEq, Eq, Structural, Debug)]
pub struct CalendarDate {
    pub year: u16,
    pub month: u8,
    pub day: u8,
}

pub open spec fn is_leap_year(y: int) -> bool {
    (y % 4 == 0 && y % 100 != 0) || y % 400 == 0
}

pub open spec fn days_in_month(y: int, m: int) -> int {
    if m == 2 {
        if is_leap_year(y) { 29 } else { 28 }
    } else if m == 4 || m == 6 || m == 9 || m == 11 {
        30
    } else {
        31
    }
}

/// A year/month/day triple that denotes an actual day of month `m` in a
/// nonnegative year `y` (years above 9999 are allowed here; well-formed
/// instants restrict them further).
pub open spec fn date_in_month(y: int, m: int, d: int) -> bool {
    0 <= y && 1 <= m <= 12 && 1 <= d <= days_in_month(y, m)
}

/// Days in year `y` strictly before month `m`.
pub open spec fn days_before_month(y: int, m: int) -> int {
    (if m <= 1 { 0int }
     else if m == 2 { 31int }
     else if m == 3 { 59int }
     else if m == 4 { 90int }
     else if m == 5 { 120int }
     else if m == 6 { 151int }
     else if m == 7 { 181int }
     else if m == 8 { 212int }
     else if m == 9 { 243int }
     else if m == 10 { 273int }
     else if m == 11 { 304int }
     else { 334int })
    + if m >= 3 && is_leap_year(y) { 1int } else { 0int }
}

/// Days in the years 0, 1, ..., y - 1, counted with leap days:
/// 365 per year plus one for each leap year among them.  The three
/// quotients count the multiples of 4, 100 and 400 in `[0, y)`.
pub open spec fn days_from_year_zero(y: int) -> int {
    365 * y + (y + 3) / 4 - (y + 99) / 100 + (y + 399) / 400
}

/// The number of days from 0000-01-01 to the given date, so that
/// `day_number(0, 1, 1) == 0`.
pub open spec fn day_number(y: int, m: int, d: int) -> int {
    days_from_year_zero(y) + days_before_month(y, m) + d - 1
}

/// Weekday of the day with the given day number: 0 is Monday, ...,
/// 5 is Saturday, 6 is Sunday.  (0000-01-01 was a Saturday.)
pub open spec fn weekday_of_day_number(n: int) -> int {
    (n + 5) % 7
}

pub open spec fn is_weekend_day_number(n: int) -> bool {
    weekday_of_day_number(n) >= 5
}

/// The calendar day after the given one.
pub open spec fn next_date(y: int, m: int, d: int) -> (int, int, int) {
    if d < days_in_month(y, m) {
        (y, m, d + 1)
    } else if m < 12 {
        (y, m + 1, 1)
    } else {
        (y + 1, 1, 1)
    }
}

/// A point in time: a calendar date, a second of that day, and a fixed
/// UTC offset in seconds.  The offset is significant: it determines which
/// calendar date and weekday the instant denotes.
#[derive(Clone, Copy, PartialEq, Eq, Structural, Debug)]
pub struct Instant {
    pub year: u16,
    pub month: u8,
    pub day: u8,
    pub second_of_day: u32,
    pub offset_seconds: i32,
}

impl Instant {
    /// A well-formed instant: an actual date with a four-digit year, a
    /// second of day below 86400, and an offset strictly within one day.
    pub open spec fn wf(self) -> bool {
        &&& date_in_month(self.year as int, self.month as int, self.day as int)
        &&& self.year <= 9999
        &&& self.second_of_day < 86400
        &&& -86400 < self.offset_seconds < 86400
    }

    /// Day number of the instant's calendar date (in its own offset).
    pub open spec fn spec_day_number(self) -> int {
        day_number(self.year as int, self.month as int, self.day as int)
    }

    /// The instant on the absolute (UTC) time line, in seconds from
    /// 0000-01-01T00:00:00+00:00.  Instants are ordered by this value.
    pub open spec fn timestamp(self) -> int {
        self.spec_day_number() * 86400 + self.second_of_day - self.offset_seconds
    }

    /// The instant's calendar date, with time of day and offset dropped.
    pub open spec fn spec_date(self) -> CalendarDate {
        CalendarDate { year: self.year, month: self.month, day: self.day }
    }

    /// The instant's calendar date, with time of day and offset dropped.
    pub fn date(&self) -> (r: CalendarDate)
        ensures
            r == self.spec_date(),
    {
        CalendarDate { year: self.year, month: self.month, day: self.day }
    }
}

/// Leap year test on an executable year.
pub fn is_leap_year_exec(y: u16) -> (r: bool)
    ensures
        r == is_leap_year(y as int),
{
    (y % 4 == 0 && y % 100 != 0) || y % 400 == 0
}

/// One year further from year zero adds 365 days, or 366 when the year
/// passed over is a leap year.
pub proof fn lemma_days_from_year_zero_step(y: int)
    ensures
        days_from_year_zero(y + 1) == days_from_year_zero(y) + 365
            + (if is_leap_year(y) { 1int } else { 0int }),
{
    lemma_div_step_at_multiple(y, 4);
    lemma_div_step_at_multiple(y, 100);
    lemma_div_step_at_multiple(y, 400);
    lemma_divisibility_by_year_periods(y);
}

/// The day after a date has the next day number, and is itself a date in
/// its month.
pub proof fn lemma_next_date_day_number(y: int, m: int, d: int)
    requires
        date_in_month(y, m, d),
    ensures
        ({
            let (y2, m2, d2) = next_date(y, m, d);
            &&& date_in_month(y2, m2, d2)
            &&& day_number(y2, m2, d2) == day_number(y, m, d) + 1
        }),
{
    if d < days_in_month(y, m) {
    } else if m < 12 {
    } else {
        lemma_days_from_year_zero_step(y);
    }
}

/// Weekdays advance cyclically with the day number.
pub proof fn lemma_weekday_succ(n: int)
    ensures
        weekday_of_day_number(n + 1)
            == if weekday_of_day_number(n) == 6 { 0int } else { weekday_of_day_number(n) + 1 },
{
    lemma_fundamental_div_mod(n + 5, 7);
    let q = (n + 5) / 7;
    let r = (n + 5) % 7;
    if r == 6 {
        lemma_fundamental_div_mod_converse(n + 6, 7, q + 1, 0);
    } else {
        lemma_fundamental_div_mod_converse(n + 6, 7, q, r + 1);
    }
}

/// Day numbers of dates with four-digit years stay below 3652428.
pub proof fn lemma_day_number_upper(y: int, m: int, d: int)
    requires
        date_in_month(y, m, d),
        y <= 9999,
    ensures
        0 <= day_number(y, m, d) <= 3652427,
{
    lemma_fundamental_div_mod(y + 3, 4);
    lemma_fundamental_div_mod(y + 99, 100);
    lemma_fundamental_div_mod(y + 399, 400);
}

/// Dates in year 10001 or later have day numbers above 3652700.
pub proof fn lemma_day_number_above_year_10000(y: int, m: int, d: int)
    requires
        date_in_month(y, m, d),
        y >= 10001,
    ensures
        day_number(y, m, d) > 3652700,
{
    lemma_fundamental_div_mod(y + 3, 4);
    lemma_fundamental_div_mod(y + 99, 100);
    lemma_fundamental_div_mod(y + 399, 400);
}

/// Number of days in a month.
pub fn days_in_month_exec(y: u16, m: u8) -> (r: u8)
    requires
        1 <= m <= 12,
    ensures
        r == days_in_month(y as int, m as int),
{
    if m == 2 {
        if is_leap_year_exec(y) { 29 } else { 28 }
    } else if m == 4 || m == 6 || m == 9 || m == 11 {
        30
    } else {
        31
    }
}

/// Days in the year strictly before the given month.
pub fn days_before_month_exec(y: u16, m: u8) -> (r: u16)
    requires
        1 <= m <= 12,
    ensures
        r == days_before_month(y as int, m as int),
{
    let base: u16 = if m <= 1 { 0 }
        else if m == 2 { 31 }
        else if m == 3 { 59 }
        else if m == 4 { 90 }
        else if m == 5 { 120 }
        else if m == 6 { 151 }
        else if m == 7 { 181 }
        else if m == 8 { 212 }
        else if m == 9 { 243 }
        else if m == 10 { 273 }
        else if m == 11 { 304 }
        else { 334 };
    if m >= 3 && is_leap_year_exec(y) { base + 1 } else { base }
}

/// The day number of a date with a four-digit year.
pub fn day_number_exec(y: u16, m: u8, d: u8) -> (n: u64)
    requires
        date_in_month(y as int, m as int, d as int),
        y <= 9999,
    ensures
        n == day_number(y as int, m as int, d as int),
        n <= 3652427,
{
    proof {
        lemma_day_number_upper(y as int, m as int, d as int);
        lemma_fundamental_div_mod(y as int + 3, 4);
        lemma_fundamental_div_mod(y as int + 99, 100);
        lemma_fundamental_div_mod(y as int + 399, 400);
    }
    let yy: u64 = y as u64;
    let before: u64 = days_before_month_exec(y, m) as u64;
    365 * yy + (yy + 3) / 4 - (yy + 99) / 100 + (yy + 399) / 400 + before + (d as u64) - 1
}

/// The calendar day after the given one; years up to 20000 are accepted
/// so that a scan may step just past the last four-digit date.
pub fn next_date_exec(y: u16, m: u8, d: u8) -> (r: (u16, u8, u8))
    requires
        date_in_month(y as int, m as int, d as int),
        y <= 20000,
    ensures
        (r.0 as int, r.1 as int, r.2 as int) == next_date(y as int, m as int, d as int),
{
    if d < days_in_month_exec(y, m) {
        (y, m, d + 1)
    } else if m < 12 {
        (y, m + 1, 1)
    } else {
        (y + 1, 1, 1)
    }
}

impl Instant {
    /// The instant's place on the absolute time line, in seconds.
    pub fn timestamp_exec(&self) -> (t: i64)
        requires
            self.wf(),
        ensures
            t == self.timestamp(),
    {
        let n: u64 = day_number_exec(self.year, self.month, self.day);
        (n as i64) * 86400 + (self.second_of_day as i64) - (self.offset_seconds as i64)
    }

    /// Builds a well-formed instant from its parts; yields `None` exactly
    /// when the parts do not name an actual date with a four-digit year, a
    /// time of day, and an offset strictly within one day.
    pub fn new(
        year: u16,
        month: u8,
        day: u8,
        hour: u8,
        minute: u8,
        second: u8,
        offset_seconds: i32,
    ) -> (r: Option<Instant>)
        ensures
            r is Some <==> (date_in_month(year as int, month as int, day as int)
                && year <= 9999 && hour < 24 && minute < 60 && second < 60
                && -86400 < offset_seconds < 86400),
            (match r {
                Option::Some(i) => i.wf()
                    && i.year == year && i.month == month && i.day == day
                    && i.second_of_day
                        == 3600 * (hour as u32) + 60 * (minute as u32) + (second as u32)
                    && i.offset_seconds == offset_seconds,
                Option::None => true,
            }),
    {
        if year <= 9999 && 1 <= month && month <= 12
            && 1 <= day && day <= days_in_month_exec(year, month)
            && hour < 24 && minute < 60 && second < 60
            && -86400 < offset_seconds && offset_seconds < 86400
        {
            Option::Some(Instant {
                year,
                month,
                day,
                second_of_day: 3600 * (hour as u32) + 60 * (minute as u32) + (second as u32),
                offset_seconds,
            })
        } else {
            Option::None
        }
    }
}

} // verus!
