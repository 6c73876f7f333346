//! The business-day counter: an inclusive range of instants and a set of
//! excluded calendar dates.

use vstd::prelude::*;
use crate::calendar::CalendarDate;
use crate::calendar::Instant;
use crate::calendar::date_in_month;
use crate::calendar::day_number;
use crate::calendar::is_weekend_day_number;
use crate::calendar::next_date;
use crate::calendar::day_number_exec;
use crate::calendar::next_date_exec;
use crate::calendar::lemma_day_number_upper;
use crate::calendar::lemma_day_number_above_year_10000;
use crate::calendar::lemma_next_date_day_number;
use crate::calendar::lemma_weekday_succ;
use crate::calendar::weekday_of_day_number;
use crate::arith::lemma_le_div;
use vstd::arithmetic::div_mod::lemma_fundamental_div_mod;
use vstd::arithmetic::div_mod::lemma_fundamental_div_mod_converse;

verus! {

/// Whether an entry of the excluded list names the date `(y, m, d)`.
pub open spec fn date_matches(e: CalendarDate, y: int, m: int, d: int) -> bool {
    e.year == y && e.month == m && e.day == d
}

/// Whether the date `(y, m, d)` occurs in the excluded list.
pub open spec fn date_excluded(excluded: Seq<CalendarDate>, y: int, m: int, d: int) -> bool {
    exists|i: int| 0 <= i < excluded.len() && date_matches(#[trigger] excluded[i], y, m, d)
}

/// A business day is neither a Saturday nor a Sunday nor excluded.
pub open spec fn is_business_day(y: int, m: int, d: int, excluded: Seq<CalendarDate>) -> bool {
    !is_weekend_day_number(day_number(y, m, d)) && !date_excluded(excluded, y, m, d)
}

/// What one day adds to the count: 1 for a business day, else 0.
pub open spec fn day_contribution(y: int, m: int, d: int, excluded: Seq<CalendarDate>) -> int {
    if is_business_day(y, m, d, excluded) { 1 } else { 0 }
}

/// Business days among the `k` consecutive calendar days that start at
/// the date `(y, m, d)`.
pub open spec fn count_business_days(
    y: int,
    m: int,
    d: int,
    k: nat,
    excluded: Seq<CalendarDate>,
) -> int
    decreases k,
{
    if k == 0 {
        0
    } else {
        let (y2, m2, d2) = next_date(y, m, d);
        day_contribution(y, m, d, excluded)
            + count_business_days(y2, m2, d2, (k - 1) as nat, excluded)
    }
}

/// Counts the business days between two instants, skipping weekends and an
/// arbitrary set of excluded calendar dates.
pub struct BusinessDays {
    pub start_date: Instant,
    pub end_date: Instant,
    pub excluded_days: Vec<CalendarDate>,
}

impl BusinessDays {
    pub open spec fn wf(self) -> bool {
        self.start_date.wf() && self.end_date.wf()
    }

    /// The scan steps a cursor from `start_date` one calendar day at a
    /// time in `start_date`'s own offset, so the cursor's time line
    /// position is its day number times 86400 plus this fixed residue.
    pub open spec fn scan_residue(self) -> int {
        self.start_date.second_of_day - self.start_date.offset_seconds
    }

    /// Day number of the last day the scan visits: the greatest `n` whose
    /// cursor position `n * 86400 + scan_residue()` is still no later
    /// than `end_date`.
    pub open spec fn last_scanned_day_number(self) -> int {
        (self.end_date.timestamp() - self.scan_residue()) / 86400
    }

    /// How many calendar days the scan visits: none when the range is
    /// empty, else one per day number from the start's to the last
    /// scanned one.
    pub open spec fn spec_span_days(self) -> int {
        if self.start_date.timestamp() > self.end_date.timestamp() {
            0
        } else {
            self.last_scanned_day_number() - self.start_date.spec_day_number() + 1
        }
    }

    /// The number of business days the counter describes: among the days
    /// the scan visits, those that are neither weekend days nor excluded.
    pub open spec fn spec_count(self) -> int {
        count_business_days(
            self.start_date.year as int,
            self.start_date.month as int,
            self.start_date.day as int,
            self.spec_span_days() as nat,
            self.excluded_days@,
        )
    }

    /// A counter over the inclusive range from `start_date` to `end_date`,
    /// with no dates excluded.  No ordering of the two instants is required:
    /// a range whose start lies after its end is simply empty.
    pub fn new(start_date: Instant, end_date: Instant) -> (r: BusinessDays)
        ensures
            r.start_date == start_date,
            r.end_date == end_date,
            r.excluded_days@ == Seq::<CalendarDate>::empty(),
    {
        BusinessDays { start_date, end_date, excluded_days: Vec::new() }
    }

    /// Excludes the calendar date that `day` denotes, derived with `day`'s
    /// own offset by dropping its time of day.
    pub fn exclude_day(&mut self, day: Instant)
        ensures
            final(self).start_date == old(self).start_date,
            final(self).end_date == old(self).end_date,
            final(self).excluded_days@ == old(self).excluded_days@.push(day.spec_date()),
    {
        self.excluded_days.push(day.date());
    }

    /// Counts the business days in the inclusive range from `start_date`
    /// to `end_date`: the scan visits one calendar day at a time in
    /// `start_date`'s own offset, and a visited day counts exactly when
    /// it is neither a Saturday nor a Sunday nor an excluded date.
    pub fn calculate(&self) -> (r: i32)
        requires
            self.wf(),
        ensures
            r == self.spec_count(),
            0 <= r,
    {
        let ts_start: i64 = self.start_date.timestamp_exec();
        let ts_end: i64 = self.end_date.timestamp_exec();
        if ts_start > ts_end {
            return 0;
        }
        let n_start: u64 = day_number_exec(
            self.start_date.year,
            self.start_date.month,
            self.start_date.day,
        );
        let residue: i64 = (self.start_date.second_of_day as i64)
            - (self.start_date.offset_seconds as i64);
        let n_end: Ghost<int> = Ghost(self.end_date.spec_day_number());
        proof {
            lemma_day_number_upper(
                self.end_date.year as int,
                self.end_date.month as int,
                self.end_date.day as int,
            );
            // The start's own position is no later than the end's, so the
            // start day is scanned.
            lemma_le_div(n_start as int, ts_end - residue, 86400);
            // The last scanned day number is at most two past the end's.
            lemma_le_div(n_end@ + 3, ts_end - residue, 86400);
        }
        let n_last: u64 = ((ts_end - residue) as u64) / 86400;
        let total: u64 = n_last - n_start + 1;
        let mut y: u16 = self.start_date.year;
        let mut m: u8 = self.start_date.month;
        let mut d: u8 = self.start_date.day;
        let mut acc: u64 = 0;
        let mut j: u64 = 0;
        while j < total
            invariant
                j <= total,
                acc <= j,
                total == self.spec_span_days(),
                n_start + total <= 3652431,
                date_in_month(y as int, m as int, d as int),
                day_number(y as int, m as int, d as int) == n_start + j,
                acc + count_business_days(
                    y as int,
                    m as int,
                    d as int,
                    (total - j) as nat,
                    self.excluded_days@,
                ) == self.spec_count(),
            decreases total - j,
        {
            proof {
                if y >= 10001 {
                    lemma_day_number_above_year_10000(y as int, m as int, d as int);
                }
                lemma_next_date_day_number(y as int, m as int, d as int);
            }
            let n_cur: u64 = n_start + j;
            let weekend: bool = (n_cur + 5) % 7 >= 5;
            let mut counts: bool = false;
            if !weekend {
                if !contains_date(&self.excluded_days, y, m, d) {
                    counts = true;
                }
            }
            if counts {
                acc = acc + 1;
            }
            let next = next_date_exec(y, m, d);
            y = next.0;
            m = next.1;
            d = next.2;
            j = j + 1;
        }
        acc as i32
    }
}

/// The date reached after stepping `k` days on from `(y, m, d)`.
pub open spec fn advance_date(y: int, m: int, d: int, k: nat) -> (int, int, int)
    decreases k,
{
    if k == 0 {
        (y, m, d)
    } else {
        let (y2, m2, d2) = next_date(y, m, d);
        advance_date(y2, m2, d2, (k - 1) as nat)
    }
}

/// Counting one day more adds exactly the last day's contribution.
pub proof fn lemma_count_one_more_day(
    y: int,
    m: int,
    d: int,
    k: nat,
    excluded: Seq<CalendarDate>,
)
    ensures
        ({
            let (y2, m2, d2) = advance_date(y, m, d, k);
            count_business_days(y, m, d, (k + 1) as nat, excluded)
                == count_business_days(y, m, d, k, excluded)
                    + day_contribution(y2, m2, d2, excluded)
        }),
    decreases k,
{
    let (yn, mn, dn) = next_date(y, m, d);
    if k == 0 {
        assert(count_business_days(yn, mn, dn, 0, excluded) == 0);
    } else {
        lemma_count_one_more_day(yn, mn, dn, (k - 1) as nat, excluded);
    }
}

/// Excluding a date whose day number lies outside the days counted over
/// leaves the count unchanged.
proof fn lemma_count_ignores_distant_date(
    y: int,
    m: int,
    d: int,
    k: nat,
    excluded: Seq<CalendarDate>,
    e: CalendarDate,
)
    requires
        date_in_month(y, m, d),
        day_number(e.year as int, e.month as int, e.day as int) < day_number(y, m, d)
            || day_number(e.year as int, e.month as int, e.day as int) >= day_number(y, m, d) + k,
    ensures
        count_business_days(y, m, d, k, excluded.push(e))
            == count_business_days(y, m, d, k, excluded),
    decreases k,
{
    if k > 0 {
        assert(!date_matches(e, y, m, d));
        assert(date_excluded(excluded.push(e), y, m, d) == date_excluded(excluded, y, m, d)) by {
            if date_excluded(excluded.push(e), y, m, d) {
                let i = choose|i: int| 0 <= i < excluded.push(e).len()
                    && date_matches(#[trigger] excluded.push(e)[i], y, m, d);
                if i < excluded.len() {
                    assert(excluded.push(e)[i] == excluded[i]);
                    assert(date_matches(excluded[i], y, m, d));
                } else {
                    assert(excluded.push(e)[i] == e);
                    assert(false);
                }
            }
            if date_excluded(excluded, y, m, d) {
                let i = choose|i: int| 0 <= i < excluded.len()
                    && date_matches(#[trigger] excluded[i], y, m, d);
                assert(excluded.push(e)[i] == excluded[i]);
                assert(date_matches(excluded.push(e)[i], y, m, d));
            }
        }
        lemma_next_date_day_number(y, m, d);
        let (y2, m2, d2) = next_date(y, m, d);
        lemma_count_ignores_distant_date(y2, m2, d2, (k - 1) as nat, excluded, e);
    }
}

/// A range whose start and end are the same instant covers exactly one
/// day: the count is 1 when that day is a business day, else 0.
pub proof fn lemma_single_day_range(c: BusinessDays)
    requires
        c.wf(),
        c.start_date == c.end_date,
    ensures
        c.spec_count() == day_contribution(
            c.start_date.year as int,
            c.start_date.month as int,
            c.start_date.day as int,
            c.excluded_days@,
        ),
{
    let s = c.start_date;
    let n = s.spec_day_number();
    lemma_fundamental_div_mod_converse(n * 86400, 86400, n, 0);
    assert(c.last_scanned_day_number() == n);
    assert(c.spec_span_days() == 1);
    let (y2, m2, d2) = next_date(s.year as int, s.month as int, s.day as int);
    assert(count_business_days(y2, m2, d2, 0, c.excluded_days@) == 0);
}

/// A range whose start lies after its end counts no days.
pub proof fn lemma_empty_range(c: BusinessDays)
    requires
        c.start_date.timestamp() > c.end_date.timestamp(),
    ensures
        c.spec_count() == 0,
{
    assert(c.spec_span_days() == 0);
    assert(count_business_days(
        c.start_date.year as int,
        c.start_date.month as int,
        c.start_date.day as int,
        0,
        c.excluded_days@,
    ) == 0);
}

/// Excluding a date that the scan never visits leaves the count as it
/// was: an exclusion is a filter, not a day the range must reach.
pub proof fn lemma_exclude_outside_range(c: BusinessDays, c2: BusinessDays, x: Instant)
    requires
        c.wf(),
        c2.start_date == c.start_date,
        c2.end_date == c.end_date,
        c2.excluded_days@ == c.excluded_days@.push(x.spec_date()),
        x.spec_day_number() < c.start_date.spec_day_number()
            || x.spec_day_number() > c.last_scanned_day_number(),
    ensures
        c2.spec_count() == c.spec_count(),
{
    let s = c.start_date;
    let y = s.year as int;
    let m = s.month as int;
    let d = s.day as int;
    let span = c.spec_span_days();
    if s.timestamp() > c.end_date.timestamp() {
        assert(count_business_days(y, m, d, 0, c.excluded_days@) == 0);
        assert(count_business_days(y, m, d, 0, c2.excluded_days@) == 0);
    } else {
        lemma_le_div(s.spec_day_number(), c.end_date.timestamp() - c.scan_residue(), 86400);
        assert(span >= 1);
        let e = x.spec_date();
        lemma_count_ignores_distant_date(y, m, d, span as nat, c.excluded_days@, e);
    }
}

/// Any seven consecutive calendar days with nothing excluded hold
/// exactly five business days, wherever in the week they start.
pub proof fn lemma_full_week(y: int, m: int, d: int)
    requires
        date_in_month(y, m, d),
    ensures
        count_business_days(y, m, d, 7, Seq::<CalendarDate>::empty()) == 5,
{
    let ex = Seq::<CalendarDate>::empty();
    let n = day_number(y, m, d);
    lemma_next_date_day_number(y, m, d);
    let (y1, m1, d1) = next_date(y, m, d);
    lemma_next_date_day_number(y1, m1, d1);
    let (y2, m2, d2) = next_date(y1, m1, d1);
    lemma_next_date_day_number(y2, m2, d2);
    let (y3, m3, d3) = next_date(y2, m2, d2);
    lemma_next_date_day_number(y3, m3, d3);
    let (y4, m4, d4) = next_date(y3, m3, d3);
    lemma_next_date_day_number(y4, m4, d4);
    let (y5, m5, d5) = next_date(y4, m4, d4);
    lemma_next_date_day_number(y5, m5, d5);
    let (y6, m6, d6) = next_date(y5, m5, d5);
    lemma_next_date_day_number(y6, m6, d6);
    let (y7, m7, d7) = next_date(y6, m6, d6);
    lemma_weekday_succ(n);
    lemma_weekday_succ(n + 1);
    lemma_weekday_succ(n + 2);
    lemma_weekday_succ(n + 3);
    lemma_weekday_succ(n + 4);
    lemma_weekday_succ(n + 5);
    assert(0 <= weekday_of_day_number(n) < 7);
    assert(count_business_days(y7, m7, d7, 0, ex) == 0);
    assert(count_business_days(y6, m6, d6, 1, ex)
        == day_contribution(y6, m6, d6, ex));
    assert(count_business_days(y5, m5, d5, 2, ex)
        == day_contribution(y5, m5, d5, ex) + count_business_days(y6, m6, d6, 1, ex));
    assert(count_business_days(y4, m4, d4, 3, ex)
        == day_contribution(y4, m4, d4, ex) + count_business_days(y5, m5, d5, 2, ex));
    assert(count_business_days(y3, m3, d3, 4, ex)
        == day_contribution(y3, m3, d3, ex) + count_business_days(y4, m4, d4, 3, ex));
    assert(count_business_days(y2, m2, d2, 5, ex)
        == day_contribution(y2, m2, d2, ex) + count_business_days(y3, m3, d3, 4, ex));
    assert(count_business_days(y1, m1, d1, 6, ex)
        == day_contribution(y1, m1, d1, ex) + count_business_days(y2, m2, d2, 5, ex));
    assert(count_business_days(y, m, d, 7, ex)
        == day_contribution(y, m, d, ex) + count_business_days(y1, m1, d1, 6, ex));
}

/// A counter whose scan covers a full calendar week with nothing
/// excluded counts exactly five business days.
pub proof fn lemma_full_week_range(c: BusinessDays)
    requires
        c.wf(),
        c.excluded_days@.len() == 0,
        c.spec_span_days() == 7,
    ensures
        c.spec_count() == 5,
{
    assert(c.excluded_days@ =~= Seq::<CalendarDate>::empty());
    lemma_full_week(
        c.start_date.year as int,
        c.start_date.month as int,
        c.start_date.day as int,
    );
}

/// Moving the end one calendar day later, keeping its time of day and
/// offset, never loses a business day and gains at most one.
pub proof fn lemma_extend_end_by_one_day(c: BusinessDays, c2: BusinessDays)
    requires
        c.wf(),
        c2.start_date == c.start_date,
        c2.excluded_days@ == c.excluded_days@,
        (c2.end_date.year as int, c2.end_date.month as int, c2.end_date.day as int)
            == next_date(c.end_date.year as int, c.end_date.month as int, c.end_date.day as int),
        c2.end_date.second_of_day == c.end_date.second_of_day,
        c2.end_date.offset_seconds == c.end_date.offset_seconds,
    ensures
        c.spec_count() <= c2.spec_count() <= c.spec_count() + 1,
{
    let s = c.start_date;
    let y = s.year as int;
    let m = s.month as int;
    let d = s.day as int;
    let ts_s = s.timestamp();
    let ts_e = c.end_date.timestamp();
    lemma_next_date_day_number(
        c.end_date.year as int,
        c.end_date.month as int,
        c.end_date.day as int,
    );
    assert(c2.end_date.timestamp() == ts_e + 86400);
    lemma_fundamental_div_mod(ts_e - c.scan_residue(), 86400);
    let q = (ts_e - c.scan_residue()) / 86400;
    let r = (ts_e - c.scan_residue()) % 86400;
    lemma_fundamental_div_mod_converse(ts_e + 86400 - c.scan_residue(), 86400, q + 1, r);
    assert(c2.last_scanned_day_number() == c.last_scanned_day_number() + 1);
    let n_start = s.spec_day_number();
    if ts_s > ts_e + 86400 {
        assert(count_business_days(y, m, d, 0, c.excluded_days@) == 0);
    } else if ts_s <= ts_e {
        let span = c.spec_span_days();
        lemma_le_div(n_start, ts_e - c.scan_residue(), 86400);
        assert(span >= 1);
        assert(c2.spec_span_days() == span + 1);
        lemma_count_one_more_day(y, m, d, span as nat, c.excluded_days@);
        assert((span + 1) as nat == (span as nat) + 1);
    } else {
        lemma_le_div(n_start, ts_e + 86400 - c.scan_residue(), 86400);
        lemma_le_div(n_start, ts_e - c.scan_residue(), 86400);
        assert(c.spec_span_days() == 0);
        assert(c2.spec_span_days() == 1);
        assert(count_business_days(y, m, d, 0, c.excluded_days@) == 0);
        let (yn, mn, dn) = next_date(y, m, d);
        assert(count_business_days(yn, mn, dn, 0, c.excluded_days@) == 0);
    }
}

/// Whether the list holds the date `(y, m, d)`.
fn contains_date(excluded: &Vec<CalendarDate>, y: u16, m: u8, d: u8) -> (r: bool)
    ensures
        r == date_excluded(excluded@, y as int, m as int, d as int),
{
    let mut i: usize = 0;
    let mut found: bool = false;
    while i < excluded.len() && !found
        invariant
            i <= excluded.len(),
            found ==> date_excluded(excluded@, y as int, m as int, d as int),
            !found ==> (forall|k: int| 0 <= k < i
                ==> !(#[trigger] date_matches(excluded@[k], y as int, m as int, d as int))),
        decreases excluded.len() - i,
    {
        let e = excluded[i];
        if e.year == y && e.month == m && e.day == d {
            assert(date_matches(excluded@[i as int], y as int, m as int, d as int));
            found = true;
        }
        i = i + 1;
    }
    found
}

} // verus!
