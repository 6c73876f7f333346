use business_days::calendar::Instant;
use business_days::counter::BusinessDays;
use chrono::{DateTime, Datelike, Timelike};

/// Builds a library instant from an RFC 3339 string, keeping the
/// string's own offset.
fn instant(s: &str) -> Instant {
    let dt = DateTime::parse_from_rfc3339(s).unwrap();
    Instant::new(
        dt.year() as u16,
        dt.month() as u8,
        dt.day() as u8,
        dt.hour() as u8,
        dt.minute() as u8,
        dt.second() as u8,
        dt.offset().local_minus_utc(),
    )
    .unwrap()
}

fn count_between(start: &str, end: &str) -> i32 {
    BusinessDays::new(instant(start), instant(end)).calculate()
}

#[test]
fn gets_1_business_days_between_2021_01_01_and_2021_01_01() {
    assert_eq!(
        1,
        count_between("2021-01-01T00:00:00+00:00", "2021-01-01T00:00:00+00:00")
    );
}

#[test]
fn gets_1_business_day_between_2021_01_01_and_2021_01_02() {
    assert_eq!(
        1,
        count_between("2021-01-01T00:00:00+00:00", "2021-01-02T00:00:00+00:00")
    );
}

#[test]
fn gets_1_business_day_between_2021_01_01_and_2021_01_03() {
    assert_eq!(
        1,
        count_between("2021-01-01T00:00:00+00:00", "2021-01-03T00:00:00+00:00")
    );
}

#[test]
fn gets_2_business_days_between_2021_01_01_and_2021_01_04() {
    assert_eq!(
        2,
        count_between("2021-01-01T00:00:00+00:00", "2021-01-04T00:00:00+00:00")
    );
}

#[test]
fn gets_3_business_days_between_2021_01_01_and_2021_01_05() {
    assert_eq!(
        3,
        count_between("2021-01-01T00:00:00+00:00", "2021-01-05T00:00:00+00:00")
    );
}

#[test]
fn gets_4_business_days_between_2021_01_01_and_2021_01_06() {
    assert_eq!(
        4,
        count_between("2021-01-01T00:00:00+00:00", "2021-01-06T00:00:00+00:00")
    );
}

#[test]
fn gets_5_business_days_between_2021_01_01_and_2021_01_07() {
    assert_eq!(
        5,
        count_between("2021-01-01T00:00:00+00:00", "2021-01-07T00:00:00+00:00")
    );
}

#[test]
fn gets_6_business_days_between_2021_01_01_and_2021_01_08() {
    assert_eq!(
        6,
        count_between("2021-01-01T00:00:00+00:00", "2021-01-08T00:00:00+00:00")
    );
}

#[test]
fn gets_23_business_days_between_2023_03_01_and_2023_03_31() {
    assert_eq!(
        23,
        count_between("2023-03-01T00:00:00+00:00", "2023-03-31T00:00:00+00:00")
    );
}

#[test]
fn gets_17_business_days_between_2023_04_01_and_2023_04_30_when_excluding_easter() {
    let mut business_days = BusinessDays::new(
        instant("2023-04-01T00:00:00+00:00"),
        instant("2023-04-30T00:00:00+00:00"),
    );

    business_days.exclude_day(instant("2023-04-06T00:00:00+00:00"));
    business_days.exclude_day(instant("2023-04-07T00:00:00+00:00"));
    business_days.exclude_day(instant("2023-04-10T00:00:00+00:00"));

    assert_eq!(17, business_days.calculate());
}

#[test]
fn gets_17_business_days_between_2023_04_01_and_2023_04_30_when_excluding_easter_with_tz() {
    let mut business_days = BusinessDays::new(
        instant("2023-04-01T00:00:00+00:00"),
        instant("2023-04-30T00:00:00+02:00"),
    );

    business_days.exclude_day(instant("2023-04-06T00:00:00+01:00"));
    business_days.exclude_day(instant("2023-04-07T10:00:00+00:00"));
    business_days.exclude_day(instant("2023-04-10T00:00:00+00:00"));

    assert_eq!(17, business_days.calculate());
}

#[test]
fn gets_0_business_days_when_start_is_after_end() {
    assert_eq!(
        0,
        count_between("2023-04-10T00:00:00+00:00", "2023-04-01T00:00:00+00:00")
    );
    assert_eq!(
        0,
        count_between("2021-01-02T00:00:01+00:00", "2021-01-02T00:00:00+00:00")
    );
}

#[test]
fn gets_0_business_days_on_a_single_weekend_day() {
    // 2021-01-02 was a Saturday, 2021-01-03 a Sunday
    assert_eq!(
        0,
        count_between("2021-01-02T00:00:00+00:00", "2021-01-02T00:00:00+00:00")
    );
    assert_eq!(
        0,
        count_between("2021-01-03T12:30:00+00:00", "2021-01-03T12:30:00+00:00")
    );
}

#[test]
fn gets_0_business_days_on_a_single_excluded_weekday() {
    let mut business_days = BusinessDays::new(
        instant("2021-01-04T00:00:00+00:00"),
        instant("2021-01-04T00:00:00+00:00"),
    );
    business_days.exclude_day(instant("2021-01-04T09:00:00+00:00"));
    assert_eq!(0, business_days.calculate());
}

#[test]
fn a_full_week_holds_5_business_days_from_any_start() {
    // 2023-05-01 was a Monday; each start of the following week begins a
    // run of seven consecutive days holding one full weekend
    let starts: [&str; 7] = [
        "2023-05-01T00:00:00+00:00",
        "2023-05-02T00:00:00+00:00",
        "2023-05-03T00:00:00+00:00",
        "2023-05-04T00:00:00+00:00",
        "2023-05-05T00:00:00+00:00",
        "2023-05-06T00:00:00+00:00",
        "2023-05-07T00:00:00+00:00",
    ];
    let ends: [&str; 7] = [
        "2023-05-07T00:00:00+00:00",
        "2023-05-08T00:00:00+00:00",
        "2023-05-09T00:00:00+00:00",
        "2023-05-10T00:00:00+00:00",
        "2023-05-11T00:00:00+00:00",
        "2023-05-12T00:00:00+00:00",
        "2023-05-13T00:00:00+00:00",
    ];
    let mut i: usize = 0;
    while i < 7 {
        assert_eq!(5, count_between(starts[i], ends[i]));
        i += 1;
    }
}

#[test]
fn excluding_a_date_outside_the_range_changes_nothing() {
    let start = instant("2023-04-03T00:00:00+00:00");
    let end = instant("2023-04-14T00:00:00+00:00");
    let plain = BusinessDays::new(start, end).calculate();
    let mut with_distant = BusinessDays::new(start, end);
    with_distant.exclude_day(instant("2023-03-31T00:00:00+00:00"));
    with_distant.exclude_day(instant("2023-04-15T00:00:00+00:00"));
    with_distant.exclude_day(instant("2024-04-05T00:00:00+00:00"));
    assert_eq!(plain, with_distant.calculate());
    assert_eq!(10, plain);
}

#[test]
fn excluding_the_same_date_twice_counts_it_once() {
    let start = instant("2023-04-03T00:00:00+00:00");
    let end = instant("2023-04-07T00:00:00+00:00");
    let mut once = BusinessDays::new(start, end);
    once.exclude_day(instant("2023-04-05T00:00:00+00:00"));
    let mut twice = BusinessDays::new(start, end);
    twice.exclude_day(instant("2023-04-05T00:00:00+00:00"));
    twice.exclude_day(instant("2023-04-05T08:00:00+00:00"));
    assert_eq!(once.calculate(), twice.calculate());
    assert_eq!(4, twice.calculate());
}

#[test]
fn excluding_a_weekend_day_changes_nothing() {
    let start = instant("2023-04-03T00:00:00+00:00");
    let end = instant("2023-04-14T00:00:00+00:00");
    let mut counter = BusinessDays::new(start, end);
    // 2023-04-08 was a Saturday
    counter.exclude_day(instant("2023-04-08T00:00:00+00:00"));
    assert_eq!(10, counter.calculate());
}

#[test]
fn extending_the_end_by_one_day_adds_at_most_one() {
    // Friday 2023-04-14 -> Saturday 2023-04-15: the count stays
    assert_eq!(
        10,
        count_between("2023-04-03T00:00:00+00:00", "2023-04-14T00:00:00+00:00")
    );
    assert_eq!(
        10,
        count_between("2023-04-03T00:00:00+00:00", "2023-04-15T00:00:00+00:00")
    );
    // Sunday 2023-04-16 -> Monday 2023-04-17: the count grows by one
    assert_eq!(
        10,
        count_between("2023-04-03T00:00:00+00:00", "2023-04-16T00:00:00+00:00")
    );
    assert_eq!(
        11,
        count_between("2023-04-03T00:00:00+00:00", "2023-04-17T00:00:00+00:00")
    );
}

#[test]
fn exclusions_use_the_supplied_offsets_own_date() {
    // The excluded instant is 2023-04-05T22:00:00 UTC, but its own offset
    // places it on 2023-04-06, so the Wednesday 2023-04-05 is not skipped:
    // exclusion dates are derived with the supplied offset, deliberately.
    let mut counter = BusinessDays::new(
        instant("2023-04-05T00:00:00+00:00"),
        instant("2023-04-05T00:00:00+00:00"),
    );
    counter.exclude_day(instant("2023-04-06T01:00:00+03:00"));
    assert_eq!(1, counter.calculate());
}

#[test]
fn counts_across_a_year_boundary() {
    // 2020-12-28 was a Monday; New Year's Day 2021 fell on a Friday
    assert_eq!(
        10,
        count_between("2020-12-28T00:00:00+00:00", "2021-01-08T00:00:00+00:00")
    );
}

#[test]
fn counts_across_a_leap_february() {
    // February 2024 had 29 days; 2024-02-01 was a Thursday
    assert_eq!(
        21,
        count_between("2024-02-01T00:00:00+00:00", "2024-02-29T00:00:00+00:00")
    );
    // 2024-03-01, the day after the leap day, was a Friday
    assert_eq!(
        1,
        count_between("2024-03-01T00:00:00+00:00", "2024-03-01T00:00:00+00:00")
    );
}
