use business_days::calendar::Instant;

#[test]
fn builds_instants_from_valid_parts() {
    let i = Instant::new(2023, 4, 30, 0, 0, 0, 7200).unwrap();
    assert_eq!(2023, i.year);
    assert_eq!(4, i.month);
    assert_eq!(30, i.day);
    assert_eq!(0, i.second_of_day);
    assert_eq!(7200, i.offset_seconds);

    let j = Instant::new(2023, 4, 7, 10, 30, 59, -3600).unwrap();
    assert_eq!(10 * 3600 + 30 * 60 + 59, j.second_of_day);
    assert_eq!(-3600, j.offset_seconds);
}

#[test]
fn accepts_the_leap_day_only_in_leap_years() {
    assert!(Instant::new(2024, 2, 29, 0, 0, 0, 0).is_some());
    assert!(Instant::new(2023, 2, 29, 0, 0, 0, 0).is_none());
    assert!(Instant::new(2000, 2, 29, 0, 0, 0, 0).is_some());
    assert!(Instant::new(1900, 2, 29, 0, 0, 0, 0).is_none());
}

#[test]
fn rejects_parts_that_name_no_date_or_time() {
    assert!(Instant::new(2023, 0, 1, 0, 0, 0, 0).is_none());
    assert!(Instant::new(2023, 13, 1, 0, 0, 0, 0).is_none());
    assert!(Instant::new(2023, 4, 0, 0, 0, 0, 0).is_none());
    assert!(Instant::new(2023, 4, 31, 0, 0, 0, 0).is_none());
    assert!(Instant::new(10000, 1, 1, 0, 0, 0, 0).is_none());
    assert!(Instant::new(2023, 4, 1, 24, 0, 0, 0).is_none());
    assert!(Instant::new(2023, 4, 1, 0, 60, 0, 0).is_none());
    assert!(Instant::new(2023, 4, 1, 0, 0, 60, 0).is_none());
    assert!(Instant::new(2023, 4, 1, 0, 0, 0, 86400).is_none());
    assert!(Instant::new(2023, 4, 1, 0, 0, 0, -86400).is_none());
    assert!(Instant::new(2023, 4, 1, 0, 0, 0, 86399).is_some());
}
