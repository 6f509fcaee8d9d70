use pepper_plucker::date::Date;

#[test]
fn accepts_ordinary_dates() {
    assert!(Date::new(2024, 1, 31).is_some());
    assert!(Date::new(2024, 4, 30).is_some());
    assert!(Date::new(0, 1, 1).is_some());
    assert!(Date::new(9999, 12, 31).is_some());
}

#[test]
fn rejects_impossible_dates() {
    assert!(Date::new(2024, 0, 1).is_none());
    assert!(Date::new(2024, 13, 1).is_none());
    assert!(Date::new(2024, 1, 0).is_none());
    assert!(Date::new(2024, 1, 32).is_none());
    assert!(Date::new(2024, 4, 31).is_none());
    assert!(Date::new(-1, 6, 15).is_none());
    assert!(Date::new(10000, 6, 15).is_none());
}

#[test]
fn applies_the_leap_year_rule() {
    assert!(Date::new(2024, 2, 29).is_some());
    assert!(Date::new(2023, 2, 29).is_none());
    assert!(Date::new(1900, 2, 29).is_none());
    assert!(Date::new(2000, 2, 29).is_some());
    assert!(Date::new(2024, 2, 30).is_none());
}

#[test]
fn constructor_keeps_the_fields() {
    let d = Date::new(2024, 7, 4).unwrap();
    assert_eq!(d.year, 2024);
    assert_eq!(d.month, 7);
    assert_eq!(d.day, 4);
    assert!(d.is_valid());
    assert!(!Date { year: 2024, month: 2, day: 30 }.is_valid());
}
