use exchange_rates::date::Date;
use exchange_rates::date::dates_between;
use exchange_rates::date::parse_iso_date;

fn day(year: i32, month: u8, dayofmonth: u8) -> Date {
    Date::from_calendar_date(year, month, dayofmonth).unwrap()
}

#[test]
fn test_historical_range_inclusive() {
    // from a day through its third successor: exactly four days
    let from = day(2024, 11, 12);
    let to = day(2024, 11, 15);
    let days = dates_between(from, to);
    assert_eq!(
        days,
        vec![day(2024, 11, 12), day(2024, 11, 13), day(2024, 11, 14), day(2024, 11, 15)]
    );
    assert_eq!(days.len(), 4);
}

#[test]
fn test_range_crosses_month_end() {
    let days = dates_between(day(2024, 4, 29), day(2024, 5, 2));
    assert_eq!(
        days,
        vec![day(2024, 4, 29), day(2024, 4, 30), day(2024, 5, 1), day(2024, 5, 2)]
    );
}

#[test]
fn test_range_crosses_leap_day() {
    let days = dates_between(day(2024, 2, 27), day(2024, 3, 1));
    assert_eq!(
        days,
        vec![day(2024, 2, 27), day(2024, 2, 28), day(2024, 2, 29), day(2024, 3, 1)]
    );
    let plain = dates_between(day(2023, 2, 27), day(2023, 3, 1));
    assert_eq!(plain, vec![day(2023, 2, 27), day(2023, 2, 28), day(2023, 3, 1)]);
}

#[test]
fn test_range_single_day_and_empty() {
    let d = day(2024, 1, 31);
    assert_eq!(dates_between(d, d), vec![d]);
    assert_eq!(dates_between(d, day(2024, 1, 30)), vec![]);
}

#[test]
fn test_next_day_transitions() {
    assert_eq!(day(2024, 11, 12).next_day(), Some(day(2024, 11, 13)));
    assert_eq!(day(2024, 4, 30).next_day(), Some(day(2024, 5, 1)));
    assert_eq!(day(2024, 12, 31).next_day(), Some(day(2025, 1, 1)));
    // leap years: divisible by four, except centuries off the quadricentennial
    assert_eq!(day(2024, 2, 28).next_day(), Some(day(2024, 2, 29)));
    assert_eq!(day(2024, 2, 29).next_day(), Some(day(2024, 3, 1)));
    assert_eq!(day(2023, 2, 28).next_day(), Some(day(2023, 3, 1)));
    assert_eq!(day(1900, 2, 28).next_day(), Some(day(1900, 3, 1)));
    assert_eq!(day(2000, 2, 28).next_day(), Some(day(2000, 2, 29)));
    // the calendar's last day has no successor
    assert_eq!(day(9999, 12, 31).next_day(), None);
}

#[test]
fn test_from_calendar_date_rejects_bad_dates() {
    assert!(Date::from_calendar_date(2024, 13, 1).is_none());
    assert!(Date::from_calendar_date(2024, 0, 1).is_none());
    assert!(Date::from_calendar_date(2024, 2, 30).is_none());
    assert!(Date::from_calendar_date(2023, 2, 29).is_none());
    assert!(Date::from_calendar_date(0, 1, 1).is_none());
    assert!(Date::from_calendar_date(2024, 6, 31).is_none());
    assert!(Date::from_calendar_date(2024, 6, 30).is_some());
}

#[test]
fn test_parse_iso_date() {
    assert_eq!(parse_iso_date("2024-11-12"), Some(day(2024, 11, 12)));
    assert_eq!(parse_iso_date("0001-01-01"), Some(day(1, 1, 1)));
    assert_eq!(parse_iso_date("9999-12-31"), Some(day(9999, 12, 31)));
    // malformed texts and days off the calendar are refused
    assert_eq!(parse_iso_date("2024-13-01"), None);
    assert_eq!(parse_iso_date("2024-02-30"), None);
    assert_eq!(parse_iso_date("2024-1-1"), None);
    assert_eq!(parse_iso_date("2024/11/12"), None);
    assert_eq!(parse_iso_date("abcd-11-12"), None);
    assert_eq!(parse_iso_date(""), None);
    assert_eq!(parse_iso_date("2024-11-12T00"), None);
}
