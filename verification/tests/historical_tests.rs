use exchange_rates::date::Date;
use exchange_rates::date::dates_between;
use exchange_rates::engine::historical_rates_of_with;
use exchange_rates::model::ExchangeRate;
use exchange_rates::series::RateSeries;

fn day(year: i32, month: u8, dayofmonth: u8) -> Date {
    Date::from_calendar_date(year, month, dayofmonth).unwrap()
}

/// A provider's per-day history over the inclusive range: each rate is the
/// base value plus one more for every later day (1.1, 2.1, 3.1, ...).
fn mock_historical(base: &str, pairs: &[(&str, f32)], from: Date, to: Date) -> RateSeries {
    let mut series = RateSeries::empty();
    for (i, date) in dates_between(from, to).into_iter().enumerate() {
        let mut ex = ExchangeRate::empty(base);
        for (code, value) in pairs {
            ex.insert(code.to_string(), (value + i as f32 + 1.0).to_bits());
        }
        series.insert(date, ex);
    }
    series
}

#[test]
fn test_historical_rates_with_multiple_providers_and_priority() {
    let from = day(2024, 11, 12);
    let to = day(2024, 11, 15);
    let ecb = mock_historical("EUR", &[("USD", 1.1), ("GBP", 0.85)], from, to);
    // USD should be overridden by the first provider, JPY included
    let floating = mock_historical("EUR", &[("USD", 1.2), ("JPY", 130.0)], from, to);

    let result = historical_rates_of_with(vec![ecb, floating]);

    assert_eq!(result.len(), 4);
    let day1 = result.get(from).unwrap();
    assert_eq!(day1.base, "EUR");
    assert_eq!(day1.len(), 3);
    assert_eq!(day1.get("USD"), Some(2.1f32.to_bits())); // the first provider's rate
    assert_eq!(day1.get("GBP"), Some(1.85f32.to_bits()));
    assert_eq!(day1.get("JPY"), Some(131.0f32.to_bits()));
    let day4 = result.get(to).unwrap();
    assert_eq!(day4.base, "EUR");
    assert_eq!(day4.len(), 3);
    assert_eq!(day4.get("USD"), Some(5.1f32.to_bits())); // the first provider's rate
    assert_eq!(day4.get("GBP"), Some(4.85f32.to_bits()));
    assert_eq!(day4.get("JPY"), Some(134.0f32.to_bits()));
}

#[test]
fn test_historical_rates_with_empty_multiple_providers() {
    let from = day(2024, 11, 12);
    let to = day(2024, 11, 14);
    let ecb = mock_historical("EUR", &[], from, to);
    let floating = mock_historical("EUR", &[("USD", 1.2), ("JPY", 130.0)], from, to);

    let result = historical_rates_of_with(vec![ecb, floating]);

    assert_eq!(result.len(), 3);
    let day1 = result.get(from).unwrap();
    assert_eq!(day1.base, "EUR");
    assert_eq!(day1.len(), 2);
    assert_eq!(day1.get("USD"), Some(2.2f32.to_bits()));
    assert!(!day1.contains("GBP"));
    assert_eq!(day1.get("JPY"), Some(131.0f32.to_bits()));
    let day3 = result.get(to).unwrap();
    assert_eq!(day3.base, "EUR");
    assert_eq!(day3.len(), 2);
    assert_eq!(day3.get("USD"), Some(4.2f32.to_bits()));
    assert!(!day3.contains("GBP"));
    assert_eq!(day3.get("JPY"), Some(133.0f32.to_bits()));
}

#[test]
fn test_historical_per_date_priority() {
    // the merge applies the first-provider-wins rule at every date on its own
    let d1 = day(2024, 3, 1);
    let d2 = day(2024, 3, 2);
    let d3 = day(2024, 3, 3);

    let mut first = RateSeries::empty();
    let mut a1 = ExchangeRate::empty("EUR");
    a1.insert("USD".to_string(), 1.0f32.to_bits());
    first.insert(d1, a1);
    let mut a2 = ExchangeRate::empty("EUR");
    a2.insert("USD".to_string(), 1.0f32.to_bits());
    first.insert(d2, a2);

    let mut second = RateSeries::empty();
    for d in [d2, d3] {
        let mut b = ExchangeRate::empty("EUR");
        b.insert("USD".to_string(), 2.0f32.to_bits());
        b.insert("JPY".to_string(), 3.0f32.to_bits());
        second.insert(d, b);
    }

    let result = historical_rates_of_with(vec![first, second]);

    assert_eq!(result.len(), 3);
    assert_eq!(result.get(d1).unwrap().get("USD"), Some(1.0f32.to_bits()));
    assert_eq!(result.get(d1).unwrap().get("JPY"), None);
    // on the shared date the first provider's USD wins, JPY is filled in
    assert_eq!(result.get(d2).unwrap().get("USD"), Some(1.0f32.to_bits()));
    assert_eq!(result.get(d2).unwrap().get("JPY"), Some(3.0f32.to_bits()));
    // a date only the second provider covers passes through unchanged
    assert_eq!(result.get(d3).unwrap().get("USD"), Some(2.0f32.to_bits()));
    assert_eq!(result.get(d3).unwrap().get("JPY"), Some(3.0f32.to_bits()));
}

#[test]
fn test_counter_series_extraction() {
    let d1 = day(2024, 3, 1);
    let d2 = day(2024, 3, 2);
    let d3 = day(2024, 3, 3);

    let mut series = RateSeries::empty();
    let mut e1 = ExchangeRate::empty("EUR");
    e1.insert("USD".to_string(), 1.1f32.to_bits());
    series.insert(d1, e1);
    let mut e2 = ExchangeRate::empty("EUR");
    e2.insert("GBP".to_string(), 0.9f32.to_bits());
    series.insert(d2, e2);
    let mut e3 = ExchangeRate::empty("EUR");
    e3.insert("USD".to_string(), 1.3f32.to_bits());
    series.insert(d3, e3);

    let points = series.rates_for("USD");

    assert_eq!(points, vec![(d1, 1.1f32.to_bits()), (d3, 1.3f32.to_bits())]);
    assert_eq!(series.rates_for("CHF"), vec![]);
}
