use exchange_rates::date::Date;
use exchange_rates::model::RateEntry;
use exchange_rates::provider_ecb::EcbRateProvider;
use exchange_rates::provider_ecb::EcbRow;
use exchange_rates::provider_float::FloatRateEntry;
use exchange_rates::provider_float::FloatRateProvider;
use exchange_rates::provider_free::FreeRateProvider;

fn day(year: i32, month: u8, dayofmonth: u8) -> Date {
    Date::from_calendar_date(year, month, dayofmonth).unwrap()
}

#[test]
fn test_historical_empty_response() {
    let provider = FloatRateProvider::new();
    let base = "USD";
    let from = day(2023, 1, 1);
    let to = day(2024, 11, 11);

    let result = provider.historical(base, from, to);

    assert_eq!(result.len(), 0);
}

#[test]
fn test_historical_date_range() {
    let provider = FloatRateProvider::new();
    let base = "EUR";
    let from = day(2024, 11, 11);
    let to = day(2024, 11, 21); // ten days later

    let result = provider.historical(base, from, to);

    assert_eq!(result.len(), 0);
}

#[test]
fn test_provider_names() {
    assert_eq!(EcbRateProvider::new().provider_name(), "European Central Bank");
    assert_eq!(FloatRateProvider::new().provider_name(), "floatrates.com");
    assert_eq!(FreeRateProvider::new().provider_name(), "Free Exchange API");
}

#[test]
fn test_float_latest_from_entries() {
    let entries = vec![
        FloatRateEntry { code: "USD".to_string(), name: "U.S. Dollar".to_string(), rate: 1.12f32.to_bits() },
        FloatRateEntry { code: "JPY".to_string(), name: "Japanese Yen".to_string(), rate: 163.0f32.to_bits() },
    ];

    let result = FloatRateProvider::latest_from_entries("CHF", &entries);

    assert_eq!(result.base, "CHF");
    assert_eq!(result.len(), 2);
    assert_eq!(result.get("USD"), Some(1.12f32.to_bits()));
    assert_eq!(result.get("JPY"), Some(163.0f32.to_bits()));
}

#[test]
fn test_float_symbols_from_entries() {
    let entries = vec![
        FloatRateEntry { code: "USD".to_string(), name: "U.S. Dollar".to_string(), rate: 1.0f32.to_bits() },
        FloatRateEntry { code: "KES".to_string(), name: "Kenyan Shilling".to_string(), rate: 2.0f32.to_bits() },
    ];

    let result = FloatRateProvider::symbols_from_entries(&entries);

    assert_eq!(result.len(), 2);
    assert_eq!(result.get("USD").map(String::as_str), Some("U.S. Dollar"));
    assert_eq!(result.get("KES").map(String::as_str), Some("Kenyan Shilling"));
}

#[test]
fn test_free_latest_and_symbols_are_empty() {
    let provider = FreeRateProvider::new();
    let latest = provider.latest("EUR");
    assert_eq!(latest.base, "EUR");
    assert_eq!(latest.len(), 0);
    assert_eq!(provider.symbols().len(), 0);
}

#[test]
fn test_free_rates_keep_only_allowed_minors() {
    // the upstream quotes codes in lower case; only kes and bdt survive
    let entries = vec![
        RateEntry { code: "usd".to_string(), value: 1.1f32.to_bits() },
        RateEntry { code: "kes".to_string(), value: 140.0f32.to_bits() },
        RateEntry { code: "bdt".to_string(), value: 117.0f32.to_bits() },
        RateEntry { code: "KES".to_string(), value: 1.0f32.to_bits() },
    ];

    let result = FreeRateProvider::rates_from_entries("EUR", &entries);

    assert_eq!(result.base, "EUR");
    assert_eq!(result.len(), 2);
    assert_eq!(result.get("KES"), Some(140.0f32.to_bits()));
    assert_eq!(result.get("BDT"), Some(117.0f32.to_bits()));
    assert_eq!(result.get("usd"), None);
    assert_eq!(result.get("USD"), None);
}

#[test]
fn test_free_series_from_daily() {
    let days = vec![day(2024, 11, 12), day(2024, 11, 13)];
    let mut first = exchange_rates::model::ExchangeRate::empty("EUR");
    first.insert("KES".to_string(), 140.0f32.to_bits());
    let mut second = exchange_rates::model::ExchangeRate::empty("EUR");
    second.insert("KES".to_string(), 141.0f32.to_bits());

    let series = FreeRateProvider::series_from_daily(&days, vec![first, second]);

    assert_eq!(series.len(), 2);
    assert_eq!(series.get(day(2024, 11, 12)).unwrap().get("KES"), Some(140.0f32.to_bits()));
    assert_eq!(series.get(day(2024, 11, 13)).unwrap().get("KES"), Some(141.0f32.to_bits()));
}

#[test]
fn test_ecb_historical_from_rows() {
    let rows = vec![
        EcbRow {
            date: "2024-11-12".to_string(),
            rates: vec![RateEntry { code: "USD".to_string(), value: 1.1f32.to_bits() }],
        },
        EcbRow {
            date: "2024-11-13".to_string(),
            rates: vec![RateEntry { code: "USD".to_string(), value: 1.2f32.to_bits() }],
        },
    ];

    let series = EcbRateProvider::historical_from_rows("EUR", &rows).unwrap();

    assert_eq!(series.len(), 2);
    let first = series.get(day(2024, 11, 12)).unwrap();
    assert_eq!(first.base, "EUR");
    assert_eq!(first.get("USD"), Some(1.1f32.to_bits()));
    let second = series.get(day(2024, 11, 13)).unwrap();
    assert_eq!(second.get("USD"), Some(1.2f32.to_bits()));
}

#[test]
fn test_ecb_historical_refuses_malformed_date() {
    let rows = vec![
        EcbRow {
            date: "2024-11-12".to_string(),
            rates: vec![RateEntry { code: "USD".to_string(), value: 1.1f32.to_bits() }],
        },
        EcbRow { date: "2024-13-01".to_string(), rates: vec![] },
    ];

    assert!(EcbRateProvider::historical_from_rows("EUR", &rows).is_none());
}
