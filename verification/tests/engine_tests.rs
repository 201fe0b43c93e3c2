use exchange_rates::engine::rates_of_with;
use exchange_rates::engine::symbols_with;
use exchange_rates::model::ExchangeRate;
use exchange_rates::symbols::SymbolTable;

fn rate_table(base: &str, pairs: &[(&str, f32)]) -> ExchangeRate {
    let mut ex = ExchangeRate::empty(base);
    for (code, value) in pairs {
        ex.insert(code.to_string(), value.to_bits());
    }
    ex
}

fn catalogue(pairs: &[(&str, &str)]) -> SymbolTable {
    let mut t = SymbolTable::empty();
    for (code, name) in pairs {
        t.insert(code.to_string(), name.to_string());
    }
    t
}

#[test]
fn test_rates_of_single_provider() {
    let results = vec![rate_table("EUR", &[("USD", 1.1), ("GBP", 0.85)])];

    let result = rates_of_with("EUR", &results);

    assert_eq!(result.base, "EUR");
    assert_eq!(result.len(), 2);
    assert_eq!(result.get("USD"), Some(1.1f32.to_bits()));
    assert_eq!(result.get("GBP"), Some(0.85f32.to_bits()));
}

#[test]
fn test_rates_of_multiple_providers_with_priority() {
    // use the same order as the real providers: the central bank first
    let ecb = rate_table("EUR", &[("USD", 1.1), ("GBP", 0.85)]);
    // USD should be overridden by the first provider, JPY included
    let floating = rate_table("EUR", &[("USD", 1.2), ("JPY", 130.0)]);

    let result = rates_of_with("EUR", &vec![ecb, floating]);

    assert_eq!(result.base, "EUR");
    assert_eq!(result.len(), 3);
    assert_eq!(result.get("USD"), Some(1.1f32.to_bits())); // first provider's rate
    assert_eq!(result.get("GBP"), Some(0.85f32.to_bits()));
    assert_eq!(result.get("JPY"), Some(130.0f32.to_bits()));
}

#[test]
fn test_rates_of_empty_providers() {
    let result = rates_of_with("EUR", &Vec::new());

    assert_eq!(result.base, "EUR");
    assert_eq!(result.len(), 0);
}

#[test]
fn test_aggregation_example_scenario() {
    // base EUR; provider A first, provider B registered after it
    let a = rate_table("EUR", &[("USD", 1.10), ("GBP", 0.85)]);
    let b = rate_table("EUR", &[("USD", 1.20), ("JPY", 130.0)]);

    let result = rates_of_with("EUR", &vec![a, b]);

    assert_eq!(result.len(), 3);
    assert_eq!(result.get("USD"), Some(1.10f32.to_bits())); // A's USD wins
    assert_eq!(result.get("GBP"), Some(0.85f32.to_bits()));
    assert_eq!(result.get("JPY"), Some(130.0f32.to_bits())); // JPY added from B
}

#[test]
fn test_symbols_union_last_wins() {
    let first = catalogue(&[("USD", "US Dollar"), ("CHF", "Franc")]);
    let second = catalogue(&[("CHF", "Swiss Franc"), ("KES", "Kenyan Shilling")]);

    let result = symbols_with(&vec![first, second]);

    // every catalogued code is present; on the collision the later one wins
    assert_eq!(result.get("USD").map(String::as_str), Some("US Dollar"));
    assert_eq!(result.get("CHF").map(String::as_str), Some("Swiss Franc"));
    assert_eq!(result.get("KES").map(String::as_str), Some("Kenyan Shilling"));
    assert_eq!(result.len(), 3);
    assert_eq!(result.get("JPY"), None);
}

#[test]
fn test_symbols_of_no_providers() {
    let result = symbols_with(&Vec::new());
    assert_eq!(result.len(), 0);
}
