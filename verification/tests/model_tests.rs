use exchange_rates::model::ExchangeRate;

fn rate_table(base: &str, pairs: &[(&str, f32)]) -> ExchangeRate {
    let mut ex = ExchangeRate::empty(base);
    for (code, value) in pairs {
        ex.insert(code.to_string(), value.to_bits());
    }
    ex
}

#[test]
fn test_chain() {
    let exchange_rate1 = rate_table("USD", &[("USD", 1.0), ("EUR", 0.9)]);
    let exchange_rate2 = rate_table("USD", &[("GBP", 0.8), ("JPY", 120.0), ("USD", 1.1)]);

    let chained = exchange_rate1.chain(exchange_rate2);

    assert_eq!(chained.base, "USD");
    assert_eq!(chained.len(), 4);
    assert_eq!(chained.get("USD"), Some(1.1f32.to_bits())); // second is overriding
    assert_eq!(chained.get("EUR"), Some(0.9f32.to_bits()));
    assert_eq!(chained.get("GBP"), Some(0.8f32.to_bits()));
    assert_eq!(chained.get("JPY"), Some(120.0f32.to_bits()));
}

#[test]
fn test_chain_keeps_base_of_second_operand() {
    let a = rate_table("CHF", &[("USD", 1.12)]);
    let b = rate_table("EUR", &[("JPY", 163.0)]);

    let chained = a.chain(b);

    assert_eq!(chained.base, "EUR");
    assert_eq!(chained.len(), 2);
    assert_eq!(chained.get("USD"), Some(1.12f32.to_bits()));
    assert_eq!(chained.get("JPY"), Some(163.0f32.to_bits()));
}

#[test]
fn test_insert_overwrites() {
    let mut ex = ExchangeRate::empty("EUR");
    ex.insert("USD".to_string(), 1.1f32.to_bits());
    ex.insert("USD".to_string(), 1.2f32.to_bits());

    assert_eq!(ex.len(), 1);
    assert_eq!(ex.get("USD"), Some(1.2f32.to_bits()));
    assert_eq!(ex.get("GBP"), None);
    assert!(!ex.contains("GBP"));
    assert!(ex.contains("USD"));
}

#[test]
fn test_empty_rate_table() {
    let ex = ExchangeRate::empty("EUR");
    assert_eq!(ex.base, "EUR");
    assert_eq!(ex.len(), 0);
    assert_eq!(ex.get("USD"), None);
}
