use exchange_rates::origin::contains_str;
use exchange_rates::origin::is_allowed_origin;

#[test]
fn test_is_allowed_origin() {
    // Test allowed origins
    assert!(is_allowed_origin("https://www.peregin.com"));
    assert!(is_allowed_origin("https://rates.velocorner.com"));
    assert!(is_allowed_origin("http://localhost:8000"));
    assert!(is_allowed_origin("http://localhost:3000"));

    // Test disallowed origins
    assert!(!is_allowed_origin("https://www.example.org"));
    assert!(!is_allowed_origin("http://127.0.0.1"));
}

#[test]
fn test_contains_str() {
    assert!(contains_str("exchange rates", "rates"));
    assert!(contains_str("exchange rates", "exchange"));
    assert!(contains_str("exchange rates", "nge ra"));
    assert!(contains_str("exchange rates", ""));
    assert!(!contains_str("exchange rates", "rated"));
    assert!(!contains_str("", "rates"));
    assert!(!contains_str("rate", "rates"));
}
