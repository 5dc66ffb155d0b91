use payments_engine::amount::{parse_optional_amount, AmountError};
use payments_engine::models::Client;

#[test]
fn client_new_has_zero_balances() {
    let c = Client::new(42);
    assert_eq!(c.id, 42);
    assert_eq!(c.available, 0);
    assert_eq!(c.held, 0);
    assert_eq!(c.total, 0);
    assert!(!c.locked);
}

#[test]
fn deserialize_optional_decimal_with_value() {
    let result = parse_optional_amount("1.2345").unwrap();
    assert_eq!(result, Some(12345));
}

#[test]
fn deserialize_optional_decimal_empty() {
    let result = parse_optional_amount("").unwrap();
    assert_eq!(result, None);
}

#[test]
fn deserialize_optional_decimal_rejects_more_than_4dp() {
    let result = parse_optional_amount("1.23456");
    assert!(result.is_err());
    assert_eq!(result, Err(AmountError::TooManyDecimalPlaces));
}
