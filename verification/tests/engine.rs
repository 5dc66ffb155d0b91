use payments_engine::amount::parse_optional_amount;
use payments_engine::engine::PaymentEngine;
use payments_engine::models::Client;

const ZERO: i128 = 0;

fn dec(s: &str) -> i128 {
    parse_optional_amount(s).unwrap().unwrap()
}

fn client(engine: &PaymentEngine, id: u16) -> Client {
    *engine.clients_sorted().into_iter().find(|c| c.id == id).unwrap()
}

#[test]
fn deposit_increases_available_and_total() {
    let mut engine = PaymentEngine::new();
    engine.deposit(1, 1, dec("100.0"));
    let c = client(&engine, 1);
    assert_eq!(c.available, dec("100.0"));
    assert_eq!(c.total, dec("100.0"));
    assert_eq!(c.held, ZERO);
}

#[test]
fn withdrawal_decreases_available_and_total() {
    let mut engine = PaymentEngine::new();
    engine.deposit(1, 1, dec("100.0"));
    engine.withdrawal(1, 2, dec("30.0"));
    let c = client(&engine, 1);
    assert_eq!(c.available, dec("70.0"));
    assert_eq!(c.total, dec("70.0"));
}

#[test]
fn withdrawal_insufficient_funds_is_ignored() {
    let mut engine = PaymentEngine::new();
    engine.deposit(1, 1, dec("10.0"));
    engine.withdrawal(1, 2, dec("50.0"));
    let c = client(&engine, 1);
    assert_eq!(c.available, dec("10.0"));
    assert_eq!(c.total, dec("10.0"));
    assert!(engine.transaction(2).is_none());
}

#[test]
fn dispute_on_deposit_moves_funds_to_held() {
    let mut engine = PaymentEngine::new();
    engine.deposit(1, 1, dec("100.0"));
    engine.dispute(1, 1);
    let c = client(&engine, 1);
    assert_eq!(c.available, ZERO);
    assert_eq!(c.held, dec("100.0"));
    assert_eq!(c.total, dec("100.0"));
}

#[test]
fn dispute_on_withdrawal_returns_funds_to_held() {
    let mut engine = PaymentEngine::new();
    engine.deposit(1, 1, dec("100.0"));
    engine.withdrawal(1, 2, dec("30.0"));
    engine.dispute(1, 2);
    let c = client(&engine, 1);
    assert_eq!(c.available, dec("100.0"));
    assert_eq!(c.held, dec("30.0"));
    assert_eq!(c.total, dec("100.0"));
}

#[test]
fn resolve_on_deposit_returns_held_to_available() {
    let mut engine = PaymentEngine::new();
    engine.deposit(1, 1, dec("100.0"));
    engine.dispute(1, 1);
    engine.resolve(1, 1);
    let c = client(&engine, 1);
    assert_eq!(c.available, dec("100.0"));
    assert_eq!(c.held, ZERO);
    assert_eq!(c.total, dec("100.0"));
}

#[test]
fn chargeback_removes_held_and_total_and_locks() {
    let mut engine = PaymentEngine::new();
    engine.deposit(1, 1, dec("100.0"));
    engine.dispute(1, 1);
    engine.chargeback(1, 1);
    let c = client(&engine, 1);
    assert_eq!(c.available, ZERO);
    assert_eq!(c.held, ZERO);
    assert_eq!(c.total, ZERO);
    assert!(c.locked);
}

#[test]
fn locked_account_ignores_all_transactions() {
    let mut engine = PaymentEngine::new();
    engine.deposit(1, 1, dec("100.0"));
    engine.dispute(1, 1);
    engine.chargeback(1, 1);
    engine.deposit(1, 2, dec("50.0"));
    let c = client(&engine, 1);
    assert_eq!(c.total, ZERO);
    assert!(c.locked);
}

#[test]
fn dispute_nonexistent_tx_ignored() {
    let mut engine = PaymentEngine::new();
    engine.deposit(1, 1, dec("100.0"));
    engine.dispute(1, 999);
    let c = client(&engine, 1);
    assert_eq!(c.available, dec("100.0"));
    assert_eq!(c.held, ZERO);
}

#[test]
fn resolve_non_disputed_tx_ignored() {
    let mut engine = PaymentEngine::new();
    engine.deposit(1, 1, dec("100.0"));
    engine.resolve(1, 1);
    let c = client(&engine, 1);
    assert_eq!(c.available, dec("100.0"));
    assert_eq!(c.held, ZERO);
}

#[test]
fn dispute_wrong_client_ignored() {
    let mut engine = PaymentEngine::new();
    engine.deposit(1, 1, dec("100.0"));
    engine.dispute(2, 1);
    let c = client(&engine, 1);
    assert_eq!(c.available, dec("100.0"));
    assert_eq!(c.held, ZERO);
}

#[test]
fn multiple_clients_independent() {
    let mut engine = PaymentEngine::new();
    engine.deposit(1, 1, dec("100.0"));
    engine.deposit(2, 2, dec("200.0"));
    engine.withdrawal(2, 3, dec("50.0"));
    let clients = engine.clients_sorted();
    assert_eq!(clients[0].id, 1);
    assert_eq!(clients[0].total, dec("100.0"));
    assert_eq!(clients[1].id, 2);
    assert_eq!(clients[1].total, dec("150.0"));
}

#[test]
fn four_decimal_precision() {
    let mut engine = PaymentEngine::new();
    engine.deposit(1, 1, dec("1.2345"));
    engine.withdrawal(1, 2, dec("0.0010"));
    let c = client(&engine, 1);
    assert_eq!(c.available, dec("1.2335"));
}

#[test]
fn default_creates_empty_engine() {
    let engine = PaymentEngine::default();
    assert!(engine.clients_sorted().is_empty());
}

#[test]
fn withdrawal_of_exact_available_succeeds() {
    let mut engine = PaymentEngine::new();
    engine.deposit(1, 1, dec("50.0"));
    engine.withdrawal(1, 2, dec("50.0"));
    let c = client(&engine, 1);
    assert_eq!(c.available, ZERO);
    assert_eq!(c.total, ZERO);
}

#[test]
fn successful_withdrawal_stored_in_transactions() {
    let mut engine = PaymentEngine::new();
    engine.deposit(1, 1, dec("100.0"));
    engine.withdrawal(1, 2, dec("30.0"));
    assert!(engine.transaction(2).is_some());
}

#[test]
fn invariant_total_equals_available_plus_held_after_deposit() {
    let mut engine = PaymentEngine::new();
    engine.deposit(1, 1, dec("100.0"));
    let c = client(&engine, 1);
    assert_eq!(c.total, c.available + c.held);
}

#[test]
fn invariant_total_equals_available_plus_held_after_dispute() {
    let mut engine = PaymentEngine::new();
    engine.deposit(1, 1, dec("100.0"));
    engine.withdrawal(1, 2, dec("30.0"));
    engine.dispute(1, 1);
    let c = client(&engine, 1);
    assert_eq!(c.total, c.available + c.held);
}

#[test]
fn invariant_total_equals_available_plus_held_after_chargeback() {
    let mut engine = PaymentEngine::new();
    engine.deposit(1, 1, dec("100.0"));
    engine.dispute(1, 1);
    engine.chargeback(1, 1);
    let c = client(&engine, 1);
    assert_eq!(c.total, c.available + c.held);
}

#[test]
fn chargeback_non_disputed_tx_ignored() {
    let mut engine = PaymentEngine::new();
    engine.deposit(1, 1, dec("100.0"));
    engine.chargeback(1, 1);
    let c = client(&engine, 1);
    assert_eq!(c.available, dec("100.0"));
    assert!(!c.locked);
}

#[test]
fn chargeback_nonexistent_tx_ignored() {
    let mut engine = PaymentEngine::new();
    engine.deposit(1, 1, dec("100.0"));
    engine.chargeback(1, 999);
    let c = client(&engine, 1);
    assert_eq!(c.available, dec("100.0"));
    assert!(!c.locked);
}

#[test]
fn resolve_after_chargeback_ignored() {
    let mut engine = PaymentEngine::new();
    engine.deposit(1, 1, dec("100.0"));
    engine.dispute(1, 1);
    engine.chargeback(1, 1);
    engine.resolve(1, 1);
    let c = client(&engine, 1);
    assert_eq!(c.held, ZERO);
    assert!(c.locked);
}

#[test]
fn locked_is_permanent_after_chargeback() {
    let mut engine = PaymentEngine::new();
    engine.deposit(1, 1, dec("100.0"));
    engine.dispute(1, 1);
    engine.chargeback(1, 1);
    engine.resolve(1, 1);
    engine.dispute(1, 1);
    let c = client(&engine, 1);
    assert!(c.locked);
}

#[test]
fn deposit_creates_client_automatically() {
    let mut engine = PaymentEngine::new();
    engine.deposit(42, 1, dec("10.0"));
    assert!(engine.clients_sorted().iter().any(|c| c.id == 42));
}
