use payments_engine::amount::{
    amount_from_parts, format_amount, parse_optional_amount, trim_text, white_space, AmountError,
    MAX_UNITS,
};
use payments_engine::engine::PaymentEngine;
use payments_engine::ids::sorted_ids;
use payments_engine::models::{Client, TransactionKind, TransactionRecord, TransactionRow};

fn row(kind: &str, client: u16, tx: u32, amount: Option<i128>) -> TransactionRow {
    TransactionRow { tx_type: kind.to_string(), client, tx, amount }
}

fn account(engine: &PaymentEngine, id: u16) -> Client {
    *engine.clients_sorted().into_iter().find(|c| c.id == id).unwrap()
}

fn apply(engine: &mut PaymentEngine, r: TransactionRow) {
    assert!(engine.fits_limits(&r));
    engine.process_transaction(r);
}

#[test]
fn amounts_are_read_in_ten_thousandths() {
    assert_eq!(parse_optional_amount("1.5"), Ok(Some(15_000)));
    assert_eq!(parse_optional_amount("-3.25"), Ok(Some(-32_500)));
    assert_eq!(parse_optional_amount("7"), Ok(Some(70_000)));
    assert_eq!(parse_optional_amount("0.0001"), Ok(Some(1)));
}

#[test]
fn amounts_are_trimmed_before_reading() {
    assert_eq!(parse_optional_amount("  2.5\t"), Ok(Some(25_000)));
    assert_eq!(parse_optional_amount("\u{3000}7\u{a0}"), Ok(Some(70_000)));
    assert_eq!(parse_optional_amount(" \n "), Ok(None));
    assert_eq!(trim_text(" a b "), "a b");
    assert!(white_space('\u{2028}'));
    assert!(!white_space('x'));
}

#[test]
fn amount_errors() {
    assert_eq!(parse_optional_amount("abc"), Err(AmountError::Unparsable));
    assert_eq!(parse_optional_amount("1.23450"), Err(AmountError::TooManyDecimalPlaces));
    assert_eq!(amount_from_parts(None), Err(AmountError::Unparsable));
    assert_eq!(amount_from_parts(Some((1, 5))), Err(AmountError::TooManyDecimalPlaces));
    assert_eq!(amount_from_parts(Some((123, 2))), Ok(12_300));
}

#[test]
fn largest_decimal_is_within_range() {
    assert_eq!(parse_optional_amount("79228162514264337593543950335"), Ok(Some(MAX_UNITS)));
}

#[test]
fn rows_for_a_locked_account_change_nothing() {
    let mut e = PaymentEngine::new();
    apply(&mut e, row("deposit", 1, 1, Some(1_000_000)));
    apply(&mut e, row("deposit", 1, 2, Some(500_000)));
    apply(&mut e, row("dispute", 1, 1, None));
    apply(&mut e, row("chargeback", 1, 1, None));
    let frozen = account(&e, 1);
    apply(&mut e, row("withdrawal", 1, 3, Some(1)));
    apply(&mut e, row("dispute", 1, 2, None));
    apply(&mut e, row("deposit", 1, 4, Some(7)));
    assert_eq!(account(&e, 1), frozen);
    assert!(e.transaction(3).is_none());
    assert!(!e.transaction(2).unwrap().under_dispute);
}

#[test]
fn rows_touch_only_their_client() {
    let mut e = PaymentEngine::new();
    apply(&mut e, row("deposit", 1, 1, Some(100)));
    apply(&mut e, row("deposit", 2, 2, Some(200)));
    let other = account(&e, 1);
    apply(&mut e, row("dispute", 2, 2, None));
    apply(&mut e, row("chargeback", 2, 2, None));
    apply(&mut e, row("dispute", 2, 1, None));
    assert_eq!(account(&e, 1), other);
}

#[test]
fn resolve_after_dispute_restores_the_account() {
    let mut e = PaymentEngine::new();
    apply(&mut e, row("deposit", 3, 1, Some(1_000_000)));
    apply(&mut e, row("withdrawal", 3, 2, Some(300_000)));
    let before = account(&e, 3);
    apply(&mut e, row("dispute", 3, 2, None));
    apply(&mut e, row("resolve", 3, 2, None));
    assert_eq!(account(&e, 3), before);
    assert_eq!(
        e.transaction(2),
        Some(TransactionRecord {
            kind: TransactionKind::Withdrawal,
            client_id: 3,
            amount: 300_000,
            under_dispute: false,
        })
    );
}

#[test]
fn second_dispute_changes_nothing() {
    let mut e = PaymentEngine::new();
    apply(&mut e, row("deposit", 1, 1, Some(40)));
    apply(&mut e, row("dispute", 1, 1, None));
    let once = account(&e, 1);
    apply(&mut e, row("dispute", 1, 1, None));
    assert_eq!(account(&e, 1), once);
}

#[test]
fn total_is_available_plus_held_except_for_disputed_withdrawals() {
    let mut e = PaymentEngine::new();
    apply(&mut e, row("deposit", 1, 1, Some(1_000)));
    apply(&mut e, row("withdrawal", 1, 2, Some(300)));
    apply(&mut e, row("dispute", 1, 1, None));
    let c = account(&e, 1);
    assert_eq!(c.total, c.available + c.held);
    apply(&mut e, row("resolve", 1, 1, None));
    apply(&mut e, row("dispute", 1, 2, None));
    let c = account(&e, 1);
    assert_eq!((c.available, c.held, c.total), (1_000, 300, 1_000));
    assert_ne!(c.total, c.available + c.held);
}

#[test]
fn failed_withdrawal_creates_the_account_and_stores_nothing() {
    let mut e = PaymentEngine::new();
    apply(&mut e, row("withdrawal", 9, 1, Some(5)));
    assert_eq!(account(&e, 9), Client::new(9));
    assert!(e.transaction(1).is_none());
}

#[test]
fn successful_withdrawal_leaves_available_non_negative() {
    let mut e = PaymentEngine::new();
    apply(&mut e, row("deposit", 1, 1, Some(50)));
    apply(&mut e, row("withdrawal", 1, 2, Some(50)));
    assert_eq!(account(&e, 1).available, 0);
    apply(&mut e, row("withdrawal", 1, 3, Some(1)));
    assert_eq!(account(&e, 1).available, 0);
}

#[test]
fn chargeback_of_a_disputed_withdrawal_reverses_it() {
    let mut e = PaymentEngine::new();
    apply(&mut e, row("deposit", 1, 1, Some(1_000)));
    apply(&mut e, row("withdrawal", 1, 2, Some(300)));
    apply(&mut e, row("dispute", 1, 2, None));
    apply(&mut e, row("chargeback", 1, 2, None));
    let c = account(&e, 1);
    assert_eq!((c.available, c.held, c.total, c.locked), (1_000, 0, 700, true));
}

#[test]
fn dispute_of_a_deposit_keeps_the_total() {
    let mut e = PaymentEngine::new();
    apply(&mut e, row("deposit", 1, 1, Some(1_000)));
    apply(&mut e, row("dispute", 1, 1, None));
    let c = account(&e, 1);
    assert_eq!((c.available, c.held, c.total), (0, 1_000, 1_000));
}

#[test]
fn rows_without_amount_or_of_unknown_type_are_ignored() {
    let mut e = PaymentEngine::new();
    apply(&mut e, row("deposit", 1, 1, None));
    apply(&mut e, row("withdrawal", 1, 2, None));
    apply(&mut e, row("Deposit", 1, 3, Some(10)));
    assert!(e.clients_sorted().is_empty());
}

#[test]
fn duplicate_transaction_id_replaces_the_stored_one() {
    let mut e = PaymentEngine::new();
    apply(&mut e, row("deposit", 1, 1, Some(10)));
    apply(&mut e, row("deposit", 2, 1, Some(20)));
    assert_eq!(e.transaction(1).unwrap().client_id, 2);
    apply(&mut e, row("dispute", 1, 1, None));
    assert_eq!(account(&e, 1).held, 0);
}

#[test]
fn negative_deposit_is_applied_as_given() {
    let mut e = PaymentEngine::new();
    apply(&mut e, row("deposit", 1, 1, Some(-25)));
    assert_eq!(account(&e, 1).available, -25);
    assert_eq!(account(&e, 1).total, -25);
}

#[test]
fn clients_come_out_in_id_order() {
    let mut e = PaymentEngine::new();
    for (i, id) in [65535u16, 7, 0, 300].iter().enumerate() {
        apply(&mut e, row("deposit", *id, i as u32, Some(1)));
    }
    let ids: Vec<u16> = e.clients_sorted().iter().map(|c| c.id).collect();
    assert_eq!(ids, vec![0, 7, 300, 65535]);
}

#[test]
fn limits_refuse_a_balance_beyond_the_decimal_range() {
    let mut e = PaymentEngine::new();
    apply(&mut e, row("deposit", 1, 1, Some(MAX_UNITS)));
    assert!(!e.fits_limits(&row("deposit", 1, 2, Some(1))));
    assert!(e.fits_limits(&row("withdrawal", 1, 2, Some(1))));
    assert!(!e.fits_limits(&row("deposit", 2, 3, Some(MAX_UNITS + 1))));
    assert!(e.fits_limits(&row("deposit", 2, 3, None)));
}

#[test]
fn amounts_are_written_with_four_decimal_places() {
    assert_eq!(format_amount(15_000), "1.5000");
    assert_eq!(format_amount(0), "0.0000");
    assert_eq!(format_amount(1), "0.0001");
    assert_eq!(format_amount(-2_500), "-0.2500");
    assert_eq!(format_amount(1_000_000), "100.0000");
    assert_eq!(format_amount(-1_234_567_890), "-123456.7890");
    assert_eq!(format_amount(MAX_UNITS), "79228162514264337593543950335.0000");
    assert_eq!(format_amount(i128::MIN), "-17014118346046923173168730371588410.5728");
}

#[test]
fn written_amounts_read_back_unchanged() {
    for units in [0i128, 1, -1, 12_345, -98_765_4321, MAX_UNITS, -MAX_UNITS] {
        assert_eq!(parse_optional_amount(&format_amount(units)), Ok(Some(units)));
    }
}

#[test]
fn held_is_the_sum_of_disputed_amounts() {
    let mut e = PaymentEngine::new();
    apply(&mut e, row("deposit", 1, 1, Some(100)));
    apply(&mut e, row("deposit", 1, 2, Some(200)));
    apply(&mut e, row("withdrawal", 1, 3, Some(50)));
    apply(&mut e, row("dispute", 1, 1, None));
    apply(&mut e, row("dispute", 1, 3, None));
    assert_eq!(account(&e, 1).held, 150);
    apply(&mut e, row("resolve", 1, 1, None));
    assert_eq!(account(&e, 1).held, 50);
}

#[test]
fn available_plus_held_is_total_plus_disputed_withdrawals() {
    let mut e = PaymentEngine::new();
    apply(&mut e, row("deposit", 1, 1, Some(100)));
    apply(&mut e, row("withdrawal", 1, 2, Some(30)));
    apply(&mut e, row("withdrawal", 1, 3, Some(20)));
    apply(&mut e, row("dispute", 1, 2, None));
    apply(&mut e, row("dispute", 1, 3, None));
    let c = account(&e, 1);
    assert_eq!(c.available + c.held, c.total + 30 + 20);
    apply(&mut e, row("resolve", 1, 3, None));
    let c = account(&e, 1);
    assert_eq!(c.available + c.held, c.total + 30);
}

#[test]
fn an_unlocked_row_acts_as_its_operation() {
    let mut by_row = PaymentEngine::new();
    let mut direct = PaymentEngine::new();
    apply(&mut by_row, row("deposit", 4, 1, Some(90)));
    direct.deposit(4, 1, 90);
    apply(&mut by_row, row("withdrawal", 4, 2, Some(40)));
    direct.withdrawal(4, 2, 40);
    apply(&mut by_row, row("dispute", 4, 2, Some(12345)));
    direct.dispute(4, 2);
    apply(&mut by_row, row("chargeback", 4, 2, None));
    direct.chargeback(4, 2);
    assert_eq!(account(&by_row, 4), account(&direct, 4));
    assert_eq!(by_row.transaction(2), direct.transaction(2));
}

#[test]
fn a_row_leaves_other_transactions_alone() {
    let mut e = PaymentEngine::new();
    apply(&mut e, row("deposit", 1, 1, Some(10)));
    apply(&mut e, row("deposit", 2, 2, Some(20)));
    let first = e.transaction(1);
    apply(&mut e, row("dispute", 2, 2, None));
    apply(&mut e, row("withdrawal", 1, 3, Some(5)));
    assert_eq!(e.transaction(1), first);
}

#[test]
fn ids_are_sorted_without_repeats() {
    let v: Vec<u16> = vec![9, 3, 65535, 0, 3, 12, 9];
    assert_eq!(sorted_ids(&v, 0, v.len()), vec![0, 3, 9, 12, 65535]);
    assert_eq!(sorted_ids(&v, 1, 3), vec![3, 65535]);
    assert!(sorted_ids(&v, 2, 2).is_empty());
}

#[test]
fn many_clients_come_out_in_id_order() {
    let mut e = PaymentEngine::new();
    for k in 0..2000u32 {
        let id = ((k * 7919) % 65536) as u16;
        apply(&mut e, row("deposit", id, k, Some(1)));
    }
    let ids: Vec<u16> = e.clients_sorted().iter().map(|c| c.id).collect();
    assert_eq!(ids.len(), 2000);
    assert!(ids.windows(2).all(|w| w[0] < w[1]));
}
