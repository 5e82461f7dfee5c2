use tx_engine::bank::client::{AMOUNT_SCALE, MAX_BALANCE};
use tx_engine::bank::{AccountReport, Bank, BankError};
use tx_engine::transactions::{Kind, Transaction};

const UNIT: i64 = AMOUNT_SCALE;

#[test]
fn test_that_bank_starts_with_zero_clients() {
    let bank = Bank::new();

    assert!(bank.get_accounts_report().is_empty());
}

#[test]
fn test_client_report_for_basic_transactions() -> Result<(), BankError> {
    let mut bank = Bank::new();

    let transactions = vec![
        Transaction {
            kind: Kind::Deposit,
            client: 1,
            tx: 1,
            amount: Some(1 * UNIT),
        },
        Transaction {
            kind: Kind::Deposit,
            client: 2,
            tx: 2,
            amount: Some(2 * UNIT),
        },
        Transaction {
            kind: Kind::Deposit,
            client: 1,
            tx: 3,
            amount: Some(2 * UNIT),
        },
        Transaction {
            kind: Kind::Withdrawal,
            client: 1,
            tx: 4,
            amount: Some(15 * UNIT / 10),
        },
        Transaction {
            kind: Kind::Withdrawal,
            client: 2,
            tx: 5,
            amount: Some(3 * UNIT),
        },
    ];
    bank.handle_transactions(transactions)?;
    let expected = vec![
        AccountReport {
            client: 1,
            available: 15 * UNIT / 10,
            held: 0,
            total: 15 * UNIT / 10,
            locked: false,
        },
        AccountReport {
            client: 2,
            available: 2 * UNIT,
            held: 0,
            total: 2 * UNIT,
            locked: false,
        },
    ];

    assert_eq!(bank.get_accounts_report(), expected);
    Ok(())
}

#[test]
fn test_deposit_dispute_chargeback_zeroes_and_locks_the_account() {
    let mut bank = Bank::new();
    let transactions = vec![
        Transaction::new(Kind::Deposit, 1, 1, Some(4 * UNIT)),
        Transaction::new(Kind::Dispute, 1, 1, None),
        Transaction::new(Kind::Chargeback, 1, 1, None),
    ];
    assert!(bank.handle_transactions(transactions).is_ok());

    let expected = vec![AccountReport::new(1, 0, 0, 0, true)];
    assert_eq!(bank.get_accounts_report(), expected);
}

#[test]
fn test_dispute_on_a_deposit_holds_its_amount() {
    let mut bank = Bank::new();
    let transactions = vec![
        Transaction::new(Kind::Deposit, 1, 1, Some(4 * UNIT)),
        Transaction::new(Kind::Dispute, 1, 1, None),
    ];
    assert!(bank.handle_transactions(transactions).is_ok());

    let expected = vec![AccountReport::new(1, 0, 4 * UNIT, 4 * UNIT, false)];
    assert_eq!(bank.get_accounts_report(), expected);
}

#[test]
fn test_resolve_after_dispute_restores_the_split() {
    let mut bank = Bank::new();
    let transactions = vec![
        Transaction::new(Kind::Deposit, 1, 1, Some(4 * UNIT)),
        Transaction::new(Kind::Dispute, 1, 1, None),
        Transaction::new(Kind::Resolve, 1, 1, None),
    ];
    assert!(bank.handle_transactions(transactions).is_ok());

    let expected = vec![AccountReport::new(1, 4 * UNIT, 0, 4 * UNIT, false)];
    assert_eq!(bank.get_accounts_report(), expected);
}

#[test]
fn test_dispute_of_a_successful_withdrawal_holds_its_amount() {
    let mut bank = Bank::new();
    let transactions = vec![
        Transaction::new(Kind::Deposit, 1, 1, Some(6 * UNIT)),
        Transaction::new(Kind::Withdrawal, 1, 2, Some(2 * UNIT)),
        Transaction::new(Kind::Dispute, 1, 2, None),
    ];
    assert!(bank.handle_transactions(transactions).is_ok());

    // same observable effect as disputing a deposit of 2: available 4 - 2,
    // held + 2
    let expected = vec![AccountReport::new(1, 2 * UNIT, 2 * UNIT, 4 * UNIT, false)];
    assert_eq!(bank.get_accounts_report(), expected);
}

#[test]
fn test_failed_withdrawal_remains_a_valid_dispute_target() {
    let mut bank = Bank::new();
    let transactions = vec![
        Transaction::new(Kind::Withdrawal, 1, 1, Some(4 * UNIT)),
        Transaction::new(Kind::Dispute, 1, 1, None),
    ];
    assert!(bank.handle_transactions(transactions).is_ok());

    // the withdrawal fails and changes nothing, yet the dispute still links
    // to it and freezes its amount
    let expected = vec![AccountReport::new(1, -4 * UNIT, 4 * UNIT, 0, false)];
    assert_eq!(bank.get_accounts_report(), expected);
}

#[test]
fn test_unlinked_dispute_is_a_silent_no_op() {
    let mut bank = Bank::new();
    let transactions = vec![
        Transaction::new(Kind::Deposit, 1, 1, Some(4 * UNIT)),
        Transaction::new(Kind::Dispute, 1, 9, None),
    ];
    assert!(bank.handle_transactions(transactions).is_ok());

    let expected = vec![AccountReport::new(1, 4 * UNIT, 0, 4 * UNIT, false)];
    assert_eq!(bank.get_accounts_report(), expected);
}

#[test]
fn test_cross_client_tx_reference_does_not_resolve() {
    let mut bank = Bank::new();
    let transactions = vec![
        Transaction::new(Kind::Deposit, 1, 1, Some(4 * UNIT)),
        Transaction::new(Kind::Dispute, 2, 1, None),
    ];
    assert!(bank.handle_transactions(transactions).is_ok());

    // client 2's dispute references client 1's deposit: dropped, yet the
    // client got an (empty) account
    let expected = vec![
        AccountReport::new(1, 4 * UNIT, 0, 4 * UNIT, false),
        AccountReport::new(2, 0, 0, 0, false),
    ];
    assert_eq!(bank.get_accounts_report(), expected);
}

#[test]
fn test_locked_account_absorbs_later_transactions() {
    let mut bank = Bank::new();
    let transactions = vec![
        Transaction::new(Kind::Deposit, 1, 1, Some(4 * UNIT)),
        Transaction::new(Kind::Dispute, 1, 1, None),
        Transaction::new(Kind::Chargeback, 1, 1, None),
        Transaction::new(Kind::Deposit, 1, 2, Some(9 * UNIT)),
    ];
    assert!(bank.handle_transactions(transactions).is_ok());

    let expected = vec![AccountReport::new(1, 0, 0, 0, true)];
    assert_eq!(bank.get_accounts_report(), expected);
}

#[test]
fn test_locked_account_skips_a_later_batch() {
    let mut bank = Bank::new();
    let first = vec![
        Transaction::new(Kind::Deposit, 1, 1, Some(4 * UNIT)),
        Transaction::new(Kind::Dispute, 1, 1, None),
        Transaction::new(Kind::Chargeback, 1, 1, None),
    ];
    assert!(bank.handle_transactions(first).is_ok());
    let second = vec![Transaction::new(Kind::Deposit, 1, 2, Some(9 * UNIT))];
    assert!(bank.handle_transactions(second).is_ok());

    let expected = vec![AccountReport::new(1, 0, 0, 0, true)];
    assert_eq!(bank.get_accounts_report(), expected);
}

#[test]
fn test_report_rows_are_sorted_by_client_ascending() {
    let mut bank = Bank::new();
    let transactions = vec![
        Transaction::new(Kind::Deposit, 3, 1, Some(3 * UNIT)),
        Transaction::new(Kind::Deposit, 1, 2, Some(1 * UNIT)),
        Transaction::new(Kind::Deposit, 2, 3, Some(2 * UNIT)),
    ];
    assert!(bank.handle_transactions(transactions).is_ok());

    let expected = vec![
        AccountReport::new(1, 1 * UNIT, 0, 1 * UNIT, false),
        AccountReport::new(2, 2 * UNIT, 0, 2 * UNIT, false),
        AccountReport::new(3, 3 * UNIT, 0, 3 * UNIT, false),
    ];
    assert_eq!(bank.get_accounts_report(), expected);
}

#[test]
fn test_deposit_without_amount_rejects_the_batch() {
    let mut bank = Bank::new();
    let transactions = vec![
        Transaction::new(Kind::Deposit, 1, 1, Some(4 * UNIT)),
        Transaction::new(Kind::Deposit, 1, 2, None),
    ];
    let result = bank.handle_transactions(transactions);
    assert!(matches!(result, Err(BankError::InvalidInput)));
    // the whole batch is rejected: not even the first deposit applied
    assert!(bank.get_accounts_report().is_empty());
}

#[test]
fn test_batch_overflowing_the_balance_range_rejects_the_batch() {
    let mut bank = Bank::new();
    let first = vec![Transaction::new(Kind::Deposit, 1, 1, Some(MAX_BALANCE))];
    assert!(bank.handle_transactions(first).is_ok());

    let second = vec![Transaction::new(Kind::Deposit, 1, 2, Some(MAX_BALANCE))];
    let result = bank.handle_transactions(second);
    assert!(matches!(result, Err(BankError::Other)));

    // the bank is unchanged by the rejected batch
    let report = bank.get_accounts_report();
    assert_eq!(report.len(), 1);
    assert_eq!(report[0].locked, false);
}

#[test]
fn test_bank_level_rounding_of_reported_funds() {
    let mut bank = Bank::new();
    let transactions = vec![
        Transaction::new(Kind::Deposit, 1, 1, Some(400_010_000)),
        Transaction::new(Kind::Deposit, 1, 2, Some(400_005_000)),
    ];
    assert!(bank.handle_transactions(transactions).is_ok());

    let expected = vec![AccountReport::new(1, 800_020_000, 0, 800_020_000, false)];
    assert_eq!(bank.get_accounts_report(), expected);
}
