use tx_engine::bank::client::{Account, AccountError, AMOUNT_SCALE};

const UNIT: i64 = AMOUNT_SCALE;

#[test]
fn test_accounts_are_initialized_with_zero_funds_and_are_unlocked() {
    let account = Account::new();
    assert_eq!(account.get_available_funds(), 0);
    assert_eq!(account.get_held_funds(), 0);
    assert_eq!(account.get_total_funds(), 0);
    assert_eq!(account.is_locked(), false);
}

#[test]
fn test_account_deposits_increases_funds() {
    let mut account = Account::new();
    account.deposit(1 * UNIT);
    account.deposit(2 * UNIT);
    account.deposit(3 * UNIT);

    assert_eq!(account.get_available_funds(), 6 * UNIT);
    assert_eq!(account.get_total_funds(), 6 * UNIT);
    assert_eq!(account.get_held_funds(), 0);
}

#[test]
fn test_account_withdrawal_decreases_funds() -> Result<(), AccountError> {
    let mut account = Account::new();
    account.deposit(6 * UNIT);

    account.withdrawal(3 * UNIT)?;
    account.withdrawal(2 * UNIT)?;
    assert_eq!(account.get_available_funds(), 1 * UNIT);
    assert_eq!(account.get_total_funds(), 1 * UNIT);
    assert_eq!(account.get_held_funds(), 0);
    Ok(())
}

#[test]
fn test_account_dispute_descreases_available_funds_and_increases_held_funds() {
    let mut account = Account::new();
    account.deposit(6 * UNIT);

    account.dispute(4 * UNIT);
    assert_eq!(account.get_available_funds(), 2 * UNIT);
    assert_eq!(account.get_held_funds(), 4 * UNIT);
    assert_eq!(account.get_total_funds(), 6 * UNIT);
}

#[test]
fn test_account_resolve_increases_available_and_held_funds() {
    let mut account = Account::new();
    account.deposit(6 * UNIT);

    account.resolve(3 * UNIT);
    assert_eq!(account.get_available_funds(), 9 * UNIT);
    assert_eq!(account.get_held_funds(), -3 * UNIT);
    assert_eq!(account.get_total_funds(), 6 * UNIT);
}

#[test]
fn test_account_resolve_reverts_a_dispute() {
    let mut account = Account::new();
    account.deposit(6 * UNIT);

    account.dispute(4 * UNIT);

    account.resolve(4 * UNIT);
    assert_eq!(account.get_available_funds(), 6 * UNIT);
    assert_eq!(account.get_held_funds(), 0);
    assert_eq!(account.get_total_funds(), 6 * UNIT);
}

#[test]
fn test_account_chargeback_locks_account_and_decreases_total_and_held_funds() {
    let mut account = Account::new();
    account.deposit(6 * UNIT);

    account.dispute(4 * UNIT);

    account.chargeback(4 * UNIT);
    assert_eq!(account.is_locked(), true);
    assert_eq!(account.get_available_funds(), 2 * UNIT);
    assert_eq!(account.get_held_funds(), 0);
    assert_eq!(account.get_total_funds(), 2 * UNIT);
}

#[test]
fn test_account_withdrawal_fails_on_insufficient_funds() {
    let mut account = Account::new();
    assert!(matches!(
        account.withdrawal(1 * UNIT).unwrap_err(),
        AccountError::InsufficientFunds(_)
    ));
}

#[test]
fn test_precision_of_funds_are_4_digits_past_the_decimal_with_closest_integer_rounding() {
    let mut account = Account::new();
    // 4.0001 and 4.00005 currency units
    account.deposit(400_010_000);
    account.deposit(400_005_000);

    // reported available is 8.0002: the exact sum 8.00015 rounds half-up
    // at the fourth decimal
    assert_eq!(account.get_available_funds(), 800_020_000);
}

#[test]
fn test_two_values_half_the_precision_results_in_the_smallest_precision_number() {
    let mut account = Account::new();
    // 0.00005 currency units, twice
    account.deposit(5_000);
    account.deposit(5_000);

    // the exact sum 0.0001 needs no rounding
    assert_eq!(account.get_available_funds(), 10_000);
}

#[test]
fn test_rounding_happens_at_read_time_not_in_the_stored_balance() {
    let mut account = Account::new();
    // 0.00004 currency units reads as zero ...
    account.deposit(4_000);
    assert_eq!(account.get_available_funds(), 0);
    // ... but the full precision still accumulates: 0.00008 reads as 0.0001
    account.deposit(4_000);
    assert_eq!(account.get_available_funds(), 10_000);
}
