//! One client's account: available and held funds plus a lock flag.

use vstd::prelude::*;

verus! {

/// A signed fixed-point monetary amount counted in hundred-millionths
/// (1/100_000_000) of a currency unit, so that four-decimal reporting
/// needs no floating point.
pub type Amount = i64;

/// Sub-units per whole currency unit: an `Amount` of `AMOUNT_SCALE` is 1.0.
pub const AMOUNT_SCALE: i64 = 100_000_000;

/// Sub-units per reporting step: reported balances are multiples of
/// `ROUND_QUANTUM`, that is of 0.0001 currency units.
pub const ROUND_QUANTUM: i64 = 10_000;

/// Largest balance magnitude an account may hold. Keeps every sum of two
/// balances, and every rounding step, inside `i64`.
pub const MAX_BALANCE: i64 = 4_600_000_000_000_000_000;

/// The abstract state of an account.
pub ghost struct AccountV {
    pub available: int,
    pub held: int,
    pub locked: bool,
}

/// The state of a freshly created account: no funds, not locked.
pub open spec fn initial_account() -> AccountV {
    AccountV { available: 0, held: 0, locked: false }
}

/// Both balances lie within the representable range.
pub open spec fn balances_ok(available: int, held: int) -> bool {
    &&& -MAX_BALANCE <= available <= MAX_BALANCE
    &&& -MAX_BALANCE <= held <= MAX_BALANCE
}

pub open spec fn in_balance_range(a: AccountV) -> bool {
    balances_ok(a.available, a.held)
}

/// The effect of `deposit(x)` on an account's state.
pub open spec fn apply_deposit(a: AccountV, x: int) -> AccountV {
    AccountV { available: a.available + x, ..a }
}

/// The effect of `withdrawal(x)`: the available funds shrink by `x` when
/// they cover it, else nothing changes.
pub open spec fn apply_withdrawal(a: AccountV, x: int) -> AccountV {
    if a.available >= x {
        AccountV { available: a.available - x, ..a }
    } else {
        a
    }
}

/// The effect of `dispute(x)`: `x` moves from available to held funds.
pub open spec fn apply_dispute(a: AccountV, x: int) -> AccountV {
    AccountV { available: a.available - x, held: a.held + x, ..a }
}

/// The effect of `resolve(x)`: `x` moves back from held to available funds.
pub open spec fn apply_resolve(a: AccountV, x: int) -> AccountV {
    AccountV { available: a.available + x, held: a.held - x, ..a }
}

/// The effect of `chargeback(x)`: `x` leaves the held funds and the account
/// locks.
pub open spec fn apply_chargeback(a: AccountV, x: int) -> AccountV {
    AccountV { held: a.held - x, locked: true, ..a }
}

/// Dispute round trip: disputing an amount moves exactly that amount from
/// available to held funds, the total unchanged, and resolving the same
/// amount afterwards restores the pre-dispute split exactly.
pub proof fn lemma_dispute_resolve_round_trip(a: AccountV, x: int)
    ensures
        apply_dispute(a, x).available == a.available - x,
        apply_dispute(a, x).held == a.held + x,
        apply_dispute(a, x).available + apply_dispute(a, x).held == a.available + a.held,
        apply_dispute(a, x).locked == a.locked,
        apply_resolve(apply_dispute(a, x), x) == a,
{
}

/// A chargeback settles the disputed amount against the held funds and locks
/// the account; the available funds stay. It is the one transition into the
/// locked state, which the ledger treats as terminal
/// (`lemma_locked_is_terminal`).
pub proof fn lemma_chargeback_locks(a: AccountV, x: int)
    ensures
        apply_chargeback(a, x).held == a.held - x,
        apply_chargeback(a, x).available == a.available,
        apply_chargeback(a, x).locked,
{
}

/// `x` rounded to the nearest multiple of `ROUND_QUANTUM` (four decimal
/// places), halves rounded away from zero — for the non-negative amounts the
/// engine reports, that is round-half-up at the fourth fractional digit.
pub open spec fn spec_round_4(x: int) -> int {
    if x >= 0 {
        ((x + ROUND_QUANTUM / 2) / (ROUND_QUANTUM as int)) * ROUND_QUANTUM
    } else {
        -((((-x) + ROUND_QUANTUM / 2) / (ROUND_QUANTUM as int)) * ROUND_QUANTUM)
    }
}

fn round_at_4_dec(x: Amount) -> (r: Amount)
    requires
        -2 * MAX_BALANCE <= x <= 2 * MAX_BALANCE,
    ensures
        r == spec_round_4(x as int),
{
    if x >= 0 {
        let q: u64 = ((x as u64) + 5000) / 10000 * 10000;
        assert(q <= x + 5000);
        q as i64
    } else {
        let neg: u64 = (-x) as u64;
        let q: u64 = (neg + 5000) / 10000 * 10000;
        assert(q <= neg + 5000);
        -(q as i64)
    }
}

/// The error an account operation can raise: a withdrawal that would drive
/// the available funds negative.
#[derive(Debug, PartialEq)]
pub enum AccountError {
    InsufficientFunds(String),
}

/// One client's funds and lock status. Balances are `Amount`s; the account
/// is well formed when both lie within `MAX_BALANCE`.
#[derive(Debug, Clone, Copy)]
pub struct Account {
    available_funds: Amount,
    held_funds: Amount,
    locked: bool,
}

impl View for Account {
    type V = AccountV;

    closed spec fn view(&self) -> AccountV {
        AccountV {
            available: self.available_funds as int,
            held: self.held_funds as int,
            locked: self.locked,
        }
    }
}

impl Default for Account {
    fn default() -> (a: Account)
        ensures
            a@ == initial_account(),
            a.wf(),
    {
        Account { available_funds: 0, held_funds: 0, locked: false }
    }
}

impl Account {
    pub open spec fn wf(self) -> bool {
        in_balance_range(self@)
    }

    pub fn new() -> (a: Account)
        ensures
            a@ == initial_account(),
            a.wf(),
    {
        Account::default()
    }

    /// The available funds, rounded to four decimal places.
    pub fn get_available_funds(&self) -> (r: Amount)
        requires
            self.wf(),
        ensures
            r == spec_round_4(self@.available),
    {
        round_at_4_dec(self.available_funds)
    }

    /// The held funds, rounded to four decimal places.
    pub fn get_held_funds(&self) -> (r: Amount)
        requires
            self.wf(),
        ensures
            r == spec_round_4(self@.held),
    {
        round_at_4_dec(self.held_funds)
    }

    /// The total funds, `available + held`, rounded to four decimal places.
    /// The total is derived, never stored.
    pub fn get_total_funds(&self) -> (r: Amount)
        requires
            self.wf(),
        ensures
            r == spec_round_4(self@.available + self@.held),
    {
        round_at_4_dec(self.available_funds + self.held_funds)
    }

    pub fn is_locked(&self) -> (r: bool)
        ensures
            r == self@.locked,
    {
        self.locked
    }

    pub(crate) fn raw_available(&self) -> (r: Amount)
        ensures
            r == self@.available,
    {
        self.available_funds
    }

    pub(crate) fn raw_held(&self) -> (r: Amount)
        ensures
            r == self@.held,
    {
        self.held_funds
    }

    /// A credit to the client's asset account: `available += amount`.
    /// No failure mode.
    pub fn deposit(&mut self, amount: Amount)
        requires
            old(self).wf(),
            balances_ok(old(self)@.available + amount, old(self)@.held),
        ensures
            final(self)@ == apply_deposit(old(self)@, amount as int),
            final(self).wf(),
    {
        self.available_funds = self.available_funds + amount;
    }

    /// A debit to the client's asset account: `available -= amount`, failing
    /// with `InsufficientFunds` exactly when the debit would drive the
    /// available funds negative.
    pub fn withdrawal(&mut self, amount: Amount) -> (r: Result<(), AccountError>)
        requires
            old(self).wf(),
            old(self)@.available >= amount ==> balances_ok(
                old(self)@.available - amount,
                old(self)@.held,
            ),
        ensures
            r is Ok <==> old(self)@.available >= amount,
            final(self)@ == apply_withdrawal(old(self)@, amount as int),
            r is Err ==> *final(self) == *old(self) && r->Err_0 is InsufficientFunds,
            final(self).wf(),
    {
        if self.available_funds < amount {
            return Err(AccountError::InsufficientFunds(
                "Insufficient funds to withdraw".to_owned(),
            ));
        }
        self.available_funds = self.available_funds - amount;
        Ok(())
    }

    /// Freezes an amount pending dispute resolution:
    /// `available -= amount; held += amount`. The amount may be negative and
    /// no bounds check is made against the current balances, mirroring a
    /// best-effort reconciliation model.
    pub fn dispute(&mut self, amount: Amount)
        requires
            old(self).wf(),
            balances_ok(old(self)@.available - amount, old(self)@.held + amount),
        ensures
            final(self)@ == apply_dispute(old(self)@, amount as int),
            final(self).wf(),
    {
        self.available_funds = self.available_funds - amount;
        self.held_funds = self.held_funds + amount;
    }

    /// Releases a disputed amount, the inverse of `dispute`:
    /// `available += amount; held -= amount`.
    pub fn resolve(&mut self, amount: Amount)
        requires
            old(self).wf(),
            balances_ok(old(self)@.available + amount, old(self)@.held - amount),
        ensures
            final(self)@ == apply_resolve(old(self)@, amount as int),
            final(self).wf(),
    {
        self.available_funds = self.available_funds + amount;
        self.held_funds = self.held_funds - amount;
    }

    /// Settles a dispute against the client: `held -= amount` and the
    /// account becomes locked.
    pub fn chargeback(&mut self, amount: Amount)
        requires
            old(self).wf(),
            balances_ok(old(self)@.available, old(self)@.held - amount),
        ensures
            final(self)@ == apply_chargeback(old(self)@, amount as int),
            final(self).wf(),
    {
        self.held_funds = self.held_funds - amount;
        self.locked = true;
    }
}

} // verus!
