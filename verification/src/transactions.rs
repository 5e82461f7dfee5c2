//! Transaction records and the field-presence rule enforced at ingest.

use vstd::prelude::*;

verus! {

/// The five transaction kinds the engine understands.
#[derive(Debug, Clone, Copy, PartialEq, Eq, Structural)]
pub enum Kind {
    Deposit,
    Withdrawal,
    Dispute,
    Resolve,
    Chargeback,
}

pub type TxId = u32;

/// One transaction record.
///
/// `amount` is a signed fixed-point value counted in hundred-millionths
/// (1/100_000_000) of a currency unit; it is present exactly on Deposit and
/// Withdrawal records (see `validate_optional_field`).
#[derive(Debug, Clone, Copy, PartialEq)]
pub struct Transaction {
    pub kind: Kind,
    pub client: u16,
    pub tx: TxId,
    pub amount: Option<i64>,
}

impl Transaction {
    pub fn new(kind: Kind, client: u16, tx: TxId, amount: Option<i64>) -> (t: Transaction)
        ensures
            t.kind == kind,
            t.client == client,
            t.tx == tx,
            t.amount == amount,
    {
        Transaction { kind, client, tx, amount }
    }
}

/// An error raised while turning raw input rows into `Transaction` values.
#[derive(Debug, PartialEq)]
pub enum ParseTxError {
    InvalidInput(String),
    Other,
}

/// Only Deposit and Withdrawal records may be the target of a Dispute,
/// Resolve or Chargeback.
pub open spec fn spec_is_disputable(t: Transaction) -> bool {
    t.kind == Kind::Deposit || t.kind == Kind::Withdrawal
}

pub fn is_disputable(tx: &Transaction) -> (r: bool)
    ensures
        r == spec_is_disputable(*tx),
{
    tx.kind == Kind::Deposit || tx.kind == Kind::Withdrawal
}

/// The field-presence rule: Deposit and Withdrawal records must carry an
/// amount, all other kinds must not.
pub open spec fn amount_presence_ok(t: Transaction) -> bool {
    if spec_is_disputable(t) {
        t.amount is Some
    } else {
        t.amount is None
    }
}

/// The message a record of kind `k` is rejected with when it breaks the
/// field-presence rule.
pub open spec fn presence_error_message(k: Kind) -> Seq<char> {
    match k {
        Kind::Deposit => "Deposit transactions must contain an amount"@,
        Kind::Withdrawal => "Withdrawal transactions must contain an amount"@,
        Kind::Dispute => "Dispute transactions cannot contain an amount"@,
        Kind::Resolve => "Resolve transactions cannot contain an amount"@,
        Kind::Chargeback => "Chargeback transactions cannot contain an amount"@,
    }
}

/// Rejects a record that breaks the field-presence rule: a Deposit or
/// Withdrawal without an amount, or a Dispute, Resolve or Chargeback with
/// one. The error names the offending kind.
pub fn validate_optional_field(transaction: &Transaction) -> (r: Result<(), ParseTxError>)
    ensures
        r is Ok <==> amount_presence_ok(*transaction),
        r is Err ==> r->Err_0 is InvalidInput && r->Err_0->InvalidInput_0@
            == presence_error_message(transaction.kind),
{
    if is_disputable(transaction) {
        if transaction.amount.is_none() {
            let msg = match transaction.kind {
                Kind::Deposit => "Deposit transactions must contain an amount".to_owned(),
                _ => "Withdrawal transactions must contain an amount".to_owned(),
            };
            return Err(ParseTxError::InvalidInput(msg));
        }
    } else {
        if transaction.amount.is_some() {
            let msg = match transaction.kind {
                Kind::Dispute => "Dispute transactions cannot contain an amount".to_owned(),
                Kind::Resolve => "Resolve transactions cannot contain an amount".to_owned(),
                _ => "Chargeback transactions cannot contain an amount".to_owned(),
            };
            return Err(ParseTxError::InvalidInput(msg));
        }
    }
    Ok(())
}

} // verus!
