//! The ledger: owns every client's account, replays transaction batches and
//! emits the final report.

pub mod client;

use vstd::prelude::*;

verus! {

use crate::bank::client::{
    apply_chargeback, apply_deposit, apply_dispute, apply_resolve, apply_withdrawal, Account,
    AccountV, Amount, in_balance_range, initial_account, spec_round_4, MAX_BALANCE,
};
use crate::transactions::{is_disputable, spec_is_disputable, Kind, Transaction, TxId};

pub type ClientId = u16;

/// The amount a record carries, 0 when absent.
pub open spec fn tx_amount(t: Transaction) -> int {
    match t.amount {
        Some(a) => a as int,
        None => 0,
    }
}

/// Every Deposit and Withdrawal record in `txs` carries an amount. Ingest
/// enforces this before records reach the ledger; `Bank::handle_transactions`
/// re-checks it and rejects a batch that breaks it.
pub open spec fn amounts_present(txs: Seq<Transaction>) -> bool {
    forall|i: int|
        0 <= i < txs.len() && spec_is_disputable(#[trigger] txs[i]) ==> txs[i].amount is Some
}

/// Index of the most recently encountered Deposit or Withdrawal before
/// position `n` carrying transaction id `txid`, or -1 when there is none.
pub open spec fn last_disputable_match(g: Seq<Transaction>, n: int, txid: TxId) -> int
    decreases n,
{
    if n <= 0 || n > g.len() {
        -1
    } else if spec_is_disputable(g[n - 1]) && g[n - 1].tx == txid {
        n - 1
    } else {
        last_disputable_match(g, n - 1, txid)
    }
}

/// The amount the Dispute/Resolve/Chargeback at position `i` of group `g`
/// applies: the amount of the most recently encountered Deposit or
/// Withdrawal sharing its transaction id, or `None` when no such record
/// precedes `i`. A disputed withdrawal is treated like a disputed deposit of
/// the same amount: the dispute moves that amount into held funds, which is
/// what an investigation that may undo the debit calls for.
pub open spec fn linked_amount(g: Seq<Transaction>, i: int) -> Option<int> {
    let j = last_disputable_match(g, i, g[i].tx);
    if j < 0 {
        None
    } else {
        Some(tx_amount(g[j]))
    }
}

/// The effect of record `i` of a client's group on that client's account.
/// A locked account absorbs every record; a withdrawal the available funds
/// cannot cover changes nothing (yet remains a disputable target); a
/// Dispute, Resolve or Chargeback with no linked record is a no-op.
pub open spec fn account_step(a: AccountV, g: Seq<Transaction>, i: int) -> AccountV {
    if a.locked {
        a
    } else {
        match g[i].kind {
            Kind::Deposit => apply_deposit(a, tx_amount(g[i])),
            Kind::Withdrawal => apply_withdrawal(a, tx_amount(g[i])),
            _ => match linked_amount(g, i) {
                None => a,
                Some(x) => match g[i].kind {
                    Kind::Dispute => apply_dispute(a, x),
                    Kind::Resolve => apply_resolve(a, x),
                    _ => apply_chargeback(a, x),
                },
            },
        }
    }
}

/// The account state after the first `n` records of group `g`, starting
/// from `a0`.
pub open spec fn replay_upto(a0: AccountV, g: Seq<Transaction>, n: int) -> AccountV
    decreases n,
{
    if n <= 0 {
        a0
    } else {
        account_step(replay_upto(a0, g, n - 1), g, n - 1)
    }
}

/// The account state after a whole client group.
pub open spec fn replay(a0: AccountV, g: Seq<Transaction>) -> AccountV {
    replay_upto(a0, g, g.len() as int)
}

/// Every state the replay of `g` from `a0` passes through stays within the
/// representable balance range.
pub open spec fn replay_fits(a0: AccountV, g: Seq<Transaction>) -> bool {
    forall|n: int| 0 <= n <= g.len() ==> in_balance_range(#[trigger] replay_upto(a0, g, n))
}

/// Sum of the amounts carried by the records of `g`.
pub open spec fn sum_amounts(g: Seq<Transaction>) -> int
    decreases g.len(),
{
    if g.len() == 0 {
        0
    } else {
        sum_amounts(g.drop_last()) + tx_amount(g.last())
    }
}

proof fn lemma_deposits_only_upto(g: Seq<Transaction>, n: int)
    requires
        forall|i: int| 0 <= i < g.len() ==> (#[trigger] g[i]).kind == Kind::Deposit,
        0 <= n <= g.len(),
    ensures
        replay_upto(initial_account(), g, n) == (AccountV {
            available: sum_amounts(g.take(n)),
            held: 0,
            locked: false,
        }),
    decreases n,
{
    if n > 0 {
        lemma_deposits_only_upto(g, n - 1);
        assert(g.take(n).drop_last() =~= g.take(n - 1));
        assert(g.take(n).last() == g[n - 1]);
    } else {
        assert(g.take(0) =~= Seq::<Transaction>::empty());
    }
}

/// A group of deposits alone only accumulates available funds: replaying it
/// from a fresh account leaves `available` at the sum of the amounts, `held`
/// at zero and the account unlocked — so the total equals the available
/// funds.
pub proof fn lemma_deposits_only(g: Seq<Transaction>)
    requires
        forall|i: int| 0 <= i < g.len() ==> (#[trigger] g[i]).kind == Kind::Deposit,
    ensures
        replay(initial_account(), g) == (AccountV {
            available: sum_amounts(g),
            held: 0,
            locked: false,
        }),
{
    lemma_deposits_only_upto(g, g.len() as int);
    assert(g.take(g.len() as int) =~= g);
}

/// Deposits alone, at the batch level: after a batch of Deposit records only
/// is handled against a fresh bank (`Bank::handle_transactions` ensures the
/// new state equals `bank_after`), every client the batch mentions holds an
/// account whose available funds are the sum of the amounts of that client's
/// group, with nothing held and the account unlocked.
pub proof fn lemma_deposits_only_batch(txs: Seq<Transaction>, c: ClientId)
    requires
        forall|i: int| 0 <= i < txs.len() ==> (#[trigger] txs[i]).kind == Kind::Deposit,
        batch_clients(txs).contains(c),
    ensures
        bank_after(Map::empty(), txs).dom().contains(c),
        bank_after(Map::empty(), txs)[c] == (AccountV {
            available: sum_amounts(group_of(txs, c)),
            held: 0,
            locked: false,
        }),
{
    lemma_group_of_members(txs, c);
    let g = group_of(txs, c);
    assert forall|k: int| 0 <= k < g.len() implies (#[trigger] g[k]).kind == Kind::Deposit by {
        let i = choose|i: int| 0 <= i < txs.len() && txs[i] == (#[trigger] g[k]);
    }
    lemma_deposits_only(g);
    assert(base_account(Map::<ClientId, AccountV>::empty(), c) == initial_account());
}

/// A locked account is terminal: replaying any records over it changes
/// nothing.
pub proof fn lemma_locked_is_terminal(a: AccountV, g: Seq<Transaction>, n: int)
    requires
        a.locked,
        0 <= n <= g.len(),
    ensures
        replay_upto(a, g, n) == a,
    decreases n,
{
    if n > 0 {
        lemma_locked_is_terminal(a, g, n - 1);
    }
}

/// A withdrawal that fails for insufficient funds leaves the balances
/// unchanged.
pub proof fn lemma_failed_withdrawal_unchanged(a: AccountV, g: Seq<Transaction>, i: int)
    requires
        0 <= i < g.len(),
        g[i].kind == Kind::Withdrawal,
        a.available < tx_amount(g[i]),
    ensures
        account_step(a, g, i) == a,
{
}

proof fn lemma_last_match_found(g: Seq<Transaction>, i: int, j: int, txid: TxId)
    requires
        0 <= j < i <= g.len(),
        spec_is_disputable(g[j]),
        g[j].tx == txid,
        forall|k: int| j < k < i ==> !(spec_is_disputable(#[trigger] g[k]) && g[k].tx == txid),
    ensures
        last_disputable_match(g, i, txid) == j,
    decreases i,
{
    if i - 1 > j {
        lemma_last_match_found(g, i - 1, j, txid);
    }
}

/// Disputing a deposit of amount `w`: the linked amount is `w` itself, so
/// the available funds decrease by `w` and the held funds increase by `w`,
/// the total unchanged. `j` is the most recently encountered Deposit or
/// Withdrawal with the dispute's transaction id.
pub proof fn lemma_dispute_of_deposit(a: AccountV, g: Seq<Transaction>, j: int, i: int, w: i64)
    requires
        0 <= j < i < g.len(),
        g[i].kind == Kind::Dispute,
        g[j].kind == Kind::Deposit,
        g[j].tx == g[i].tx,
        g[j].amount == Some(w),
        forall|k: int| j < k < i ==> !(spec_is_disputable(#[trigger] g[k]) && g[k].tx == g[i].tx),
        !a.locked,
    ensures
        linked_amount(g, i) == Some(w as int),
        account_step(a, g, i) == apply_dispute(a, w as int),
        account_step(a, g, i).available == a.available - w,
        account_step(a, g, i).held == a.held + w,
{
    lemma_last_match_found(g, i, j, g[i].tx);
}

/// Disputing a withdrawal of amount `w` has the same externally observable
/// effect as disputing a deposit of `w`: the available funds decrease by `w`
/// and the held funds increase by `w`, the total unchanged, freezing that
/// amount while the debit is investigated. Nothing here asks whether the
/// withdrawal ever succeeded: one that failed for insufficient funds (and so
/// changed nothing, see `lemma_failed_withdrawal_unchanged`) remains a valid
/// dispute target.
pub proof fn lemma_dispute_of_withdrawal(a: AccountV, g: Seq<Transaction>, j: int, i: int, w: i64)
    requires
        0 <= j < i < g.len(),
        g[i].kind == Kind::Dispute,
        g[j].kind == Kind::Withdrawal,
        g[j].tx == g[i].tx,
        g[j].amount == Some(w),
        forall|k: int| j < k < i ==> !(spec_is_disputable(#[trigger] g[k]) && g[k].tx == g[i].tx),
        !a.locked,
    ensures
        linked_amount(g, i) == Some(w as int),
        account_step(a, g, i) == apply_dispute(a, w as int),
        account_step(a, g, i).available == a.available - w,
        account_step(a, g, i).held == a.held + w,
{
    lemma_last_match_found(g, i, j, g[i].tx);
}

/// An error raised while a batch of transactions is handled.
#[derive(Debug)]
pub enum BankError {
    InvalidInput,
    Other,
}

/// The account a client starts a batch from: the one the bank holds, or a
/// fresh one on the first reference to that client.
pub open spec fn base_account(m: Map<ClientId, AccountV>, c: ClientId) -> AccountV {
    if m.dom().contains(c) {
        m[c]
    } else {
        initial_account()
    }
}

/// The bank's state after a batch: every client the batch mentions gets an
/// account, and each client's group is replayed against that client's
/// account. Clients the batch never mentions keep their state.
pub open spec fn bank_after(
    m: Map<ClientId, AccountV>,
    txs: Seq<Transaction>,
) -> Map<ClientId, AccountV> {
    Map::new(
        |c: ClientId| m.dom().contains(c) || batch_clients(txs).contains(c),
        |c: ClientId| replay(base_account(m, c), group_of(txs, c)),
    )
}

/// Replaying the batch keeps every touched client's balances representable.
pub open spec fn batch_fits(m: Map<ClientId, AccountV>, txs: Seq<Transaction>) -> bool {
    forall|c: ClientId|
        #[trigger] batch_clients(txs).contains(c) ==> replay_fits(
            base_account(m, c),
            group_of(txs, c),
        )
}

/// `m` with the entries of `s` written over it, in order.
pub open spec fn seq_inserts(
    m: Map<ClientId, AccountV>,
    s: Seq<(ClientId, Account)>,
) -> Map<ClientId, AccountV>
    decreases s.len(),
{
    if s.len() == 0 {
        m
    } else {
        seq_inserts(m, s.drop_last()).insert(s.last().0, s.last().1@)
    }
}

proof fn lemma_seq_inserts_props(m: Map<ClientId, AccountV>, s: Seq<(ClientId, Account)>)
    requires
        forall|i: int, j: int| 0 <= i < j < s.len() ==> s[i].0 != s[j].0,
    ensures
        forall|i: int|
            0 <= i < s.len() ==> seq_inserts(m, s).dom().contains((#[trigger] s[i]).0)
                && seq_inserts(m, s)[s[i].0] == s[i].1@,
        forall|c: ClientId|
            !(exists|i: int| 0 <= i < s.len() && (#[trigger] s[i]).0 == c) ==> (
            #[trigger] seq_inserts(m, s).dom().contains(c) <==> m.dom().contains(c)) && (
            m.dom().contains(c) ==> seq_inserts(m, s)[c] == m[c]),
    decreases s.len(),
{
    if s.len() > 0 {
        let s0 = s.drop_last();
        lemma_seq_inserts_props(m, s0);
        assert forall|i: int| 0 <= i < s.len() implies seq_inserts(m, s).dom().contains(
            (#[trigger] s[i]).0,
        ) && seq_inserts(m, s)[s[i].0] == s[i].1@ by {
            if i < s.len() - 1 {
                assert(s0[i] == s[i]);
                assert(s[i].0 != s.last().0);
            }
        }
        assert forall|c: ClientId|
            !(exists|i: int| 0 <= i < s.len() && (#[trigger] s[i]).0 == c) implies (
        #[trigger] seq_inserts(m, s).dom().contains(c) <==> m.dom().contains(c)) && (
        m.dom().contains(c) ==> seq_inserts(m, s)[c] == m[c]) by {
            assert(s[s.len() - 1].0 != c);
            assert(!(exists|i: int| 0 <= i < s0.len() && (#[trigger] s0[i]).0 == c)) by {
                if exists|i: int| 0 <= i < s0.len() && (#[trigger] s0[i]).0 == c {
                    let i = choose|i: int| 0 <= i < s0.len() && (#[trigger] s0[i]).0 == c;
                    assert(s[i].0 == c);
                }
            }
            assert((seq_inserts(m, s0).dom().contains(c) <==> m.dom().contains(c)) && (
            m.dom().contains(c) ==> seq_inserts(m, s0)[c] == m[c]));
        }
    }
}

/// One report row: a client's rounded balances and lock status.
#[derive(Debug, Clone, Copy, PartialEq, Eq, Structural)]
pub struct AccountReport {
    pub client: ClientId,
    pub available: Amount,
    pub held: Amount,
    pub total: Amount,
    pub locked: bool,
}

impl AccountReport {
    pub fn new(
        client: ClientId,
        available: Amount,
        held: Amount,
        total: Amount,
        locked: bool,
    ) -> (r: AccountReport)
        ensures
            r == (AccountReport { client, available, held, total, locked }),
    {
        AccountReport { client, available, held, total, locked }
    }
}

/// The report row derived from one account's state: balances rounded to four
/// decimal places, the total derived as `available + held`.
pub open spec fn spec_report_row(c: ClientId, a: AccountV) -> AccountReport {
    AccountReport {
        client: c,
        available: spec_round_4(a.available) as i64,
        held: spec_round_4(a.held) as i64,
        total: spec_round_4(a.available + a.held) as i64,
        locked: a.locked,
    }
}

/// The map from client id to account state that a sequence of entries
/// denotes; a later entry for a key overrides an earlier one, though a well
/// formed bank holds each key at most once.
pub open spec fn clients_map(s: Seq<(ClientId, Account)>) -> Map<ClientId, AccountV>
    decreases s.len(),
{
    if s.len() == 0 {
        Map::empty()
    } else {
        clients_map(s.drop_last()).insert(s.last().0, s.last().1@)
    }
}

/// The ledger. It owns one account per client seen so far, kept ordered by
/// client id.
pub struct Bank {
    clients: Vec<(ClientId, Account)>,
}

impl View for Bank {
    type V = Map<ClientId, AccountV>;

    closed spec fn view(&self) -> Map<ClientId, AccountV> {
        clients_map(self.clients@)
    }
}

proof fn lemma_clients_map_props(s: Seq<(ClientId, Account)>)
    requires
        forall|i: int, j: int| 0 <= i < j < s.len() ==> s[i].0 != s[j].0,
    ensures
        forall|i: int| 0 <= i < s.len() ==> clients_map(s).dom().contains((#[trigger] s[i]).0),
        forall|i: int|
            0 <= i < s.len() ==> clients_map(s)[(#[trigger] s[i]).0] == s[i].1@,
        forall|c: ClientId|
            #[trigger] clients_map(s).dom().contains(c) ==> exists|i: int|
                0 <= i < s.len() && (#[trigger] s[i]).0 == c,
    decreases s.len(),
{
    if s.len() > 0 {
        let s0 = s.drop_last();
        lemma_clients_map_props(s0);
        assert forall|i: int| 0 <= i < s.len() implies clients_map(s).dom().contains(
            (#[trigger] s[i]).0,
        ) && clients_map(s)[s[i].0] == s[i].1@ by {
            if i < s.len() - 1 {
                assert(s0[i] == s[i]);
                assert(s[i].0 != s.last().0);
            }
        }
        assert forall|c: ClientId| clients_map(s).dom().contains(c) implies exists|i: int|
            0 <= i < s.len() && (#[trigger] s[i]).0 == c by {
            if c == s.last().0 {
                assert(0 <= s.len() - 1 < s.len() && s[s.len() - 1].0 == c);
            } else {
                assert(clients_map(s0).dom().contains(c));
                let i = choose|i: int| 0 <= i < s0.len() && (#[trigger] s0[i]).0 == c;
                assert(s0[i] == s[i]);
                assert(0 <= i < s.len() && s[i].0 == c);
            }
        }
    }
}

proof fn lemma_clients_map_insert(s: Seq<(ClientId, Account)>, pos: int, c: ClientId, a: Account)
    requires
        0 <= pos <= s.len(),
        forall|i: int| 0 <= i < s.len() ==> (#[trigger] s[i]).0 != c,
    ensures
        clients_map(s.insert(pos, (c, a))) == clients_map(s).insert(c, a@),
    decreases s.len() - pos,
{
    let t = s.insert(pos, (c, a));
    if pos == s.len() {
        assert(t.drop_last() =~= s);
        assert(t.last() == (c, a));
    } else {
        assert(t.last() == s.last());
        assert(t.drop_last() =~= s.drop_last().insert(pos, (c, a)));
        lemma_clients_map_insert(s.drop_last(), pos, c, a);
        let m = clients_map(s.drop_last());
        let k = s.last().0;
        let v = s.last().1@;
        assert(k != c);
        assert(m.insert(c, a@).insert(k, v) =~= m.insert(k, v).insert(c, a@));
    }
}

proof fn lemma_clients_map_update(s: Seq<(ClientId, Account)>, pos: int, a: Account)
    requires
        0 <= pos < s.len(),
        forall|i: int, j: int| 0 <= i < j < s.len() ==> s[i].0 != s[j].0,
    ensures
        clients_map(s.update(pos, (s[pos].0, a))) == clients_map(s).insert(s[pos].0, a@),
    decreases s.len(),
{
    let c = s[pos].0;
    let t = s.update(pos, (c, a));
    if pos == s.len() - 1 {
        assert(t.drop_last() =~= s.drop_last());
        assert(t.last() == (c, a));
        let m = clients_map(s.drop_last());
        assert(m.insert(c, s.last().1@).insert(c, a@) =~= m.insert(c, a@));
    } else {
        assert(t.last() == s.last());
        assert(t.drop_last() =~= s.drop_last().update(pos, (c, a)));
        assert(s.drop_last()[pos] == s[pos]);
        lemma_clients_map_update(s.drop_last(), pos, a);
        let m = clients_map(s.drop_last());
        let k = s.last().0;
        let v = s.last().1@;
        assert(k != c);
        assert(m.insert(c, a@).insert(k, v) =~= m.insert(k, v).insert(c, a@));
    }
}

/// Some Deposit or Withdrawal in `g` carries transaction id `txid`.
pub open spec fn has_disputable_with_tx(g: Seq<Transaction>, txid: TxId) -> bool {
    exists|j: int| 0 <= j < g.len() && spec_is_disputable(#[trigger] g[j]) && g[j].tx == txid
}

/// The group of client `c`: the client's records in original order, except
/// that a Dispute/Resolve/Chargeback whose transaction id matches no Deposit
/// or Withdrawal already present in the group is dropped — it references a
/// transaction this client never made, or one of another client.
pub open spec fn group_of(txs: Seq<Transaction>, c: ClientId) -> Seq<Transaction>
    decreases txs.len(),
{
    if txs.len() == 0 {
        Seq::empty()
    } else {
        let g = group_of(txs.drop_last(), c);
        let t = txs.last();
        if t.client != c {
            g
        } else if spec_is_disputable(t) || has_disputable_with_tx(g, t.tx) {
            g.push(t)
        } else {
            g
        }
    }
}

/// The clients a batch mentions.
pub open spec fn batch_clients(txs: Seq<Transaction>) -> Set<ClientId> {
    Set::new(|c: ClientId| exists|i: int| 0 <= i < txs.len() && (#[trigger] txs[i]).client == c)
}

/// Every record of a client's group is one of that client's records.
proof fn lemma_group_of_members(txs: Seq<Transaction>, c: ClientId)
    ensures
        forall|k: int|
            0 <= k < group_of(txs, c).len() ==> (#[trigger] group_of(txs, c)[k]).client == c,
        forall|k: int|
            0 <= k < group_of(txs, c).len() ==> exists|i: int|
                0 <= i < txs.len() && txs[i] == (#[trigger] group_of(txs, c)[k]),
    decreases txs.len(),
{
    if txs.len() > 0 {
        let txs0 = txs.drop_last();
        lemma_group_of_members(txs0, c);
        let g0 = group_of(txs0, c);
        let g = group_of(txs, c);
        assert forall|k: int| 0 <= k < g.len() implies g[k].client == c && exists|i: int|
            0 <= i < txs.len() && txs[i] == (#[trigger] g[k]) by {
            if k < g0.len() {
                assert(g[k] == g0[k]);
                let i = choose|i: int| 0 <= i < txs0.len() && txs0[i] == (#[trigger] g0[k]);
                assert(txs0[i] == txs[i]);
                assert(txs[i] == g0[k]);
            } else {
                assert(g[k] == txs.last());
                assert(txs[txs.len() - 1] == g[k]);
            }
        }
    }
}

/// The grouping rule keeps the field-presence invariant.
proof fn lemma_group_amounts_present(txs: Seq<Transaction>, c: ClientId)
    requires
        amounts_present(txs),
    ensures
        amounts_present(group_of(txs, c)),
{
    lemma_group_of_members(txs, c);
    let g = group_of(txs, c);
    assert forall|k: int|
        0 <= k < g.len() && spec_is_disputable(#[trigger] g[k]) implies g[k].amount is Some by {
        let i = choose|i: int| 0 <= i < txs.len() && txs[i] == (#[trigger] g[k]);
        assert(spec_is_disputable(txs[i]));
    }
}

/// A client the batch never mentions has an empty group.
proof fn lemma_group_of_absent(txs: Seq<Transaction>, c: ClientId)
    requires
        !batch_clients(txs).contains(c),
    ensures
        group_of(txs, c) == Seq::<Transaction>::empty(),
    decreases txs.len(),
{
    if txs.len() > 0 {
        let txs0 = txs.drop_last();
        assert(!batch_clients(txs0).contains(c)) by {
            if batch_clients(txs0).contains(c) {
                let i = choose|i: int| 0 <= i < txs0.len() && (#[trigger] txs0[i]).client == c;
                assert(txs[i].client == c);
                assert(batch_clients(txs).contains(c));
            }
        }
        lemma_group_of_absent(txs0, c);
        assert(txs.last().client != c) by {
            if txs.last().client == c {
                assert(txs[txs.len() - 1].client == c);
                assert(batch_clients(txs).contains(c));
            }
        }
    } else {
        assert(group_of(txs, c) =~= Seq::<Transaction>::empty());
    }
}

/// True when some Deposit or Withdrawal in `g` carries transaction id `txid`.
fn contains_disputable_tx(g: &Vec<Transaction>, txid: TxId) -> (b: bool)
    ensures
        b == has_disputable_with_tx(g@, txid),
{
    let n = g.len();
    let mut j: usize = 0;
    while j < n
        invariant
            n == g@.len(),
            0 <= j <= n,
            forall|k: int|
                0 <= k < j ==> !(spec_is_disputable(#[trigger] g@[k]) && g@[k].tx == txid),
        decreases n - j,
    {
        let t = &g[j];
        if is_disputable(t) && t.tx == txid {
            return true;
        }
        j += 1;
    }
    false
}

/// Collects client `c`'s group from the batch.
fn build_group(txs: &Vec<Transaction>, c: ClientId) -> (g: Vec<Transaction>)
    ensures
        g@ == group_of(txs@, c),
{
    let mut g: Vec<Transaction> = Vec::new();
    let n = txs.len();
    let mut k: usize = 0;
    while k < n
        invariant
            n == txs@.len(),
            0 <= k <= n,
            g@ == group_of(txs@.take(k as int), c),
        decreases n - k,
    {
        proof {
            assert(txs@.take(k + 1).drop_last() =~= txs@.take(k as int));
            assert(txs@.take(k + 1).last() == txs@[k as int]);
        }
        let t = txs[k];
        if t.client == c {
            if is_disputable(&t) {
                g.push(t);
            } else if contains_disputable_tx(&g, t.tx) {
                g.push(t);
            }
        }
        k += 1;
    }
    proof {
        assert(txs@.take(n as int) =~= txs@);
    }
    g
}

/// True when `cs` holds `c`.
fn contains_client(cs: &Vec<ClientId>, c: ClientId) -> (b: bool)
    ensures
        b == cs@.contains(c),
{
    let n = cs.len();
    let mut j: usize = 0;
    while j < n
        invariant
            n == cs@.len(),
            0 <= j <= n,
            forall|k: int| 0 <= k < j ==> cs@[k] != c,
        decreases n - j,
    {
        if cs[j] == c {
            return true;
        }
        j += 1;
    }
    false
}

/// The distinct clients of the batch, in order of first appearance.
fn collect_clients(txs: &Vec<Transaction>) -> (cs: Vec<ClientId>)
    ensures
        forall|a: int, b: int| 0 <= a < b < cs@.len() ==> cs@[a] != cs@[b],
        forall|c: ClientId| batch_clients(txs@).contains(c) <==> cs@.contains(c),
{
    let mut cs: Vec<ClientId> = Vec::new();
    let n = txs.len();
    let mut k: usize = 0;
    while k < n
        invariant
            n == txs@.len(),
            0 <= k <= n,
            forall|a: int, b: int| 0 <= a < b < cs@.len() ==> cs@[a] != cs@[b],
            forall|c: ClientId|
                cs@.contains(c) <==> exists|i: int|
                    0 <= i < k && (#[trigger] txs@[i]).client == c,
        decreases n - k,
    {
        let c = txs[k].client;
        let ghost cs0 = cs@;
        let present = contains_client(&cs, c);
        if !present {
            cs.push(c);
        }
        k += 1;
        proof {
            assert(txs@[k - 1].client == c);
            assert forall|c2: ClientId| cs@.contains(c2) implies exists|i: int|
                0 <= i < k && (#[trigger] txs@[i]).client == c2 by {
                let j = choose|j: int| 0 <= j < cs@.len() && cs@[j] == c2;
                if j < cs0.len() {
                    assert(cs0[j] == c2);
                    assert(cs0.contains(c2));
                } else {
                    assert(c2 == c);
                    assert(txs@[k - 1].client == c2);
                }
            }
            assert forall|c2: ClientId|
                (exists|i: int| 0 <= i < k && (#[trigger] txs@[i]).client == c2)
                implies cs@.contains(c2) by {
                let i = choose|i: int| 0 <= i < k && (#[trigger] txs@[i]).client == c2;
                if i < k - 1 {
                    assert(cs0.contains(c2));
                    let j = choose|j: int| 0 <= j < cs0.len() && cs0[j] == c2;
                    assert(cs@[j] == c2);
                } else {
                    assert(c2 == c);
                    if present {
                        assert(cs0.contains(c2));
                        let j = choose|j: int| 0 <= j < cs0.len() && cs0[j] == c2;
                        assert(cs@[j] == c2);
                    } else {
                        assert(cs@[cs@.len() - 1] == c);
                    }
                }
            }
            assert forall|a: int, b: int| 0 <= a < b < cs@.len() implies cs@[a] != cs@[b] by {
                if b == cs0.len() {
                    assert(cs@[a] == cs0[a]);
                    assert(cs0.contains(cs0[a]));
                    assert(cs@[b] == c);
                }
            }
        }
    }
    cs
}

/// Partitions the batch by client: one group per client mentioned, in order
/// of first appearance, each built under the grouping rule.
fn group_transactions(txs: &Vec<Transaction>) -> (groups: Vec<(ClientId, Vec<Transaction>)>)
    ensures
        forall|a: int, b: int| 0 <= a < b < groups@.len() ==> groups@[a].0 != groups@[b].0,
        forall|k: int|
            0 <= k < groups@.len() ==> (#[trigger] groups@[k]).1@ == group_of(
                txs@,
                groups@[k].0,
            ),
        forall|c: ClientId|
            batch_clients(txs@).contains(c) <==> exists|k: int|
                0 <= k < groups@.len() && (#[trigger] groups@[k]).0 == c,
{
    let cs = collect_clients(txs);
    let mut groups: Vec<(ClientId, Vec<Transaction>)> = Vec::new();
    let n = cs.len();
    let mut k: usize = 0;
    while k < n
        invariant
            n == cs@.len(),
            0 <= k <= n,
            groups@.len() == k,
            forall|a: int, b: int| 0 <= a < b < cs@.len() ==> cs@[a] != cs@[b],
            forall|c: ClientId| batch_clients(txs@).contains(c) <==> cs@.contains(c),
            forall|m: int| 0 <= m < k ==> (#[trigger] groups@[m]).0 == cs@[m],
            forall|m: int|
                0 <= m < k ==> (#[trigger] groups@[m]).1@ == group_of(txs@, groups@[m].0),
        decreases n - k,
    {
        let c = cs[k];
        let g = build_group(txs, c);
        groups.push((c, g));
        k += 1;
    }
    proof {
        assert forall|c: ClientId| batch_clients(txs@).contains(c) implies exists|k: int|
            0 <= k < groups@.len() && (#[trigger] groups@[k]).0 == c by {
            assert(cs@.contains(c));
            let i = choose|i: int| 0 <= i < cs@.len() && cs@[i] == c;
            assert(groups@[i].0 == c);
        }
        assert forall|c: ClientId|
            (exists|k: int| 0 <= k < groups@.len() && (#[trigger] groups@[k]).0 == c)
            implies batch_clients(txs@).contains(c) by {
            let m = choose|m: int| 0 <= m < groups@.len() && (#[trigger] groups@[m]).0 == c;
            assert(cs@[m] == c);
            assert(cs@.contains(c));
        }
    }
    groups
}

/// The amount the Dispute/Resolve/Chargeback at `i` applies, per the
/// linkage rule.
fn get_amount_for_tx(txs: &Vec<Transaction>, i: usize) -> (r: Option<Amount>)
    requires
        i < txs@.len(),
        amounts_present(txs@),
    ensures
        r is Some <==> linked_amount(txs@, i as int) is Some,
        r is Some ==> r.unwrap() == linked_amount(txs@, i as int).unwrap(),
{
    let txid = txs[i].tx;
    let mut j: usize = i;
    while j > 0
        invariant
            0 <= j <= i < txs@.len(),
            amounts_present(txs@),
            txid == txs@[i as int].tx,
            last_disputable_match(txs@, i as int, txid) == last_disputable_match(
                txs@,
                j as int,
                txid,
            ),
        decreases j,
    {
        let t = &txs[j - 1];
        if is_disputable(t) && t.tx == txid {
            proof {
                assert(last_disputable_match(txs@, j as int, txid) == j - 1);
            }
            return Some(t.amount.unwrap());
        }
        j -= 1;
    }
    proof {
        assert(last_disputable_match(txs@, 0, txid) == -1);
    }
    None
}

/// Applies record `i` of group `txs` to `account`. Returns false exactly when
/// the record's effect would push a balance outside the representable range;
/// the account is then left unchanged.
fn handle_tx(account: &mut Account, txs: &Vec<Transaction>, i: usize) -> (ok: bool)
    requires
        old(account).wf(),
        i < txs@.len(),
        amounts_present(txs@),
    ensures
        ok ==> final(account)@ == account_step(old(account)@, txs@, i as int)
            && final(account).wf(),
        !ok ==> *final(account) == *old(account) && !in_balance_range(
            account_step(old(account)@, txs@, i as int),
        ),
{
    if account.is_locked() {
        return true;
    }
    let av = account.raw_available();
    let held = account.raw_held();
    match txs[i].kind {
        Kind::Deposit => {
            let amt = txs[i].amount.unwrap();
            let na: i128 = av as i128 + amt as i128;
            if -(MAX_BALANCE as i128) <= na && na <= MAX_BALANCE as i128 {
                account.deposit(amt);
                true
            } else {
                false
            }
        },
        Kind::Withdrawal => {
            let amt = txs[i].amount.unwrap();
            if av < amt {
                // InsufficientFunds: the record is discarded, balances stay.
                return true;
            }
            let na: i128 = av as i128 - amt as i128;
            if -(MAX_BALANCE as i128) <= na && na <= MAX_BALANCE as i128 {
                let _ = account.withdrawal(amt);
                true
            } else {
                false
            }
        },
        _ => {
            match get_amount_for_tx(txs, i) {
                None => true,
                Some(x) => {
                    match txs[i].kind {
                        Kind::Dispute => {
                            let na: i128 = av as i128 - x as i128;
                            let nh: i128 = held as i128 + x as i128;
                            if -(MAX_BALANCE as i128) <= na && na <= MAX_BALANCE as i128
                                && -(MAX_BALANCE as i128) <= nh && nh <= MAX_BALANCE as i128 {
                                account.dispute(x);
                                true
                            } else {
                                false
                            }
                        },
                        Kind::Resolve => {
                            let na: i128 = av as i128 + x as i128;
                            let nh: i128 = held as i128 - x as i128;
                            if -(MAX_BALANCE as i128) <= na && na <= MAX_BALANCE as i128
                                && -(MAX_BALANCE as i128) <= nh && nh <= MAX_BALANCE as i128 {
                                account.resolve(x);
                                true
                            } else {
                                false
                            }
                        },
                        _ => {
                            let nh: i128 = held as i128 - x as i128;
                            if -(MAX_BALANCE as i128) <= nh && nh <= MAX_BALANCE as i128 {
                                account.chargeback(x);
                                true
                            } else {
                                false
                            }
                        },
                    }
                },
            }
        },
    }
}

/// Replays one client's group against `account`, stopping if any step would
/// leave the representable balance range.
fn replay_client(account: Account, g: &Vec<Transaction>) -> (r: Option<Account>)
    requires
        account.wf(),
        amounts_present(g@),
    ensures
        r is Some <==> replay_fits(account@, g@),
        r is Some ==> r.unwrap()@ == replay(account@, g@) && r.unwrap().wf(),
{
    let mut acc = account;
    let n = g.len();
    let mut i: usize = 0;
    while i < n
        invariant
            n == g@.len(),
            0 <= i <= n,
            amounts_present(g@),
            acc.wf(),
            acc@ == replay_upto(account@, g@, i as int),
            forall|m: int|
                0 <= m <= i ==> in_balance_range(#[trigger] replay_upto(account@, g@, m)),
        decreases n - i,
    {
        let ok = handle_tx(&mut acc, g, i);
        if !ok {
            proof {
                assert(replay_upto(account@, g@, i + 1) == account_step(
                    replay_upto(account@, g@, i as int),
                    g@,
                    i as int,
                ));
            }
            return None;
        }
        i += 1;
        proof {
            assert(replay_upto(account@, g@, i as int) == account_step(
                replay_upto(account@, g@, i - 1),
                g@,
                i - 1,
            ));
        }
    }
    Some(acc)
}

impl Default for Bank {
    fn default() -> (b: Bank)
        ensures
            b@ == Map::<ClientId, AccountV>::empty(),
            b.wf(),
    {
        Bank { clients: Vec::new() }
    }
}

impl Bank {
    /// Keys strictly increasing (so each client appears once, and reports
    /// come out ordered), every account within balance range.
    pub closed spec fn wf(self) -> bool {
        &&& forall|i: int, j: int|
            0 <= i < j < self.clients@.len() ==> self.clients@[i].0 < self.clients@[j].0
        &&& forall|i: int|
            0 <= i < self.clients@.len() ==> (#[trigger] self.clients@[i]).1.wf()
    }

    /// A bank that knows no clients yet.
    pub fn new() -> (b: Bank)
        ensures
            b@ == Map::<ClientId, AccountV>::empty(),
            b.wf(),
    {
        Bank::default()
    }

    /// The account of client `c`, if the bank has seen that client.
    fn get_account(&self, c: ClientId) -> (r: Option<Account>)
        requires
            self.wf(),
        ensures
            r is Some <==> self@.dom().contains(c),
            r is Some ==> r.unwrap()@ == self@[c] && r.unwrap().wf(),
    {
        let n = self.clients.len();
        let mut i: usize = 0;
        while i < n
            invariant
                n == self.clients@.len(),
                0 <= i <= n,
                self.wf(),
                forall|k: int| 0 <= k < i ==> (#[trigger] self.clients@[k]).0 != c,
            decreases n - i,
        {
            if self.clients[i].0 == c {
                proof {
                    lemma_clients_map_props(self.clients@);
                }
                return Some(self.clients[i].1);
            }
            i += 1;
        }
        proof {
            lemma_clients_map_props(self.clients@);
        }
        None
    }

    /// Replays a batch of transactions against the per-client accounts.
    ///
    /// The batch is grouped by client; each client's group is replayed in
    /// original order under the dispute-linkage rule, a locked account
    /// absorbing everything. The whole batch is applied, or none of it:
    /// a batch whose Deposit/Withdrawal records do not all carry an amount is
    /// rejected as `InvalidInput`, and one that would push some balance
    /// beyond `MAX_BALANCE` is rejected as `Other`, the bank unchanged
    /// either way.
    #[verifier::loop_isolation(false)]
    pub fn handle_transactions(&mut self, transactions: Vec<Transaction>) -> (r: Result<
        (),
        BankError,
    >)
        requires
            old(self).wf(),
        ensures
            final(self).wf(),
            r is Ok <==> amounts_present(transactions@) && batch_fits(old(self)@, transactions@),
            r is Ok ==> final(self)@ == bank_after(old(self)@, transactions@),
            r is Err ==> final(self)@ == old(self)@ && (r->Err_0 is InvalidInput <==> !amounts_present(
                transactions@,
            )),
    {
        let ghost m0 = old(self)@;
        let n = transactions.len();
        let mut i: usize = 0;
        while i < n
            invariant
                0 <= i <= n,
                forall|k: int|
                    0 <= k < i && spec_is_disputable(#[trigger] transactions@[k])
                        ==> transactions@[k].amount is Some,
            decreases n - i,
        {
            let t = &transactions[i];
            if is_disputable(t) && t.amount.is_none() {
                return Err(BankError::InvalidInput);
            }
            i += 1;
        }
        assert(amounts_present(transactions@));

        let groups = group_transactions(&transactions);
        let mut staged: Vec<(ClientId, Account)> = Vec::new();
        let ng = groups.len();
        let mut k: usize = 0;
        while k < ng
            invariant
                0 <= k <= ng,
                *self == *old(self),
                staged@.len() == k,
                forall|m: int| 0 <= m < k ==> (#[trigger] staged@[m]).0 == groups@[m].0,
                forall|m: int|
                    0 <= m < k ==> (#[trigger] staged@[m]).1@ == replay(
                        base_account(m0, staged@[m].0),
                        group_of(transactions@, staged@[m].0),
                    ) && staged@[m].1.wf(),
                forall|m: int|
                    0 <= m < k ==> replay_fits(
                        base_account(m0, (#[trigger] groups@[m]).0),
                        group_of(transactions@, groups@[m].0),
                    ),
            decreases ng - k,
        {
            let entry = &groups[k];
            let c = entry.0;
            let base = match self.get_account(c) {
                Some(a) => a,
                None => Account::new(),
            };
            assert(base@ == base_account(m0, c));
            proof {
                lemma_group_amounts_present(transactions@, c);
            }
            match replay_client(base, &entry.1) {
                Some(acc) => {
                    staged.push((c, acc));
                },
                None => {
                    proof {
                        assert(batch_clients(transactions@).contains(c));
                        assert(!batch_fits(m0, transactions@));
                    }
                    return Err(BankError::Other);
                },
            }
            k += 1;
        }
        proof {
            assert forall|c: ClientId| #[trigger] batch_clients(transactions@).contains(c)
                implies replay_fits(base_account(m0, c), group_of(transactions@, c)) by {
                let g = choose|g: int|
                    0 <= g < groups@.len() && (#[trigger] groups@[g]).0 == c;
                assert(replay_fits(
                    base_account(m0, groups@[g].0),
                    group_of(transactions@, groups@[g].0),
                ));
            }
            assert(batch_fits(m0, transactions@));
        }

        let ns = staged.len();
        let mut k2: usize = 0;
        while k2 < ns
            invariant
                0 <= k2 <= ns,
                self@ == seq_inserts(m0, staged@.take(k2 as int)),
                self.wf(),
            decreases ns - k2,
        {
            proof {
                assert(staged@.take(k2 + 1).drop_last() =~= staged@.take(k2 as int));
                assert(staged@.take(k2 + 1).last() == staged@[k2 as int]);
            }
            let entry = staged[k2];
            self.upsert_account(entry.0, entry.1);
            k2 += 1;
        }
        proof {
            assert(staged@.take(ns as int) =~= staged@);
            assert forall|a: int, b: int| 0 <= a < b < staged@.len() implies staged@[a].0
                != staged@[b].0 by {
                assert(groups@[a].0 != groups@[b].0);
            }
            lemma_seq_inserts_props(m0, staged@);
            let after = bank_after(m0, transactions@);
            assert forall|c: ClientId|
                #![trigger self@.dom().contains(c)]
                #![trigger after.dom().contains(c)]
                (self@.dom().contains(c) <==> after.dom().contains(c)) && (self@.dom().contains(c)
                    ==> self@[c] == after[c]) by {
                if exists|m: int| 0 <= m < staged@.len() && (#[trigger] staged@[m]).0 == c {
                    let m = choose|m: int|
                        0 <= m < staged@.len() && (#[trigger] staged@[m]).0 == c;
                    assert(groups@[m].0 == c);
                    assert(batch_clients(transactions@).contains(c));
                    assert(self@[c] == staged@[m].1@);
                    assert(after.dom().contains(c));
                    assert(after[c] == replay(base_account(m0, c), group_of(transactions@, c)));
                } else {
                    assert(!batch_clients(transactions@).contains(c)) by {
                        if batch_clients(transactions@).contains(c) {
                            let g = choose|g: int|
                                0 <= g < groups@.len() && (#[trigger] groups@[g]).0 == c;
                            assert(staged@[g].0 == c);
                        }
                    }
                    lemma_group_of_absent(transactions@, c);
                    assert(replay(base_account(m0, c), group_of(transactions@, c))
                        == base_account(m0, c));
                }
            }
            assert(self@ =~= after);
        }
        Ok(())
    }

    /// One report row per client the bank has seen, in ascending client
    /// order: rounded available, held and derived total funds, and the lock
    /// status.
    #[verifier::loop_isolation(false)]
    pub fn get_accounts_report(&self) -> (r: Vec<AccountReport>)
        requires
            self.wf(),
        ensures
            forall|i: int|
                0 <= i < r@.len() ==> self@.dom().contains((#[trigger] r@[i]).client) && r@[i]
                    == spec_report_row(r@[i].client, self@[r@[i].client]),
            forall|i: int, j: int| 0 <= i < j < r@.len() ==> r@[i].client < r@[j].client,
            forall|c: ClientId|
                #[trigger] self@.dom().contains(c) ==> exists|i: int|
                    0 <= i < r@.len() && (#[trigger] r@[i]).client == c,
    {
        let mut reports: Vec<AccountReport> = Vec::new();
        let n = self.clients.len();
        let mut i: usize = 0;
        while i < n
            invariant
                0 <= i <= n,
                reports@.len() == i,
                forall|k: int|
                    0 <= k < i ==> #[trigger] reports@[k] == spec_report_row(
                        self.clients@[k].0,
                        self.clients@[k].1@,
                    ),
            decreases n - i,
        {
            let entry = &self.clients[i];
            let report = AccountReport {
                client: entry.0,
                available: entry.1.get_available_funds(),
                held: entry.1.get_held_funds(),
                total: entry.1.get_total_funds(),
                locked: entry.1.is_locked(),
            };
            reports.push(report);
            i += 1;
        }
        proof {
            lemma_clients_map_props(self.clients@);
            assert forall|c: ClientId| #[trigger] self@.dom().contains(c) implies exists|k: int|
                0 <= k < reports@.len() && (#[trigger] reports@[k]).client == c by {
                let k = choose|k: int|
                    0 <= k < self.clients@.len() && (#[trigger] self.clients@[k]).0 == c;
                assert(reports@[k].client == c);
            }
        }
        reports
    }

    /// Stores `a` as the account of client `c`, replacing any earlier one.
    fn upsert_account(&mut self, c: ClientId, a: Account)
        requires
            old(self).wf(),
            a.wf(),
        ensures
            final(self).wf(),
            final(self)@ == old(self)@.insert(c, a@),
    {
        let n = self.clients.len();
        let mut pos: usize = 0;
        while pos < n && self.clients[pos].0 < c
            invariant
                n == self.clients@.len(),
                0 <= pos <= n,
                self.wf(),
                *self == *old(self),
                forall|k: int| 0 <= k < pos ==> (#[trigger] self.clients@[k]).0 < c,
            decreases n - pos,
        {
            pos += 1;
        }
        let ghost s = self.clients@;
        if pos < self.clients.len() && self.clients[pos].0 == c {
            proof {
                lemma_clients_map_update(s, pos as int, a);
            }
            self.clients[pos] = (c, a);
            proof {
                let t = self.clients@;
                assert(t =~= s.update(pos as int, (c, a)));
                assert forall|i: int, j: int| 0 <= i < j < t.len() implies t[i].0 < t[j].0 by {
                    assert(s[i].0 < s[j].0);
                }
            }
        } else {
            proof {
                assert forall|i: int| 0 <= i < s.len() implies (#[trigger] s[i]).0 != c by {
                    if i >= pos {
                        assert(s[pos as int].0 >= c && s[pos as int].0 != c);
                        if i > pos {
                            assert(s[pos as int].0 < s[i].0);
                        }
                    }
                }
                lemma_clients_map_insert(s, pos as int, c, a);
            }
            self.clients.insert(pos, (c, a));
            proof {
                let t = self.clients@;
                assert(t == s.insert(pos as int, (c, a)));
                assert forall|i: int, j: int| 0 <= i < j < t.len() implies t[i].0 < t[j].0 by {
                    if i < pos {
                        assert(t[i] == s[i]);
                        assert(s[i].0 < c);
                    }
                    if j > pos {
                        assert(t[j] == s[j - 1]);
                        assert(s[j - 1].0 > c);
                    }
                    if i > pos {
                        assert(t[i] == s[i - 1]);
                    }
                    if j < pos {
                        assert(t[j] == s[j]);
                    }
                }
                assert forall|i: int| 0 <= i < t.len() implies (#[trigger] t[i]).1.wf() by {
                    if i < pos {
                        assert(t[i] == s[i]);
                    } else if i > pos {
                        assert(t[i] == s[i - 1]);
                    }
                }
            }
        }
    }
}

} // verus!

