use vstd::prelude::*;

use std::collections::HashMap;

use crate::model::transaction::{Transaction, AMOUNT_LIMIT};
use crate::model::transaction_type::TransactionType;

verus! {

broadcast use vstd::std_specs::hash::group_hash_axioms;

/// Mathematical model of one account: exact integer balances and the two
/// histories as maps from transaction id to record.
#[verifier::ext_equal]
pub ghost struct AccountView {
    pub client: u16,
    pub available: int,
    pub held: int,
    pub locked: bool,
    /// Records applied while the account was unlocked; disputes, resolves and
    /// chargebacks are resolved against this history.
    pub transactions: Map<u32, Transaction>,
    /// Records that arrived after the account was locked: archived, never applied.
    pub locked_transactions: Map<u32, Transaction>,
}

impl AccountView {
    /// The state an account is created in on first reference.
    pub open spec fn initial(client: u16) -> AccountView {
        AccountView {
            client,
            available: 0,
            held: 0,
            locked: false,
            transactions: Map::empty(),
            locked_transactions: Map::empty(),
        }
    }

    /// Total funds; derived, never stored.
    pub open spec fn total(self) -> int {
        self.available + self.held
    }

    /// Every record a claim can be resolved against is a deposit or
    /// withdrawal, carries a bounded amount, and sits under its own id.
    pub open spec fn wf(self) -> bool {
        forall|k: u32| #[trigger] self.transactions.contains_key(k)
            ==> self.transactions[k].transaction_type.is_monetary()
                && self.transactions[k].valid()
                && self.transactions[k].tx == k
    }

    /// Room to move one more bounded amount in or out without leaving `i128`.
    pub open spec fn has_headroom(self) -> bool {
        &&& i128::MIN + AMOUNT_LIMIT as int <= self.available <= i128::MAX - AMOUNT_LIMIT as int
        &&& i128::MIN + AMOUNT_LIMIT as int <= self.held <= i128::MAX - AMOUNT_LIMIT as int
    }

    /// One step of the executor on this account.
    ///
    /// A locked account archives the record and changes nothing else. An
    /// unlocked account branches on the record's kind: deposits and
    /// withdrawals move `available` and enter the history; a dispute moves the
    /// referenced amount from `available` to `held`, a resolve moves it back,
    /// and a chargeback removes it from `held` and locks the account. A claim
    /// naming an unknown id is a no-op. `None` marks the one fatal fault: a
    /// chargeback whose amount exceeds the held balance.
    pub open spec fn apply(self, txn: Transaction) -> Option<AccountView> {
        if self.locked {
            Some(AccountView {
                locked_transactions: self.locked_transactions.insert(txn.tx, txn),
                ..self
            })
        } else {
            match txn.transaction_type {
                TransactionType::Deposit => Some(AccountView {
                    available: self.available + txn.amount_value(),
                    transactions: self.transactions.insert(txn.tx, txn),
                    ..self
                }),
                TransactionType::Withdrawal => Some(AccountView {
                    available: self.available - txn.amount_value(),
                    transactions: self.transactions.insert(txn.tx, txn),
                    ..self
                }),
                TransactionType::Dispute => if self.transactions.contains_key(txn.tx) {
                    let x = self.transactions[txn.tx].amount_value();
                    Some(AccountView { available: self.available - x, held: self.held + x, ..self })
                } else {
                    Some(self)
                },
                TransactionType::Resolve => if self.transactions.contains_key(txn.tx) {
                    let x = self.transactions[txn.tx].amount_value();
                    Some(AccountView { available: self.available + x, held: self.held - x, ..self })
                } else {
                    Some(self)
                },
                TransactionType::Chargeback => if self.transactions.contains_key(txn.tx) {
                    let x = self.transactions[txn.tx].amount_value();
                    if self.held < x {
                        None
                    } else {
                        Some(AccountView { held: self.held - x, locked: true, ..self })
                    }
                } else {
                    Some(self)
                },
            }
        }
    }
}

/// Law: one step keeps the account well formed, keeps its client, and moves
/// `available` and `held` each by at most one bounded amount.
pub proof fn lemma_apply_step(a: AccountView, txn: Transaction)
    requires
        a.wf(),
        txn.valid(),
    ensures
        a.apply(txn) matches Some(a2) ==> {
            &&& a2.wf()
            &&& a2.client == a.client
            &&& -AMOUNT_LIMIT as int <= a2.available - a.available <= AMOUNT_LIMIT as int
            &&& -AMOUNT_LIMIT as int <= a2.held - a.held <= AMOUNT_LIMIT as int
        },
{
    if a.apply(txn) is Some {
        let a2 = a.apply(txn).unwrap();
        if !a.locked && txn.transaction_type.is_monetary() {
            assert forall|k: u32| #[trigger] a2.transactions.contains_key(k)
                implies a2.transactions[k].transaction_type.is_monetary()
                    && a2.transactions[k].valid() && a2.transactions[k].tx == k by {
                if k != txn.tx {
                    assert(a.transactions.contains_key(k));
                }
            }
        }
    }
}

/// Law: a dispute followed by a resolve of the same transaction id restores
/// `available` and `held` to their values before the dispute.
pub proof fn lemma_dispute_resolve_round_trip(a: AccountView, d: Transaction, r: Transaction)
    requires
        d.transaction_type == TransactionType::Dispute,
        r.transaction_type == TransactionType::Resolve,
        r.tx == d.tx,
    ensures
        ({
            &&& a.apply(d) matches Some(a1)
            &&& a1.apply(r) matches Some(a2)
            &&& a2.available == a.available
            &&& a2.held == a.held
        }),
{
}

/// Law: a chargeback of a disputed transaction locks the account, takes the
/// amount out of `held` alone, and lowers the total by exactly that amount.
pub proof fn lemma_chargeback(a: AccountView, c: Transaction)
    requires
        c.transaction_type == TransactionType::Chargeback,
        !a.locked,
        a.transactions.contains_key(c.tx),
        a.held >= a.transactions[c.tx].amount_value(),
    ensures
        ({
            &&& a.apply(c) matches Some(a2)
            &&& a2.locked
            &&& a2.available == a.available
            &&& a2.held == a.held - a.transactions[c.tx].amount_value()
            &&& a2.total() == a.total() - a.transactions[c.tx].amount_value()
        }),
{
}

/// Law: a claim that names an unknown transaction id leaves `available`,
/// `held` and `locked` unchanged, whatever the lock state.
pub proof fn lemma_unknown_tx_no_op(a: AccountView, txn: Transaction)
    requires
        !txn.transaction_type.is_monetary(),
        !a.transactions.contains_key(txn.tx),
    ensures
        ({
            &&& a.apply(txn) matches Some(a2)
            &&& a2.available == a.available
            &&& a2.held == a.held
            &&& a2.locked == a.locked
        }),
{
}

/// Law: once locked, an account is frozen for good: any further record leaves
/// `available`, `held` and `locked` exactly as they are, and the applied
/// history too; the record is only archived.
pub proof fn lemma_locked_account_frozen(a: AccountView, txn: Transaction)
    requires
        a.locked,
    ensures
        ({
            &&& a.apply(txn) matches Some(a2)
            &&& a2.available == a.available
            &&& a2.held == a.held
            &&& a2.locked
            &&& a2.transactions == a.transactions
            &&& a2.locked_transactions == a.locked_transactions.insert(txn.tx, txn)
        }),
{
}

/// One account: exact fixed-point balances, a lock flag, and the two
/// histories keyed by transaction id.
#[derive(Debug)]
pub struct Account {
    pub client: u16,
    pub available: i128,
    pub held: i128,
    pub locked: bool,
    pub transactions: HashMap<u32, Transaction>,
    pub locked_transactions: HashMap<u32, Transaction>,
}

impl View for Account {
    type V = AccountView;

    open spec fn view(&self) -> AccountView {
        AccountView {
            client: self.client,
            available: self.available as int,
            held: self.held as int,
            locked: self.locked,
            transactions: self.transactions@,
            locked_transactions: self.locked_transactions@,
        }
    }
}

impl Account {
    /// A fresh account: zero balances, unlocked, empty histories.
    pub fn new(client: u16) -> (r: Account)
        ensures
            r@ == AccountView::initial(client),
    {
        let r = Account {
            client,
            available: 0,
            held: 0,
            locked: false,
            transactions: HashMap::new(),
            locked_transactions: HashMap::new(),
        };
        proof {
            assert(r@ =~= AccountView::initial(client));
        }
        r
    }

    /// Total funds, derived from the two balances on the fly.
    pub fn total(&self) -> (r: i128)
        requires
            i128::MIN <= self@.total() <= i128::MAX,
        ensures
            r == self@.total(),
    {
        self.available + self.held
    }
}

impl Default for Account {
    /// The account of client 0, as fresh as any other.
    fn default() -> (r: Account)
        ensures
            r@ == AccountView::initial(0),
    {
        Account::new(0)
    }
}

} // verus!
