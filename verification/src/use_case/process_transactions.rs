use vstd::prelude::*;

use crate::model::account::{Account, AccountView};
use crate::model::message::Message;
use crate::model::transaction::{Transaction, AMOUNT_LIMIT};
use crate::model::transaction_type::TransactionType;
use crate::model::account::lemma_apply_step;
use crate::use_case::account_table::{
    clients_unique, lemma_table_model_index, lemma_table_model_membership,
    lemma_table_model_update, table_model, AccountTable,
};

verus! {

broadcast use vstd::std_specs::hash::group_hash_axioms;

/// The one fatal executor fault: a chargeback whose held balance cannot cover
/// the disputed amount. It means an earlier step under-accounted, so the run
/// stops instead of papering over it.
#[derive(Clone, Copy, Debug, PartialEq, Eq, Structural)]
pub enum ExecuteError {
    InsufficientHeld,
}

/// One step of the executor on the whole table: the target account — created
/// on first reference — takes the record, and every other entry is untouched.
pub open spec fn table_apply(m: Map<u16, AccountView>, txn: Transaction) -> Option<
    Map<u16, AccountView>,
> {
    let a = if m.contains_key(txn.client) {
        m[txn.client]
    } else {
        AccountView::initial(txn.client)
    };
    match a.apply(txn) {
        Some(a2) => Some(m.insert(txn.client, a2)),
        None => None,
    }
}

/// The whole run: messages are applied in order until the first `Eof` or the
/// end of the sequence; `None` marks a run stopped by the consistency fault.
pub open spec fn run(msgs: Seq<Message>, m: Map<u16, AccountView>) -> Option<
    Map<u16, AccountView>,
>
    decreases msgs.len(),
{
    if msgs.len() == 0 {
        Some(m)
    } else {
        match msgs.first() {
            Message::Eof => Some(m),
            Message::Transaction(txn) => match table_apply(m, txn) {
                Some(m2) => run(msgs.drop_first(), m2),
                None => None,
            },
        }
    }
}

/// Apply one record to one account, mirroring `AccountView::apply` exactly.
fn apply_transaction(account: &mut Account, txn: Transaction) -> (r: Result<(), ExecuteError>)
    requires
        old(account)@.wf(),
        old(account)@.has_headroom(),
        txn.valid(),
    ensures
        final(account)@.wf(),
        match r {
            Ok(()) => old(account)@.apply(txn) == Some(final(account)@),
            Err(e) => {
                &&& final(account)@ == old(account)@
                &&& old(account)@.apply(txn) is None
                &&& e == ExecuteError::InsufficientHeld
            },
        },
{
    proof {
        lemma_apply_step(old(account)@, txn);
    }
    if account.locked {
        account.locked_transactions.insert(txn.tx, txn);
        proof {
            assert(old(account)@.apply(txn) == Some(account@)) by {
                assert(old(account)@.apply(txn).unwrap() =~= account@);
            }
        }
        return Ok(());
    }
    match txn.transaction_type {
        TransactionType::Deposit => {
            let amt = txn.amount();
            account.available = account.available + (amt as i128);
            account.transactions.insert(txn.tx, txn);
            proof {
                assert(old(account)@.apply(txn).unwrap() =~= account@);
            }
            Ok(())
        },
        TransactionType::Withdrawal => {
            let amt = txn.amount();
            account.available = account.available - (amt as i128);
            account.transactions.insert(txn.tx, txn);
            proof {
                assert(old(account)@.apply(txn).unwrap() =~= account@);
            }
            Ok(())
        },
        TransactionType::Dispute => {
            match account.transactions.get(&txn.tx) {
                Some(source) => {
                    let x = source.amount();
                    account.available = account.available - (x as i128);
                    account.held = account.held + (x as i128);
                    proof {
                        assert(old(account)@.apply(txn).unwrap() =~= account@);
                    }
                    Ok(())
                },
                None => {
                    proof {
                        assert(old(account)@.apply(txn).unwrap() =~= account@);
                    }
                    Ok(())
                },
            }
        },
        TransactionType::Resolve => {
            match account.transactions.get(&txn.tx) {
                Some(source) => {
                    let x = source.amount();
                    account.available = account.available + (x as i128);
                    account.held = account.held - (x as i128);
                    proof {
                        assert(old(account)@.apply(txn).unwrap() =~= account@);
                    }
                    Ok(())
                },
                None => {
                    proof {
                        assert(old(account)@.apply(txn).unwrap() =~= account@);
                    }
                    Ok(())
                },
            }
        },
        TransactionType::Chargeback => {
            match account.transactions.get(&txn.tx) {
                Some(source) => {
                    let x = source.amount();
                    if account.held < (x as i128) {
                        Err(ExecuteError::InsufficientHeld)
                    } else {
                        account.held = account.held - (x as i128);
                        account.locked = true;
                        proof {
                            assert(old(account)@.apply(txn).unwrap() =~= account@);
                        }
                        Ok(())
                    }
                },
                None => {
                    proof {
                        assert(old(account)@.apply(txn).unwrap() =~= account@);
                    }
                    Ok(())
                },
            }
        },
    }
}

/// Execute one record against the table: look up or create the account of
/// `txn.client`, let it take the record, and leave every other account alone.
/// On the chargeback consistency fault the table is left unchanged and the
/// fault is reported; every other record, including a claim naming an unknown
/// id or a record for a locked account, succeeds.
pub fn execute(txn: Transaction, accounts: &mut AccountTable) -> (r: Result<(), ExecuteError>)
    requires
        old(accounts).wf(),
        txn.valid(),
        old(accounts)@.contains_key(txn.client) ==> old(accounts)@[txn.client].has_headroom(),
    ensures
        final(accounts).wf(),
        match r {
            Ok(()) => table_apply(old(accounts)@, txn) == Some(final(accounts)@),
            Err(e) => {
                &&& final(accounts)@ == old(accounts)@
                &&& table_apply(old(accounts)@, txn) is None
                &&& e == ExecuteError::InsufficientHeld
            },
        },
{
    let ghost s0 = accounts.accounts@;
    proof {
        lemma_table_model_membership(s0, txn.client);
    }
    match accounts.find_index(txn.client) {
        Some(i) => {
            proof {
                lemma_table_model_index(s0, i as int);
            }
            let mut acc = accounts.accounts.remove(i);
            match apply_transaction(&mut acc, txn) {
                Ok(()) => {
                    accounts.accounts.insert(i, acc);
                    proof {
                        assert(accounts.accounts@ =~= s0.update(i as int, acc));
                        lemma_table_model_update(s0, i as int, acc);
                        assert forall|x: int| 0 <= x < accounts.accounts@.len()
                            implies (#[trigger] accounts.accounts@[x])@.wf() by {
                            if x != i {
                                assert(accounts.accounts@[x] == s0[x]);
                            }
                        }
                    }
                    Ok(())
                },
                Err(e) => {
                    accounts.accounts.insert(i, acc);
                    proof {
                        assert(accounts.accounts@ =~= s0.update(i as int, acc));
                        lemma_table_model_update(s0, i as int, acc);
                        assert(table_model(s0).insert(acc.client, acc@) =~= table_model(s0));
                        assert forall|x: int| 0 <= x < accounts.accounts@.len()
                            implies (#[trigger] accounts.accounts@[x])@.wf() by {
                            if x != i {
                                assert(accounts.accounts@[x] == s0[x]);
                            }
                        }
                    }
                    Err(e)
                },
            }
        },
        None => {
            let mut acc = Account::new(txn.client);
            match apply_transaction(&mut acc, txn) {
                Ok(()) => {
                    accounts.accounts.push(acc);
                    proof {
                        assert(accounts.accounts@.drop_last() =~= s0);
                        assert forall|x: int| 0 <= x < accounts.accounts@.len()
                            implies (#[trigger] accounts.accounts@[x])@.wf() by {
                            if x < s0.len() {
                                assert(accounts.accounts@[x] == s0[x]);
                            }
                        }
                    }
                    Ok(())
                },
                Err(e) => {
                    // A fresh account stores no record, so a chargeback can
                    // find nothing to fault: this arm is provably dead.
                    proof {
                        assert(false);
                    }
                    Err(e)
                },
            }
        },
    }
}

/// The signed sum of the monetary amounts for `client` up to the first `Eof`:
/// deposits count positively, withdrawals negatively.
pub open spec fn client_sum(msgs: Seq<Message>, client: u16) -> int
    decreases msgs.len(),
{
    if msgs.len() == 0 {
        0
    } else {
        match msgs.first() {
            Message::Eof => 0,
            Message::Transaction(t) => {
                let rest = client_sum(msgs.drop_first(), client);
                if t.client == client {
                    match t.transaction_type {
                        TransactionType::Deposit => t.amount_value() + rest,
                        TransactionType::Withdrawal => rest - t.amount_value(),
                        _ => rest,
                    }
                } else {
                    rest
                }
            },
        }
    }
}

/// Induction form of the deposit/withdrawal law: starting from any table of
/// unlocked accounts, a run of monetary records alone succeeds, leaves every
/// account unlocked, keeps each `held` as it was (zero for accounts the run
/// creates), and moves each `available` by exactly the client's signed sum.
proof fn lemma_run_monetary(msgs: Seq<Message>, m: Map<u16, AccountView>)
    requires
        forall|i: int| 0 <= i < msgs.len()
            ==> ((#[trigger] msgs[i]) matches Message::Transaction(t)
                ==> t.transaction_type.is_monetary()),
        forall|c: u16| #[trigger] m.contains_key(c) ==> !m[c].locked,
    ensures
        ({
            &&& run(msgs, m) matches Some(m2)
            &&& forall|c: u16| m.contains_key(c) ==> #[trigger] m2.contains_key(c)
            &&& forall|c: u16| #[trigger] m2.contains_key(c) ==> {
                &&& !m2[c].locked
                &&& m2[c].available == (if m.contains_key(c) {
                    m[c].available
                } else {
                    0
                }) + client_sum(msgs, c)
                &&& m2[c].held == (if m.contains_key(c) {
                    m[c].held
                } else {
                    0
                })
            }
        }),
    decreases msgs.len(),
{
    if msgs.len() == 0 {
    } else {
        match msgs.first() {
            Message::Eof => {},
            Message::Transaction(t) => {
                assert(msgs[0] == msgs.first());
                let a = if m.contains_key(t.client) {
                    m[t.client]
                } else {
                    AccountView::initial(t.client)
                };
                let a2 = a.apply(t).unwrap();
                let m1 = m.insert(t.client, a2);
                assert(table_apply(m, t) == Some(m1));
                assert(forall|i: int| 0 <= i < msgs.drop_first().len()
                    ==> ((#[trigger] msgs.drop_first()[i]) matches Message::Transaction(t2)
                        ==> t2.transaction_type.is_monetary())) by {
                    assert forall|i: int| 0 <= i < msgs.drop_first().len()
                        implies ((#[trigger] msgs.drop_first()[i]) matches Message::Transaction(
                        t2,
                    ) ==> t2.transaction_type.is_monetary()) by {
                        assert(msgs.drop_first()[i] == msgs[i + 1]);
                    }
                }
                lemma_run_monetary(msgs.drop_first(), m1);
                let m2 = run(msgs.drop_first(), m1).unwrap();
                assert(run(msgs, m) == Some(m2));
                assert forall|c: u16| #[trigger] m2.contains_key(c) implies {
                    &&& !m2[c].locked
                    &&& m2[c].available == (if m.contains_key(c) {
                        m[c].available
                    } else {
                        0
                    }) + client_sum(msgs, c)
                    &&& m2[c].held == (if m.contains_key(c) {
                        m[c].held
                    } else {
                        0
                    })
                } by {
                    if c == t.client {
                        assert(m1[c] == a2);
                        assert(client_sum(msgs, c) == (if t.transaction_type
                            == TransactionType::Deposit {
                            t.amount_value()
                        } else {
                            -t.amount_value()
                        }) + client_sum(msgs.drop_first(), c));
                    } else {
                        assert(m1.contains_key(c) == m.contains_key(c));
                        assert(m.contains_key(c) ==> m1[c] == m[c]);
                        assert(client_sum(msgs, c) == client_sum(msgs.drop_first(), c));
                    }
                }
            },
        }
    }
}

/// Law: over deposits and withdrawals alone, starting from nothing, the run
/// succeeds and every account ends unlocked, with `held` zero and `available`
/// equal to the signed sum of its client's amounts.
pub proof fn lemma_deposit_withdrawal_sum(msgs: Seq<Message>)
    requires
        forall|i: int| 0 <= i < msgs.len()
            ==> ((#[trigger] msgs[i]) matches Message::Transaction(t)
                ==> t.transaction_type.is_monetary()),
    ensures
        ({
            &&& run(msgs, Map::empty()) matches Some(m)
            &&& forall|c: u16| #[trigger] m.contains_key(c) ==> {
                &&& m[c].available == client_sum(msgs, c)
                &&& m[c].held == 0
                &&& !m[c].locked
            }
        }),
{
    lemma_run_monetary(msgs, Map::empty());
}

/// Process messages in arrival order until the first `Eof` (or the end of the
/// input) and return the final collection of accounts, one per client seen.
/// The consistency fault of `execute` stops the run and is passed on.
pub fn process_transactions(messages: Vec<Message>) -> (r: Result<Vec<Account>, ExecuteError>)
    requires
        forall|i: int| 0 <= i < messages@.len()
            ==> ((#[trigger] messages@[i]) matches Message::Transaction(t) ==> t.valid()),
    ensures
        match r {
            Ok(v) => {
                &&& run(messages@, Map::empty()) == Some(table_model(v@))
                &&& clients_unique(v@)
                &&& v@.len() == table_model(v@).len()
                &&& forall|i: int| 0 <= i < v@.len() ==> (#[trigger] v@[i])@.wf()
            },
            Err(_) => run(messages@, Map::empty()) is None,
        },
{
    let mut table = AccountTable::new();
    let mut idx: usize = 0;
    let n = messages.len();
    proof {
        assert(messages@.skip(0) =~= messages@);
    }
    while idx < n
        invariant
            n == messages@.len(),
            idx <= n,
            table.wf(),
            forall|i: int| 0 <= i < messages@.len()
                ==> ((#[trigger] messages@[i]) matches Message::Transaction(t) ==> t.valid()),
            run(messages@, Map::empty()) == run(messages@.skip(idx as int), table@),
            forall|c: u16| #[trigger] table@.contains_key(c) ==> {
                &&& table@[c].wf()
                &&& -(idx as int) * (AMOUNT_LIMIT as int) <= table@[c].available <= (idx as int)
                    * (AMOUNT_LIMIT as int)
                &&& -(idx as int) * (AMOUNT_LIMIT as int) <= table@[c].held <= (idx as int) * (
                AMOUNT_LIMIT as int)
            },
        decreases n - idx,
    {
        let ghost suffix = messages@.skip(idx as int);
        proof {
            assert(suffix.first() == messages@[idx as int]);
        }
        let msg = messages[idx];
        match msg {
            Message::Eof => {
                return Ok(table.drain());
            },
            Message::Transaction(txn) => {
                let ghost m0 = table@;
                proof {
                    // Headroom for this step: at most `idx` records have moved
                    // a balance so far, each by at most AMOUNT_LIMIT, and even
                    // u64::MAX of them leave i128 far from its edges.
                    if table@.contains_key(txn.client) {
                        assert((idx as int) * (AMOUNT_LIMIT as int) <= (n as int) * (
                        AMOUNT_LIMIT as int)) by {
                            vstd::arithmetic::mul::lemma_mul_inequality(
                                idx as int,
                                n as int,
                                AMOUNT_LIMIT as int,
                            );
                        }
                        assert((n as int) * (AMOUNT_LIMIT as int) <= (u64::MAX as int) * (
                        AMOUNT_LIMIT as int)) by {
                            vstd::arithmetic::mul::lemma_mul_inequality(
                                n as int,
                                u64::MAX as int,
                                AMOUNT_LIMIT as int,
                            );
                        }
                    }
                }
                match execute(txn, &mut table) {
                    Ok(()) => {
                        proof {
                            assert(suffix.drop_first() =~= messages@.skip(idx as int + 1));
                            let a = if m0.contains_key(txn.client) {
                                m0[txn.client]
                            } else {
                                AccountView::initial(txn.client)
                            };
                            lemma_apply_step(a, txn);
                            assert forall|c: u16| #[trigger] table@.contains_key(c) implies {
                                &&& table@[c].wf()
                                &&& -(idx as int + 1) * (AMOUNT_LIMIT as int) <= table@[c].available
                                    <= (idx as int + 1) * (AMOUNT_LIMIT as int)
                                &&& -(idx as int + 1) * (AMOUNT_LIMIT as int) <= table@[c].held <= (
                                idx as int + 1) * (AMOUNT_LIMIT as int)
                            } by {
                                assert((idx as int + 1) * (AMOUNT_LIMIT as int) == (idx as int) * (
                                AMOUNT_LIMIT as int) + AMOUNT_LIMIT as int) by {
                                    vstd::arithmetic::mul::lemma_mul_is_distributive_add_other_way(
                                        AMOUNT_LIMIT as int,
                                        idx as int,
                                        1,
                                    );
                                }
                                if c != txn.client {
                                    assert(table@[c] == m0[c]);
                                }
                            }
                        }
                    },
                    Err(e) => {
                        return Err(e);
                    },
                }
            },
        }
        idx += 1;
    }
    proof {
        assert(messages@.skip(n as int) =~= Seq::<Message>::empty());
    }
    Ok(table.drain())
}

} // verus!
