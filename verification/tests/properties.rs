use payments_engine::model::account::Account;
use payments_engine::model::message::Message;
use payments_engine::model::transaction::Transaction;
use payments_engine::model::transaction_type::TransactionType;
use payments_engine::use_case::account_table::AccountTable;
use payments_engine::use_case::process_transactions::{
    execute, process_transactions, ExecuteError,
};

fn txn(transaction_type: TransactionType, client: u16, tx: u32, amount: Option<i64>) -> Transaction {
    Transaction { transaction_type, client, tx, amount }
}

fn find<'a>(accounts: &'a [Account], client: u16) -> &'a Account {
    accounts.iter().find(|a| a.client == client).unwrap()
}

#[test]
fn five_records_scenario() {
    // deposit,1,1,1.0 / deposit,2,2,2.0 / deposit,1,3,2.0 /
    // withdrawal,1,4,1.5 / withdrawal,2,5,3.0
    let messages = vec![
        Message::Transaction(txn(TransactionType::Deposit, 1, 1, Some(10000))),
        Message::Transaction(txn(TransactionType::Deposit, 2, 2, Some(20000))),
        Message::Transaction(txn(TransactionType::Deposit, 1, 3, Some(20000))),
        Message::Transaction(txn(TransactionType::Withdrawal, 1, 4, Some(15000))),
        Message::Transaction(txn(TransactionType::Withdrawal, 2, 5, Some(30000))),
        Message::Eof,
    ];
    let accounts = process_transactions(messages).unwrap();
    assert_eq!(accounts.len(), 2);

    let one = find(&accounts, 1);
    assert_eq!(one.available, 15000);
    assert_eq!(one.held, 0);
    assert_eq!(one.total(), 15000);
    assert!(!one.locked);

    let two = find(&accounts, 2);
    assert_eq!(two.available, -10000);
    assert_eq!(two.held, 0);
    assert_eq!(two.total(), -10000);
    assert!(!two.locked);
}

#[test]
fn deposit_then_dispute_scenario() {
    // deposit,1,1,1.0 then dispute,1,1,
    let messages = vec![
        Message::Transaction(txn(TransactionType::Deposit, 1, 1, Some(10000))),
        Message::Transaction(txn(TransactionType::Dispute, 1, 1, None)),
        Message::Eof,
    ];
    let accounts = process_transactions(messages).unwrap();
    let one = find(&accounts, 1);
    assert_eq!(one.available, 0);
    assert_eq!(one.held, 10000);
    assert_eq!(one.total(), 10000);
    assert!(!one.locked);
}

#[test]
fn dispute_then_chargeback_scenario() {
    // deposit,1,1,1.0 / dispute,1,1, / chargeback,1,1,
    let messages = vec![
        Message::Transaction(txn(TransactionType::Deposit, 1, 1, Some(10000))),
        Message::Transaction(txn(TransactionType::Dispute, 1, 1, None)),
        Message::Transaction(txn(TransactionType::Chargeback, 1, 1, None)),
        Message::Eof,
    ];
    let accounts = process_transactions(messages).unwrap();
    let one = find(&accounts, 1);
    assert_eq!(one.available, 0);
    assert_eq!(one.held, 0);
    assert_eq!(one.total(), 0);
    assert!(one.locked);
}

#[test]
fn precise_deposit_withdrawal_round_trip() {
    // deposit of 3.0001 then withdrawal of 3.0001: exactly zero, no drift.
    let messages = vec![
        Message::Transaction(txn(TransactionType::Deposit, 1, 1, Some(30001))),
        Message::Transaction(txn(TransactionType::Withdrawal, 1, 2, Some(30001))),
        Message::Eof,
    ];
    let accounts = process_transactions(messages).unwrap();
    let one = find(&accounts, 1);
    assert_eq!(one.available, 0);
    assert_eq!(one.held, 0);
}

#[test]
fn deposits_and_withdrawals_sum_per_client() {
    let messages = vec![
        Message::Transaction(txn(TransactionType::Deposit, 1, 1, Some(25000))),
        Message::Transaction(txn(TransactionType::Withdrawal, 2, 2, Some(7000))),
        Message::Transaction(txn(TransactionType::Withdrawal, 1, 3, Some(40000))),
        Message::Transaction(txn(TransactionType::Deposit, 2, 4, Some(1))),
        Message::Transaction(txn(TransactionType::Deposit, 1, 5, Some(3))),
        Message::Eof,
    ];
    let accounts = process_transactions(messages).unwrap();
    let one = find(&accounts, 1);
    assert_eq!(one.available, 25000 - 40000 + 3);
    assert_eq!(one.held, 0);
    let two = find(&accounts, 2);
    assert_eq!(two.available, -7000 + 1);
    assert_eq!(two.held, 0);
}

#[test]
fn dispute_resolve_restores_balances() {
    let mut accounts = AccountTable::new();
    execute(txn(TransactionType::Deposit, 1, 1, Some(10000)), &mut accounts).unwrap();
    execute(txn(TransactionType::Deposit, 1, 2, Some(5000)), &mut accounts).unwrap();
    let before = accounts.get(1).unwrap();
    let (available, held) = (before.available, before.held);
    execute(txn(TransactionType::Dispute, 1, 1, None), &mut accounts).unwrap();
    execute(txn(TransactionType::Resolve, 1, 1, None), &mut accounts).unwrap();
    let after = accounts.get(1).unwrap();
    assert_eq!(after.available, available);
    assert_eq!(after.held, held);
    assert!(!after.locked);
}

#[test]
fn resolve_without_dispute_shifts_held() {
    // Deliberate quirk of the engine: nothing tracks which records are under
    // active dispute, so a resolve is applied against any stored record and
    // moves held to available regardless.
    let mut accounts = AccountTable::new();
    execute(txn(TransactionType::Deposit, 1, 1, Some(10000)), &mut accounts).unwrap();
    execute(txn(TransactionType::Resolve, 1, 1, None), &mut accounts).unwrap();
    let account = accounts.get(1).unwrap();
    assert_eq!(account.available, 20000);
    assert_eq!(account.held, -10000);
}

#[test]
fn unknown_tx_is_a_no_op() {
    let mut accounts = AccountTable::new();
    execute(txn(TransactionType::Deposit, 1, 1, Some(10000)), &mut accounts).unwrap();
    execute(txn(TransactionType::Dispute, 1, 99, None), &mut accounts).unwrap();
    execute(txn(TransactionType::Resolve, 1, 99, None), &mut accounts).unwrap();
    execute(txn(TransactionType::Chargeback, 1, 99, None), &mut accounts).unwrap();
    let account = accounts.get(1).unwrap();
    assert_eq!(account.available, 10000);
    assert_eq!(account.held, 0);
    assert!(!account.locked);
}

#[test]
fn locked_account_never_changes() {
    let mut accounts = AccountTable::new();
    execute(txn(TransactionType::Deposit, 1, 1, Some(10000)), &mut accounts).unwrap();
    execute(txn(TransactionType::Dispute, 1, 1, None), &mut accounts).unwrap();
    execute(txn(TransactionType::Chargeback, 1, 1, None), &mut accounts).unwrap();
    // Locked now. Every further kind of record is archived without effect.
    execute(txn(TransactionType::Deposit, 1, 2, Some(70000)), &mut accounts).unwrap();
    execute(txn(TransactionType::Withdrawal, 1, 3, Some(100)), &mut accounts).unwrap();
    execute(txn(TransactionType::Dispute, 1, 1, None), &mut accounts).unwrap();
    execute(txn(TransactionType::Resolve, 1, 1, None), &mut accounts).unwrap();
    execute(txn(TransactionType::Chargeback, 1, 1, None), &mut accounts).unwrap();
    let account = accounts.get(1).unwrap();
    assert_eq!(account.available, 0);
    assert_eq!(account.held, 0);
    assert!(account.locked);
    // Archived under their tx ids: 2, 3, and 1 (shared by the three claims).
    assert_eq!(account.locked_transactions.len(), 3);
}

#[test]
fn chargeback_without_dispute_is_fatal() {
    let mut accounts = AccountTable::new();
    execute(txn(TransactionType::Deposit, 1, 1, Some(10000)), &mut accounts).unwrap();
    let r = execute(txn(TransactionType::Chargeback, 1, 1, None), &mut accounts);
    assert_eq!(r, Err(ExecuteError::InsufficientHeld));
    // The table is untouched by the failed step.
    let account = accounts.get(1).unwrap();
    assert_eq!(account.available, 10000);
    assert_eq!(account.held, 0);
    assert!(!account.locked);
}

#[test]
fn consistency_fault_stops_the_run() {
    let messages = vec![
        Message::Transaction(txn(TransactionType::Deposit, 1, 1, Some(10000))),
        Message::Transaction(txn(TransactionType::Chargeback, 1, 1, None)),
        Message::Eof,
    ];
    let r = process_transactions(messages);
    assert!(r.is_err());
    assert_eq!(r.err().unwrap(), ExecuteError::InsufficientHeld);
}

#[test]
fn processing_stops_at_eof() {
    let messages = vec![
        Message::Transaction(txn(TransactionType::Deposit, 1, 1, Some(10000))),
        Message::Eof,
        Message::Transaction(txn(TransactionType::Deposit, 1, 2, Some(10000))),
    ];
    let accounts = process_transactions(messages).unwrap();
    assert_eq!(accounts.len(), 1);
    assert_eq!(accounts[0].available, 10000);
}

#[test]
fn input_without_eof_is_processed_whole() {
    let messages = vec![
        Message::Transaction(txn(TransactionType::Deposit, 1, 1, Some(10000))),
        Message::Transaction(txn(TransactionType::Withdrawal, 1, 2, Some(4000))),
    ];
    let accounts = process_transactions(messages).unwrap();
    assert_eq!(accounts.len(), 1);
    assert_eq!(accounts[0].available, 6000);
}
