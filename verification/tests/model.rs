use payments_engine::model::account::Account;
use payments_engine::model::transaction::{Transaction, AMOUNT_LIMIT, AMOUNT_SCALE};
use payments_engine::model::transaction_type::TransactionType;
use payments_engine::use_case::account_table::AccountTable;

fn txn(transaction_type: TransactionType, client: u16, tx: u32, amount: Option<i64>) -> Transaction {
    Transaction { transaction_type, client, tx, amount }
}

#[test]
fn from_token_accepts_the_five_kinds() {
    assert_eq!(TransactionType::from_token("deposit"), Some(TransactionType::Deposit));
    assert_eq!(TransactionType::from_token("withdrawal"), Some(TransactionType::Withdrawal));
    assert_eq!(TransactionType::from_token("dispute"), Some(TransactionType::Dispute));
    assert_eq!(TransactionType::from_token("resolve"), Some(TransactionType::Resolve));
    assert_eq!(TransactionType::from_token("chargeback"), Some(TransactionType::Chargeback));
}

#[test]
fn from_token_rejects_anything_else() {
    assert_eq!(TransactionType::from_token("invalid"), None);
    assert_eq!(TransactionType::from_token("Deposit"), None);
    assert_eq!(TransactionType::from_token(""), None);
}

#[test]
fn amount_of_monetary_transaction() {
    let t = txn(TransactionType::Deposit, 1, 1, Some(30001));
    assert_eq!(t.amount(), 30001);
    let w = txn(TransactionType::Withdrawal, 1, 2, Some(3 * AMOUNT_SCALE));
    assert_eq!(w.amount(), 30000);
}

#[test]
fn validity_of_records() {
    assert!(txn(TransactionType::Deposit, 1, 1, Some(10000)).is_valid());
    assert!(txn(TransactionType::Withdrawal, 1, 1, Some(-10000)).is_valid());
    assert!(!txn(TransactionType::Deposit, 1, 1, None).is_valid());
    assert!(!txn(TransactionType::Withdrawal, 1, 1, None).is_valid());
    assert!(!txn(TransactionType::Deposit, 1, 1, Some(AMOUNT_LIMIT + 1)).is_valid());
    assert!(txn(TransactionType::Dispute, 1, 1, None).is_valid());
    assert!(txn(TransactionType::Resolve, 1, 1, None).is_valid());
    assert!(txn(TransactionType::Chargeback, 1, 1, None).is_valid());
}

#[test]
fn new_account_is_empty_and_unlocked() {
    let account = Account::new(9);
    assert_eq!(account.client, 9);
    assert_eq!(account.available, 0);
    assert_eq!(account.held, 0);
    assert!(!account.locked);
    assert_eq!(account.transactions.len(), 0);
    assert_eq!(account.locked_transactions.len(), 0);
}

#[test]
fn total_is_available_plus_held() {
    let account = Account { client: 1, available: 15000, held: -2000, ..Default::default() };
    assert_eq!(account.total(), 13000);
}

#[test]
fn table_insert_replaces_by_client() {
    let mut table = AccountTable::new();
    table.insert(Account { client: 1, available: 100, ..Default::default() });
    table.insert(Account { client: 2, available: 200, ..Default::default() });
    assert_eq!(table.len(), 2);
    table.insert(Account { client: 1, available: 300, ..Default::default() });
    assert_eq!(table.len(), 2);
    assert_eq!(table.get(1).unwrap().available, 300);
    assert_eq!(table.get(2).unwrap().available, 200);
    assert!(table.get(3).is_none());
    assert!(table.contains_key(2));
    assert!(!table.contains_key(3));
}

#[test]
fn drain_yields_one_account_per_client() {
    let mut table = AccountTable::new();
    table.insert(Account { client: 3, available: 1, ..Default::default() });
    table.insert(Account { client: 1, available: 2, ..Default::default() });
    let accounts = table.drain();
    assert_eq!(accounts.len(), 2);
    assert!(accounts.iter().any(|a| a.client == 3 && a.available == 1));
    assert!(accounts.iter().any(|a| a.client == 1 && a.available == 2));
}
