pub mod account_table;
pub mod process_transactions;
