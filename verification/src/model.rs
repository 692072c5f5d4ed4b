pub mod account;
pub mod message;
pub mod transaction;
pub mod transaction_type;
