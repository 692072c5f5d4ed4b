//! A small payments engine: applies a stream of deposit, withdrawal, dispute,
//! resolve and chargeback records to per-client accounts and yields the final
//! balances.

pub mod model;
pub mod use_case;
