use vstd::prelude::*;

verus! {

/// The five kinds of record the engine understands.
#[derive(Clone, Copy, Debug, PartialEq, Eq, Structural)]
pub enum TransactionType {
    Deposit,
    Withdrawal,
    Dispute,
    Resolve,
    Chargeback,
}

impl TransactionType {
    /// True for the two monetary kinds, the only ones that carry an amount.
    pub open spec fn is_monetary(self) -> bool {
        self == TransactionType::Deposit || self == TransactionType::Withdrawal
    }

    /// The kind a lowercase input token names, if any.
    pub open spec fn token_type(s: Seq<char>) -> Option<TransactionType> {
        if s == "deposit"@ {
            Some(TransactionType::Deposit)
        } else if s == "withdrawal"@ {
            Some(TransactionType::Withdrawal)
        } else if s == "dispute"@ {
            Some(TransactionType::Dispute)
        } else if s == "resolve"@ {
            Some(TransactionType::Resolve)
        } else if s == "chargeback"@ {
            Some(TransactionType::Chargeback)
        } else {
            None
        }
    }

    /// Parse a lowercase type token; any other token is a malformed record.
    pub fn from_token(s: &str) -> (r: Option<TransactionType>)
        ensures
            r == TransactionType::token_type(s@),
    {
        let t = s.to_owned();
        if t == "deposit".to_owned() {
            Some(TransactionType::Deposit)
        } else if t == "withdrawal".to_owned() {
            Some(TransactionType::Withdrawal)
        } else if t == "dispute".to_owned() {
            Some(TransactionType::Dispute)
        } else if t == "resolve".to_owned() {
            Some(TransactionType::Resolve)
        } else if t == "chargeback".to_owned() {
            Some(TransactionType::Chargeback)
        } else {
            None
        }
    }
}

} // verus!
