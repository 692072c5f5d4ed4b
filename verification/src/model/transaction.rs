use vstd::prelude::*;

use crate::model::transaction_type::TransactionType;

verus! {

/// Amounts are fixed-point: a count of ten-thousandths of one currency unit,
/// so four decimal places survive every arithmetic step exactly.
pub const AMOUNT_SCALE: i64 = 10_000;

/// Largest magnitude a single amount may have. The bound keeps the running
/// `i128` balances of a whole run in range: even one transaction per byte of
/// addressable memory cannot overflow them.
pub const AMOUNT_LIMIT: i64 = 1_000_000_000_000_000;

/// One input record. `amount` is present exactly for the two monetary kinds;
/// the claim-workflow kinds reference an earlier record by `tx` instead.
#[derive(Clone, Copy, Debug)]
pub struct Transaction {
    pub transaction_type: TransactionType,
    pub client: u16,
    pub tx: u32,
    pub amount: Option<i64>,
}

impl Transaction {
    /// The amount as a mathematical integer; zero when absent.
    pub open spec fn amount_value(self) -> int {
        match self.amount {
            Some(a) => a as int,
            None => 0,
        }
    }

    /// A record the executor accepts: a deposit or withdrawal carries an
    /// amount of bounded magnitude. Anything else is a malformed record and
    /// fails the whole run before it reaches the executor.
    pub open spec fn valid(self) -> bool {
        self.transaction_type.is_monetary() ==> (self.amount matches Some(a)
            && -AMOUNT_LIMIT <= a <= AMOUNT_LIMIT)
    }

    /// Runtime check of `valid`, for callers outside verified code.
    pub fn is_valid(&self) -> (r: bool)
        ensures
            r == self.valid(),
    {
        match self.transaction_type {
            TransactionType::Deposit | TransactionType::Withdrawal => match self.amount {
                Some(a) => -AMOUNT_LIMIT <= a && a <= AMOUNT_LIMIT,
                None => false,
            },
            _ => true,
        }
    }

    /// The amount of a deposit or withdrawal. The claim-workflow kinds have
    /// no amount of their own, so they are ruled out here.
    pub fn amount(&self) -> (r: i64)
        requires
            self.transaction_type.is_monetary(),
            self.amount is Some,
        ensures
            r == self.amount_value(),
    {
        self.amount.unwrap()
    }
}

} // verus!
