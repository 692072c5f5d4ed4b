use vstd::prelude::*;

use crate::model::transaction::Transaction;

verus! {

/// The delivery protocol between the input adapter and the executor: each
/// record arrives as `Transaction`, and `Eof` marks the end of the input
/// explicitly, so an aborted producer is distinguishable from a finished one.
#[derive(Clone, Copy, Debug)]
pub enum Message {
    Transaction(Transaction),
    Eof,
}

} // verus!
