//! Batches of transactions with the state roots around them.

use crate::bignum::BigNum;
use crate::transaction::Transaction;
use vstd::prelude::*;

verus! {

/// A batch of transactions, with the state root before and after it.
pub struct Batch {
    pub txs: Vec<Transaction>,
    pub state_root_before: BigNum,
    pub state_root_after: BigNum,
}

} // verus!
