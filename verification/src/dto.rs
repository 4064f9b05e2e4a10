//! Plain records exchanged with clients.

use vstd::prelude::*;

verus! {

/// What a client sees of an account.
#[derive(Debug, Clone, Copy, PartialEq, Eq, Structural)]
pub struct AccountSummary {
    pub id: u32,
    pub balance: u64,
    pub nonce: u64,
}

} // verus!
