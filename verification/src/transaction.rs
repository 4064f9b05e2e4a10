//! Signed transfers.

use crate::bignum::BigNum;
use crate::sigma::Proof;
use crate::transcript::{push_u32_be, push_u64_be, u32_be, u64_be};
use vstd::prelude::*;

verus! {

/// A transfer of `amount` from account `from` to account `to`, signed by
/// the sender with a Sigma proof whose challenge binds the message.
#[derive(Debug)]
pub struct Transaction {
    pub from: u32,
    pub to: u32,
    pub amount: u64,
    pub nonce: u64,
    pub proof: Proof,
    pub challenge_e: BigNum,
}

/// The signed message: `from`, `to`, `amount` and `nonce`, big-endian.
pub open spec fn tx_message(from: u32, to: u32, amount: u64, nonce: u64) -> Seq<u8> {
    u32_be(from) + u32_be(to) + u64_be(amount) + u64_be(nonce)
}

impl Transaction {
    /// The bytes that the signature's challenge binds.
    pub fn message_to_bytes(&self) -> (bytes: Vec<u8>)
        ensures
            bytes@ == tx_message(self.from, self.to, self.amount, self.nonce),
    {
        let mut bytes: Vec<u8> = Vec::new();
        push_u32_be(&mut bytes, self.from);
        push_u32_be(&mut bytes, self.to);
        push_u64_be(&mut bytes, self.amount);
        push_u64_be(&mut bytes, self.nonce);
        assert(bytes@ =~= tx_message(self.from, self.to, self.amount, self.nonce));
        bytes
    }
}

impl Clone for Transaction {
    fn clone(&self) -> (res: Self)
        ensures
            res.from == self.from,
            res.to == self.to,
            res.amount == self.amount,
            res.nonce == self.nonce,
            res.proof.r@ == self.proof.r@,
            res.proof.z@ == self.proof.z@,
            res.challenge_e@ == self.challenge_e@,
    {
        Transaction {
            from: self.from,
            to: self.to,
            amount: self.amount,
            nonce: self.nonce,
            proof: Proof { r: self.proof.r.copy(), z: self.proof.z.copy() },
            challenge_e: self.challenge_e.copy(),
        }
    }
}

} // verus!
