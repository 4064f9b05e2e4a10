//! Rollup accounts.

use crate::bignum::{be_of, nat_of_be, BigNum};
use crate::digest::{sha256, sha256_spec};
use crate::transcript::{push_bytes, push_u32_be, push_u64_be, u32_be, u64_be};
use vstd::prelude::*;

verus! {

/// An account: its id, balance, the number of transactions it has sent,
/// and the public key `g^secret mod p` that signs them.
#[derive(Debug)]
pub struct Account {
    pub id: u32,
    pub balance: u64,
    pub nonce: u64,
    pub pubkey: BigNum,
}

/// The bytes an account's hash covers: id, balance and nonce big-endian,
/// then the public key's canonical big-endian bytes.
pub open spec fn account_bytes(id: u32, balance: u64, nonce: u64, pubkey: nat) -> Seq<u8> {
    u32_be(id) + u64_be(balance) + u64_be(nonce) + be_of(pubkey)
}

/// The leaf hash of an account.
pub open spec fn account_hash(a: Account) -> nat {
    nat_of_be(sha256_spec(account_bytes(a.id, a.balance, a.nonce, a.pubkey@)))
}

impl Account {
    /// A fresh account, with nonce 0.
    pub fn new(id: u32, balance: u64, pubkey: BigNum) -> (res: Self)
        ensures
            res.id == id,
            res.balance == balance,
            res.nonce == 0,
            res.pubkey == pubkey,
    {
        Account { id, balance, nonce: 0, pubkey }
    }

    /// SHA-256 of the account's id, balance, nonce and public key, read as
    /// a big-endian number.
    pub fn hash(&self) -> (res: BigNum)
        ensures
            res@ == account_hash(*self),
    {
        let mut msg: Vec<u8> = Vec::new();
        push_u32_be(&mut msg, self.id);
        push_u64_be(&mut msg, self.balance);
        push_u64_be(&mut msg, self.nonce);
        push_bytes(&mut msg, self.pubkey.as_be_bytes());
        assert(msg@ =~= account_bytes(self.id, self.balance, self.nonce, self.pubkey@));
        let h = sha256(msg.as_slice());
        BigNum::from_be_bytes(h.as_slice())
    }
}

impl Clone for Account {
    fn clone(&self) -> (res: Self)
        ensures
            res.id == self.id,
            res.balance == self.balance,
            res.nonce == self.nonce,
            res.pubkey@ == self.pubkey@,
    {
        Account {
            id: self.id,
            balance: self.balance,
            nonce: self.nonce,
            pubkey: self.pubkey.copy(),
        }
    }
}

} // verus!
