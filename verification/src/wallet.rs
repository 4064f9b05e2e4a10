//! Client-side signing of transfers.

use crate::bignum::BigNum;
use crate::commitment::lemma_pow_positive_or_zero;
use crate::sigma::{challenge_for_tx, lemma_sigma_complete, prove_commit, prove_response, Proof};
use crate::state::{tx_challenge, tx_signed_by};
use crate::transaction::{tx_message, Transaction};
use vstd::arithmetic::power::pow;
use vstd::prelude::*;

verus! {

/// The public key `g^secret mod p` of a secret.
pub fn public_key(secret: &BigNum, g: &BigNum, p: &BigNum) -> (pk: BigNum)
    requires
        p@ > 0,
    ensures
        pk@ as int == pow(g@ as int, secret@) % (p@ as int),
{
    g.modpow(secret, p)
}

/// Signs a transfer with `secret`: a Sigma proof of knowledge of the
/// secret behind `g^secret mod p`, with the challenge bound to the
/// transfer's message.
pub fn sign_transaction(
    from: u32,
    to: u32,
    amount: u64,
    nonce: u64,
    secret: &BigNum,
    g: &BigNum,
    p: &BigNum,
) -> (tx: Transaction)
    requires
        p@ > 0,
    ensures
        tx.from == from,
        tx.to == to,
        tx.amount == amount,
        tx.nonce == nonce,
        exists|k: nat|
            k < p@ && #[trigger] pow(g@ as int, k) % (p@ as int) == tx.proof.r@ as int && tx.proof.z@
                == k + tx.challenge_e@ * secret@,
        tx.challenge_e@ == tx_challenge(
            g@,
            p@,
            (pow(g@ as int, secret@) % (p@ as int)) as nat,
            tx,
        ),
        tx_signed_by(g@, p@, (pow(g@ as int, secret@) % (p@ as int)) as nat, tx),
{
    let pubkey = public_key(secret, g, p);
    let mut msg: Vec<u8> = Vec::new();
    crate::transcript::push_u32_be(&mut msg, from);
    crate::transcript::push_u32_be(&mut msg, to);
    crate::transcript::push_u64_be(&mut msg, amount);
    crate::transcript::push_u64_be(&mut msg, nonce);
    assert(msg@ =~= tx_message(from, to, amount, nonce));
    let (k, r) = prove_commit(g, p);
    let e = challenge_for_tx(g, &pubkey, &r, p, msg.as_slice());
    let z = prove_response(&k, &e, secret);
    let challenge_e = e.copy();
    let tx = Transaction { from, to, amount, nonce, proof: Proof { r, z }, challenge_e };
    proof {
        lemma_pow_positive_or_zero(g@ as int, secret@);
        lemma_sigma_complete(g@, p@, secret@, k@, e@);
    }
    tx
}

} // verus!
