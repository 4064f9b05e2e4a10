//! The Schnorr Sigma protocol for knowledge of a discrete logarithm, and its
//! Fiat-Shamir challenges.

use crate::bignum::{nat_of_be, BigNum};
use crate::commitment::{lemma_mul_mod, lemma_pow_positive_or_zero};
use crate::digest::{sha256, sha256_spec};
use crate::random::{random_below, thread_rng};
use crate::transcript::{fs_piece, fs_piece_bytes, push_bytes};
use vstd::arithmetic::div_mod::*;
use vstd::arithmetic::power::*;
use vstd::prelude::*;
use vstd::string::StringSliceAdditionalSpecFns;

verus! {

/// The prover's first step: a random nonce `k` in `[0, p)` and the
/// commitment `r = g^k mod p`.  Returns `(k, r)`.
pub fn prove_commit(g: &BigNum, p: &BigNum) -> (res: (BigNum, BigNum))
    requires
        p@ > 0,
    ensures
        res.0@ < p@,
        res.1@ as int == pow(g@ as int, res.0@) % (p@ as int),
{
    let mut rng = thread_rng();
    let k = random_below(&mut rng, p);
    let r = g.modpow(&k, p);
    (k, r)
}

/// The prover's response `z = k + e * secret`.
pub fn prove_response(k: &BigNum, e: &BigNum, secret: &BigNum) -> (z: BigNum)
    ensures
        z@ == k@ + e@ * secret@,
{
    k.add(&e.mul(secret))
}

/// A Sigma proof: the commitment `r = g^k mod p` and the response `z`.
#[derive(Debug)]
pub struct Proof {
    pub r: BigNum,
    pub z: BigNum,
}

impl Clone for Proof {
    fn clone(&self) -> (res: Self)
        ensures
            res.r@ == self.r@,
            res.z@ == self.z@,
    {
        Proof { r: self.r.copy(), z: self.z.copy() }
    }
}

/// The verifier's equation `g^z == r * c^e (mod p)`, with both sides
/// reduced as the verifier computes them.
pub open spec fn sigma_accepts(r: nat, z: nat, c: nat, e: nat, g: nat, p: nat) -> bool {
    pow(g as int, z) % (p as int) == (r * (pow(c as int, e) % (p as int))) % (p as int)
}

impl Proof {
    /// The two sides of the verifier's equation, `g^z mod p` and
    /// `r * (c^e mod p) mod p`, and whether they agree.
    pub fn verify_explain(proof: &Proof, c: &BigNum, e: &BigNum, g: &BigNum, p: &BigNum) -> (res: (
        BigNum,
        BigNum,
        bool,
    ))
        requires
            p@ > 0,
        ensures
            res.0@ as int == pow(g@ as int, proof.z@) % (p@ as int),
            res.1@ as int == (proof.r@ * (pow(c@ as int, e@) % (p@ as int))) % (p@ as int),
            res.2 == sigma_accepts(proof.r@, proof.z@, c@, e@, g@, p@),
    {
        let lhs = g.modpow(&proof.z, p);
        let rhs = proof.r.mul(&c.modpow(e, p)).rem(p);
        let valid = lhs.equals(&rhs);
        (lhs, rhs, valid)
    }

    /// Checks `g^z mod p == r * (c^e mod p) mod p`.
    pub fn verify(proof: &Proof, c: &BigNum, e: &BigNum, g: &BigNum, p: &BigNum) -> (res: bool)
        requires
            p@ > 0,
        ensures
            res == sigma_accepts(proof.r@, proof.z@, c@, e@, g@, p@),
    {
        let lhs = g.modpow(&proof.z, p);
        let rhs = proof.r.mul(&c.modpow(e, p)).rem(p);
        lhs.equals(&rhs)
    }
}

/// Completeness: an honest prover who knows `secret` with `c = g^secret mod
/// p`, commits with any nonce `k` and answers any challenge `e` with
/// `z = k + e * secret`, is accepted.
pub proof fn lemma_sigma_complete(g: nat, p: nat, secret: nat, k: nat, e: nat)
    requires
        p > 0,
    ensures
        sigma_accepts(
            (pow(g as int, k) % (p as int)) as nat,
            k + e * secret,
            (pow(g as int, secret) % (p as int)) as nat,
            e,
            g,
            p,
        ),
{
    let pi = p as int;
    let gk = pow(g as int, k);
    let gs = pow(g as int, secret);
    lemma_pow_positive_or_zero(g as int, k);
    lemma_pow_positive_or_zero(g as int, secret);
    lemma_pow_positive_or_zero(gs, e);
    lemma_mod_bound(gk, pi);
    lemma_mod_bound(gs, pi);
    let c = (gs % pi) as nat;
    // c^e == (g^secret)^e (mod p)
    lemma_pow_mod_noop(gs, e, pi);
    // (g^secret)^e == g^(secret * e)
    lemma_pow_multiplies(g as int, secret, e);
    assert(secret * e == e * secret) by (nonlinear_arith);
    // g^(k + e * secret) == g^k * g^(e * secret)
    lemma_pow_adds(g as int, k, e * secret);
    lemma_mul_mod(gk, pow(gs, e), pi);
    lemma_mul_mod_noop_left(gk, pow(c as int, e) % pi, pi);
    lemma_mod_twice(pow(gs, e), pi);
    lemma_mul_mod_noop_right(gk, pow(c as int, e), pi);
}

/// `bytes` read as a big-endian number, reduced modulo `p`.
pub open spec fn hash_to_mod(digest: Seq<u8>, p: nat) -> nat {
    nat_of_be(digest) % p
}

fn digest_mod(transcript: &Vec<u8>, p: &BigNum) -> (res: BigNum)
    requires
        p@ > 0,
    ensures
        res@ == hash_to_mod(sha256_spec(transcript@), p@),
{
    let h = sha256(transcript.as_slice());
    BigNum::from_be_bytes(h.as_slice()).rem(p)
}

/// The Fiat-Shamir challenge of the plain protocol: `SHA-256(g || c || r)`
/// read as a big-endian number, modulo `p`.
pub fn challenge(g: &BigNum, c: &BigNum, r: &BigNum, p: &BigNum) -> (e: BigNum)
    requires
        p@ > 0,
    ensures
        e@ == hash_to_mod(sha256_spec(g.be() + c.be() + r.be()), p@),
{
    let mut t: Vec<u8> = Vec::new();
    push_bytes(&mut t, g.as_be_bytes());
    push_bytes(&mut t, c.as_be_bytes());
    push_bytes(&mut t, r.as_be_bytes());
    assert(t@ =~= g.be() + c.be() + r.be());
    digest_mod(&t, p)
}

/// The challenge that binds a transaction message:
/// `SHA-256(g || pubkey || r || message)` modulo `p`.
pub fn challenge_for_tx(g: &BigNum, pubkey: &BigNum, r: &BigNum, p: &BigNum, message: &[u8]) -> (e:
    BigNum)
    requires
        p@ > 0,
    ensures
        e@ == hash_to_mod(sha256_spec(g.be() + pubkey.be() + r.be() + message@), p@),
{
    let mut t: Vec<u8> = Vec::new();
    push_bytes(&mut t, g.as_be_bytes());
    push_bytes(&mut t, pubkey.as_be_bytes());
    push_bytes(&mut t, r.as_be_bytes());
    push_bytes(&mut t, message);
    assert(t@ =~= g.be() + pubkey.be() + r.be() + message@);
    digest_mod(&t, p)
}

/// The domain tag of the discrete-log challenge.
pub open spec fn sigma_dl_tag() -> Seq<u8> {
    "sigma-dl-v1\0".spec_bytes()
}

/// The domain tag of the transaction challenge.
pub open spec fn tx_tag() -> Seq<u8> {
    "tx-challenge-v1\0".spec_bytes()
}

/// The transcript of the domain-separated discrete-log challenge.
pub open spec fn sigma_dl_transcript(g: Seq<u8>, c: Seq<u8>, r: Seq<u8>, p: Seq<u8>) -> Seq<u8> {
    sigma_dl_tag() + fs_piece_bytes(1, g) + fs_piece_bytes(2, c) + fs_piece_bytes(3, r)
        + fs_piece_bytes(4, p)
}

/// The transcript of the domain-separated transaction challenge.
pub open spec fn tx_transcript(
    g: Seq<u8>,
    pubkey: Seq<u8>,
    r: Seq<u8>,
    p: Seq<u8>,
    message: Seq<u8>,
) -> Seq<u8> {
    tx_tag() + fs_piece_bytes(1, g) + fs_piece_bytes(2, pubkey) + fs_piece_bytes(3, r)
        + fs_piece_bytes(4, p) + fs_piece_bytes(5, message)
}

/// The domain-separated challenge for the discrete-log proof: the tagged,
/// length-prefixed transcript of `g, c, r, p`, hashed and reduced mod `p`.
pub fn challenge_sigma_dl(g: &BigNum, c: &BigNum, r: &BigNum, p: &BigNum) -> (e: BigNum)
    requires
        p@ > 0,
    ensures
        e@ == hash_to_mod(sha256_spec(sigma_dl_transcript(g.be(), c.be(), r.be(), p.be())), p@),
{
    let mut t: Vec<u8> = Vec::new();
    push_bytes(&mut t, "sigma-dl-v1\0".as_bytes());
    fs_piece(&mut t, 1, g.as_be_bytes());
    fs_piece(&mut t, 2, c.as_be_bytes());
    fs_piece(&mut t, 3, r.as_be_bytes());
    fs_piece(&mut t, 4, p.as_be_bytes());
    assert(t@ =~= sigma_dl_transcript(g.be(), c.be(), r.be(), p.be()));
    digest_mod(&t, p)
}

/// The domain-separated challenge for a transaction signature: the tagged,
/// length-prefixed transcript of `g, pubkey, r, p, message`, hashed and
/// reduced mod `p`.
pub fn challenge_tx(g: &BigNum, pubkey: &BigNum, r: &BigNum, p: &BigNum, message: &[u8]) -> (e:
    BigNum)
    requires
        p@ > 0,
    ensures
        e@ == hash_to_mod(
            sha256_spec(tx_transcript(g.be(), pubkey.be(), r.be(), p.be(), message@)),
            p@,
        ),
{
    let mut t: Vec<u8> = Vec::new();
    push_bytes(&mut t, "tx-challenge-v1\0".as_bytes());
    fs_piece(&mut t, 1, g.as_be_bytes());
    fs_piece(&mut t, 2, pubkey.as_be_bytes());
    fs_piece(&mut t, 3, r.as_be_bytes());
    fs_piece(&mut t, 4, p.as_be_bytes());
    fs_piece(&mut t, 5, message);
    assert(t@ =~= tx_transcript(g.be(), pubkey.be(), r.be(), p.be(), message@));
    digest_mod(&t, p)
}

} // verus!
