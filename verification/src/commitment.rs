//! Pedersen commitments `g^v * h^r mod p`.

use crate::bignum::BigNum;
use vstd::arithmetic::div_mod::*;
use vstd::arithmetic::mul::*;
use vstd::arithmetic::power::*;
use vstd::prelude::*;

verus! {

/// The Pedersen commitment to `v` with blinding `r`: `g^v * h^r mod p`.
pub open spec fn pedersen(v: nat, r: nat, g: nat, h: nat, p: nat) -> nat {
    ((pow(g as int, v) * pow(h as int, r)) % (p as int)) as nat
}

/// `(a mod p) * (b mod p) mod p == a * b mod p`.
pub proof fn lemma_mul_mod(a: int, b: int, p: int)
    requires
        p > 0,
    ensures
        ((a % p) * (b % p)) % p == (a * b) % p,
{
    lemma_mul_mod_noop(a, b, p);
}

/// Computes the Pedersen commitment `g^v * h^r mod p`.
pub fn commit(v: &BigNum, r: &BigNum, g: &BigNum, h: &BigNum, p: &BigNum) -> (res: BigNum)
    requires
        p@ > 0,
    ensures
        res@ == pedersen(v@, r@, g@, h@, p@),
{
    let gv = g.modpow(v, p);
    let hr = h.modpow(r, p);
    let res = gv.mul(&hr).rem(p);
    proof {
        lemma_pow_positive_or_zero(g@ as int, v@);
        lemma_pow_positive_or_zero(h@ as int, r@);
        lemma_mul_mod(pow(g@ as int, v@), pow(h@ as int, r@), p@ as int);
    }
    res
}

/// Powers of a natural number are natural numbers.
pub proof fn lemma_pow_positive_or_zero(b: int, e: nat)
    requires
        b >= 0,
    ensures
        pow(b, e) >= 0,
    decreases e,
{
    if b > 0 {
        lemma_pow_positive(b, e);
    } else {
        if e == 0 {
            lemma_pow0(b);
        } else {
            lemma_pow_positive_or_zero(b, (e - 1) as nat);
            reveal(pow);
        }
    }
}

/// Commitments are additively homomorphic: the product of the commitments
/// to `v1` (blinded by `r1`) and `v2` (blinded by `r2`) is the commitment to
/// `v1 + v2` blinded by `r1 + r2`.
pub proof fn lemma_commit_homomorphic(v1: nat, r1: nat, v2: nat, r2: nat, g: nat, h: nat, p: nat)
    requires
        p > 0,
    ensures
        (pedersen(v1, r1, g, h, p) * pedersen(v2, r2, g, h, p)) % p == pedersen(
            v1 + v2,
            r1 + r2,
            g,
            h,
            p,
        ),
{
    let a = pow(g as int, v1) * pow(h as int, r1);
    let b = pow(g as int, v2) * pow(h as int, r2);
    lemma_pow_positive_or_zero(g as int, v1);
    lemma_pow_positive_or_zero(g as int, v2);
    lemma_pow_positive_or_zero(h as int, r1);
    lemma_pow_positive_or_zero(h as int, r2);
    lemma_mul_nonnegative(pow(g as int, v1), pow(h as int, r1));
    lemma_mul_nonnegative(pow(g as int, v2), pow(h as int, r2));
    lemma_mul_mod(a, b, p as int);
    lemma_pow_adds(g as int, v1, v2);
    lemma_pow_adds(h as int, r1, r2);
    let x1 = pow(g as int, v1);
    let x2 = pow(g as int, v2);
    let y1 = pow(h as int, r1);
    let y2 = pow(h as int, r2);
    assert((x1 * y1) * (x2 * y2) == (x1 * x2) * (y1 * y2)) by (nonlinear_arith);
}

} // verus!
