//! Randomness, drawn from `rand`'s thread-local generator through
//! `num_bigint`'s `RandBigInt`.

use crate::bignum::{is_canonical_be, nat_of_be, BigNum};
use num_bigint::{BigUint, RandBigInt};
use rand::rngs::ThreadRng;
use vstd::prelude::*;

verus! {

#[verifier::external_type_specification]
#[verifier::external_body]
pub struct ExThreadRng(ThreadRng);

/// `rand::thread_rng`. Nothing is claimed of the generator it hands back.
#[verifier::external_body]
pub(crate) fn thread_rng() -> ThreadRng {
    rand::thread_rng()
}

/// `RandBigInt::gen_biguint_below`. Claims only that the result lies in
/// `[0, bound)` and is canonically encoded; num_bigint asserts that the bound
/// is not zero, which `requires` rules out.
#[verifier::external_body]
fn raw_random_below(rng: &mut ThreadRng, bound: &[u8]) -> (res: Vec<u8>)
    requires
        nat_of_be(bound@) > 0,
    ensures
        nat_of_be(res@) < nat_of_be(bound@),
        is_canonical_be(res@),
{
    rng.gen_biguint_below(&BigUint::from_bytes_be(bound)).to_bytes_be()
}

/// A number drawn uniformly from `[0, bound)`.
pub fn random_below(rng: &mut ThreadRng, bound: &BigNum) -> (res: BigNum)
    requires
        bound@ > 0,
    ensures
        res@ < bound@,
{
    BigNum::wrap(raw_random_below(rng, bound.as_be_bytes()))
}

} // verus!
