//! SHA-256, computed by the `sha2` crate.

use sha2::{Digest, Sha256};
use vstd::prelude::*;

verus! {

/// The SHA-256 digest of a byte string.
pub uninterp spec fn sha256_spec(msg: Seq<u8>) -> Seq<u8>;

/// `<Sha256 as Digest>::digest`. Claims: the result is the digest of `msg`
/// (a function of `msg` alone) and is 32 bytes long.  Feeding several pieces
/// to one hasher gives the digest of their concatenation, so callers hash
/// the concatenated transcript once.
#[verifier::external_body]
pub(crate) fn sha256(msg: &[u8]) -> (out: Vec<u8>)
    ensures
        out@ == sha256_spec(msg@),
        out@.len() == 32,
{
    Sha256::digest(msg).to_vec()
}

} // verus!
