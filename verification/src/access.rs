//! Access control for account registration.

use vstd::prelude::*;
use vstd::string::StringSliceAdditionalSpecFns;

verus! {

/// Whether a request carrying API key `provided` may register accounts when
/// the service expects `expected`: always when no key is configured (an
/// empty `expected`), otherwise only when the keys are equal.
pub fn api_key_allows(expected: &str, provided: &str) -> (allowed: bool)
    ensures
        allowed == (expected@.len() == 0 || provided.spec_bytes() == expected.spec_bytes()),
{
    if expected.is_empty() {
        return true;
    }
    let a = provided.as_bytes();
    let b = expected.as_bytes();
    if a.len() != b.len() {
        return false;
    }
    let n = a.len();
    let mut i: usize = 0;
    while i < n
        invariant
            n == a@.len(),
            n == b@.len(),
            i <= n,
            a@ == provided.spec_bytes(),
            b@ == expected.spec_bytes(),
            forall|j: int| 0 <= j < i ==> a@[j] == b@[j],
        decreases n - i,
    {
        if a[i] != b[i] {
            return false;
        }
        i = i + 1;
    }
    assert(a@ =~= b@);
    true
}

} // verus!
