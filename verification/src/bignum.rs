//! Arbitrary-precision natural numbers, held as their canonical big-endian
//! byte encoding.  All arithmetic is carried out by `num_bigint`; the library
//! only moves canonical byte strings in and out of it.

use num_bigint::BigUint;
use vstd::arithmetic::power::pow;
use vstd::prelude::*;

verus! {

/// The natural number denoted by a big-endian byte string.
pub open spec fn nat_of_be(s: Seq<u8>) -> nat
    decreases s.len(),
{
    if s.len() == 0 {
        0
    } else {
        nat_of_be(s.drop_last()) * 256 + s.last() as nat
    }
}

/// The values of a sequence of numbers.
pub open spec fn values(s: Seq<BigNum>) -> Seq<nat> {
    s.map_values(|x: BigNum| x@)
}

/// A canonical big-endian encoding: at least one byte, and no leading zero
/// byte unless the number is zero (which is encoded as the single byte 0).
pub open spec fn is_canonical_be(s: Seq<u8>) -> bool {
    s.len() >= 1 && (s.len() == 1 || s[0] != 0)
}

/// The canonical big-endian encoding of `n` (what `BigUint::to_bytes_be` gives).
pub open spec fn be_of(n: nat) -> Seq<u8>
    decreases n,
{
    if n < 256 {
        seq![n as u8]
    } else {
        be_of(n / 256).push((n % 256) as u8)
    }
}

/// A byte string that starts with a non-zero byte denotes a positive number.
proof fn lemma_leading_nonzero_positive(s: Seq<u8>)
    requires
        s.len() >= 1,
        s[0] != 0,
    ensures
        nat_of_be(s) >= 1,
    decreases s.len(),
{
    if s.len() > 1 {
        lemma_leading_nonzero_positive(s.drop_last());
    }
}

/// A canonical encoding is the encoding of the number it denotes.
pub proof fn lemma_canonical_is_be_of(s: Seq<u8>)
    requires
        is_canonical_be(s),
    ensures
        s == be_of(nat_of_be(s)),
    decreases s.len(),
{
    if s.len() == 1 {
        assert(s.drop_last() =~= Seq::<u8>::empty());
        assert(nat_of_be(s.drop_last()) == 0);
        assert(s.last() == s[0]);
        assert(nat_of_be(s) == s[0] as nat);
        assert(be_of(s[0] as nat) == seq![s[0]]);
        assert(seq![s[0]] =~= s);
    } else {
        let d = s.drop_last();
        assert(d[0] == s[0]);
        lemma_leading_nonzero_positive(d);
        lemma_canonical_is_be_of(d);
        let n = nat_of_be(s);
        let q = nat_of_be(d);
        let l = s.last() as nat;
        assert(n == q * 256 + l);
        assert(n >= 256);
        assert(n / 256 == q) by (nonlinear_arith)
            requires
                n == q * 256 + l,
                l < 256,
        ;
        assert(n % 256 == l) by (nonlinear_arith)
            requires
                n == q * 256 + l,
                l < 256,
        ;
        assert(be_of(n) == be_of(q).push(l as u8));
        assert(d.push(s.last()) =~= s);
    }
}

/// The encoding of `n` reads back as `n`.
pub proof fn lemma_be_of_reads_back(n: nat)
    ensures
        nat_of_be(be_of(n)) == n,
        be_of(n).len() >= 1,
    decreases n,
{
    if n < 256 {
        assert(be_of(n).drop_last() =~= Seq::<u8>::empty());
        assert(be_of(n).last() == n as u8);
        assert((n as u8) as nat == n);
        assert(nat_of_be(Seq::<u8>::empty()) == 0);
        assert(nat_of_be(be_of(n)) == nat_of_be(be_of(n).drop_last()) * 256 + be_of(n).last() as nat);
    } else {
        lemma_be_of_reads_back(n / 256);
        assert(be_of(n).drop_last() =~= be_of(n / 256));
        assert(be_of(n).last() == (n % 256) as u8);
        assert(((n % 256) as u8) as nat == n % 256);
        assert(n == (n / 256) * 256 + n % 256) by (nonlinear_arith);
        assert(nat_of_be(be_of(n)) == nat_of_be(be_of(n).drop_last()) * 256 + be_of(n).last() as nat);
    }
}

// ---------------------------------------------------------------------------
// Calls into num_bigint, on big-endian byte strings.
// ---------------------------------------------------------------------------

/// `BigUint::modpow` (through `from_bytes_be` / `to_bytes_be`).
/// Claims: the result is `base^exp mod modulus`, canonically encoded;
/// num_bigint panics on a zero modulus, which `requires` rules out.
#[verifier::external_body]
fn raw_modpow(base: &[u8], exp: &[u8], modulus: &[u8]) -> (res: Vec<u8>)
    requires
        nat_of_be(modulus@) > 0,
    ensures
        nat_of_be(res@) as int == pow(nat_of_be(base@) as int, nat_of_be(exp@)) % (nat_of_be(
            modulus@,
        ) as int),
        is_canonical_be(res@),
{
    let b = BigUint::from_bytes_be(base);
    b.modpow(&BigUint::from_bytes_be(exp), &BigUint::from_bytes_be(modulus)).to_bytes_be()
}

/// `&BigUint * &BigUint`. Claims: the exact product, canonically encoded.
#[verifier::external_body]
fn raw_mul(a: &[u8], b: &[u8]) -> (res: Vec<u8>)
    ensures
        nat_of_be(res@) == nat_of_be(a@) * nat_of_be(b@),
        is_canonical_be(res@),
{
    (BigUint::from_bytes_be(a) * BigUint::from_bytes_be(b)).to_bytes_be()
}

/// `&BigUint + &BigUint`. Claims: the exact sum, canonically encoded.
#[verifier::external_body]
fn raw_add(a: &[u8], b: &[u8]) -> (res: Vec<u8>)
    ensures
        nat_of_be(res@) == nat_of_be(a@) + nat_of_be(b@),
        is_canonical_be(res@),
{
    (BigUint::from_bytes_be(a) + BigUint::from_bytes_be(b)).to_bytes_be()
}

/// `&BigUint - &BigUint`. Claims: the exact difference, canonically encoded;
/// num_bigint panics when `b > a`, which `requires` rules out.
#[verifier::external_body]
fn raw_sub(a: &[u8], b: &[u8]) -> (res: Vec<u8>)
    requires
        nat_of_be(a@) >= nat_of_be(b@),
    ensures
        nat_of_be(res@) == nat_of_be(a@) - nat_of_be(b@),
        is_canonical_be(res@),
{
    (BigUint::from_bytes_be(a) - BigUint::from_bytes_be(b)).to_bytes_be()
}

/// `&BigUint % &BigUint`. Claims: the remainder, canonically encoded;
/// num_bigint panics on a zero divisor, which `requires` rules out.
#[verifier::external_body]
fn raw_rem(a: &[u8], m: &[u8]) -> (res: Vec<u8>)
    requires
        nat_of_be(m@) > 0,
    ensures
        nat_of_be(res@) == nat_of_be(a@) % nat_of_be(m@),
        is_canonical_be(res@),
{
    (BigUint::from_bytes_be(a) % BigUint::from_bytes_be(m)).to_bytes_be()
}

/// `BigUint == BigUint`. Claims: true exactly when the two numbers are equal.
#[verifier::external_body]
fn raw_eq(a: &[u8], b: &[u8]) -> (res: bool)
    ensures
        res == (nat_of_be(a@) == nat_of_be(b@)),
{
    BigUint::from_bytes_be(a) == BigUint::from_bytes_be(b)
}

/// `BigUint >= BigUint`. Claims: true exactly when `a` is at least `b`.
#[verifier::external_body]
fn raw_ge(a: &[u8], b: &[u8]) -> (res: bool)
    ensures
        res == (nat_of_be(a@) >= nat_of_be(b@)),
{
    BigUint::from_bytes_be(a) >= BigUint::from_bytes_be(b)
}

/// `BigUint::from(u64)`. Claims: the same number, canonically encoded.
#[verifier::external_body]
fn raw_from_u64(x: u64) -> (res: Vec<u8>)
    ensures
        nat_of_be(res@) == x as nat,
        is_canonical_be(res@),
{
    BigUint::from(x).to_bytes_be()
}

/// `BigUint::from_bytes_be`, read back with `to_bytes_be`.
/// Claims: the same number, canonically encoded.
#[verifier::external_body]
fn raw_from_be(bytes: &[u8]) -> (res: Vec<u8>)
    ensures
        nat_of_be(res@) == nat_of_be(bytes@),
        is_canonical_be(res@),
{
    BigUint::from_bytes_be(bytes).to_bytes_be()
}

/// `BigUint::bit`. Claims: whether bit `i` (counting from the least
/// significant bit) of the number is set.
#[verifier::external_body]
fn raw_bit(a: &[u8], i: u64) -> (res: bool)
    ensures
        res == ((nat_of_be(a@) / pow(2, i as nat) as nat) % 2 == 1),
{
    BigUint::from_bytes_be(a).bit(i)
}

// ---------------------------------------------------------------------------
// The library's number type.
// ---------------------------------------------------------------------------

/// A natural number of any size.
#[derive(Debug)]
pub struct BigNum {
    bytes: Vec<u8>,
}

impl View for BigNum {
    type V = nat;

    closed spec fn view(&self) -> nat {
        nat_of_be(self.bytes@)
    }
}

impl BigNum {
    /// The canonical big-endian encoding of the number (what
    /// `BigUint::to_bytes_be` gives).
    pub open spec fn be(&self) -> Seq<u8> {
        be_of(self@)
    }

    #[verifier::type_invariant]
    spec fn canonical(&self) -> bool {
        is_canonical_be(self.bytes@)
    }

    pub(crate) fn wrap(bytes: Vec<u8>) -> (res: BigNum)
        requires
            is_canonical_be(bytes@),
        ensures
            res@ == nat_of_be(bytes@),
    {
        BigNum { bytes }
    }

    /// The number `x`.
    pub fn from_u64(x: u64) -> (res: BigNum)
        ensures
            res@ == x as nat,
    {
        BigNum::wrap(raw_from_u64(x))
    }

    /// The number whose big-endian encoding is `bytes` (leading zeros allowed).
    pub fn from_be_bytes(bytes: &[u8]) -> (res: BigNum)
        ensures
            res@ == nat_of_be(bytes@),
    {
        BigNum::wrap(raw_from_be(bytes))
    }

    /// The canonical big-endian encoding.
    pub fn to_be_bytes(&self) -> (res: Vec<u8>)
        ensures
            res@ == self.be(),
    {
        proof {
            use_type_invariant(self);
            lemma_canonical_is_be_of(self.bytes@);
        }
        let res = self.bytes.clone();
        assert(res@ =~= self.bytes@);
        res
    }

    /// A view of the canonical big-endian encoding.
    pub fn as_be_bytes(&self) -> (res: &[u8])
        ensures
            res@ == self.be(),
            nat_of_be(res@) == self@,
    {
        proof {
            use_type_invariant(self);
            lemma_canonical_is_be_of(self.bytes@);
        }
        self.bytes.as_slice()
    }

    /// A copy of the number.
    pub fn copy(&self) -> (res: BigNum)
        ensures
            res.be() == self.be(),
            res@ == self@,
    {
        proof {
            use_type_invariant(self);
        }
        let bytes = self.bytes.clone();
        assert(bytes@ =~= self.bytes@);
        BigNum { bytes }
    }

    /// `self^exp mod modulus`.
    pub fn modpow(&self, exp: &BigNum, modulus: &BigNum) -> (res: BigNum)
        requires
            modulus@ > 0,
        ensures
            res@ as int == pow(self@ as int, exp@) % (modulus@ as int),
    {
        BigNum::wrap(raw_modpow(self.as_be_bytes(), exp.as_be_bytes(), modulus.as_be_bytes()))
    }

    /// `self * other`.
    pub fn mul(&self, other: &BigNum) -> (res: BigNum)
        ensures
            res@ == self@ * other@,
    {
        BigNum::wrap(raw_mul(self.as_be_bytes(), other.as_be_bytes()))
    }

    /// `self + other`.
    pub fn add(&self, other: &BigNum) -> (res: BigNum)
        ensures
            res@ == self@ + other@,
    {
        BigNum::wrap(raw_add(self.as_be_bytes(), other.as_be_bytes()))
    }

    /// `self - other`, for `other <= self`.
    pub fn sub(&self, other: &BigNum) -> (res: BigNum)
        requires
            self@ >= other@,
        ensures
            res@ == self@ - other@,
    {
        BigNum::wrap(raw_sub(self.as_be_bytes(), other.as_be_bytes()))
    }

    /// `self mod modulus`.
    pub fn rem(&self, modulus: &BigNum) -> (res: BigNum)
        requires
            modulus@ > 0,
        ensures
            res@ == self@ % modulus@,
    {
        BigNum::wrap(raw_rem(self.as_be_bytes(), modulus.as_be_bytes()))
    }

    /// Whether the two numbers are equal.
    pub fn equals(&self, other: &BigNum) -> (res: bool)
        ensures
            res == (self@ == other@),
    {
        raw_eq(self.as_be_bytes(), other.as_be_bytes())
    }

    /// Whether `self >= other`.
    pub fn is_at_least(&self, other: &BigNum) -> (res: bool)
        ensures
            res == (self@ >= other@),
    {
        raw_ge(self.as_be_bytes(), other.as_be_bytes())
    }

    /// Whether bit `i` of the number is set.
    pub fn bit(&self, i: u64) -> (res: bool)
        ensures
            res == ((self@ / pow(2, i as nat) as nat) % 2 == 1),
    {
        raw_bit(self.as_be_bytes(), i)
    }
}

impl Clone for BigNum {
    fn clone(&self) -> (res: Self)
        ensures
            res.be() == self.be(),
            res@ == self@,
    {
        self.copy()
    }
}

impl PartialEq for BigNum {
    fn eq(&self, other: &Self) -> (res: bool) {
        self.equals(other)
    }
}

impl vstd::std_specs::cmp::PartialEqSpecImpl for BigNum {
    open spec fn obeys_eq_spec() -> bool {
        true
    }

    open spec fn eq_spec(&self, other: &Self) -> bool {
        self@ == other@
    }
}

impl Eq for BigNum {

}

} // verus!
