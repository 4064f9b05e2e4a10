//! Range proofs by bit decomposition: bits of a number, Pedersen bit
//! commitments, and the Schnorr OR-proof that a committed value is a bit.

use crate::bignum::{be_of, values, BigNum};
use crate::commitment::{commit, lemma_mul_mod, lemma_pow_positive_or_zero, pedersen};
use crate::digest::{sha256, sha256_spec};
use crate::prime_field::{is_prime, lemma_fermat_inverse, lemma_nonzero_pow, lemma_nonzero_product};
use crate::random::{random_below, thread_rng};
use crate::sigma::hash_to_mod;
use crate::transcript::{fs_piece, fs_piece_bytes, push_bytes};
use vstd::arithmetic::div_mod::*;
use vstd::arithmetic::mul::*;
use vstd::arithmetic::power::*;
use vstd::prelude::*;
use vstd::string::StringSliceAdditionalSpecFns;

verus! {

/// Bit `i` of `n` (0 or 1), counting from the least significant bit.
pub open spec fn bit_of(n: nat, i: nat) -> nat {
    (n / pow(2, i) as nat) % 2
}

/// The bits `0 .. num_bits` of `n`, least significant first.
pub fn to_bits(n: &BigNum, num_bits: usize) -> (bits: Vec<BigNum>)
    ensures
        bits@.len() == num_bits,
        forall|i: int| 0 <= i < num_bits ==> #[trigger] bits@[i]@ == bit_of(n@, i as nat),
{
    let mut bits: Vec<BigNum> = Vec::new();
    let mut i: usize = 0;
    while i < num_bits
        invariant
            i <= num_bits,
            bits@.len() == i,
            forall|j: int| 0 <= j < i ==> #[trigger] bits@[j]@ == bit_of(n@, j as nat),
        decreases num_bits - i,
    {
        let b = if n.bit(i as u64) {
            BigNum::from_u64(1)
        } else {
            BigNum::from_u64(0)
        };
        bits.push(b);
        i = i + 1;
    }
    bits
}

/// The inverse of `a` modulo a prime `p`, by Fermat: `a^(p-2) mod p`.
pub open spec fn inv_mod(a: nat, p: nat) -> nat {
    (pow(a as int, (p - 2) as nat) % (p as int)) as nat
}

fn mod_inv(a: &BigNum, p: &BigNum) -> (res: BigNum)
    requires
        p@ >= 2,
    ensures
        res@ == inv_mod(a@, p@),
{
    a.modpow(&p.sub(&BigNum::from_u64(2)), p)
}

/// `total - sub` modulo `order`, in `[0, order)`.
pub open spec fn sub_mod_spec(total: nat, sub: nat, order: nat) -> nat {
    (((total % order) as int - (sub % order) as int) % (order as int)) as nat
}

/// The challenge split of the OR-proof: what is left for one branch, added
/// to the other branch's challenge, gives back the whole challenge modulo
/// the group order, and it lies in `[0, order)`.
pub proof fn lemma_sub_mod_splits(total: nat, sub: nat, order: nat)
    requires
        order > 0,
    ensures
        sub_mod_spec(total, sub, order) < order,
        (sub_mod_spec(total, sub, order) + sub % order) % order == total % order,
{
    let o = order as int;
    let a = (total % order) as int;
    let b = (sub % order) as int;
    let d = a - b;
    if d >= 0 {
        vstd::arithmetic::div_mod::lemma_small_mod(d as nat, order);
        vstd::arithmetic::div_mod::lemma_small_mod(a as nat, order);
    } else {
        vstd::arithmetic::div_mod::lemma_mod_add_multiples_vanish(d, o);
        vstd::arithmetic::div_mod::lemma_small_mod((o + d) as nat, order);
        vstd::arithmetic::div_mod::lemma_mod_add_multiples_vanish(a, o);
        vstd::arithmetic::div_mod::lemma_small_mod(a as nat, order);
        assert(d + o + b == a + o);
    }
}

fn sub_mod(total: &BigNum, sub: &BigNum, order: &BigNum) -> (res: BigNum)
    requires
        order@ > 0,
    ensures
        res@ == sub_mod_spec(total@, sub@, order@),
{
    let sub = sub.rem(order);
    let total = total.rem(order);
    let ghost d = total@ as int - sub@ as int;
    let ghost o = order@ as int;
    if total.is_at_least(&sub) {
        proof {
            vstd::arithmetic::div_mod::lemma_small_mod(d as nat, o as nat);
        }
        total.sub(&sub)
    } else {
        proof {
            vstd::arithmetic::div_mod::lemma_mod_add_multiples_vanish(d, o);
            vstd::arithmetic::div_mod::lemma_small_mod((o + d) as nat, o as nat);
        }
        order.sub(&sub.sub(&total))
    }
}

/// The domain tag of the bit-OR challenge.
pub open spec fn bit_or_tag() -> Seq<u8> {
    "pederson-bit-or-v1\0".spec_bytes()
}

/// The transcript of the bit-OR challenge.
pub open spec fn bit_or_transcript(
    g: nat,
    h: nat,
    p: nat,
    y0: nat,
    y1: nat,
    a0: nat,
    a1: nat,
) -> Seq<u8> {
    bit_or_tag() + fs_piece_bytes(1, be_of(g)) + fs_piece_bytes(2, be_of(h)) + fs_piece_bytes(
        3,
        be_of(p),
    ) + fs_piece_bytes(4, be_of(y0)) + fs_piece_bytes(5, be_of(y1)) + fs_piece_bytes(6, be_of(a0))
        + fs_piece_bytes(7, be_of(a1))
}

/// The Fiat-Shamir challenge of the bit-OR proof, modulo the group order.
pub open spec fn bit_or_challenge(
    g: nat,
    h: nat,
    p: nat,
    order: nat,
    y0: nat,
    y1: nat,
    a0: nat,
    a1: nat,
) -> nat {
    hash_to_mod(sha256_spec(bit_or_transcript(g, h, p, y0, y1, a0, a1)), order)
}

/// What the bit-OR challenge hashes.
struct BitOrFsCtx<'a> {
    g: &'a BigNum,
    h: &'a BigNum,
    p: &'a BigNum,
    order: &'a BigNum,
    y0: &'a BigNum,
    y1: &'a BigNum,
    a0: &'a BigNum,
    a1: &'a BigNum,
}

fn hash_challenge_bit_or(ctx: &BitOrFsCtx<'_>) -> (e: BigNum)
    requires
        ctx.order@ > 0,
    ensures
        e@ == bit_or_challenge(
            ctx.g@,
            ctx.h@,
            ctx.p@,
            ctx.order@,
            ctx.y0@,
            ctx.y1@,
            ctx.a0@,
            ctx.a1@,
        ),
{
    let mut t: Vec<u8> = Vec::new();
    push_bytes(&mut t, "pederson-bit-or-v1\0".as_bytes());
    fs_piece(&mut t, 1, ctx.g.as_be_bytes());
    fs_piece(&mut t, 2, ctx.h.as_be_bytes());
    fs_piece(&mut t, 3, ctx.p.as_be_bytes());
    fs_piece(&mut t, 4, ctx.y0.as_be_bytes());
    fs_piece(&mut t, 5, ctx.y1.as_be_bytes());
    fs_piece(&mut t, 6, ctx.a0.as_be_bytes());
    fs_piece(&mut t, 7, ctx.a1.as_be_bytes());
    assert(t@ =~= bit_or_transcript(
        ctx.g@,
        ctx.h@,
        ctx.p@,
        ctx.y0@,
        ctx.y1@,
        ctx.a0@,
        ctx.a1@,
    ));
    let h = sha256(t.as_slice());
    BigNum::from_be_bytes(h.as_slice()).rem(ctx.order)
}

/// A Schnorr OR-proof that a Pedersen commitment `C = g^b h^r` hides a bit:
/// one branch (`C = h^r`, bit 0, or `C / g = h^r`, bit 1) is proved for
/// real, the other is simulated with a chosen challenge `e_fake`.
#[derive(Debug)]
pub struct BitOrProof {
    pub a0: BigNum,
    pub a1: BigNum,
    pub s0: BigNum,
    pub s1: BigNum,
    pub e_fake: BigNum,
    pub fake_is_branch1: bool,
}

impl Clone for BitOrProof {
    fn clone(&self) -> (res: Self)
        ensures
            res.a0@ == self.a0@,
            res.a1@ == self.a1@,
            res.s0@ == self.s0@,
            res.s1@ == self.s1@,
            res.e_fake@ == self.e_fake@,
            res.fake_is_branch1 == self.fake_is_branch1,
    {
        BitOrProof {
            a0: self.a0.copy(),
            a1: self.a1.copy(),
            s0: self.s0.copy(),
            s1: self.s1.copy(),
            e_fake: self.e_fake.copy(),
            fake_is_branch1: self.fake_is_branch1,
        }
    }
}

/// `x mod p` on naturals.
pub open spec fn md(x: int, p: nat) -> nat {
    (x % (p as int)) as nat
}

/// The branch-0 statement `Y0 = C mod p`.
pub open spec fn branch0_target(c: nat, p: nat) -> nat {
    c % p
}

/// The branch-1 statement `Y1 = C * g^-1 mod p`.
pub open spec fn branch1_target(c: nat, g: nat, p: nat) -> nat {
    (branch0_target(c, p) * inv_mod(g, p)) % p
}

/// One branch's verification equation `h^s == a * y^e (mod p)`, with both
/// sides reduced as the verifier computes them.
pub open spec fn branch_holds(a: nat, s: nat, y: nat, e: nat, h: nat, p: nat) -> bool {
    md(pow(h as int, s), p) == md((a * md(pow(y as int, e), p)) as int, p)
}

/// A simulated commitment `h^s * (y^e)^-1 mod p`.
pub open spec fn fake_commit(s: nat, y: nat, e: nat, h: nat, p: nat) -> nat {
    md((md(pow(h as int, s), p) * inv_mod(md(pow(y as int, e), p), p)) as int, p)
}

impl BitOrProof {
    /// The proof that the prover builds for bit `b`, blinding `r` and
    /// commitment `c`, from the real nonce `t` and the simulated branch's
    /// challenge `e` and response `s`.
    pub open spec fn built_from(
        &self,
        b: nat,
        r: nat,
        c: nat,
        g: nat,
        h: nat,
        p: nat,
        t: nat,
        e: nat,
        s: nat,
    ) -> bool {
        let order = (p - 1) as nat;
        let y0 = branch0_target(c, p);
        let y1 = branch1_target(c, g, p);
        let e_total = bit_or_challenge(g, h, p, order, y0, y1, self.a0@, self.a1@);
        if b == 0 {
            &&& self.a0@ == md(pow(h as int, t), p)
            &&& self.a1@ == fake_commit(s, y1, e, h, p)
            &&& self.s0@ == t + sub_mod_spec(e_total, e, order) * r
            &&& self.s1@ == s
            &&& self.e_fake@ == e
            &&& self.fake_is_branch1
        } else {
            &&& self.a0@ == fake_commit(s, y0, e, h, p)
            &&& self.a1@ == md(pow(h as int, t), p)
            &&& self.s0@ == s
            &&& self.s1@ == t + sub_mod_spec(e_total, e, order) * r
            &&& self.e_fake@ == e
            &&& !self.fake_is_branch1
        }
    }

    /// The proof was built for bit `b`, blinding `r` and commitment `c` from
    /// some real nonce and simulated challenge and response below the group
    /// order `p - 1`.
    pub open spec fn built_randomly(&self, b: nat, r: nat, c: nat, g: nat, h: nat, p: nat) -> bool {
        exists|t: nat, e: nat, s: nat|
            t < p - 1 && e < p - 1 && s < p - 1 && #[trigger] self.built_from(
                b,
                r,
                c,
                g,
                h,
                p,
                t,
                e,
                s,
            )
    }

    /// The verifier's check of the proof against commitment `c`: both
    /// branch equations hold, with challenges that sum to the hashed one.
    pub open spec fn accepts(&self, c: nat, g: nat, h: nat, p: nat) -> bool {
        let order = (p - 1) as nat;
        let y0 = branch0_target(c, p);
        let y1 = branch1_target(c, g, p);
        let e_total = bit_or_challenge(g, h, p, order, y0, y1, self.a0@, self.a1@);
        let e_given = self.e_fake@ % order;
        let e_other = sub_mod_spec(e_total, e_given, order);
        let e0 = if self.fake_is_branch1 {
            e_other
        } else {
            e_given
        };
        let e1 = if self.fake_is_branch1 {
            e_given
        } else {
            e_other
        };
        &&& branch_holds(self.a0@, self.s0@, y0, e0, h, p)
        &&& branch_holds(self.a1@, self.s1@, y1, e1, h, p)
    }
}

/// Builds the bit-OR proof from given randomness: `t` is the real branch's
/// nonce, `e_fake` and `s_fake` the simulated branch's challenge and
/// response.
pub fn prove_bit_or_with(
    b: &BigNum,
    r: &BigNum,
    c_bit: &BigNum,
    g: &BigNum,
    h: &BigNum,
    p: &BigNum,
    t: &BigNum,
    e_fake: &BigNum,
    s_fake: &BigNum,
) -> (proof: BitOrProof)
    requires
        b@ == 0 || b@ == 1,
        p@ >= 2,
    ensures
        proof.built_from(b@, r@, c_bit@, g@, h@, p@, t@, e_fake@, s_fake@),
{
    reveal(BitOrProof::built_from);
    let order = p.sub(&BigNum::from_u64(1));
    let g_inv = mod_inv(g, p);
    let y0 = c_bit.rem(p);
    let y1 = y0.mul(&g_inv).rem(p);
    if b.equals(&BigNum::from_u64(0)) {
        let a0 = h.modpow(t, p);
        let a1 = h.modpow(s_fake, p).mul(&mod_inv(&y1.modpow(e_fake, p), p)).rem(p);
        let e_total = hash_challenge_bit_or(
            &BitOrFsCtx { g, h, p, order: &order, y0: &y0, y1: &y1, a0: &a0, a1: &a1 },
        );
        let e0 = sub_mod(&e_total, e_fake, &order);
        let s0 = t.add(&e0.mul(r));
        BitOrProof { a0, a1, s0, s1: s_fake.copy(), e_fake: e_fake.copy(), fake_is_branch1: true }
    } else {
        let a1 = h.modpow(t, p);
        let a0 = h.modpow(s_fake, p).mul(&mod_inv(&y0.modpow(e_fake, p), p)).rem(p);
        let e_total = hash_challenge_bit_or(
            &BitOrFsCtx { g, h, p, order: &order, y0: &y0, y1: &y1, a0: &a0, a1: &a1 },
        );
        let e1 = sub_mod(&e_total, e_fake, &order);
        let s1 = t.add(&e1.mul(r));
        BitOrProof { a0, a1, s0: s_fake.copy(), s1, e_fake: e_fake.copy(), fake_is_branch1: false }
    }
}

/// Proves that the commitment `c_bit = g^b h^r` hides a bit `b` in {0, 1},
/// drawing the real nonce and the simulated branch's challenge and response
/// uniformly below the group order `p - 1`.
pub fn prove_bit_or(
    b: &BigNum,
    r: &BigNum,
    c_bit: &BigNum,
    g: &BigNum,
    h: &BigNum,
    p: &BigNum,
) -> (proof: BitOrProof)
    requires
        b@ == 0 || b@ == 1,
        p@ >= 2,
    ensures
        proof.built_randomly(b@, r@, c_bit@, g@, h@, p@),
{
    let order = p.sub(&BigNum::from_u64(1));
    let mut rng = thread_rng();
    let t = random_below(&mut rng, &order);
    let e_fake = random_below(&mut rng, &order);
    let s_fake = random_below(&mut rng, &order);
    prove_bit_or_with(b, r, c_bit, g, h, p, &t, &e_fake, &s_fake)
}

/// Verifies a bit-OR proof against the commitment `c_bit`.
pub fn verify_bit_or(proof: &BitOrProof, c_bit: &BigNum, g: &BigNum, h: &BigNum, p: &BigNum) -> (ok:
    bool)
    requires
        p@ >= 2,
    ensures
        ok == proof.accepts(c_bit@, g@, h@, p@),
{
    reveal(BitOrProof::accepts);
    let order = p.sub(&BigNum::from_u64(1));
    let g_inv = mod_inv(g, p);
    let y0 = c_bit.rem(p);
    let y1 = y0.mul(&g_inv).rem(p);
    let e_total = hash_challenge_bit_or(
        &BitOrFsCtx {
            g,
            h,
            p,
            order: &order,
            y0: &y0,
            y1: &y1,
            a0: &proof.a0,
            a1: &proof.a1,
        },
    );
    let (e0, e1) = if proof.fake_is_branch1 {
        let e1 = proof.e_fake.rem(&order);
        let e0 = sub_mod(&e_total, &e1, &order);
        (e0, e1)
    } else {
        let e0 = proof.e_fake.rem(&order);
        let e1 = sub_mod(&e_total, &e0, &order);
        (e0, e1)
    };
    let lhs0 = h.modpow(&proof.s0, p);
    let rhs0 = proof.a0.mul(&y0.modpow(&e0, p)).rem(p);
    let lhs1 = h.modpow(&proof.s1, p);
    let rhs1 = proof.a1.mul(&y1.modpow(&e1, p)).rem(p);
    lhs0.equals(&rhs0) && lhs1.equals(&rhs1)
}

/// The real branch's equation holds: with `y = h^r mod p`, the commitment
/// `h^t mod p` and the response `t + e * r` satisfy
/// `h^(t + e*r) == (h^t mod p) * (y^e mod p) (mod p)`.
proof fn lemma_real_branch(h: nat, r: nat, t: nat, e: nat, p: nat)
    requires
        p > 1,
    ensures
        branch_holds(md(pow(h as int, t), p), t + e * r, md(pow(h as int, r), p), e, h, p),
{
    let pi = p as int;
    lemma_pow_positive_or_zero(h as int, r);
    lemma_pow_positive_or_zero(h as int, t);
    lemma_pow_positive_or_zero(h as int, r * e);
    let hr = pow(h as int, r);
    lemma_mod_pos_bound(hr, pi);
    lemma_pow_mod_noop(hr, e, pi);
    lemma_pow_multiplies(h as int, r, e);
    assert(r * e == e * r) by (nonlinear_arith);
    lemma_pow_adds(h as int, t, e * r);
    lemma_pow_positive_or_zero(hr % pi, e);
    lemma_mod_pos_bound(pow(hr % pi, e), pi);
    lemma_mod_pos_bound(pow(h as int, t), pi);
    lemma_mul_mod(pow(h as int, t), pow(h as int, e * r), pi);
}

/// The simulated branch's equation holds: when `y` is a non-zero residue
/// modulo a prime `p`, the simulated commitment `h^s * (y^e)^-1` and the
/// response `s` satisfy `h^s == commitment * (y^e mod p) (mod p)`.
proof fn lemma_fake_branch(h: nat, s: nat, y: nat, e: nat, p: nat)
    requires
        is_prime(p),
        y % p != 0,
    ensures
        branch_holds(fake_commit(s, y, e, h, p), s, y, e, h, p),
{
    let pi = p as int;
    lemma_nonzero_pow(p, y, e);
    let ye = pow(y as int, e);
    lemma_mod_pos_bound(ye, pi);
    let big_y = md(ye, p);
    lemma_mod_twice(ye, pi);
    assert(big_y % p != 0);
    lemma_fermat_inverse(big_y, p);
    let inv = inv_mod(big_y, p);
    lemma_pow_positive_or_zero(big_y as int, (p - 2) as nat);
    lemma_mod_pos_bound(pow(big_y as int, (p - 2) as nat), pi);
    assert((big_y * inv) % p == 1);
    lemma_pow_positive_or_zero(h as int, s);
    lemma_mod_pos_bound(pow(h as int, s), pi);
    let a = md(pow(h as int, s), p);
    let f = fake_commit(s, y, e, h, p);
    assert(f == md((a * inv) as int, p));
    // f * Y == a * inv * Y == a * (inv * Y) == a (mod p)
    lemma_mul_mod_noop_left((a * inv) as int, big_y as int, pi);
    assert((a * inv) * big_y == a * (inv * big_y)) by (nonlinear_arith);
    lemma_mul_mod_noop_right(a as int, (inv * big_y) as int, pi);
    assert(inv * big_y == big_y * inv) by (nonlinear_arith);
    lemma_small_mod(a, p);
}

/// Acceptance of a proof built for bit 0, given the facts about its
/// statements: `C = h^r mod p`, and `C * g^-1` is a non-zero residue.
proof fn lemma_accepts_bit0(
    proof: BitOrProof,
    r: nat,
    c: nat,
    g: nat,
    h: nat,
    p: nat,
    t: nat,
    e: nat,
    s: nat,
)
    requires
        is_prime(p),
        e < p - 1,
        branch0_target(c, p) == md(pow(h as int, r), p),
        branch1_target(c, g, p) % p != 0,
        proof.built_from(0, r, c, g, h, p, t, e, s),
    ensures
        proof.accepts(c, g, h, p),
{
    reveal(BitOrProof::built_from);
    reveal(BitOrProof::accepts);
    let order = (p - 1) as nat;
    lemma_small_mod(e, order);
    let y0 = branch0_target(c, p);
    let y1 = branch1_target(c, g, p);
    let et = bit_or_challenge(g, h, p, order, y0, y1, proof.a0@, proof.a1@);
    lemma_real_branch(h, r, t, sub_mod_spec(et, e, order), p);
    lemma_fake_branch(h, s, y1, e, p);
}

/// Acceptance of a proof built for bit 1, given the facts about its
/// statements: `C` is a non-zero residue and `C * g^-1 = h^r mod p`.
proof fn lemma_accepts_bit1(
    proof: BitOrProof,
    r: nat,
    c: nat,
    g: nat,
    h: nat,
    p: nat,
    t: nat,
    e: nat,
    s: nat,
)
    requires
        is_prime(p),
        e < p - 1,
        c < p,
        c % p != 0,
        branch1_target(c, g, p) == md(pow(h as int, r), p),
        proof.built_from(1, r, c, g, h, p, t, e, s),
    ensures
        proof.accepts(c, g, h, p),
{
    reveal(BitOrProof::built_from);
    reveal(BitOrProof::accepts);
    let order = (p - 1) as nat;
    lemma_small_mod(e, order);
    lemma_small_mod(c, p);
    let y0 = branch0_target(c, p);
    let y1 = branch1_target(c, g, p);
    let et = bit_or_challenge(g, h, p, order, y0, y1, proof.a0@, proof.a1@);
    lemma_fake_branch(h, s, y0, e, p);
    lemma_real_branch(h, r, t, sub_mod_spec(et, e, order), p);
}

/// Completeness for bit 0: the commitment is `h^r mod p`.
proof fn lemma_complete_bit0(
    proof: BitOrProof,
    r: nat,
    g: nat,
    h: nat,
    p: nat,
    t: nat,
    e: nat,
    s: nat,
)
    requires
        is_prime(p),
        g % p != 0,
        h % p != 0,
        e < p - 1,
        proof.built_from(0, r, pedersen(0, r, g, h, p), g, h, p, t, e, s),
    ensures
        proof.accepts(pedersen(0, r, g, h, p), g, h, p),
{
    let pi = p as int;
    let c = pedersen(0, r, g, h, p);
    lemma_pow_positive_or_zero(h as int, r);
    let hr = pow(h as int, r);
    lemma_pow0(g as int);
    assert(1 * hr == hr);
    let hrm = md(hr, p);
    assert(c == hrm);
    lemma_nonzero_pow(p, h, r);
    lemma_mod_pos_bound(hr, pi);
    lemma_small_mod(c, p);
    assert(branch0_target(c, p) == hrm);
    lemma_fermat_inverse(g, p);
    let ginv = inv_mod(g, p);
    lemma_pow_positive_or_zero(g as int, (p - 2) as nat);
    lemma_mod_pos_bound(pow(g as int, (p - 2) as nat), pi);
    lemma_mod_twice(hr, pi);
    lemma_nonzero_product(p, c, ginv);
    let y1 = branch1_target(c, g, p);
    lemma_mod_pos_bound((c * ginv) as int, pi);
    lemma_small_mod(y1, p);
    lemma_accepts_bit0(proof, r, c, g, h, p, t, e, s);
}

/// Completeness for bit 1: the commitment is `g * h^r mod p`.
proof fn lemma_complete_bit1(
    proof: BitOrProof,
    r: nat,
    g: nat,
    h: nat,
    p: nat,
    t: nat,
    e: nat,
    s: nat,
)
    requires
        is_prime(p),
        g % p != 0,
        h % p != 0,
        e < p - 1,
        proof.built_from(1, r, pedersen(1, r, g, h, p), g, h, p, t, e, s),
    ensures
        proof.accepts(pedersen(1, r, g, h, p), g, h, p),
{
    let pi = p as int;
    let c = pedersen(1, r, g, h, p);
    lemma_pow_positive_or_zero(h as int, r);
    let hr = pow(h as int, r);
    lemma_pow1(g as int);
    let hrm = md(hr, p);
    assert(c == md(g * hr, p));
    lemma_nonzero_pow(p, h, r);
    lemma_mod_pos_bound(hr, pi);
    lemma_mul_nonnegative(g as int, hr);
    lemma_mod_pos_bound(g * hr, pi);
    lemma_nonzero_product(p, g, hr as nat);
    lemma_mod_twice(g * hr, pi);
    lemma_fermat_inverse(g, p);
    let ginv = inv_mod(g, p);
    lemma_pow_positive_or_zero(g as int, (p - 2) as nat);
    lemma_mod_pos_bound(pow(g as int, (p - 2) as nat), pi);
    lemma_small_mod(c, p);
    // C * g^-1 == g * h^r * g^-1 == h^r (mod p)
    let y1 = branch1_target(c, g, p);
    assert(y1 == md((c * ginv) as int, p));
    lemma_mul_mod_noop_left(g * hr, ginv as int, pi);
    assert((g * hr) * ginv == hr * (g * ginv)) by (nonlinear_arith);
    lemma_mul_mod_noop_right(hr, (g * ginv) as int, pi);
    assert(y1 == hrm);
    lemma_accepts_bit1(proof, r, c, g, h, p, t, e, s);
}

/// Completeness of the bit-OR proof: over a prime `p`, with `g` and `h`
/// not divisible by `p`, the proof that the prover builds for a bit `b`
/// and its commitment `g^b h^r mod p`, with the simulated challenge below
/// the group order, is accepted by the verifier.
pub proof fn lemma_bit_or_complete(
    proof: BitOrProof,
    b: nat,
    r: nat,
    g: nat,
    h: nat,
    p: nat,
    t: nat,
    e: nat,
    s: nat,
)
    requires
        is_prime(p),
        g % p != 0,
        h % p != 0,
        b == 0 || b == 1,
        e < p - 1,
        proof.built_from(b, r, pedersen(b, r, g, h, p), g, h, p, t, e, s),
    ensures
        proof.accepts(pedersen(b, r, g, h, p), g, h, p),
{
    if b == 0 {
        lemma_complete_bit0(proof, r, g, h, p, t, e, s);
    } else {
        lemma_complete_bit1(proof, r, g, h, p, t, e, s);
    }
}

/// Completeness of `prove_bit_or`: whatever randomness it drew, the proof
/// it returns for a bit and that bit's commitment verifies, over a prime
/// `p` with `g` and `h` not divisible by `p`.
pub proof fn lemma_prove_bit_or_accepted(proof: BitOrProof, b: nat, r: nat, g: nat, h: nat, p: nat)
    requires
        is_prime(p),
        g % p != 0,
        h % p != 0,
        b == 0 || b == 1,
        proof.built_randomly(b, r, pedersen(b, r, g, h, p), g, h, p),
    ensures
        proof.accepts(pedersen(b, r, g, h, p), g, h, p),
{
    let c = pedersen(b, r, g, h, p);
    let (t, e, s) = choose|t: nat, e: nat, s: nat|
        t < p - 1 && e < p - 1 && s < p - 1 && #[trigger] proof.built_from(b, r, c, g, h, p, t, e, s);
    lemma_bit_or_complete(proof, b, r, g, h, p, t, e, s);
}

/// `sum of s[i] * 2^i`: the number whose bits (least significant first)
/// are `s`, when every entry is 0 or 1.
pub open spec fn weighted_sum(s: Seq<nat>) -> nat
    decreases s.len(),
{
    if s.len() == 0 {
        0
    } else {
        weighted_sum(s.drop_last()) + s.last() * (pow(2, (s.len() - 1) as nat) as nat)
    }
}

/// The first `k` bits of `n`.
pub open spec fn bits_of(n: nat, k: nat) -> Seq<nat> {
    Seq::new(k, |i: int| bit_of(n, i as nat))
}

/// Powers of two are positive.
pub proof fn lemma_pow2_positive(k: nat)
    ensures
        pow(2, k) > 0,
{
    lemma_pow_positive(2, k);
}

/// The bits of `n` below `2^k` add back up to `n mod 2^k`; in particular
/// the `k` bits of a number below `2^k` reconstruct it exactly.
pub proof fn lemma_bits_reconstruct(n: nat, k: nat)
    ensures
        weighted_sum(bits_of(n, k)) == n % (pow(2, k) as nat),
    decreases k,
{
    if k == 0 {
        assert(bits_of(n, 0) =~= Seq::<nat>::empty());
        lemma_pow0(2);
    } else {
        let j = (k - 1) as nat;
        lemma_bits_reconstruct(n, j);
        assert(bits_of(n, k).drop_last() =~= bits_of(n, j));
        lemma_pow2_positive(j);
        let y = pow(2, j);
        assert(pow(2, k) == 2 * y) by {
            reveal(pow);
        }
        lemma_mod_breakdown(n as int, y, 2);
        assert(y * 2 == 2 * y);
        assert(bit_of(n, j) * (y as nat) == y * ((n / (y as nat)) % 2)) by (nonlinear_arith)
            requires
                bit_of(n, j) == (n / (y as nat)) % 2,
                y > 0,
        ;
    }
}

/// The weighted sum of the first `i` entries of `s`.
proof fn lemma_weighted_sum_take(s: Seq<nat>, i: int)
    requires
        0 <= i < s.len(),
    ensures
        weighted_sum(s.take(i + 1)) == weighted_sum(s.take(i)) + s[i] * (pow(2, i as nat) as nat),
{
    assert(s.take(i + 1).drop_last() =~= s.take(i));
}

/// `prod C_i^(2^i) mod p`, accumulated the way the verifier computes it.
pub open spec fn aggregate(cs: Seq<nat>, p: nat) -> nat
    decreases cs.len(),
{
    if cs.len() == 0 {
        1
    } else {
        md(
            (aggregate(cs.drop_last(), p) * md(
                pow(cs.last() as int, pow(2, (cs.len() - 1) as nat) as nat),
                p,
            )) as int,
            p,
        )
    }
}

/// Combines bit commitments: `prod c_bits[i]^(2^i) mod p`.
pub fn aggregate_bit_commitments(c_bits: &[BigNum], p: &BigNum) -> (res: BigNum)
    requires
        p@ > 0,
    ensures
        res@ == aggregate(values(c_bits@), p@),
{
    let mut lhs = BigNum::from_u64(1);
    let mut w = BigNum::from_u64(1);
    let two = BigNum::from_u64(2);
    let n = c_bits.len();
    let mut i: usize = 0;
    assert(values(c_bits@).take(0) =~= Seq::<nat>::empty());
    proof {
        lemma_pow0(2);
    }
    while i < n
        invariant
            n == c_bits@.len(),
            i <= n,
            p@ > 0,
            two@ == 2,
            w@ == pow(2, i as nat),
            lhs@ == aggregate(values(c_bits@).take(i as int), p@),
        decreases n - i,
    {
        let ghost cs = values(c_bits@).take(i + 1);
        assert(cs.drop_last() =~= values(c_bits@).take(i as int));
        assert(cs.last() == c_bits@[i as int]@);
        lhs = lhs.mul(&c_bits[i].modpow(&w, p)).rem(p);
        w = w.mul(&two);
        proof {
            lemma_pow2_positive(i as nat);
            assert(pow(2, (i + 1) as nat) == 2 * pow(2, i as nat)) by {
                reveal(pow);
            }
        }
        i = i + 1;
    }
    assert(values(c_bits@).take(n as int) =~= values(c_bits@));
    lhs
}

/// `sum items[i] * 2^i`.
pub fn weighted_sum_of(items: &[BigNum]) -> (res: BigNum)
    ensures
        res@ == weighted_sum(values(items@)),
{
    let mut acc = BigNum::from_u64(0);
    let mut w = BigNum::from_u64(1);
    let two = BigNum::from_u64(2);
    let n = items.len();
    let mut i: usize = 0;
    assert(values(items@).take(0) =~= Seq::<nat>::empty());
    proof {
        lemma_pow0(2);
    }
    while i < n
        invariant
            n == items@.len(),
            i <= n,
            two@ == 2,
            w@ == pow(2, i as nat),
            acc@ == weighted_sum(values(items@).take(i as int)),
        decreases n - i,
    {
        proof {
            lemma_weighted_sum_take(values(items@), i as int);
            lemma_pow2_positive(i as nat);
        }
        acc = acc.add(&items[i].mul(&w));
        w = w.mul(&two);
        proof {
            assert(pow(2, (i + 1) as nat) == 2 * pow(2, i as nat)) by {
                reveal(pow);
            }
        }
        i = i + 1;
    }
    assert(values(items@).take(n as int) =~= values(items@));
    acc
}

/// The Pedersen commitments to `bits[i]` blinded by `blinds[i]`.
pub open spec fn commitments(bits: Seq<nat>, blinds: Seq<nat>, g: nat, h: nat, p: nat) -> Seq<nat> {
    Seq::new(bits.len(), |i: int| pedersen(bits[i], blinds[i], g, h, p))
}

/// `(g^x * h^y)^w == g^(x*w) * h^(y*w)`.
proof fn lemma_pow_of_product(g: nat, h: nat, x: nat, y: nat, w: nat)
    ensures
        pow(pow(g as int, x) * pow(h as int, y), w) == pow(g as int, x * w) * pow(h as int, y * w),
{
    lemma_pow_distributes(pow(g as int, x), pow(h as int, y), w);
    lemma_pow_multiplies(g as int, x, w);
    lemma_pow_multiplies(h as int, y, w);
}

/// The homomorphic range check: raising the commitment to bit `i` to the
/// power `2^i` and multiplying them all gives the commitment to the
/// weighted sum of the bits, blinded by the weighted sum of the blinds.
pub proof fn lemma_aggregate_commitments(bits: Seq<nat>, blinds: Seq<nat>, g: nat, h: nat, p: nat)
    requires
        p > 1,
        bits.len() == blinds.len(),
    ensures
        aggregate(commitments(bits, blinds, g, h, p), p) == pedersen(
            weighted_sum(bits),
            weighted_sum(blinds),
            g,
            h,
            p,
        ),
    decreases bits.len(),
{
    let pi = p as int;
    if bits.len() == 0 {
        lemma_pow0(g as int);
        lemma_pow0(h as int);
        lemma_small_mod(1, p);
    } else {
        let k = (bits.len() - 1) as nat;
        let bp = bits.drop_last();
        let rp = blinds.drop_last();
        lemma_aggregate_commitments(bp, rp, g, h, p);
        let cs = commitments(bits, blinds, g, h, p);
        assert(cs.drop_last() =~= commitments(bp, rp, g, h, p));
        lemma_pow2_positive(k);
        let w = pow(2, k) as nat;
        let b = bits.last();
        let r = blinds.last();
        let wb = weighted_sum(bp);
        let wr = weighted_sum(rp);
        let x1 = pow(g as int, wb) * pow(h as int, wr);
        let x2 = pow(g as int, b) * pow(h as int, r);
        lemma_pow_positive_or_zero(g as int, wb);
        lemma_pow_positive_or_zero(h as int, wr);
        lemma_pow_positive_or_zero(g as int, b);
        lemma_pow_positive_or_zero(h as int, r);
        lemma_mul_nonnegative(pow(g as int, wb), pow(h as int, wr));
        lemma_mul_nonnegative(pow(g as int, b), pow(h as int, r));
        assert(cs.last() == pedersen(b, r, g, h, p));
        // The last commitment, raised to 2^k.
        lemma_pow_mod_noop(x2, w, pi);
        lemma_pow_of_product(g, h, b, r, w);
        let x3 = pow(g as int, b * w) * pow(h as int, r * w);
        assert(pow(x2, w) == x3);
        lemma_pow_positive_or_zero(g as int, b * w);
        lemma_pow_positive_or_zero(h as int, r * w);
        lemma_mul_nonnegative(pow(g as int, b * w), pow(h as int, r * w));
        // Multiply it in.
        lemma_mul_mod(x1, x3, pi);
        lemma_pow_adds(g as int, wb, b * w);
        lemma_pow_adds(h as int, wr, r * w);
        let a1 = pow(g as int, wb);
        let a2 = pow(h as int, wr);
        let a3 = pow(g as int, b * w);
        let a4 = pow(h as int, r * w);
        assert((a1 * a2) * (a3 * a4) == (a1 * a3) * (a2 * a4)) by (nonlinear_arith);
        assert(weighted_sum(bits) == wb + b * w);
        assert(weighted_sum(blinds) == wr + r * w);
        lemma_mod_pos_bound(x1, pi);
        lemma_mod_pos_bound(x2, pi);
        lemma_pow_positive_or_zero(x2 % pi, w);
        lemma_mod_pos_bound(pow(x2 % pi, w), pi);
    }
}

/// A number split into bits above a threshold, with the bits added back up.
pub struct RangeDecomposition {
    pub delta: BigNum,
    pub bits: Vec<BigNum>,
    pub reconstructed: BigNum,
}

/// The error when the value is below the threshold.
pub open spec fn below_threshold_msg() -> Seq<char> {
    "v < T: cannot prove non-negative delta"@
}

/// Splits `delta = v - t` into `num_bits` bits and adds them back up with
/// weights `2^i`.  Fails when `v < t`.
pub fn range_decompose(v: &BigNum, t: &BigNum, num_bits: usize) -> (res: Result<
    RangeDecomposition,
    String,
>)
    requires
        v@ >= t@ ==> num_bits <= 32,
    ensures
        (v@ < t@) <==> res is Err,
        res matches Err(msg) ==> msg@ == below_threshold_msg(),
        res matches Ok(d) ==> {
            &&& d.delta@ == v@ - t@
            &&& values(d.bits@) == bits_of(d.delta@, num_bits as nat)
            &&& d.reconstructed@ == d.delta@ % (pow(2, num_bits as nat) as nat)
        },
{
    broadcast use vstd::string::to_string_from_display_ensures_for_str;

    if !v.is_at_least(t) {
        return Err("v < T: cannot prove non-negative delta".to_string());
    }
    let delta = v.sub(t);
    let bits = to_bits(&delta, num_bits);
    let reconstructed = weighted_sum_of(bits.as_slice());
    proof {
        assert(values(bits@) =~= bits_of(delta@, num_bits as nat));
        lemma_bits_reconstruct(delta@, num_bits as nat);
    }
    Ok(RangeDecomposition { delta, bits, reconstructed })
}

/// The error when the number of bits is out of range.
pub open spec fn num_bits_msg() -> Seq<char> {
    "num_bits must be 1..=32"@
}

/// The zero-knowledge range check takes between 1 and 32 bits.
pub fn check_num_bits(num_bits: usize) -> (res: Result<(), String>)
    ensures
        (num_bits == 0 || num_bits > 32) <==> res is Err,
        res matches Err(msg) ==> msg@ == num_bits_msg(),
{
    broadcast use vstd::string::to_string_from_display_ensures_for_str;

    if num_bits == 0 || num_bits > 32 {
        Err("num_bits must be 1..=32".to_string())
    } else {
        Ok(())
    }
}

/// The error when a committed value is not a bit.
pub open spec fn not_a_bit_msg() -> Seq<char> {
    "b must be 0 or 1"@
}

/// A bit-OR proof is only built for a bit.
pub fn check_bit(b: &BigNum) -> (res: Result<(), String>)
    ensures
        (b@ == 0 || b@ == 1) <==> res is Ok,
        res matches Err(msg) ==> msg@ == not_a_bit_msg(),
{
    broadcast use vstd::string::to_string_from_display_ensures_for_str;

    if b.equals(&BigNum::from_u64(0)) || b.equals(&BigNum::from_u64(1)) {
        Ok(())
    } else {
        Err("b must be 0 or 1".to_string())
    }
}

/// One committed bit of a range proof, with its OR-proof.
pub struct RangeBitRow {
    pub b: BigNum,
    pub r: BigNum,
    pub c: BigNum,
    pub or_valid: bool,
    pub proof: BitOrProof,
}

impl RangeBitRow {
    /// The row holds bit `b` committed with blinding `r` as `c`, a bit-OR
    /// proof built from randomness below the group order, and whether that
    /// proof verifies.
    pub open spec fn well_built(&self, b: nat, r: nat, c: nat, g: nat, h: nat, p: nat) -> bool {
        &&& self.b@ == b
        &&& self.r@ == r
        &&& self.c@ == c
        &&& self.proof.built_randomly(b, r, c, g, h, p)
        &&& self.or_valid == self.proof.accepts(c, g, h, p)
    }
}

fn prove_row(b: &BigNum, r: &BigNum, c: &BigNum, g: &BigNum, h: &BigNum, p: &BigNum) -> (row:
    RangeBitRow)
    requires
        b@ == 0 || b@ == 1,
        p@ >= 2,
    ensures
        row.well_built(b@, r@, c@, g@, h@, p@),
{
    let proof = prove_bit_or(b, r, c, g, h, p);
    let ok = verify_bit_or(&proof, c, g, h, p);
    RangeBitRow { b: b.copy(), r: r.copy(), c: c.copy(), or_valid: ok, proof }
}

/// Over a prime `p` with `g` and `h` not divisible by it, every well-built
/// row of bits has a verifying OR-proof.
proof fn lemma_rows_accepted(rows: Seq<RangeBitRow>, bits: Seq<nat>, g: nat, h: nat, p: nat)
    requires
        is_prime(p),
        g % p != 0,
        h % p != 0,
        rows.len() == bits.len(),
        forall|j: int| 0 <= j < bits.len() ==> bits[j] == 0 || bits[j] == 1,
        forall|j: int|
            0 <= j < rows.len() ==> #[trigger] rows[j].well_built(
                bits[j],
                rows[j].r@,
                pedersen(bits[j], rows[j].r@, g, h, p),
                g,
                h,
                p,
            ),
    ensures
        forall|j: int| 0 <= j < rows.len() ==> #[trigger] rows[j].or_valid,
{
    assert forall|j: int| 0 <= j < rows.len() implies #[trigger] rows[j].or_valid by {
        assert(rows[j].well_built(
            bits[j],
            rows[j].r@,
            pedersen(bits[j], rows[j].r@, g, h, p),
            g,
            h,
            p,
        ));
        lemma_prove_bit_or_accepted(rows[j].proof, bits[j], rows[j].r@, g, h, p);
    }
}

/// Everything the zero-knowledge range check computed.
pub struct RangeReport {
    pub delta: BigNum,
    pub bits: Vec<BigNum>,
    pub rows: Vec<RangeBitRow>,
    pub homomorphic_ok: bool,
    pub bits_reconstruct_ok: bool,
    pub all_bit_or_ok: bool,
    pub all_ok: bool,
}

/// What a successful range check reports, for `v >= t` and `k` bits.
pub open spec fn range_report_ok(rep: RangeReport, v: nat, t: nat, k: nat, g: nat, h: nat, p: nat) -> bool {
    let bits = values(rep.bits@);
    let blinds = Seq::new(k, |i: int| rep.rows@[i].r@);
    &&& rep.delta@ == v - t
    &&& bits == bits_of(rep.delta@, k)
    &&& rep.rows@.len() == k
    &&& forall|i: int|
        0 <= i < k ==> #[trigger] rep.rows@[i].well_built(
            bits[i],
            rep.rows@[i].r@,
            pedersen(bits[i], rep.rows@[i].r@, g, h, p),
            g,
            h,
            p,
        )
    &&& forall|i: int| 0 <= i < k ==> #[trigger] rep.rows@[i].r@ < p
    &&& rep.homomorphic_ok == (pedersen(rep.delta@ % (pow(2, k) as nat), weighted_sum(blinds), g, h, p)
        == pedersen(rep.delta@, weighted_sum(blinds), g, h, p))
    &&& (rep.delta@ < pow(2, k) ==> rep.homomorphic_ok)
    &&& rep.bits_reconstruct_ok == (rep.delta@ < pow(2, k))
    &&& rep.all_bit_or_ok == (forall|i: int| 0 <= i < k ==> #[trigger] rep.rows@[i].or_valid)
    &&& (is_prime(p) && g % p != 0 && h % p != 0 ==> rep.all_bit_or_ok)
    &&& rep.all_ok == (rep.all_bit_or_ok && rep.homomorphic_ok && rep.bits_reconstruct_ok)
}

/// The outcome of the range check once the number of bits is in range:
/// an error exactly when `v < t`, otherwise the full report.
pub open spec fn range_outcome(
    res: Result<RangeReport, String>,
    v: nat,
    t: nat,
    k: nat,
    g: nat,
    h: nat,
    p: nat,
) -> bool {
    &&& (v < t) <==> res is Err
    &&& res matches Err(msg) ==> msg@ == below_threshold_msg()
    &&& res matches Ok(rep) ==> range_report_ok(rep, v, t, k, g, h, p)
}

/// The zero-knowledge range check that `v >= t`: the number of bits must
/// lie in `1..=32`; then `delta = v - t` is split
/// into bits; each bit is committed with a fresh random blinding below `p`
/// and proved to be a bit; the commitments, raised to `2^i` and multiplied,
/// must equal the commitment to `delta` under the combined blinding; and the
/// bits must add back up to `delta`.
pub fn range_zk_verify(
    v: &BigNum,
    t: &BigNum,
    num_bits: usize,
    g: &BigNum,
    h: &BigNum,
    p: &BigNum,
) -> (res: Result<RangeReport, String>)
    requires
        1 <= num_bits <= 32 && v@ >= t@ ==> p@ >= 2,
    ensures
        (num_bits == 0 || num_bits > 32) ==> (res matches Err(msg) && msg@ == num_bits_msg()),
        1 <= num_bits <= 32 ==> range_outcome(res, v@, t@, num_bits as nat, g@, h@, p@),
{
    let checked = check_num_bits(num_bits);
    if let Err(msg) = checked {
        return Err(msg);
    }
    range_zk_verify_bits(v, t, num_bits, g, h, p)
}

fn range_zk_verify_bits(
    v: &BigNum,
    t: &BigNum,
    num_bits: usize,
    g: &BigNum,
    h: &BigNum,
    p: &BigNum,
) -> (res: Result<RangeReport, String>)
    requires
        1 <= num_bits <= 32,
        v@ >= t@ ==> p@ >= 2,
    ensures
        (v@ < t@) <==> res is Err,
        res matches Err(msg) ==> msg@ == below_threshold_msg(),
        res matches Ok(rep) ==> {
            let k = num_bits as nat;
            let bits = values(rep.bits@);
            let blinds = Seq::new(k, |i: int| rep.rows@[i].r@);
            &&& rep.delta@ == v@ - t@
            &&& bits == bits_of(rep.delta@, k)
            &&& rep.rows@.len() == k
            &&& forall|i: int|
                0 <= i < k ==> #[trigger] rep.rows@[i].well_built(
                    bits[i],
                    rep.rows@[i].r@,
                    pedersen(bits[i], rep.rows@[i].r@, g@, h@, p@),
                    g@,
                    h@,
                    p@,
                )
            &&& forall|i: int| 0 <= i < k ==> #[trigger] rep.rows@[i].r@ < p@
            &&& rep.homomorphic_ok == (pedersen(rep.delta@ % (pow(2, k) as nat), weighted_sum(blinds), g@, h@, p@) == pedersen(
                rep.delta@,
                weighted_sum(blinds),
                g@,
                h@,
                p@,
            ))
            &&& (rep.delta@ < pow(2, k) ==> rep.homomorphic_ok)
            &&& rep.bits_reconstruct_ok == (rep.delta@ < pow(2, k))
            &&& rep.all_bit_or_ok == (forall|i: int| 0 <= i < k ==> #[trigger] rep.rows@[i].or_valid)
            &&& (is_prime(p@) && g@ % p@ != 0 && h@ % p@ != 0 ==> rep.all_bit_or_ok)
            &&& rep.all_ok == (rep.all_bit_or_ok && rep.homomorphic_ok && rep.bits_reconstruct_ok)
        },
{
    broadcast use vstd::string::to_string_from_display_ensures_for_str;

    if !v.is_at_least(t) {
        return Err("v < T: cannot prove non-negative delta".to_string());
    }
    let delta = v.sub(t);
    let bits = to_bits(&delta, num_bits);
    let ghost k = num_bits as nat;
    let mut rng = thread_rng();
    let mut r_bits: Vec<BigNum> = Vec::new();
    let mut c_bits: Vec<BigNum> = Vec::new();
    let mut i: usize = 0;
    while i < num_bits
        invariant
            i <= num_bits,
            bits@.len() == num_bits,
            p@ >= 2,
            r_bits@.len() == i,
            c_bits@.len() == i,
            forall|j: int|
                0 <= j < i ==> #[trigger] r_bits@[j]@ < p@ && c_bits@[j]@ == pedersen(
                    bits@[j]@,
                    r_bits@[j]@,
                    g@,
                    h@,
                    p@,
                ),
        decreases num_bits - i,
    {
        let r = random_below(&mut rng, p);
        let c = commit(&bits[i], &r, g, h, p);
        r_bits.push(r);
        c_bits.push(c);
        i = i + 1;
    }
    let mut rows: Vec<RangeBitRow> = Vec::new();
    let mut all_or_ok = true;
    let mut i: usize = 0;
    while i < num_bits
        invariant
            i <= num_bits,
            bits@.len() == num_bits,
            r_bits@.len() == num_bits,
            c_bits@.len() == num_bits,
            p@ >= 2,
            forall|j: int| 0 <= j < num_bits ==> #[trigger] bits@[j]@ == bit_of(delta@, j as nat),
            forall|j: int|
                0 <= j < num_bits ==> #[trigger] r_bits@[j]@ < p@ && c_bits@[j]@ == pedersen(
                    bits@[j]@,
                    r_bits@[j]@,
                    g@,
                    h@,
                    p@,
                ),
            rows@.len() == i,
            forall|j: int|
                0 <= j < i ==> #[trigger] rows@[j].well_built(
                    bits@[j]@,
                    r_bits@[j]@,
                    c_bits@[j]@,
                    g@,
                    h@,
                    p@,
                ),
            all_or_ok == (forall|j: int| 0 <= j < i ==> #[trigger] rows@[j].or_valid),
        decreases num_bits - i,
    {
        proof {
            let m = delta@ / (pow(2, i as nat) as nat);
            assert(m % 2 == 0 || m % 2 == 1);
        }
        let row = prove_row(&bits[i], &r_bits[i], &c_bits[i], g, h, p);
        let ghost prev_all = all_or_ok;
        let ghost prev_rows = rows@;
        all_or_ok = all_or_ok && row.or_valid;
        rows.push(row);
        proof {
            assert(rows@ == prev_rows.push(row));
            assert(all_or_ok == (forall|j: int| 0 <= j < i + 1 ==> #[trigger] rows@[j].or_valid))
                by {
                if all_or_ok {
                    assert forall|j: int| 0 <= j < i + 1 implies #[trigger] rows@[j].or_valid by {
                        if j < i {
                            assert(prev_rows[j].or_valid);
                        }
                    }
                } else {
                    if !prev_all {
                        let j = choose|j: int| 0 <= j < i && !(#[trigger] prev_rows[j].or_valid);
                        assert(!rows@[j].or_valid);
                    } else {
                        assert(!rows@[i as int].or_valid);
                    }
                }
            }
        }
        i = i + 1;
    }
    let r_delta = weighted_sum_of(r_bits.as_slice());
    let lhs = aggregate_bit_commitments(c_bits.as_slice(), p);
    let rhs = commit(&delta, &r_delta, g, h, p);
    let homomorphic_ok = lhs.equals(&rhs);
    let reconstructed = weighted_sum_of(bits.as_slice());
    let bits_reconstruct_ok = reconstructed.equals(&delta);
    proof {
        let bs = values(bits@);
        let rs = values(r_bits@);
        assert(bs =~= bits_of(delta@, k));
        lemma_bits_reconstruct(delta@, k);
        lemma_aggregate_commitments(bs, rs, g@, h@, p@);
        assert(values(c_bits@) =~= commitments(bs, rs, g@, h@, p@));
        assert forall|j: int| 0 <= j < k implies #[trigger] rows@[j].r@ == r_bits@[j]@ && rows@[j].well_built(
            bs[j],
            rows@[j].r@,
            pedersen(bs[j], rows@[j].r@, g@, h@, p@),
            g@,
            h@,
            p@,
        ) by {
            assert(rows@[j].well_built(bits@[j]@, r_bits@[j]@, c_bits@[j]@, g@, h@, p@));
        }
        assert(rs =~= Seq::new(k, |j: int| rows@[j].r@));
        if is_prime(p@) && g@ % p@ != 0 && h@ % p@ != 0 {
            assert forall|j: int| 0 <= j < k implies bs[j] == 0 || bs[j] == 1 by {
                let m = delta@ / (pow(2, j as nat) as nat);
                assert(m % 2 == 0 || m % 2 == 1);
            }
            lemma_rows_accepted(rows@, bs, g@, h@, p@);
        }
        lemma_pow2_positive(k);
        if delta@ < pow(2, k) {
            vstd::arithmetic::div_mod::lemma_small_mod(delta@, pow(2, k) as nat);
        } else {
            vstd::arithmetic::div_mod::lemma_mod_bound(delta@ as int, pow(2, k));
        }
    }
    let all_ok = all_or_ok && homomorphic_ok && bits_reconstruct_ok;
    Ok(
        RangeReport {
            delta,
            bits,
            rows,
            homomorphic_ok,
            bits_reconstruct_ok,
            all_bit_or_ok: all_or_ok,
            all_ok,
        },
    )
}

} // verus!
