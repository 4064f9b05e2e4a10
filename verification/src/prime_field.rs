//! Arithmetic modulo a prime: Euclid's lemma, the binomial theorem and
//! Fermat's little theorem, and the inverses `a^(p-2) mod p` they justify.

use vstd::arithmetic::div_mod::*;
use vstd::arithmetic::mul::*;
use vstd::arithmetic::power::*;
use vstd::prelude::*;

verus! {

/// `p` is prime: greater than 1, with no divisor strictly between 1 and `p`.
pub open spec fn is_prime(p: nat) -> bool {
    p > 1 && forall|d: nat| 1 < d < p ==> #[trigger] (p % d) != 0
}

/// Euclid's lemma, for a factor already reduced modulo `p`: if a prime `p`
/// divides `a * b` with `0 < a < p`, it divides `b`.
pub proof fn lemma_prime_divides_factor(p: nat, a: nat, b: nat)
    requires
        is_prime(p),
        0 < a < p,
        (a * b) % p == 0,
    ensures
        b % p == 0,
    decreases a,
{
    if a == 1 {
        assert(a * b == b) by (nonlinear_arith)
            requires
                a == 1,
        ;
    } else {
        let q = p / a;
        let r = p % a;
        assert(p % a != 0);
        lemma_fundamental_div_mod(p as int, a as int);
        lemma_mod_pos_bound(p as int, a as int);
        assert(0 < r < a);
        lemma_fundamental_div_mod((a * b) as int, p as int);
        let m = (a * b) / p;
        assert(a * b == p * m);
        // r * b = p * b - q * (a * b) = p * (b - q * m)
        assert(r * b == p * (b - q * m)) by (nonlinear_arith)
            requires
                p == a * q + r,
                a * b == p * m,
        ;
        lemma_mod_multiples_basic(b - q * m, p as int);
        assert((b - q * m) * p == p * (b - q * m)) by (nonlinear_arith);
        lemma_prime_divides_factor(p, r, b);
    }
}

/// Euclid's lemma: a prime that divides a product divides one factor.
pub proof fn lemma_prime_divides_product(p: nat, a: nat, b: nat)
    requires
        is_prime(p),
        (a * b) % p == 0,
    ensures
        a % p == 0 || b % p == 0,
{
    if a % p != 0 {
        lemma_mod_pos_bound(a as int, p as int);
        lemma_mul_mod_noop_left(a as int, b as int, p as int);
        lemma_prime_divides_factor(p, a % p, b);
    }
}

/// Modulo a prime, a product of non-zero residues is non-zero.
pub proof fn lemma_nonzero_product(p: nat, a: nat, b: nat)
    requires
        is_prime(p),
        a % p != 0,
        b % p != 0,
    ensures
        (a * b) % p != 0,
{
    if (a * b) % p == 0 {
        lemma_prime_divides_product(p, a, b);
    }
}

/// Modulo a prime, a power of a non-zero residue is non-zero.
pub proof fn lemma_nonzero_pow(p: nat, a: nat, n: nat)
    requires
        is_prime(p),
        a % p != 0,
    ensures
        pow(a as int, n) >= 0,
        (pow(a as int, n) as nat) % p != 0,
    decreases n,
{
    if n == 0 {
        lemma_pow0(a as int);
        lemma_small_mod(1, p);
    } else {
        lemma_nonzero_pow(p, a, (n - 1) as nat);
        let x = pow(a as int, (n - 1) as nat) as nat;
        assert(pow(a as int, n) == a * x) by {
            reveal(pow);
        }
        lemma_nonzero_product(p, a, x);
    }
}

/// The binomial coefficient `n choose k`, by Pascal's rule.
pub open spec fn binom(n: nat, k: nat) -> nat
    decreases n,
{
    if k == 0 {
        1
    } else if n == 0 {
        0
    } else {
        binom((n - 1) as nat, (k - 1) as nat) + binom((n - 1) as nat, k)
    }
}

/// `n choose k` is zero for `k > n`.
proof fn lemma_binom_above(n: nat, k: nat)
    requires
        k > n,
    ensures
        binom(n, k) == 0,
    decreases n,
{
    if n > 0 {
        lemma_binom_above((n - 1) as nat, (k - 1) as nat);
        lemma_binom_above((n - 1) as nat, k);
    }
}

/// `n choose n` is one.
proof fn lemma_binom_diag(n: nat)
    ensures
        binom(n, n) == 1,
    decreases n,
{
    if n > 0 {
        lemma_binom_diag((n - 1) as nat);
        lemma_binom_above((n - 1) as nat, n);
    }
}

/// The absorption identity `k * (n choose k) == n * (n-1 choose k-1)`.
proof fn lemma_binom_absorb(n: nat, k: nat)
    requires
        n >= 1,
        k >= 1,
    ensures
        k * binom(n, k) == n * binom((n - 1) as nat, (k - 1) as nat),
    decreases n,
{
    if n == 1 {
        if k > 1 {
            lemma_binom_above(0, (k - 1) as nat);
            lemma_binom_above(0, k);
            assert(binom(1, k) == 0);
            assert(k * 0 == 0);
        } else {
            assert(binom(0, 1) == 0);
            assert(binom(1, 1) == 1);
        }
    } else if k == 1 {
        let n1 = (n - 1) as nat;
        lemma_binom_absorb(n1, 1);
        assert(binom(n, 1) == binom(n1, 0) + binom(n1, 1));
        assert(binom(n1, 0) == 1);
        assert(binom((n1 - 1) as nat, 0) == 1);
        assert(1 * binom(n1, 1) == n1 * 1);
        assert(binom(n, 1) == n);
        assert(1 * binom(n, 1) == n * 1);
    } else {
        let n1 = (n - 1) as nat;
        let n2 = (n - 2) as nat;
        let k1 = (k - 1) as nat;
        let k2 = (k - 2) as nat;
        lemma_binom_absorb(n1, k1);
        lemma_binom_absorb(n1, k);
        let a = binom(n1, k1);
        let b = binom(n1, k);
        let c = binom(n2, k2);
        let d = binom(n2, k1);
        assert(binom(n, k) == a + b);
        assert(a == c + d);
        assert(k1 * a == n1 * c);
        assert(k * b == n1 * d);
        assert(k * (a + b) == n * a) by (nonlinear_arith)
            requires
                k1 * a == n1 * c,
                k * b == n1 * d,
                a == c + d,
                k1 + 1 == k,
                n1 + 1 == n,
        ;
    }
}

/// A prime divides `p choose k` for `0 < k < p`.
proof fn lemma_prime_divides_binom(p: nat, k: nat)
    requires
        is_prime(p),
        0 < k < p,
    ensures
        binom(p, k) % p == 0,
{
    lemma_binom_absorb(p, k);
    let x = binom((p - 1) as nat, (k - 1) as nat);
    lemma_mod_multiples_basic(x as int, p as int);
    assert(x * p == p * x) by (nonlinear_arith);
    lemma_prime_divides_factor(p, k, binom(p, k));
}

/// `sum_{k <= m} (n choose k) * a^k`.
pub open spec fn binom_sum(a: int, n: nat, m: nat) -> int
    decreases m,
{
    if m == 0 {
        binom(n, 0) as int
    } else {
        binom_sum(a, n, (m - 1) as nat) + binom(n, m) * pow(a, m)
    }
}

/// Pascal's rule, summed.
proof fn lemma_binom_sum_pascal(a: int, n: nat, m: nat)
    requires
        m >= 1,
    ensures
        binom_sum(a, n + 1, m) == binom_sum(a, n, m) + a * binom_sum(a, n, (m - 1) as nat),
    decreases m,
{
    assert(binom(n + 1, m) == binom(n, (m - 1) as nat) + binom(n, m));
    assert(pow(a, m) == a * pow(a, (m - 1) as nat)) by {
        reveal(pow);
    }
    if m == 1 {
        lemma_pow1(a);
        lemma_pow0(a);
        assert(binom_sum(a, n + 1, 0) == 1);
        assert(binom_sum(a, n, 0) == 1);
        assert(binom(n + 1, 1) == 1 + binom(n, 1));
        assert(binom_sum(a, n + 1, 1) == binom_sum(a, n + 1, 0) + binom(n + 1, 1) * pow(a, 1));
        assert(binom_sum(a, n + 1, 1) == 1 + (1 + binom(n, 1)) * a);
        assert(binom_sum(a, n, 1) == binom_sum(a, n, 0) + binom(n, 1) * pow(a, 1));
        assert(binom_sum(a, n, 1) == 1 + binom(n, 1) * a);
        assert((1 + binom(n, 1)) * a == binom(n, 1) * a + a) by (nonlinear_arith);
    } else {
        let m1 = (m - 1) as nat;
        let m2 = (m - 2) as nat;
        lemma_binom_sum_pascal(a, n, m1);
        let x = binom(n, m1);
        let y = binom(n, m);
        let w = pow(a, m1);
        assert((x + y) * (a * w) == y * (a * w) + a * (x * w)) by (nonlinear_arith);
        assert(a * binom_sum(a, n, m1) == a * binom_sum(a, n, m2) + a * (x * w)) by (
        nonlinear_arith)
            requires
                binom_sum(a, n, m1) == binom_sum(a, n, m2) + x * w,
        ;
    }
}

/// The sum stops growing past `n`.
proof fn lemma_binom_sum_above(a: int, n: nat, m: nat)
    requires
        m >= n,
    ensures
        binom_sum(a, n, m) == binom_sum(a, n, n),
    decreases m,
{
    if m > n {
        lemma_binom_sum_above(a, n, (m - 1) as nat);
        lemma_binom_above(n, m);
    }
}

/// The binomial theorem: `(a + 1)^n == sum_k (n choose k) * a^k`.
pub proof fn lemma_binomial(a: int, n: nat)
    ensures
        pow(a + 1, n) == binom_sum(a, n, n),
    decreases n,
{
    if n == 0 {
        lemma_pow0(a + 1);
    } else {
        let n1 = (n - 1) as nat;
        lemma_binomial(a, n1);
        lemma_binom_sum_pascal(a, n1, n);
        lemma_binom_sum_above(a, n1, n);
        assert(pow(a + 1, n) == (a + 1) * pow(a + 1, n1)) by {
            reveal(pow);
        }
        let s = binom_sum(a, n1, n1);
        assert((a + 1) * s == s + a * s) by (nonlinear_arith);
    }
}

/// All the middle terms of `(a + 1)^p` vanish modulo `p`.
proof fn lemma_binom_sum_mod_prime(a: nat, p: nat, m: nat)
    requires
        is_prime(p),
        m < p,
    ensures
        binom_sum(a as int, p, m) % (p as int) == 1,
    decreases m,
{
    if m == 0 {
        lemma_small_mod(1, p);
    } else {
        lemma_binom_sum_mod_prime(a, p, (m - 1) as nat);
        lemma_prime_divides_binom(p, m);
        let c = binom(p, m);
        let w = pow(a as int, m);
        lemma_mul_mod_noop_left(c as int, w, p as int);
        assert((c as int % p as int) * w == 0);
        lemma_small_mod(0, p);
        lemma_add_mod_noop(binom_sum(a as int, p, (m - 1) as nat), c * w, p as int);
        lemma_small_mod(1, p);
    }
}

/// The freshman's dream modulo a prime: `(a + 1)^p == a^p + 1 (mod p)`.
pub proof fn lemma_frobenius_step(a: nat, p: nat)
    requires
        is_prime(p),
    ensures
        pow(a + 1int, p) % (p as int) == (pow(a as int, p) + 1) % (p as int),
{
    lemma_binomial(a as int, p);
    let m = (p - 1) as nat;
    lemma_binom_sum_mod_prime(a, p, m);
    lemma_binom_diag(p);
    assert(binom_sum(a as int, p, p) == binom_sum(a as int, p, m) + pow(a as int, p));
    lemma_add_mod_noop(binom_sum(a as int, p, m), pow(a as int, p), p as int);
    lemma_add_mod_noop(1, pow(a as int, p), p as int);
    lemma_small_mod(1, p);
}

/// `a^p == a (mod p)` for a prime `p`.
pub proof fn lemma_pow_p(a: nat, p: nat)
    requires
        is_prime(p),
    ensures
        pow(a as int, p) % (p as int) == (a as int) % (p as int),
    decreases a,
{
    if a == 0 {
        lemma0_pow(p);
    } else {
        let a1 = (a - 1) as nat;
        lemma_pow_p(a1, p);
        lemma_frobenius_step(a1, p);
        lemma_add_mod_noop(pow(a1 as int, p), 1, p as int);
        lemma_add_mod_noop(a1 as int, 1, p as int);
    }
}

/// Fermat's little theorem: `a^(p-1) == 1 (mod p)` for a prime `p` that
/// does not divide `a`.
pub proof fn lemma_fermat(a: nat, p: nat)
    requires
        is_prime(p),
        a % p != 0,
    ensures
        pow(a as int, (p - 1) as nat) % (p as int) == 1,
{
    let n = (p - 1) as nat;
    lemma_pow_p(a, p);
    assert(pow(a as int, p) == a * pow(a as int, n)) by {
        reveal(pow);
    }
    if a == 0 {
        lemma_small_mod(0, p);
    }
    assert(a > 0);
    lemma_pow_positive(a as int, n);
    let x = pow(a as int, n) as nat;
    // a * x == a (mod p), so p divides a * (x - 1).
    let ai = a as int;
    let xi = x as int;
    let pi = p as int;
    let ax = ai * xi;
    lemma_fundamental_div_mod(ax, pi);
    lemma_fundamental_div_mod(ai, pi);
    let k = ax / pi - ai / pi;
    let d = ai * (xi - 1);
    assert(d == pi * k) by (nonlinear_arith)
        requires
            d == ai * (xi - 1),
            ax == ai * xi,
            ax == pi * (ax / pi) + ax % pi,
            ai == pi * (ai / pi) + ai % pi,
            ax % pi == ai % pi,
            k == ax / pi - ai / pi,
    ;
    lemma_mod_multiples_basic(k, pi);
    assert(k * pi == pi * k) by (nonlinear_arith);
    assert(d == (a * ((x - 1) as nat)) as int);
    lemma_prime_divides_product(p, a, (x - 1) as nat);
    lemma_fundamental_div_mod((x - 1) as int, p as int);
    lemma_add_mod_noop((x - 1) as int, 1, p as int);
    lemma_small_mod(1, p);
}

/// `a^(p-2) mod p` is the inverse of `a` modulo a prime `p` not dividing `a`.
pub proof fn lemma_fermat_inverse(a: nat, p: nat)
    requires
        is_prime(p),
        a % p != 0,
    ensures
        (a * (pow(a as int, (p - 2) as nat) % (p as int))) % (p as int) == 1,
        (pow(a as int, (p - 2) as nat) % (p as int)) % (p as int) != 0,
{
    lemma_fermat(a, p);
    assert(pow(a as int, (p - 1) as nat) == a * pow(a as int, (p - 2) as nat)) by {
        reveal(pow);
    }
    lemma_mul_mod_noop_right(a as int, pow(a as int, (p - 2) as nat), p as int);
    lemma_nonzero_pow(p, a, (p - 2) as nat);
    lemma_mod_twice(pow(a as int, (p - 2) as nat), p as int);
}

} // verus!
