use num_bigint::BigUint;
use zkp::bignum::BigNum;
use zkp::bits::{prove_bit_or, to_bits, verify_bit_or};
use zkp::commitment::commit;
use zkp::random::random_below;
use zkp::sigma::{challenge, prove_commit, prove_response, Proof};

fn big(x: u64) -> BigNum {
    BigNum::from_u64(x)
}

fn from_biguint(x: &BigUint) -> BigNum {
    BigNum::from_be_bytes(&x.to_bytes_be())
}

fn random_below_p(p: &BigNum) -> BigNum {
    let mut rng = rand::thread_rng();
    random_below(&mut rng, p)
}

#[test]
fn test_fiat_shamir() {
    let p = big(223);
    let g = big(4);
    let secret = big(123);
    let c = g.modpow(&secret, &p);

    let (k, r) = prove_commit(&g, &p);
    let e = challenge(&g, &c, &r, &p);
    let z = prove_response(&k, &e, &secret);
    let proof = Proof { r, z };
    assert!(Proof::verify(&proof, &c, &e, &g, &p));
}

#[test]
fn test_commit() {
    let p = big(23);
    let g = big(4);
    let h = big(9);

    assert_eq!(commit(&big(2), &big(3), &g, &h, &p), big(3));
    assert_eq!(commit(&big(2), &big(4), &g, &h, &p), big(4));
}

#[test]
fn test_prov_sum() {
    let p = from_biguint(&BigUint::from(223u32).pow(127));
    let g = big(4);
    let h = big(9);

    let a = big(1);
    let b = big(2);
    let c = big(3);
    let r_a = random_below_p(&p);
    let r_b = random_below_p(&p);
    let r_c = random_below_p(&p);

    let c_a = commit(&a, &r_a, &g, &h, &p);
    let c_b = commit(&b, &r_b, &g, &h, &p);
    let c_c = commit(&c, &r_c, &g, &h, &p);

    // Case I: correct sum
    let s = a.add(&b).add(&c);
    let r_total = r_a.add(&r_b).add(&r_c);
    let lhs = c_a.mul(&c_b).mul(&c_c).rem(&p);
    let rhs = commit(&s, &r_total, &g, &h, &p);
    assert_eq!(lhs, rhs);

    // Case II: wrong sum
    let wrong_s = big(1235);
    let wrong_sum_rhs = commit(&wrong_s, &r_total, &g, &h, &p);
    assert_ne!(lhs, wrong_sum_rhs);

    // Case III: wrong r_total
    let wrong_r_total = r_a.add(&r_b);
    let wrong_rtotal_rhs = commit(&s, &wrong_r_total, &g, &h, &p);
    assert_ne!(lhs, wrong_rtotal_rhs);
}

#[test]
fn test_to_bits() {
    let expected: Vec<BigNum> = vec![1u64, 0, 1, 1].into_iter().map(big).collect();
    assert_eq!(to_bits(&big(13), 4), expected);
}

#[test]
fn test_homomorphic() {
    let p = big(223);
    let g = big(4);
    let h = big(3);

    let v = big(10);
    let t = big(7);
    let delta = v.sub(&t);

    let bits = to_bits(&delta, 8);
    let r_bits: Vec<BigNum> = (0..8).map(|_| random_below_p(&p)).collect();
    let c_bits: Vec<BigNum> =
        bits.iter().zip(&r_bits).map(|(b, r)| commit(b, r, &g, &h, &p)).collect();

    // r_delta == sum of r_i * 2^i
    let mut r_delta = big(0);
    for i in 0..8 {
        r_delta = r_delta.add(&r_bits[i].mul(&big(1u64 << i)));
    }

    // Verifier: product of C_i^(2^i)
    let mut lhs = big(1);
    for (i, c_i) in c_bits.iter().enumerate() {
        lhs = lhs.mul(&c_i.modpow(&big(1u64 << i), &p)).rem(&p);
    }
    let rhs = commit(&delta, &r_delta, &g, &h, &p);
    assert_eq!(lhs, rhs);
}

#[test]
fn test_threshold() {
    let p = big(223);
    let g = big(4);
    let h = big(3);
    let r_v = random_below_p(&p);

    let v = big(10);
    let t = big(7);
    let delta = v.sub(&t);

    let c_v = commit(&v, &r_v, &g, &h, &p);
    let c_td = commit(&t.add(&delta), &r_v, &g, &h, &p);
    assert_eq!(c_v, c_td);

    let bits = to_bits(&delta, 8);
    let mut reconstructed = big(0);
    for (i, b) in bits.iter().enumerate() {
        reconstructed = reconstructed.add(&b.mul(&big(1u64 << i)));
    }
    assert_eq!(delta, reconstructed);
}

#[test]
fn test_bit_or_valid_for_bit_zero() {
    let p = big(223);
    let g = big(4);
    let h = big(3);
    let r = random_below_p(&p);
    let b = big(0);
    let c = commit(&b, &r, &g, &h, &p);
    let proof = prove_bit_or(&b, &r, &c, &g, &h, &p);
    assert!(verify_bit_or(&proof, &c, &g, &h, &p));
}

#[test]
fn test_bit_or_valid_for_bit_one() {
    let p = big(223);
    let g = big(4);
    let h = big(3);
    let r = random_below_p(&p);
    let b = big(1);
    let c = commit(&b, &r, &g, &h, &p);
    let proof = prove_bit_or(&b, &r, &c, &g, &h, &p);
    assert!(verify_bit_or(&proof, &c, &g, &h, &p));
}

#[test]
fn test_bit_or_rejects_tampered_response() {
    let p = big(223);
    let g = big(4);
    let h = big(3);
    let r = random_below_p(&p);
    let b = big(1);
    let c = commit(&b, &r, &g, &h, &p);
    let mut proof = prove_bit_or(&b, &r, &c, &g, &h, &p);
    proof.s0 = proof.s0.add(&big(1));
    assert!(!verify_bit_or(&proof, &c, &g, &h, &p));
}

#[test]
fn test_bit_or_rejects_wrong_commitment_for_proof() {
    let p = big(223);
    let g = big(4);
    let h = big(3);
    let r = random_below_p(&p);
    let b = big(0);
    let c = commit(&b, &r, &g, &h, &p);
    let proof = prove_bit_or(&b, &r, &c, &g, &h, &p);
    let other_c = commit(&big(1), &r, &g, &h, &p);
    assert!(!verify_bit_or(&proof, &other_c, &g, &h, &p));
}

#[test]
fn test_threshold_with_bit_or_per_committed_bit() {
    let p = big(223);
    let g = big(4);
    let h = big(3);

    let v = big(10);
    let t = big(7);
    let delta = v.sub(&t);
    let bits = to_bits(&delta, 8);
    let r_bits: Vec<BigNum> = (0..8).map(|_| random_below_p(&p)).collect();
    let c_bits: Vec<BigNum> =
        bits.iter().zip(&r_bits).map(|(b, r)| commit(b, r, &g, &h, &p)).collect();

    for (b, (c_i, r_i)) in bits.iter().zip(c_bits.iter().zip(&r_bits)) {
        let proof = prove_bit_or(b, r_i, c_i, &g, &h, &p);
        assert!(
            verify_bit_or(&proof, c_i, &g, &h, &p),
            "bit-OR must hold for each committed bit"
        );
    }

    let mut r_delta = big(0);
    for i in 0..8 {
        r_delta = r_delta.add(&r_bits[i].mul(&big(1u64 << i)));
    }
    let mut lhs = big(1);
    for (i, c_i) in c_bits.iter().enumerate() {
        lhs = lhs.mul(&c_i.modpow(&big(1u64 << i), &p)).rem(&p);
    }
    let rhs = commit(&delta, &r_delta, &g, &h, &p);
    assert_eq!(lhs, rhs);
}
