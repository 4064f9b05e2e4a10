use zkp::bignum::BigNum;
use zkp::bits::{
    aggregate_bit_commitments, check_bit, check_num_bits, prove_bit_or_with, range_decompose,
    range_zk_verify, to_bits, verify_bit_or, weighted_sum_of,
};
use zkp::commitment::commit;
use zkp::merkle::{
    build_tree, hash_pair, is_pow2_exec, merkle_proof, merkle_verify_steps, pad_to_pow2,
    verify_merkle,
};
use zkp::sigma::{prove_response, Proof};

fn big(x: u64) -> BigNum {
    BigNum::from_u64(x)
}

fn bigs(xs: &[u64]) -> Vec<BigNum> {
    xs.iter().map(|&x| big(x)).collect()
}

#[test]
fn commitments_multiply_to_the_commitment_of_the_sum() {
    let (g, h, p) = (big(4), big(9), big(23));
    let lhs = commit(&big(2), &big(3), &g, &h, &p).mul(&commit(&big(5), &big(7), &g, &h, &p)).rem(&p);
    assert_eq!(lhs, commit(&big(7), &big(10), &g, &h, &p));
    // g^v * h^r mod p, by hand: 4^2 * 9^3 mod 23 = 16 * 729 mod 23 = 3
    assert_eq!(commit(&big(2), &big(3), &g, &h, &p), big(3));
}

#[test]
fn honest_sigma_proof_verifies_for_any_nonce_and_challenge() {
    let (g, p, secret) = (big(4), big(223), big(123));
    let c = g.modpow(&secret, &p);
    for k in [0u64, 1, 5, 222, 1000] {
        for e in [0u64, 1, 17, 222] {
            let r = g.modpow(&big(k), &p);
            let z = prove_response(&big(k), &big(e), &secret);
            assert_eq!(z, big(k + e * 123));
            assert!(Proof::verify(&Proof { r, z }, &c, &big(e), &g, &p));
        }
    }
    // A response for another secret fails.
    let r = g.modpow(&big(5), &p);
    let z = prove_response(&big(5), &big(17), &big(124));
    assert!(!Proof::verify(&Proof { r, z }, &c, &big(17), &g, &p));
}

#[test]
fn every_leaf_has_a_valid_membership_path() {
    let leaves = bigs(&[10, 20, 30, 40, 50, 60, 70, 80]);
    let root = build_tree(leaves.clone());
    for i in 0..leaves.len() {
        let path = merkle_proof(&leaves, i);
        assert_eq!(path.len(), 3);
        assert!(verify_merkle(&leaves[i], i, &path, &root));
        let (steps, computed, valid) = merkle_verify_steps(&leaves[i], i, &path, &root);
        assert_eq!(steps.len(), 3);
        assert_eq!(computed, root);
        assert!(valid);
        assert_eq!(steps[0].current_is_left, i % 2 == 0);
        assert_eq!(steps[2].out, root);
    }
    let single = bigs(&[7]);
    assert_eq!(build_tree(single.clone()), big(7));
    assert!(merkle_proof(&single, 0).is_empty());
    assert!(merkle_proof(&single, 5).is_empty());
    assert!(merkle_proof(&[], 0).is_empty());
    let two = bigs(&[1, 2]);
    assert_eq!(build_tree(two), hash_pair(&big(1), &big(2)));
}

#[test]
fn padding_reaches_the_next_power_of_two() {
    assert_eq!(pad_to_pow2(vec![]), bigs(&[0]));
    assert_eq!(pad_to_pow2(bigs(&[5])), bigs(&[5]));
    assert_eq!(pad_to_pow2(bigs(&[5, 6, 7])), bigs(&[5, 6, 7, 0]));
    assert_eq!(pad_to_pow2(bigs(&[1, 2, 3, 4])), bigs(&[1, 2, 3, 4]));
    assert_eq!(pad_to_pow2(bigs(&[1, 2, 3, 4, 5])).len(), 8);
    assert!(is_pow2_exec(1));
    assert!(is_pow2_exec(64));
    assert!(!is_pow2_exec(0));
    assert!(!is_pow2_exec(6));
}

#[test]
fn bits_add_back_up() {
    let bits = to_bits(&big(13), 4);
    assert_eq!(weighted_sum_of(&bits), big(13));
    let low = to_bits(&big(13), 2);
    assert_eq!(low, bigs(&[1, 0]));
    assert_eq!(weighted_sum_of(&low), big(1));
    assert_eq!(to_bits(&big(0), 3), bigs(&[0, 0, 0]));
}

#[test]
fn range_decompose_cases() {
    let d = range_decompose(&big(10), &big(7), 8).ok().unwrap();
    assert_eq!(d.delta, big(3));
    assert_eq!(d.bits, bigs(&[1, 1, 0, 0, 0, 0, 0, 0]));
    assert_eq!(d.reconstructed, big(3));
    let small = range_decompose(&big(13), &big(0), 2).ok().unwrap();
    assert_eq!(small.reconstructed, big(1));
    match range_decompose(&big(3), &big(7), 8) {
        Err(e) => assert_eq!(e, "v < T: cannot prove non-negative delta"),
        Ok(_) => panic!("v < T must be refused"),
    }
    // Below the threshold the bit count does not matter.
    assert!(range_decompose(&big(3), &big(7), 100).is_err());
}

#[test]
fn aggregated_bit_commitments_commit_to_the_number() {
    let (g, h, p) = (big(4), big(3), big(223));
    let bits = to_bits(&big(11), 5);
    let blinds = bigs(&[5, 17, 100, 3, 222]);
    let commitments: Vec<BigNum> =
        bits.iter().zip(&blinds).map(|(b, r)| commit(b, r, &g, &h, &p)).collect();
    let lhs = aggregate_bit_commitments(&commitments, &p);
    let rhs = commit(&big(11), &weighted_sum_of(&blinds), &g, &h, &p);
    assert_eq!(lhs, rhs);
    assert_eq!(aggregate_bit_commitments(&[], &p), big(1));
}

#[test]
fn bit_or_proofs_from_fixed_randomness_verify() {
    let (g, h, p) = (big(4), big(3), big(223));
    for b in [0u64, 1] {
        for (r, t, e, s) in [(0u64, 0u64, 0u64, 0u64), (5, 17, 100, 3), (222, 221, 221, 221)] {
            let c = commit(&big(b), &big(r), &g, &h, &p);
            let proof = prove_bit_or_with(&big(b), &big(r), &c, &g, &h, &p, &big(t), &big(e), &big(s));
            assert_eq!(proof.fake_is_branch1, b == 0);
            assert_eq!(proof.e_fake, big(e));
            assert!(verify_bit_or(&proof, &c, &g, &h, &p));
            // The same proof does not open the other bit's commitment.
            let other = commit(&big(1 - b), &big(r), &g, &h, &p);
            assert!(!verify_bit_or(&proof, &other, &g, &h, &p));
        }
    }
}

#[test]
fn bit_and_width_checks() {
    assert!(check_bit(&big(0)).is_ok());
    assert!(check_bit(&big(1)).is_ok());
    assert_eq!(check_bit(&big(2)).err().unwrap(), "b must be 0 or 1");
    assert!(check_num_bits(1).is_ok());
    assert!(check_num_bits(32).is_ok());
    assert_eq!(check_num_bits(0).err().unwrap(), "num_bits must be 1..=32");
    assert_eq!(check_num_bits(33).err().unwrap(), "num_bits must be 1..=32");
}

#[test]
fn range_zk_verify_cases() {
    let (g, h, p) = (big(4), big(3), big(223));
    let rep = range_zk_verify(&big(10), &big(7), 8, &g, &h, &p).ok().unwrap();
    assert_eq!(rep.delta, big(3));
    assert_eq!(rep.rows.len(), 8);
    assert!(rep.homomorphic_ok);
    assert!(rep.bits_reconstruct_ok);
    assert!(rep.all_bit_or_ok);
    assert!(rep.all_ok);
    for (i, row) in rep.rows.iter().enumerate() {
        assert_eq!(row.b, rep.bits[i]);
        assert_eq!(row.c, commit(&row.b, &row.r, &g, &h, &p));
        assert!(row.or_valid);
    }
    // A delta that does not fit the bits cannot be reconstructed.
    let wide = range_zk_verify(&big(300), &big(0), 8, &g, &h, &p).ok().unwrap();
    assert!(!wide.bits_reconstruct_ok);
    assert!(!wide.all_ok);
    match range_zk_verify(&big(3), &big(7), 8, &g, &h, &p) {
        Err(e) => assert_eq!(e, "v < T: cannot prove non-negative delta"),
        Ok(_) => panic!("v < T must be refused"),
    }
}
