use zkp::bignum::BigNum;
use zkp::merkle::{build_tree, hash_pair, merkle_proof, verify_merkle};
use zkp::random::random_below;
use zkp::sigma::{challenge_sigma_dl, challenge_tx, prove_commit, prove_response, Proof};

fn big(x: u64) -> BigNum {
    BigNum::from_u64(x)
}

#[test]
fn test_hash_pair() {
    let a = big(3);
    let b = big(4);
    let h1 = hash_pair(&a, &b);
    let h2 = hash_pair(&a, &b);
    assert_eq!(h1, h2);

    let h3 = hash_pair(&b, &a);
    assert_ne!(h1, h3);
}

#[test]
fn test_build_tree() {
    let v0 = big(3);
    let v1 = big(4);
    let v2 = big(5);
    let v3 = big(6);

    let h01 = hash_pair(&v0, &v1);
    let h23 = hash_pair(&v2, &v3);
    let expected_root = hash_pair(&h01, &h23);

    let leaves = vec![v0, v1, v2, v3];
    let root = build_tree(leaves);

    assert_eq!(root, expected_root);
}

#[test]
fn test_merkle_proof() {
    let v0 = big(3);
    let v1 = big(4);
    let v2 = big(5);
    let v3 = big(6);
    let leaves = vec![v0.clone(), v1.clone(), v2.clone(), v3.clone()];

    let h01 = hash_pair(&v0, &v1);
    let proof = merkle_proof(&leaves, 2);
    assert_eq!(proof.len(), 2);
    assert_eq!(proof[0], v3);
    assert_eq!(proof[1], h01);
}

#[test]
fn test_merkle_membership() {
    let v0 = big(3);
    let v1 = big(4);
    let v2 = big(5);
    let v3 = big(6);
    let leaves = vec![v0.clone(), v1.clone(), v2.clone(), v3.clone()];

    let root = build_tree(leaves.clone());
    let proof = merkle_proof(&leaves, 2);

    assert!(verify_merkle(&v2, 2, &proof, &root));

    // Fake leaf
    let fake = big(100);
    assert!(!verify_merkle(&fake, 2, &proof, &root));

    // Wrong index
    assert!(!verify_merkle(&v2, 0, &proof, &root));
}

#[test]
fn test_sigma_protocol() {
    let p = big(223);
    let g = big(4);
    let secret = big(123);
    let c = g.modpow(&secret, &p);

    let (k, r) = prove_commit(&g, &p);
    let mut rng = rand::thread_rng();
    let e = random_below(&mut rng, &p);
    let z = prove_response(&k, &e, &secret);
    let proof = Proof { r, z };
    assert!(Proof::verify(&proof, &c, &e, &g, &p));
}

#[test]
fn test_challenge_sigma_dl_is_deterministic() {
    let p = big(223);
    let g = big(4);
    let c = big(3);
    let r = big(11);
    let challenge1 = challenge_sigma_dl(&g, &c, &r, &p);
    let challenge2 = challenge_sigma_dl(&g, &c, &r, &p);
    assert_eq!(challenge1, challenge2);
}

#[test]
fn test_challenge_sigma_dl_changes_when_transcript_changes() {
    let p = big(223);
    let g = big(4);
    let c = big(3);
    let r = big(11);

    let baseline = challenge_sigma_dl(&g, &c, &r, &p);
    assert_ne!(baseline, challenge_sigma_dl(&g, &c.add(&big(1)), &r, &p));
    assert_ne!(baseline, challenge_sigma_dl(&g, &c, &r.add(&big(1)), &p));
    assert_ne!(baseline, challenge_sigma_dl(&g, &c, &r, &p.add(&big(1))));
}

#[test]
fn test_challenge_tx_is_deterministic() {
    let p = big(223);
    let g = big(4);
    let pubkey = big(3);
    let r = big(11);
    let message = b"Hello, world!";

    let e0 = challenge_tx(&g, &pubkey, &r, &p, message);
    let e1 = challenge_tx(&g, &pubkey, &r, &p, message);
    assert_eq!(e0, e1);
}

#[test]
fn test_challenge_tx_domain_separated_from_sigma_dl() {
    let p = big(223);
    let g = big(4);
    let c = big(3);
    let r = big(11);

    let e_sigma_dl = challenge_sigma_dl(&g, &c, &r, &p);
    let e_tx = challenge_tx(&g, &c, &r, &p, &[]);
    assert_ne!(e_sigma_dl, e_tx);
}
