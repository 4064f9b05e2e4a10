use num_bigint::BigUint;
use sha2::{Digest, Sha256};
use zkp::bignum::BigNum;
use zkp::merkle::hash_pair;
use zkp::sigma::{challenge, challenge_for_tx, challenge_sigma_dl, challenge_tx};
use zkp::transcript::fs_piece;

fn big(x: u64) -> BigNum {
    BigNum::from_u64(x)
}

fn to_biguint(n: &BigNum) -> BigUint {
    BigUint::from_bytes_be(&n.to_be_bytes())
}

#[test]
fn bignum_encoding_is_canonical() {
    assert_eq!(big(0).to_be_bytes(), vec![0u8]);
    assert_eq!(big(1125).to_be_bytes(), vec![4u8, 101]);
    let padded = BigNum::from_be_bytes(&[0, 0, 4, 101]);
    assert_eq!(padded.to_be_bytes(), vec![4u8, 101]);
    assert_eq!(padded, big(1125));
    assert_eq!(BigNum::from_be_bytes(&[]).to_be_bytes(), vec![0u8]);
}

#[test]
fn bignum_arithmetic() {
    assert_eq!(big(4).modpow(&big(123), &big(223)), big(4u64.pow(3) % 223).modpow(&big(41), &big(223)));
    assert_eq!(big(2).modpow(&big(10), &big(1000)), big(24));
    assert_eq!(big(7).modpow(&big(0), &big(1)), big(0));
    assert_eq!(big(6).mul(&big(7)), big(42));
    assert_eq!(big(6).add(&big(7)), big(13));
    assert_eq!(big(13).sub(&big(6)), big(7));
    assert_eq!(big(13).rem(&big(6)), big(1));
    assert!(big(5).equals(&big(5)));
    assert!(!big(5).equals(&big(6)));
    assert!(big(6).is_at_least(&big(5)));
    assert!(big(5).is_at_least(&big(5)));
    assert!(!big(4).is_at_least(&big(5)));
    assert!(big(13).bit(0));
    assert!(!big(13).bit(1));
    assert!(big(13).bit(3));
    assert!(!big(13).bit(200));
    let large = BigUint::from(223u32).pow(20);
    let n = BigNum::from_be_bytes(&large.to_bytes_be());
    assert_eq!(to_biguint(&n.mul(&n)), &large * &large);
    assert_eq!(to_biguint(&n.clone()), large);
}

#[test]
fn fs_piece_frames_bytes() {
    let mut t = vec![9u8];
    fs_piece(&mut t, 3, &[1, 2, 3]);
    assert_eq!(t, vec![9u8, 3, 0, 0, 0, 3, 1, 2, 3]);
    let mut e = Vec::new();
    fs_piece(&mut e, 7, &[]);
    assert_eq!(e, vec![7u8, 0, 0, 0, 0]);
}

fn digest_mod(bytes: &[u8], p: u64) -> BigNum {
    let h = Sha256::digest(bytes);
    let n = BigUint::from_bytes_be(&h) % BigUint::from(p);
    BigNum::from_be_bytes(&n.to_bytes_be())
}

#[test]
fn hash_pair_is_sha256_of_both_encodings() {
    let left = big(3);
    let right = big(1125);
    let mut bytes = vec![3u8];
    bytes.extend([4u8, 101]);
    let expected = BigNum::from_be_bytes(&Sha256::digest(&bytes));
    assert_eq!(hash_pair(&left, &right), expected);
}

#[test]
fn challenges_match_their_transcripts() {
    let (g, c, r, p) = (big(4), big(3), big(11), big(223));
    assert_eq!(challenge(&g, &c, &r, &p), digest_mod(&[4, 3, 11], 223));
    assert_eq!(challenge_for_tx(&g, &c, &r, &p, b"msg"), digest_mod(b"\x04\x03\x0bmsg", 223));

    let mut t = b"sigma-dl-v1\0".to_vec();
    for (tag, byte) in [(1u8, 4u8), (2, 3), (3, 11), (4, 223)] {
        t.extend([tag, 0, 0, 0, 1, byte]);
    }
    assert_eq!(challenge_sigma_dl(&g, &c, &r, &p), digest_mod(&t, 223));

    let mut t = b"tx-challenge-v1\0".to_vec();
    for (tag, byte) in [(1u8, 4u8), (2, 3), (3, 11), (4, 223)] {
        t.extend([tag, 0, 0, 0, 1, byte]);
    }
    t.extend([5u8, 0, 0, 0, 2, b'h', b'i']);
    assert_eq!(challenge_tx(&g, &c, &r, &p, b"hi"), digest_mod(&t, 223));
}
