use num_bigint::BigUint;
use sha2::{Digest, Sha256};
use zkp::access::api_key_allows;
use zkp::account::Account;
use zkp::bignum::BigNum;
use zkp::dto::AccountSummary;
use zkp::error::RollupError;
use zkp::merkle::hash_pair;
use zkp::sigma::Proof;
use zkp::state::State;
use zkp::transaction::Transaction;
use zkp::wallet::{public_key, sign_transaction};

fn big(x: u64) -> BigNum {
    BigNum::from_u64(x)
}

fn setup() -> (State, BigNum) {
    let p = big(223);
    let g = big(4);
    let secret = big(12345);
    let mut state = State::new(p.clone(), g.clone());
    let pk = public_key(&secret, &g, &p);
    state.add_account(Account::new(1, 100, pk.clone()));
    state.add_account(Account::new(2, 50, pk.clone()));
    state.add_account(Account::new(3, 200, pk.clone()));
    state.add_account(Account::new(4, 0, pk));
    (state, secret)
}

#[test]
fn signed_transfer_moves_the_amount() {
    let (mut state, secret) = setup();
    let tx = sign_transaction(1, 4, 30, 1, &secret, &state.g, &state.p);
    assert!(state.validate_tx(&tx).is_ok());
    assert!(state.apply_tx(&tx).is_ok());
    assert_eq!(state.accounts[&1].balance, 70);
    assert_eq!(state.accounts[&1].nonce, 1);
    assert_eq!(state.accounts[&4].balance, 30);
    assert_eq!(state.accounts[&4].nonce, 0);
    assert_eq!(state.accounts[&2].balance, 50);
    let total: u64 = state.accounts.values().map(|a| a.balance).sum();
    assert_eq!(total, 350);
}

#[test]
fn transfer_to_oneself_only_bumps_the_nonce() {
    let (mut state, secret) = setup();
    let tx = sign_transaction(3, 3, 50, 1, &secret, &state.g, &state.p);
    assert!(state.apply_tx(&tx).is_ok());
    assert_eq!(state.accounts[&3].balance, 200);
    assert_eq!(state.accounts[&3].nonce, 1);
}

#[test]
fn refused_transfers_name_the_reason_and_change_nothing() {
    let (mut state, secret) = setup();
    let root = state.state_root();
    let cases = [
        (sign_transaction(9, 1, 1, 1, &secret, &state.g, &state.p), "from account not found"),
        (sign_transaction(2, 1, 51, 1, &secret, &state.g, &state.p), "insufficient balance"),
        (sign_transaction(2, 9, 1, 1, &secret, &state.g, &state.p), "to account not found"),
        (sign_transaction(2, 1, 1, 1, &big(999), &state.g, &state.p), "invalid signature"),
    ];
    for (tx, msg) in cases.iter() {
        assert_eq!(state.apply_tx(tx).err().unwrap(), *msg);
        assert_eq!(state.validate_tx(tx).err().unwrap(), *msg);
    }
    // A signature over another message does not transfer.
    let mut forged = sign_transaction(2, 1, 1, 1, &secret, &state.g, &state.p);
    forged.amount = 40;
    assert_eq!(state.apply_tx(&forged).err().unwrap(), "invalid signature");
    assert_eq!(state.state_root(), root);
    assert_eq!(state.accounts[&2].balance, 50);
}

#[test]
fn range_checks_before_applying() {
    let (mut state, secret) = setup();
    let pk = state.accounts[&1].pubkey.clone();
    state.add_account(Account { id: 5, balance: u64::MAX, nonce: u64::MAX, pubkey: pk });
    let tx = sign_transaction(1, 5, 1, 1, &secret, &state.g, &state.p);
    assert!(!state.transfer_in_range(&tx));
    let ok = sign_transaction(1, 2, 1, 1, &secret, &state.g, &state.p);
    assert!(state.transfer_in_range(&ok));
}

#[test]
fn account_hash_covers_all_fields() {
    let a = Account::new(7, 1000, big(1125));
    let mut bytes = Vec::new();
    bytes.extend(7u32.to_be_bytes());
    bytes.extend(1000u64.to_be_bytes());
    bytes.extend(0u64.to_be_bytes());
    bytes.extend([4u8, 101]);
    let expected = BigNum::from_be_bytes(&Sha256::digest(&bytes));
    assert_eq!(a.hash(), expected);
}

#[test]
fn state_root_is_the_tree_over_sorted_account_hashes() {
    let (state, _) = setup();
    let h: Vec<BigNum> = [1u32, 2, 3, 4].iter().map(|id| state.accounts[id].hash()).collect();
    let expected = hash_pair(&hash_pair(&h[0], &h[1]), &hash_pair(&h[2], &h[3]));
    assert_eq!(state.state_root(), expected);
    let mut one = State::new(big(223), big(4));
    one.add_account(Account::new(9, 1, big(5)));
    assert_eq!(one.state_root(), one.accounts[&9].hash());
}

#[test]
fn message_bytes_are_big_endian_fields() {
    let tx = Transaction {
        from: 1,
        to: 2,
        amount: 30,
        nonce: 1,
        proof: Proof { r: big(0), z: big(0) },
        challenge_e: big(0),
    };
    let mut expected = Vec::new();
    expected.extend(1u32.to_be_bytes());
    expected.extend(2u32.to_be_bytes());
    expected.extend(30u64.to_be_bytes());
    expected.extend(1u64.to_be_bytes());
    assert_eq!(tx.message_to_bytes(), expected);
}

#[test]
fn summaries_and_lookups() {
    let (state, _) = setup();
    assert_eq!(
        state.account_summary(2).ok().unwrap(),
        AccountSummary { id: 2, balance: 50, nonce: 0 }
    );
    assert_eq!(state.account_summary(42).err().unwrap(), RollupError::AccountNotFound { id: 42 });
    let all = state.account_summaries();
    let ids: Vec<u32> = all.iter().map(|s| s.id).collect();
    assert_eq!(ids, vec![1, 2, 3, 4]);
    assert_eq!(all[2].balance, 200);
}

#[test]
fn errors_map_to_statuses_and_codes() {
    let cases = [
        (RollupError::AccountNotFound { id: 1 }, 404u16, "ACCOUNT_NOT_FOUND"),
        (RollupError::InsufficientBalance { available: 1, requested: 2 }, 400, "INSUFFICIENT_BALANCE"),
        (RollupError::InvalidSignature, 401, "INVALID_SIGNATURE"),
        (RollupError::StateRootMismatch, 409, "STATE_ROOT_MISMATCH"),
    ];
    for (e, status, code) in cases {
        assert_eq!(e.status_code(), status);
        assert_eq!(e.code(), code);
    }
}

#[test]
fn api_key_rules() {
    assert!(api_key_allows("", ""));
    assert!(api_key_allows("", "anything"));
    assert!(api_key_allows("secret", "secret"));
    assert!(!api_key_allows("secret", ""));
    assert!(!api_key_allows("secret", "secreT"));
    assert!(!api_key_allows("secret", "secret2"));
}

#[test]
fn public_key_is_g_to_the_secret() {
    let pk = public_key(&big(12345), &big(4), &big(223));
    let expected = BigUint::from(4u32).modpow(&BigUint::from(12345u32), &BigUint::from(223u32));
    assert_eq!(pk.to_be_bytes(), expected.to_bytes_be());
}
