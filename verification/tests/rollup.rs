use zkp::account::Account;
use zkp::bignum::BigNum;
use zkp::sigma::{challenge_for_tx, prove_commit, prove_response, Proof};
use zkp::state::State;
use zkp::transaction::Transaction;

struct TestCtx {
    p: BigNum,
    g: BigNum,
    secret: BigNum,
    pubkey: BigNum,
}

fn sign_tx(
    p: &BigNum,
    g: &BigNum,
    secret: &BigNum,
    pubkey: &BigNum,
    tx_msg: &[u8],
) -> (Proof, BigNum) {
    let (k, r) = prove_commit(g, p);
    let e = challenge_for_tx(g, pubkey, &r, p, tx_msg);
    let z = prove_response(&k, &e, secret);
    (Proof { r, z }, e)
}

fn test_setup() -> TestCtx {
    let p = BigNum::from_u64(223);
    let g = BigNum::from_u64(4);
    let secret = BigNum::from_u64(2232);
    let pubkey = g.modpow(&secret, &p);
    TestCtx { p, g, secret, pubkey }
}

fn message(from: u32, to: u32, amount: u64, nonce: u64) -> Vec<u8> {
    let mut msg = vec![];
    msg.extend(from.to_be_bytes());
    msg.extend(to.to_be_bytes());
    msg.extend(amount.to_be_bytes());
    msg.extend(nonce.to_be_bytes());
    msg
}

#[test]
fn test_apply_tx_success() {
    let TestCtx { p, g, secret, pubkey } = test_setup();
    let mut state = State::new(p.clone(), g.clone());
    state.add_account(Account::new(1, 100, pubkey.clone()));
    state.add_account(Account::new(2, 50, pubkey.clone()));

    let from = 1u32;
    let to = 2u32;
    let amount = 30u64;
    let nonce = 1u64;
    let msg = message(from, to, amount, nonce);

    let (proof, e) = sign_tx(&p, &g, &secret, &pubkey, &msg);
    let tx = Transaction { from, to, amount, nonce, proof, challenge_e: e };
    state.apply_tx(&tx).unwrap();

    assert_eq!(state.accounts[&1].balance, 70);
    assert_eq!(state.accounts[&2].balance, 80);
    assert_eq!(state.accounts[&1].nonce, 1);
}

#[test]
fn test_insufficient_balance() {
    let TestCtx { p, g, secret, pubkey } = test_setup();
    let mut state = State::new(p.clone(), g.clone());
    state.add_account(Account::new(1, 10, pubkey.clone()));
    state.add_account(Account::new(2, 0, pubkey.clone()));

    let msg = message(1, 2, 100, 1);
    let (proof, e) = sign_tx(&p, &g, &secret, &pubkey, &msg);
    let tx = Transaction { from: 1, to: 2, amount: 100, nonce: 1, proof, challenge_e: e };

    let result = state.apply_tx(&tx);
    assert!(result.is_err());
    assert_eq!(state.accounts[&1].balance, 10);
}

#[test]
fn test_to_account_missing() {
    let TestCtx { p, g, secret, pubkey } = test_setup();
    let mut state = State::new(p.clone(), g.clone());
    state.add_account(Account::new(1, 100, pubkey.clone()));

    let msg = message(1, 2, 100, 1);
    let (proof, e) = sign_tx(&p, &g, &secret, &pubkey, &msg);
    let tx = Transaction { from: 1, to: 2, amount: 100, nonce: 1, proof, challenge_e: e };

    let result = state.apply_tx(&tx);
    assert!(result.is_err());

    assert_eq!(state.accounts[&1].balance, 100);
    assert_eq!(state.accounts[&1].nonce, 0);
}

#[test]
fn test_state_root_deterministic() {
    let TestCtx { p, g, secret: _, pubkey } = test_setup();

    let mut state1 = State::new(p.clone(), g.clone());
    state1.add_account(Account::new(1, 100, pubkey.clone()));
    state1.add_account(Account::new(2, 10, pubkey.clone()));
    state1.add_account(Account::new(3, 200, pubkey.clone()));
    state1.add_account(Account::new(4, 20, pubkey.clone()));

    let mut state2 = State::new(p, g);
    state2.add_account(Account::new(3, 200, pubkey.clone()));
    state2.add_account(Account::new(4, 20, pubkey.clone()));
    state2.add_account(Account::new(1, 100, pubkey.clone()));
    state2.add_account(Account::new(2, 10, pubkey.clone()));

    assert_eq!(state1.state_root(), state2.state_root());
}

#[test]
fn test_state_root_changes_after_apply_tx() {
    let TestCtx { p, g, secret, pubkey } = test_setup();
    let mut state = State::new(p.clone(), g.clone());
    state.add_account(Account::new(3, 200, pubkey.clone()));
    state.add_account(Account::new(4, 20, pubkey.clone()));
    state.add_account(Account::new(1, 100, pubkey.clone()));
    state.add_account(Account::new(2, 10, pubkey.clone()));

    let root_before = state.state_root();
    let msg = message(1, 2, 100, 1);
    let (proof, e) = sign_tx(&p, &g, &secret, &pubkey, &msg);
    let tx = Transaction { from: 1, to: 2, amount: 100, nonce: 1, proof, challenge_e: e };
    state.apply_tx(&tx).unwrap();
    let root_after = state.state_root();

    assert_ne!(root_before, root_after);
}
