use zkp::account::Account;
use zkp::bignum::BigNum;
use zkp::bits::{prove_bit_or, range_zk_verify, verify_bit_or};
use zkp::commitment::commit;
use zkp::decimal::{from_decimal, parse_decimal, parse_path_csv, trim_white_space};
use zkp::error::RollupError;
use zkp::merkle::{build_tree, hash_pair, merkle_proof};
use zkp::state::State;
use zkp::text::{
    bit_or_prove_decimal, bit_or_verify_decimal, merkle_verify_explain_decimal,
    parse_proof_fields, range_decompose_decimal, range_zk_verify_decimal,
    sign_transaction_decimal, ProofFields,
};
use zkp::wallet::{public_key, sign_transaction};

fn big(x: u64) -> BigNum {
    BigNum::from_u64(x)
}

fn err<T>(r: Result<T, String>) -> String {
    match r {
        Ok(_) => panic!("expected an error"),
        Err(e) => e,
    }
}

fn setup() -> (State, BigNum) {
    let p = big(223);
    let g = big(4);
    let secret = big(2232);
    let mut state = State::new(p.clone(), g.clone());
    let pk = public_key(&secret, &g, &p);
    state.add_account(Account::new(1, 100, pk.clone()));
    state.add_account(Account::new(2, 50, pk));
    (state, secret)
}

#[test]
fn replayed_transfer_is_refused() {
    let (mut state, secret) = setup();
    let tx = sign_transaction(1, 2, 30, 1, &secret, &state.g, &state.p);
    assert!(state.apply_tx(&tx).is_ok());
    assert_eq!(state.apply_tx(&tx).err().unwrap(), "invalid nonce");
    assert_eq!(state.accounts[&1].balance, 70);
    assert_eq!(state.accounts[&2].balance, 80);
    assert_eq!(state.accounts[&1].nonce, 1);
    let next = sign_transaction(1, 2, 30, 2, &secret, &state.g, &state.p);
    assert!(state.apply_tx(&next).is_ok());
    assert_eq!(state.accounts[&1].balance, 40);
    assert_eq!(state.accounts[&1].nonce, 2);
}

#[test]
fn wrong_nonce_is_refused_before_the_signature() {
    let (mut state, secret) = setup();
    let skipped = sign_transaction(1, 2, 30, 2, &secret, &state.g, &state.p);
    assert_eq!(state.apply_tx(&skipped).err().unwrap(), "invalid nonce");
    let stale = sign_transaction(1, 2, 30, 0, &big(7), &state.g, &state.p);
    assert_eq!(state.validate_tx(&stale).err().unwrap(), "invalid nonce");
    assert_eq!(state.accounts[&1].balance, 100);
}

#[test]
fn try_apply_refuses_overflow_and_applies_otherwise() {
    let (mut state, secret) = setup();
    let pk = state.accounts[&1].pubkey.clone();
    state.add_account(Account { id: 3, balance: u64::MAX, nonce: 0, pubkey: pk });
    let over = sign_transaction(1, 3, 1, 1, &secret, &state.g, &state.p);
    assert_eq!(state.try_apply(&over).err().unwrap(), "balance overflow");
    assert_eq!(state.accounts[&1].balance, 100);
    let ok = sign_transaction(1, 2, 10, 1, &secret, &state.g, &state.p);
    assert!(state.try_apply(&ok).is_ok());
    assert_eq!(state.accounts[&2].balance, 60);
    assert_eq!(state.try_apply(&ok).err().unwrap(), "invalid nonce");
}

#[test]
fn transfer_keeps_the_total() {
    let (mut state, secret) = setup();
    let tx = sign_transaction(2, 1, 50, 1, &secret, &state.g, &state.p);
    assert!(state.apply_tx(&tx).is_ok());
    let total: u64 = state.accounts.values().map(|a| a.balance).sum();
    assert_eq!(total, 150);
}

#[test]
fn error_messages() {
    assert_eq!(RollupError::AccountNotFound { id: 7 }.message(), "account 7 not found");
    assert_eq!(
        RollupError::InsufficientBalance { available: 10, requested: 100 }.message(),
        "insufficient balance: have 10, need 100"
    );
    assert_eq!(RollupError::InvalidSignature.message(), "invalid signature");
    assert_eq!(RollupError::StateRootMismatch.message(), "state root mismatch");
}

#[test]
fn decimal_text_round_trips() {
    assert_eq!(from_decimal("223"), Some(big(223)));
    assert_eq!(from_decimal("+1_000"), Some(big(1000)));
    assert_eq!(from_decimal("0"), Some(big(0)));
    assert!(from_decimal("").is_none());
    assert!(from_decimal("_1").is_none());
    assert!(from_decimal("++1").is_none());
    assert!(from_decimal("-1").is_none());
    assert!(from_decimal(" 1").is_none());
    assert_eq!(parse_decimal("").err().unwrap(), "cannot parse integer from empty string");
    assert_eq!(parse_decimal("+").err().unwrap(), "cannot parse integer from empty string");
    assert_eq!(parse_decimal("1x").err().unwrap(), "invalid digit found in string");
    assert_eq!(big(0).to_decimal(), "0");
    assert_eq!(big(1234567890123).to_decimal(), "1234567890123");
    let huge = from_decimal("340282366920938463463374607431768211457").unwrap();
    assert_eq!(huge.to_decimal(), "340282366920938463463374607431768211457");
}

#[test]
fn comma_lists_are_trimmed_and_skip_empty_items() {
    assert_eq!(trim_white_space("  a b\t\n"), "a b");
    assert_eq!(trim_white_space("\u{3000}x\u{a0}"), "x");
    assert_eq!(parse_path_csv(" 1, 22 ,,333,"), Some(vec![big(1), big(22), big(333)]));
    assert_eq!(parse_path_csv(""), Some(vec![]));
    assert_eq!(parse_path_csv(" , "), Some(vec![]));
    assert!(parse_path_csv("1,x,3").is_none());
}

#[test]
fn range_check_answers_bad_bit_counts_and_bad_text() {
    let (g, h, p) = (big(4), big(9), big(223));
    assert_eq!(err(range_zk_verify(&big(10), &big(7), 0, &g, &h, &p)), "num_bits must be 1..=32");
    assert_eq!(err(range_zk_verify(&big(10), &big(7), 33, &g, &h, &p)), "num_bits must be 1..=32");
    assert_eq!(err(range_zk_verify_decimal("x", "7", 0, "4", "3", "223")), "num_bits must be 1..=32");
    assert_eq!(err(range_zk_verify_decimal("abc", "7", 8, "4", "3", "223")), "invalid v");
    assert_eq!(err(range_zk_verify_decimal("10", "", 8, "4", "3", "223")), "invalid T");
    assert_eq!(err(range_zk_verify_decimal("10", "7", 8, "g", "3", "223")), "invalid g");
    assert_eq!(err(range_zk_verify_decimal("10", "7", 8, "4", "h", "223")), "invalid h");
    assert_eq!(err(range_zk_verify_decimal("10", "7", 8, "4", "3", "p")), "invalid p");
    assert_eq!(
        err(range_zk_verify_decimal("5", "7", 8, "4", "3", "223")),
        "v < T: cannot prove non-negative delta"
    );
    let rep = range_zk_verify_decimal("10", "7", 32, "4", "3", "223").ok().unwrap();
    assert_eq!(rep.bits.len(), 32);
    assert!(rep.all_ok);
}

#[test]
fn decompose_from_text() {
    let d = range_decompose_decimal("13", "2", 4).ok().unwrap();
    assert_eq!(d.delta, big(11));
    assert_eq!(d.bits, vec![big(1), big(1), big(0), big(1)]);
    assert_eq!(d.reconstructed, big(11));
    assert_eq!(
        err(range_decompose_decimal("2", "13", 4)),
        "v < T: cannot prove non-negative delta"
    );
}

#[test]
fn bit_or_prove_from_text() {
    assert_eq!(err(bit_or_prove_decimal("x", "1", "4", "9", "223")), "invalid b: must be decimal BigUint");
    assert_eq!(err(bit_or_prove_decimal("2", "x", "4", "9", "223")), "b must be 0 or 1");
    assert_eq!(err(bit_or_prove_decimal("1", "x", "4", "9", "223")), "invalid r: must be decimal BigUint");
    assert_eq!(err(bit_or_prove_decimal("1", "5", "x", "9", "223")), "invalid g: must be decimal BigUint");
    assert_eq!(err(bit_or_prove_decimal("1", "5", "4", "x", "223")), "invalid h: must be decimal BigUint");
    assert_eq!(err(bit_or_prove_decimal("1", "5", "4", "9", "x")), "invalid p: must be decimal BigUint");
    let rep = bit_or_prove_decimal("1", "5", "4", "9", "223").ok().unwrap();
    assert_eq!(rep.c_bit, commit(&big(1), &big(5), &big(4), &big(9), &big(223)));
    assert!(rep.verify_ok);
}

fn fields_of(p: &zkp::bits::BitOrProof) -> ProofFields {
    ProofFields {
        a0: Some(p.a0.to_decimal()),
        a1: Some(p.a1.to_decimal()),
        s0: Some(p.s0.to_decimal()),
        s1: Some(p.s1.to_decimal()),
        e_fake: Some(p.e_fake.to_decimal()),
        fake_is_branch1: Some(p.fake_is_branch1),
    }
}

#[test]
fn proof_fields_name_the_first_bad_field() {
    let (g, h, p) = (big(4), big(9), big(223));
    let c = commit(&big(0), &big(5), &g, &h, &p);
    let pr = prove_bit_or(&big(0), &big(5), &c, &g, &h, &p);
    let good = fields_of(&pr);
    let back = parse_proof_fields(&good).ok().unwrap();
    assert!(verify_bit_or(&back, &c, &g, &h, &p));

    let mut f = fields_of(&pr);
    f.a1 = None;
    f.s0 = Some("x".to_string());
    assert_eq!(err(parse_proof_fields(&f)), "missing or non-string field: a1");
    let mut f = fields_of(&pr);
    f.s0 = Some("x".to_string());
    assert_eq!(err(parse_proof_fields(&f)), "s0: invalid digit found in string");
    let mut f = fields_of(&pr);
    f.e_fake = Some("".to_string());
    assert_eq!(err(parse_proof_fields(&f)), "e_fake: cannot parse integer from empty string");
    let mut f = fields_of(&pr);
    f.fake_is_branch1 = None;
    assert_eq!(err(parse_proof_fields(&f)), "missing fake_is_branch1");
}

#[test]
fn bit_or_verify_from_text() {
    let (g, h, p) = (big(4), big(9), big(223));
    let c = commit(&big(1), &big(8), &g, &h, &p);
    let pr = prove_bit_or(&big(1), &big(8), &c, &g, &h, &p);
    let cs = c.to_decimal();
    let ok: Result<ProofFields, String> = Ok(fields_of(&pr));
    assert_eq!(bit_or_verify_decimal(&cs, &ok, "4", "9", "223"), Ok(true));
    assert_eq!(bit_or_verify_decimal("12", &ok, "4", "9", "223"), Ok(false));
    let bad_json: Result<ProofFields, String> = Err("expected value".to_string());
    assert_eq!(err(bit_or_verify_decimal("c", &bad_json, "4", "9", "223")), "invalid c_bit");
    assert_eq!(err(bit_or_verify_decimal(&cs, &bad_json, "4", "9", "223")), "expected value");
    assert_eq!(err(bit_or_verify_decimal(&cs, &ok, "g", "9", "223")), "invalid g");
    assert_eq!(err(bit_or_verify_decimal(&cs, &ok, "4", "h", "223")), "invalid h");
    assert_eq!(err(bit_or_verify_decimal(&cs, &ok, "4", "9", "p")), "invalid p");
}

#[test]
fn merkle_explain_from_text() {
    let leaves = vec![big(3), big(4), big(5), big(6)];
    let root = build_tree(leaves.clone());
    let path = merkle_proof(&leaves, 2);
    let csv = path.iter().map(|n| n.to_decimal()).collect::<Vec<_>>().join(", ");
    let (steps, computed, expected, valid) =
        merkle_verify_explain_decimal("5", 2, &csv, &root.to_decimal());
    assert!(valid);
    assert_eq!(computed, root);
    assert_eq!(expected, root);
    assert_eq!(steps.len(), 2);
    assert!(steps[0].current_is_left);
    assert_eq!(steps[0].out, hash_pair(&big(5), &big(6)));
    assert!(!steps[1].current_is_left);
    assert_eq!(steps[1].out, root);
    let (_, _, _, wrong) = merkle_verify_explain_decimal("7", 2, &csv, &root.to_decimal());
    assert!(!wrong);
}

#[test]
fn sign_from_text_verifies() {
    let (mut state, _) = setup();
    let tx = sign_transaction_decimal(1, 2, 30, 1, "2232", "223", "4");
    assert_eq!((tx.from, tx.to, tx.amount, tx.nonce), (1, 2, 30, 1));
    assert!(state.apply_tx(&tx).is_ok());
    assert_eq!(state.accounts[&2].balance, 80);
}

#[test]
fn decimal_digits_read_back() {
    for n in [0u64, 7, 10, 99, 100, 123456789, u64::MAX] {
        let text = big(n).to_decimal();
        assert_eq!(from_decimal(&text), Some(big(n)));
    }
}

#[test]
fn text_proof_round_trips_through_the_verifier() {
    let rep = bit_or_prove_decimal("0", "17", "4", "9", "223").ok().unwrap();
    let fields: Result<ProofFields, String> = Ok(fields_of(&rep.proof));
    let back = parse_proof_fields(fields.as_ref().ok().unwrap()).ok().unwrap();
    assert_eq!(back.a0, rep.proof.a0);
    assert_eq!(back.s1, rep.proof.s1);
    assert_eq!(back.fake_is_branch1, rep.proof.fake_is_branch1);
    assert_eq!(bit_or_verify_decimal(&rep.c_bit.to_decimal(), &fields, "4", "9", "223"), Ok(true));
}

#[test]
fn refusals_before_the_signature_need_no_modulus() {
    let mut state = State::new(big(0), big(4));
    state.add_account(Account::new(1, 5, big(3)));
    let (_, secret) = setup();
    let tx = sign_transaction(9, 1, 1, 1, &secret, &big(4), &big(223));
    assert_eq!(state.apply_tx(&tx).err().unwrap(), "from account not found");
    let tx = sign_transaction(1, 1, 10, 1, &secret, &big(4), &big(223));
    assert_eq!(state.try_apply(&tx).err().unwrap(), "insufficient balance");
}
