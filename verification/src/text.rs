//! The library's operations on decimal text, as a browser front end calls
//! them: inputs are read in a fixed order, and the first one that cannot be
//! read names the error.

use crate::bignum::{values, BigNum};
use crate::bits::{
    below_threshold_msg, bits_of, check_bit, num_bits_msg, prove_bit_or, range_decompose,
    range_outcome, range_zk_verify, verify_bit_or, BitOrProof, RangeDecomposition, RangeReport,
};
use crate::commitment::{commit, pedersen};
use crate::decimal::{
    csv_parses, csv_values, decimal_digits, decimal_value, from_decimal, is_decimal,
    lemma_decimal_round_trip, parse_decimal, parse_error_msg, parse_path_csv,
};
use crate::merkle::{merkle_verify_steps, node_hash, path_root, MerkleStep};
use crate::prime_field::is_prime;
use crate::state::{tx_challenge, tx_signed_by};
use crate::transaction::Transaction;
use crate::wallet::sign_transaction;
use vstd::arithmetic::power::pow;
use vstd::prelude::*;
use vstd::string::StringExecFns;

verus! {

broadcast use vstd::string::to_string_from_display_ensures_for_str;

/// Reads `text`, or answers with `msg`.
fn read_or(text: &str, msg: &str) -> (res: Result<BigNum, String>)
    ensures
        is_decimal(text@) ==> (res matches Ok(n) && n@ == decimal_value(text@)),
        !is_decimal(text@) ==> (res matches Err(m) && m@ == msg@),
{
    match from_decimal(text) {
        Some(n) => Ok(n),
        None => Err(msg.to_string()),
    }
}

/// The range check on decimal text: the number of bits is checked first,
/// then `v`, `T`, `g`, `h` and `p` are read in that order, and the first
/// that is not a decimal number names the error; then the check runs as
/// `range_zk_verify` does.
pub fn range_zk_verify_decimal(
    v: &str,
    t: &str,
    num_bits: usize,
    g: &str,
    h: &str,
    p: &str,
) -> (res: Result<RangeReport, String>)
    requires
        1 <= num_bits <= 32 && is_decimal(v@) && is_decimal(t@) && is_decimal(g@) && is_decimal(h@)
            && is_decimal(p@) && decimal_value(v@) >= decimal_value(t@) ==> decimal_value(p@) >= 2,
    ensures
        (num_bits == 0 || num_bits > 32) ==> (res matches Err(m) && m@ == num_bits_msg()),
        1 <= num_bits <= 32 && !is_decimal(v@) ==> (res matches Err(m) && m@ == "invalid v"@),
        1 <= num_bits <= 32 && is_decimal(v@) && !is_decimal(t@) ==> (res matches Err(m) && m@
            == "invalid T"@),
        1 <= num_bits <= 32 && is_decimal(v@) && is_decimal(t@) && !is_decimal(g@) ==> (res matches Err(
            m,
        ) && m@ == "invalid g"@),
        1 <= num_bits <= 32 && is_decimal(v@) && is_decimal(t@) && is_decimal(g@) && !is_decimal(h@)
            ==> (res matches Err(m) && m@ == "invalid h"@),
        1 <= num_bits <= 32 && is_decimal(v@) && is_decimal(t@) && is_decimal(g@) && is_decimal(h@)
            && !is_decimal(p@) ==> (res matches Err(m) && m@ == "invalid p"@),
        1 <= num_bits <= 32 && is_decimal(v@) && is_decimal(t@) && is_decimal(g@) && is_decimal(h@)
            && is_decimal(p@) ==> range_outcome(
            res,
            decimal_value(v@),
            decimal_value(t@),
            num_bits as nat,
            decimal_value(g@),
            decimal_value(h@),
            decimal_value(p@),
        ),
{
    if num_bits == 0 || num_bits > 32 {
        return range_zk_verify(&BigNum::from_u64(0), &BigNum::from_u64(0), num_bits, &BigNum::from_u64(0),
            &BigNum::from_u64(0), &BigNum::from_u64(0));
    }
    let v = read_or(v, "invalid v")?;
    let t = read_or(t, "invalid T")?;
    let g = read_or(g, "invalid g")?;
    let h = read_or(h, "invalid h")?;
    let p = read_or(p, "invalid p")?;
    range_zk_verify(&v, &t, num_bits, &g, &h, &p)
}

/// Splits `v - T` into bits, reading `v` and `T` from decimal text.
pub fn range_decompose_decimal(v: &str, t: &str, num_bits: usize) -> (res: Result<
    RangeDecomposition,
    String,
>)
    requires
        is_decimal(v@),
        is_decimal(t@),
        decimal_value(v@) >= decimal_value(t@) ==> num_bits <= 32,
    ensures
        (decimal_value(v@) < decimal_value(t@)) <==> res is Err,
        res matches Err(msg) ==> msg@ == below_threshold_msg(),
        res matches Ok(d) ==> {
            &&& d.delta@ == decimal_value(v@) - decimal_value(t@)
            &&& values(d.bits@) == bits_of(d.delta@, num_bits as nat)
            &&& d.reconstructed@ == d.delta@ % (pow(2, num_bits as nat) as nat)
        },
{
    let v = from_decimal(v).unwrap();
    let t = from_decimal(t).unwrap();
    range_decompose(&v, &t, num_bits)
}

/// A bit commitment with its bit-OR proof and whether the proof verifies.
pub struct BitOrProveReport {
    pub c_bit: BigNum,
    pub proof: BitOrProof,
    pub verify_ok: bool,
}

/// Commits to a bit and proves it is a bit, reading `b`, `r`, `g`, `h`, `p`
/// from decimal text.  `b` is read and checked to be 0 or 1 first, then
/// `r`, `g`, `h` and `p` are read in that order.
pub fn bit_or_prove_decimal(b: &str, r: &str, g: &str, h: &str, p: &str) -> (res: Result<
    BitOrProveReport,
    String,
>)
    requires
        is_decimal(b@) && (decimal_value(b@) == 0 || decimal_value(b@) == 1) && is_decimal(r@)
            && is_decimal(g@) && is_decimal(h@) && is_decimal(p@) ==> decimal_value(p@) >= 2,
    ensures
        !is_decimal(b@) ==> (res matches Err(m) && m@ == "invalid b: must be decimal BigUint"@),
        is_decimal(b@) && decimal_value(b@) != 0 && decimal_value(b@) != 1 ==> (res matches Err(m)
            && m@ == "b must be 0 or 1"@),
        is_decimal(b@) && decimal_value(b@) <= 1 && !is_decimal(r@) ==> (res matches Err(m) && m@
            == "invalid r: must be decimal BigUint"@),
        is_decimal(b@) && decimal_value(b@) <= 1 && is_decimal(r@) && !is_decimal(g@) ==> (
        res matches Err(m) && m@ == "invalid g: must be decimal BigUint"@),
        is_decimal(b@) && decimal_value(b@) <= 1 && is_decimal(r@) && is_decimal(g@) && !is_decimal(
            h@,
        ) ==> (res matches Err(m) && m@ == "invalid h: must be decimal BigUint"@),
        is_decimal(b@) && decimal_value(b@) <= 1 && is_decimal(r@) && is_decimal(g@) && is_decimal(
            h@,
        ) && !is_decimal(p@) ==> (res matches Err(m) && m@ == "invalid p: must be decimal BigUint"@),
        is_decimal(b@) && decimal_value(b@) <= 1 && is_decimal(r@) && is_decimal(g@) && is_decimal(
            h@,
        ) && is_decimal(p@) ==> (res matches Ok(rep) && {
            let (bv, rv, gv, hv, pv) = (
                decimal_value(b@),
                decimal_value(r@),
                decimal_value(g@),
                decimal_value(h@),
                decimal_value(p@),
            );
            &&& rep.c_bit@ == pedersen(bv, rv, gv, hv, pv)
            &&& rep.proof.built_randomly(bv, rv, rep.c_bit@, gv, hv, pv)
            &&& rep.verify_ok == rep.proof.accepts(rep.c_bit@, gv, hv, pv)
            &&& (is_prime(pv) && gv % pv != 0 && hv % pv != 0 ==> rep.verify_ok)
        }),
{
    let bv = read_or(b, "invalid b: must be decimal BigUint")?;
    check_bit(&bv)?;
    let rv = read_or(r, "invalid r: must be decimal BigUint")?;
    let gv = read_or(g, "invalid g: must be decimal BigUint")?;
    let hv = read_or(h, "invalid h: must be decimal BigUint")?;
    let pv = read_or(p, "invalid p: must be decimal BigUint")?;
    let c_bit = commit(&bv, &rv, &gv, &hv, &pv);
    let or_proof = prove_bit_or(&bv, &rv, &c_bit, &gv, &hv, &pv);
    let verify_ok = verify_bit_or(&or_proof, &c_bit, &gv, &hv, &pv);
    proof {
        if is_prime(pv@) && gv@ % pv@ != 0 && hv@ % pv@ != 0 {
            crate::bits::lemma_prove_bit_or_accepted(or_proof, bv@, rv@, gv@, hv@, pv@);
        }
    }
    Ok(BitOrProveReport { c_bit, proof: or_proof, verify_ok })
}

/// The fields of a bit-OR proof as a JSON object gives them: each number as
/// a string, when the field is a string, and the flag when it is a boolean.
pub struct ProofFields {
    pub a0: Option<String>,
    pub a1: Option<String>,
    pub s0: Option<String>,
    pub s1: Option<String>,
    pub e_fake: Option<String>,
    pub fake_is_branch1: Option<bool>,
}

/// Why the proof field `name` cannot be read, if it cannot.
pub open spec fn field_error(value: Option<String>, name: Seq<char>) -> Option<Seq<char>> {
    match value {
        None => Some("missing or non-string field: "@ + name),
        Some(text) => if is_decimal(text@) {
            None
        } else {
            Some(name + ": "@ + parse_error_msg(text@))
        },
    }
}

/// Why a bit-OR proof cannot be read from its fields: the first field, in
/// the order `a0`, `a1`, `s0`, `s1`, `e_fake`, `fake_is_branch1`, that is
/// missing or malformed.
pub open spec fn proof_fields_error(f: ProofFields) -> Option<Seq<char>> {
    if field_error(f.a0, "a0"@) is Some {
        field_error(f.a0, "a0"@)
    } else if field_error(f.a1, "a1"@) is Some {
        field_error(f.a1, "a1"@)
    } else if field_error(f.s0, "s0"@) is Some {
        field_error(f.s0, "s0"@)
    } else if field_error(f.s1, "s1"@) is Some {
        field_error(f.s1, "s1"@)
    } else if field_error(f.e_fake, "e_fake"@) is Some {
        field_error(f.e_fake, "e_fake"@)
    } else if f.fake_is_branch1 is None {
        Some("missing fake_is_branch1"@)
    } else {
        None
    }
}

/// Whether `proof` holds exactly the numbers and the flag of the fields.
pub open spec fn proof_from_fields(proof: BitOrProof, f: ProofFields) -> bool {
    &&& proof.a0@ == decimal_value(f.a0->0@)
    &&& proof.a1@ == decimal_value(f.a1->0@)
    &&& proof.s0@ == decimal_value(f.s0->0@)
    &&& proof.s1@ == decimal_value(f.s1->0@)
    &&& proof.e_fake@ == decimal_value(f.e_fake->0@)
    &&& proof.fake_is_branch1 == f.fake_is_branch1->0
}

fn read_field(value: &Option<String>, name: &str) -> (res: Result<BigNum, String>)
    ensures
        field_error(*value, name@) is Some ==> (res matches Err(m) && Some(m@) == field_error(
            *value,
            name@,
        )),
        field_error(*value, name@) is None ==> (res matches Ok(n) && n@ == decimal_value(
            value->0@,
        )),
{
    match value {
        None => {
            let mut m = String::from_str("missing or non-string field: ");
            m.append(name);
            Err(m)
        },
        Some(text) => match parse_decimal(text.as_str()) {
            Ok(n) => Ok(n),
            Err(e) => {
                let mut m = String::from_str(name);
                m.append(": ");
                m.append(e.as_str());
                Err(m)
            },
        },
    }
}

/// Reads a bit-OR proof from its fields, or names the first field that is
/// missing or malformed.
pub fn parse_proof_fields(f: &ProofFields) -> (res: Result<BitOrProof, String>)
    ensures
        proof_fields_error(*f) is Some ==> (res matches Err(e) && Some(e@) == proof_fields_error(*f)),
        proof_fields_error(*f) is None ==> (res matches Ok(pr) && proof_from_fields(pr, *f)),
{
    let a0 = read_field(&f.a0, "a0")?;
    let a1 = read_field(&f.a1, "a1")?;
    let s0 = read_field(&f.s0, "s0")?;
    let s1 = read_field(&f.s1, "s1")?;
    let e_fake = read_field(&f.e_fake, "e_fake")?;
    match f.fake_is_branch1 {
        Some(fake_is_branch1) => Ok(BitOrProof { a0, a1, s0, s1, e_fake, fake_is_branch1 }),
        None => Err("missing fake_is_branch1".to_string()),
    }
}

/// Why the bit-OR check on decimal text refuses its inputs: the commitment
/// is read first, then the proof (`fields` is the outcome of reading its
/// JSON), then `g`, `h` and `p`.
pub open spec fn verify_text_error(
    c_bit: Seq<char>,
    fields: Result<ProofFields, String>,
    g: Seq<char>,
    h: Seq<char>,
    p: Seq<char>,
) -> Option<Seq<char>> {
    if !is_decimal(c_bit) {
        Some("invalid c_bit"@)
    } else if fields is Err {
        Some(fields->Err_0@)
    } else if proof_fields_error(fields->Ok_0) is Some {
        proof_fields_error(fields->Ok_0)
    } else if !is_decimal(g) {
        Some("invalid g"@)
    } else if !is_decimal(h) {
        Some("invalid h"@)
    } else if !is_decimal(p) {
        Some("invalid p"@)
    } else {
        None
    }
}

/// Whether the proof that the fields hold is accepted for the commitment
/// `c` in the group given by `g`, `h`, `p`.
pub open spec fn fields_accepted(f: ProofFields, c: nat, g: nat, h: nat, p: nat) -> bool {
    exists|pr: BitOrProof| #[trigger] proof_from_fields(pr, f) && pr.accepts(c, g, h, p)
}

/// Verifies a bit-OR proof against a commitment, from decimal text.
pub fn bit_or_verify_decimal(
    c_bit: &str,
    fields: &Result<ProofFields, String>,
    g: &str,
    h: &str,
    p: &str,
) -> (res: Result<bool, String>)
    requires
        verify_text_error(c_bit@, *fields, g@, h@, p@) is None ==> decimal_value(p@) >= 2,
    ensures
        verify_text_error(c_bit@, *fields, g@, h@, p@) is Some ==> (res matches Err(m) && Some(m@)
            == verify_text_error(c_bit@, *fields, g@, h@, p@)),
        verify_text_error(c_bit@, *fields, g@, h@, p@) is None ==> (res matches Ok(ok) && ok
            == fields_accepted(
            fields->Ok_0,
            decimal_value(c_bit@),
            decimal_value(g@),
            decimal_value(h@),
            decimal_value(p@),
        )),
{
    let c = read_or(c_bit, "invalid c_bit")?;
    let f = match fields {
        Ok(f) => f,
        Err(e) => {
            return Err(e.clone());
        },
    };
    let pr = parse_proof_fields(f)?;
    let gv = read_or(g, "invalid g")?;
    let hv = read_or(h, "invalid h")?;
    let pv = read_or(p, "invalid p")?;
    let ok = verify_bit_or(&pr, &c, &gv, &hv, &pv);
    assert(proof_from_fields(pr, *f));
    Ok(ok)
}

/// Whether the fields hold `pr` written out: the decimal digits of each of
/// its numbers, and its flag.
pub open spec fn fields_written_from(f: ProofFields, pr: BitOrProof) -> bool {
    &&& f.a0 is Some && f.a0->0@ == decimal_digits(pr.a0@)
    &&& f.a1 is Some && f.a1->0@ == decimal_digits(pr.a1@)
    &&& f.s0 is Some && f.s0->0@ == decimal_digits(pr.s0@)
    &&& f.s1 is Some && f.s1->0@ == decimal_digits(pr.s1@)
    &&& f.e_fake is Some && f.e_fake->0@ == decimal_digits(pr.e_fake@)
    &&& f.fake_is_branch1 == Some(pr.fake_is_branch1)
}

/// A bit-OR proof written out as decimal text reads back as the same proof:
/// no field is refused, and the proof read holds the same numbers and flag.
pub proof fn lemma_proof_text_round_trip(pr: BitOrProof, f: ProofFields)
    requires
        fields_written_from(f, pr),
    ensures
        proof_fields_error(f) is None,
        proof_from_fields(pr, f),
{
    lemma_decimal_round_trip(pr.a0@);
    lemma_decimal_round_trip(pr.a1@);
    lemma_decimal_round_trip(pr.s0@);
    lemma_decimal_round_trip(pr.s1@);
    lemma_decimal_round_trip(pr.e_fake@);
}

/// What the text prover gives, written out in decimal, the text verifier
/// accepts: over a prime `p` with `g` and `h` not divisible by it, a bit-OR
/// proof for a bit `b` built as `bit_or_prove_decimal` builds it, sent as
/// the decimal digits of its commitment and its fields together with any
/// decimal texts for `g`, `h` and `p`, passes every check of
/// `bit_or_verify_decimal` and is accepted.
pub proof fn lemma_text_prove_then_verify(
    pr: BitOrProof,
    f: ProofFields,
    b: nat,
    r: nat,
    g_text: Seq<char>,
    h_text: Seq<char>,
    p_text: Seq<char>,
)
    requires
        is_decimal(g_text),
        is_decimal(h_text),
        is_decimal(p_text),
        is_prime(decimal_value(p_text)),
        decimal_value(g_text) % decimal_value(p_text) != 0,
        decimal_value(h_text) % decimal_value(p_text) != 0,
        b == 0 || b == 1,
        pr.built_randomly(
            b,
            r,
            pedersen(b, r, decimal_value(g_text), decimal_value(h_text), decimal_value(p_text)),
            decimal_value(g_text),
            decimal_value(h_text),
            decimal_value(p_text),
        ),
        fields_written_from(f, pr),
    ensures
        ({
            let (g, h, p) = (decimal_value(g_text), decimal_value(h_text), decimal_value(p_text));
            let c = pedersen(b, r, g, h, p);
            &&& verify_text_error(decimal_digits(c), Ok(f), g_text, h_text, p_text) is None
            &&& decimal_value(decimal_digits(c)) == c
            &&& fields_accepted(f, c, g, h, p)
        }),
{
    let (g, h, p) = (decimal_value(g_text), decimal_value(h_text), decimal_value(p_text));
    let c = pedersen(b, r, g, h, p);
    lemma_decimal_round_trip(c);
    lemma_proof_text_round_trip(pr, f);
    crate::bits::lemma_prove_bit_or_accepted(pr, b, r, g, h, p);
    assert(proof_from_fields(pr, f) && pr.accepts(c, g, h, p));
}

/// Walks a membership path given as decimal text: the leaf, the
/// comma-separated siblings and the expected root.  Returns the steps, the
/// computed root, the expected root and whether they agree.
pub fn merkle_verify_explain_decimal(leaf: &str, index: usize, path_csv: &str, root: &str) -> (res: (
    Vec<MerkleStep>,
    BigNum,
    BigNum,
    bool,
))
    requires
        is_decimal(leaf@),
        csv_parses(path_csv@),
        is_decimal(root@),
    ensures
        ({
            let lv = decimal_value(leaf@);
            let path = csv_values(path_csv@);
            &&& res.0@.len() == path.len()
            &&& forall|i: int|
                0 <= i < path.len() ==> {
                    let cur = path_root(lv, index as nat, path.take(i));
                    let idx = index as nat / (pow(2, i as nat) as nat);
                    let st = #[trigger] res.0@[i];
                    &&& st.current_is_left == (idx % 2 == 0)
                    &&& st.left@ == (if idx % 2 == 0 { cur } else { path[i] })
                    &&& st.right@ == (if idx % 2 == 0 { path[i] } else { cur })
                    &&& st.out@ == node_hash(st.left@, st.right@)
                    &&& st.out@ == path_root(lv, index as nat, path.take(i + 1))
                }
            &&& res.1@ == path_root(lv, index as nat, path)
            &&& res.2@ == decimal_value(root@)
            &&& res.3 == (res.1@ == res.2@)
        }),
{
    let lv = from_decimal(leaf).unwrap();
    let path = parse_path_csv(path_csv).unwrap();
    let rv = from_decimal(root).unwrap();
    let (steps, computed, valid) = merkle_verify_steps(&lv, index, path.as_slice(), &rv);
    proof {
        assert forall|i: int| 0 <= i < path@.len() implies path@[i]@ == csv_values(path_csv@)[i] by {
            assert(values(path@)[i] == path@[i]@);
        }
    }
    (steps, computed, rv, valid)
}

/// Signs a transfer, reading the secret, `p` and `g` from decimal text.
pub fn sign_transaction_decimal(
    from: u32,
    to: u32,
    amount: u64,
    nonce: u64,
    secret: &str,
    p: &str,
    g: &str,
) -> (tx: Transaction)
    requires
        is_decimal(secret@),
        is_decimal(p@),
        is_decimal(g@),
        decimal_value(p@) > 0,
    ensures
        ({
            let (sv, pv, gv) = (decimal_value(secret@), decimal_value(p@), decimal_value(g@));
            let pk = (pow(gv as int, sv) % (pv as int)) as nat;
            &&& tx.from == from
            &&& tx.to == to
            &&& tx.amount == amount
            &&& tx.nonce == nonce
            &&& exists|k: nat|
                k < pv && #[trigger] pow(gv as int, k) % (pv as int) == tx.proof.r@ as int
                    && tx.proof.z@ == k + tx.challenge_e@ * sv
            &&& tx.challenge_e@ == tx_challenge(gv, pv, pk, tx)
            &&& tx_signed_by(gv, pv, pk, tx)
        }),
{
    let s = from_decimal(secret).unwrap();
    let pv = from_decimal(p).unwrap();
    let gv = from_decimal(g).unwrap();
    sign_transaction(from, to, amount, nonce, &s, &gv, &pv)
}

} // verus!
