//! The rollup's account state: a map from account id to account, the group
//! parameters, transaction application and the state root.

use crate::account::{account_hash, Account};
use crate::bignum::{be_of, values, BigNum};
use crate::dto::AccountSummary;
use crate::error::RollupError;
use crate::digest::sha256_spec;
use crate::merkle::{build_tree, is_pow2, merkle_root};
use crate::sigma::{challenge_for_tx, hash_to_mod, sigma_accepts, Proof};
use crate::transaction::{tx_message, Transaction};
use std::collections::HashMap;
use vstd::prelude::*;
use vstd::std_specs::iter::IteratorSpec;

verus! {

broadcast use vstd::std_specs::hash::group_hash_axioms;

/// Whether the ids increase strictly.
pub open spec fn strictly_increasing(s: Seq<u32>) -> bool {
    forall|i: int, j: int| 0 <= i < j < s.len() ==> s[i] < s[j]
}

/// The ids of `ids` in increasing order.
pub open spec fn sorted_ids(ids: Set<u32>) -> Seq<u32> {
    choose|s: Seq<u32>| strictly_increasing(s) && s.to_set() == ids
}

/// The members of `ids` below `n`, in increasing order.
pub open spec fn ids_below(ids: Set<u32>, n: nat) -> Seq<u32>
    decreases n,
{
    if n == 0 {
        Seq::empty()
    } else {
        let rest = ids_below(ids, (n - 1) as nat);
        if ids.contains((n - 1) as u32) {
            rest.push((n - 1) as u32)
        } else {
            rest
        }
    }
}

proof fn lemma_ids_below(ids: Set<u32>, n: nat)
    requires
        n <= 0x1_0000_0000,
    ensures
        strictly_increasing(ids_below(ids, n)),
        forall|i: int| 0 <= i < ids_below(ids, n).len() ==> #[trigger] ids_below(ids, n)[i] < n,
        forall|x: u32| #[trigger] ids_below(ids, n).contains(x) <==> (ids.contains(x) && x < n),
    decreases n,
{
    if n > 0 {
        let m = (n - 1) as nat;
        lemma_ids_below(ids, m);
        let rest = ids_below(ids, m);
        let x = m as u32;
        assert(x == m);
        if ids.contains(x) {
            let all = rest.push(x);
            assert forall|y: u32| #[trigger] all.contains(y) <==> (ids.contains(y) && y < n) by {
                if all.contains(y) {
                    let i = choose|i: int| 0 <= i < all.len() && all[i] == y;
                    if i < rest.len() {
                        assert(rest[i] == y);
                        assert(rest.contains(y));
                    }
                }
                if ids.contains(y) && y < n {
                    if y < m {
                        assert(rest.contains(y));
                        let i = choose|i: int| 0 <= i < rest.len() && rest[i] == y;
                        assert(all[i] == y);
                    } else {
                        assert(all[rest.len() as int] == y);
                    }
                }
            }
        } else {
            assert forall|y: u32| #[trigger] rest.contains(y) <==> (ids.contains(y) && y < n) by {
                if ids.contains(y) && y < n && y >= m {
                    assert(y == x);
                }
            }
        }
    }
}

/// `sorted_ids` lists the ids in increasing order: it is strictly
/// increasing and holds exactly the ids of the set.
pub proof fn lemma_sorted_ids(ids: Set<u32>)
    ensures
        strictly_increasing(sorted_ids(ids)),
        sorted_ids(ids).to_set() == ids,
        sorted_ids(ids).no_duplicates(),
{
    let w = ids_below(ids, 0x1_0000_0000);
    lemma_ids_below(ids, 0x1_0000_0000);
    assert(w.to_set() =~= ids) by {
        assert forall|x: u32| #[trigger] w.to_set().contains(x) <==> ids.contains(x) by {
            assert(x < 0x1_0000_0000);
        }
    }
    assert(strictly_increasing(w) && w.to_set() == ids);
    let s = sorted_ids(ids);
    assert(strictly_increasing(s) && s.to_set() == ids);
    assert(s.no_duplicates()) by {
        assert forall|i: int, j: int| 0 <= i < s.len() && 0 <= j < s.len() && i != j implies s[i]
            != s[j] by {
            if i < j {
                assert(s[i] < s[j]);
            } else {
                assert(s[j] < s[i]);
            }
        }
    }
}

/// Two strictly increasing sequences with the same elements are equal.
pub proof fn lemma_increasing_unique(x: Seq<u32>, y: Seq<u32>)
    requires
        strictly_increasing(x),
        strictly_increasing(y),
        x.to_set() == y.to_set(),
    ensures
        x == y,
    decreases x.len(),
{
    if x.len() == 0 {
        if y.len() > 0 {
            assert(y.to_set().contains(y[0]));
        }
        assert(x =~= y);
    } else {
        assert(x.to_set().contains(x[0]));
        assert(y.len() > 0);
        assert(y.to_set().contains(y[0]));
        assert(y.contains(x[0]));
        assert(x.contains(y[0]));
        assert(x[0] == y[0]);
        let xs = x.drop_first();
        let ys = y.drop_first();
        assert forall|a: u32| #[trigger] xs.to_set().contains(a) <==> ys.to_set().contains(a) by {
            if xs.contains(a) {
                let i = choose|i: int| 0 <= i < xs.len() && xs[i] == a;
                assert(x[i + 1] == a);
                assert(x.contains(a));
                assert(x.to_set().contains(a));
                assert(y.to_set().contains(a));
                assert(y.contains(a));
                let j = choose|j: int| 0 <= j < y.len() && y[j] == a;
                assert(j != 0);
                assert(ys[j - 1] == a);
            }
            if ys.contains(a) {
                let i = choose|i: int| 0 <= i < ys.len() && ys[i] == a;
                assert(y[i + 1] == a);
                assert(y.contains(a));
                assert(y.to_set().contains(a));
                assert(x.to_set().contains(a));
                assert(x.contains(a));
                let j = choose|j: int| 0 <= j < x.len() && x[j] == a;
                assert(j != 0);
                assert(xs[j - 1] == a);
            }
        }
        assert(xs.to_set() =~= ys.to_set());
        lemma_increasing_unique(xs, ys);
        assert(x.len() == y.len());
        assert forall|k: int| 0 <= k < x.len() implies x[k] == y[k] by {
            if k > 0 {
                assert(x[k] == xs[k - 1]);
                assert(y[k] == ys[k - 1]);
            }
        }
        assert(x =~= y);
    }
}

/// Inserts `x` into a strictly increasing vector, unless it is there.
fn insert_sorted(out: &mut Vec<u32>, x: u32)
    requires
        strictly_increasing(old(out)@),
    ensures
        strictly_increasing(final(out)@),
        final(out)@.to_set() == old(out)@.to_set().insert(x),
{
    let n = out.len();
    let mut pos: usize = 0;
    while pos < n && out[pos] < x
        invariant
            n == out@.len(),
            pos <= n,
            forall|k: int| 0 <= k < pos ==> out@[k] < x,
        decreases n - pos,
    {
        pos = pos + 1;
    }
    if pos < n && out[pos] == x {
        assert(out@.to_set() =~= old(out)@.to_set().insert(x));
        return;
    }
    let ghost before = out@;
    out.insert(pos, x);
    assert(out@.to_set() =~= before.to_set().insert(x)) by {
        assert forall|a: u32| #[trigger] out@.to_set().contains(a) <==> before.to_set().insert(x).contains(a) by {
            if out@.contains(a) {
                let i = choose|i: int| 0 <= i < out@.len() && out@[i] == a;
                if i < pos {
                    assert(before[i] == a);
                } else if i > pos {
                    assert(before[i - 1] == a);
                }
            }
            if before.contains(a) {
                let i = choose|i: int| 0 <= i < before.len() && before[i] == a;
                if i < pos {
                    assert(out@[i] == a);
                } else {
                    assert(out@[i + 1] == a);
                }
            }
            if a == x {
                assert(out@[pos as int] == x);
            }
        }
    }
}

/// The ids in `keys`, in increasing order and without repeats.
fn sort_ids(keys: &Vec<u32>) -> (ids: Vec<u32>)
    ensures
        strictly_increasing(ids@),
        ids@.to_set() == keys@.to_set(),
{
    let mut ids: Vec<u32> = Vec::new();
    let n = keys.len();
    let mut i: usize = 0;
    while i < n
        invariant
            n == keys@.len(),
            i <= n,
            strictly_increasing(ids@),
            ids@.to_set() == keys@.take(i as int).to_set(),
        decreases n - i,
    {
        insert_sorted(&mut ids, keys[i]);
        assert(keys@.take(i + 1).to_set() =~= keys@.take(i as int).to_set().insert(keys@[i as int]))
            by {
            let t1 = keys@.take(i + 1);
            let t0 = keys@.take(i as int);
            assert forall|a: u32| #[trigger] t1.to_set().contains(a) <==> t0.to_set().insert(keys@[i as int]).contains(a) by {
                if t1.contains(a) {
                    let j = choose|j: int| 0 <= j < t1.len() && t1[j] == a;
                    if j < i {
                        assert(t0[j] == a);
                    }
                }
                if t0.contains(a) {
                    let j = choose|j: int| 0 <= j < t0.len() && t0[j] == a;
                    assert(t1[j] == a);
                }
                if a == keys@[i as int] {
                    assert(t1[i as int] == a);
                }
            }
        }
        i = i + 1;
    }
    assert(keys@.take(n as int) =~= keys@);
    ids
}

/// The keys of a map of accounts, in an arbitrary order.
fn account_ids(accounts: &HashMap<u32, Account>) -> (ids: Vec<u32>)
    ensures
        ids@.to_set() == accounts@.dom(),
{
    let mut ids: Vec<u32> = Vec::new();
    let ghost keys_seq = vstd::std_specs::hash::spec_keys_iter(accounts).remaining();
    for id in it: accounts.keys()
        invariant
            it.seq() == keys_seq,
            ids@.len() == it.index(),
            forall|j: int| 0 <= j < it.index() ==> ids@[j] == *it.seq()[j],
    {
        ids.push(*id);
    }
    proof {
        vstd::std_specs::hash::axiom_spec_keys_iter(accounts);
        assert(ids@ =~= keys_seq.unref());
    }
    ids
}

/// The rollup state: all accounts by id, and the group `Z*_p` with
/// generator `g` in which signatures are checked.
#[derive(Debug)]
pub struct State {
    pub accounts: HashMap<u32, Account>,
    pub g: BigNum,
    pub p: BigNum,
}

/// The challenge of a transaction's signature under the sender's key.
pub open spec fn tx_challenge(g: nat, p: nat, pubkey: nat, tx: Transaction) -> nat {
    hash_to_mod(
        sha256_spec(
            be_of(g) + be_of(pubkey) + be_of(tx.proof.r@) + tx_message(
                tx.from,
                tx.to,
                tx.amount,
                tx.nonce,
            ),
        ),
        p,
    )
}

/// Whether the transaction's Sigma proof verifies under `pubkey`.
pub open spec fn tx_signed_by(g: nat, p: nat, pubkey: nat, tx: Transaction) -> bool {
    sigma_accepts(tx.proof.r@, tx.proof.z@, pubkey, tx_challenge(g, p, pubkey, tx), g, p)
}

/// Whether the transaction carries the sender's next nonce: one more than
/// the number of transactions the sender has sent so far.
pub open spec fn nonce_is_next(sender: Account, tx: Transaction) -> bool {
    tx.nonce as int == sender.nonce as int + 1
}

/// Whether every check before the signature passes, so that the signature
/// is checked (which computes modulo `p`).
pub open spec fn reaches_signature_check(accounts: Map<u32, Account>, tx: Transaction) -> bool {
    &&& accounts.contains_key(tx.from)
    &&& accounts[tx.from].balance >= tx.amount
    &&& accounts.contains_key(tx.to)
    &&& nonce_is_next(accounts[tx.from], tx)
}

/// Why `apply_tx` refuses a transaction, checked in this order, or `None`
/// when it accepts it.
pub open spec fn tx_rejection(accounts: Map<u32, Account>, g: nat, p: nat, tx: Transaction) -> Option<
    Seq<char>,
> {
    if !accounts.contains_key(tx.from) {
        Some("from account not found"@)
    } else if accounts[tx.from].balance < tx.amount {
        Some("insufficient balance"@)
    } else if !accounts.contains_key(tx.to) {
        Some("to account not found"@)
    } else if !nonce_is_next(accounts[tx.from], tx) {
        Some("invalid nonce"@)
    } else if !tx_signed_by(g, p, accounts[tx.from].pubkey@, tx) {
        Some("invalid signature"@)
    } else {
        None
    }
}

/// The sender after paying `amount`: lower balance, nonce one higher.
pub open spec fn debited(a: Account, amount: u64) -> Account {
    Account {
        id: a.id,
        balance: (a.balance - amount) as u64,
        nonce: (a.nonce + 1) as u64,
        pubkey: a.pubkey,
    }
}

/// The receiver after being paid `amount`.
pub open spec fn credited(a: Account, amount: u64) -> Account {
    Account { id: a.id, balance: (a.balance + amount) as u64, nonce: a.nonce, pubkey: a.pubkey }
}

/// The accounts after an accepted transaction: the sender is debited, then
/// the receiver (which may be the sender itself) is credited.
pub open spec fn after_tx(accounts: Map<u32, Account>, tx: Transaction) -> Map<u32, Account> {
    let paid = accounts.insert(tx.from, debited(accounts[tx.from], tx.amount));
    paid.insert(tx.to, credited(paid[tx.to], tx.amount))
}

/// Whether applying an accepted transaction stays within the integer
/// ranges: the sender's nonce and the receiver's balance do not overflow.
pub open spec fn tx_in_range(accounts: Map<u32, Account>, tx: Transaction) -> bool {
    &&& accounts[tx.from].nonce < u64::MAX
    &&& tx.from != tx.to ==> accounts[tx.to].balance + tx.amount <= u64::MAX
}

/// The leaves of the state tree: the account hashes in increasing id order.
pub open spec fn state_leaves(accounts: Map<u32, Account>) -> Seq<nat> {
    sorted_ids(accounts.dom()).map_values(|id: u32| account_hash(accounts[id]))
}

/// The state root: the Merkle root over the account hashes in id order.
pub open spec fn state_root_of(accounts: Map<u32, Account>) -> nat {
    merkle_root(state_leaves(accounts))
}

impl State {
    /// An empty state over `Z*_p` with generator `g`.
    pub fn new(p: BigNum, g: BigNum) -> (s: Self)
        ensures
            s.accounts@ == Map::<u32, Account>::empty(),
            s.p == p,
            s.g == g,
    {
        State { accounts: HashMap::new(), p, g }
    }

    /// Adds `account`, replacing any account with the same id.
    pub fn add_account(&mut self, account: Account)
        ensures
            final(self).accounts@ == old(self).accounts@.insert(account.id, account),
            final(self).g == old(self).g,
            final(self).p == old(self).p,
    {
        self.accounts.insert(account.id, account);
    }

    /// Checks a signed transfer without applying it: the sender must exist
    /// and be able to pay, the receiver must exist, the transfer must carry
    /// the sender's next nonce, and the signature (whose
    /// challenge binds the message) must verify under the sender's key.
    pub fn validate_tx(&self, tx: &Transaction) -> (res: Result<(), String>)
        requires
            reaches_signature_check(self.accounts@, *tx) ==> self.p@ > 0,
        ensures
            match tx_rejection(self.accounts@, self.g@, self.p@, *tx) {
                Some(msg) => res is Err && res->Err_0@ == msg,
                None => res is Ok,
            },
    {
        broadcast use vstd::string::to_string_from_display_ensures_for_str;

        let from_balance = match self.accounts.get(&tx.from) {
            Some(a) => a.balance,
            None => {
                return Err("from account not found".to_string());
            },
        };
        if from_balance < tx.amount {
            return Err("insufficient balance".to_string());
        }
        if !self.accounts.contains_key(&tx.to) {
            return Err("to account not found".to_string());
        }
        let from_nonce = self.accounts.get(&tx.from).unwrap().nonce;
        if from_nonce == u64::MAX || tx.nonce != from_nonce + 1 {
            return Err("invalid nonce".to_string());
        }
        let from_pubkey = &self.accounts.get(&tx.from).unwrap().pubkey;
        let e = challenge_for_tx(&self.g, from_pubkey, &tx.proof.r, &self.p, &tx.message_to_bytes());
        if !Proof::verify(&tx.proof, from_pubkey, &e, &self.g, &self.p) {
            return Err("invalid signature".to_string());
        }
        Ok(())
    }

    /// Whether applying the transfer keeps the sender's nonce and the
    /// receiver's balance within `u64`.
    pub fn transfer_in_range(&self, tx: &Transaction) -> (res: bool)
        requires
            self.accounts@.contains_key(tx.from),
            self.accounts@.contains_key(tx.to),
        ensures
            res == tx_in_range(self.accounts@, *tx),
    {
        let from = self.accounts.get(&tx.from).unwrap();
        let to = self.accounts.get(&tx.to).unwrap();
        from.nonce < u64::MAX && (tx.from == tx.to || to.balance <= u64::MAX - tx.amount)
    }

    /// Applies a signed transfer.  Refuses it, leaving the state unchanged,
    /// when the sender is unknown, cannot pay, the receiver is unknown, the
    /// nonce is not the sender's next one, or the signature (whose challenge binds the message) does not verify
    /// under the sender's key; otherwise debits the sender, bumps its nonce
    /// and credits the receiver.
    pub fn apply_tx(&mut self, tx: &Transaction) -> (res: Result<(), String>)
        requires
            reaches_signature_check(old(self).accounts@, *tx) ==> old(self).p@ > 0,
            tx_rejection(old(self).accounts@, old(self).g@, old(self).p@, *tx) is None
                ==> tx_in_range(old(self).accounts@, *tx),
        ensures
            final(self).g == old(self).g,
            final(self).p == old(self).p,
            match tx_rejection(old(self).accounts@, old(self).g@, old(self).p@, *tx) {
                Some(msg) => res is Err && res->Err_0@ == msg && final(self).accounts@ == old(
                    self,
                ).accounts@,
                None => res is Ok && final(self).accounts@ == after_tx(old(self).accounts@, *tx),
            },
    {
        let checked = self.validate_tx(tx);
        if checked.is_err() {
            return checked;
        }
        let ghost before = self.accounts@;
        let mut from_account = self.accounts.remove(&tx.from).unwrap();
        from_account.balance = from_account.balance - tx.amount;
        from_account.nonce = from_account.nonce + 1;
        self.accounts.insert(tx.from, from_account);
        assert(self.accounts@ =~= before.insert(tx.from, debited(before[tx.from], tx.amount)));
        let ghost paid = self.accounts@;
        let mut to_account = self.accounts.remove(&tx.to).unwrap();
        to_account.balance = to_account.balance + tx.amount;
        self.accounts.insert(tx.to, to_account);
        assert(self.accounts@ =~= paid.insert(tx.to, credited(paid[tx.to], tx.amount)));
        Ok(())
    }

    /// Checks a signed transfer and applies it when it is accepted and its
    /// effect fits the integer ranges.  Refuses it, leaving the state
    /// unchanged, with the reason `apply_tx` gives, or with
    /// "balance overflow" when the sender's nonce or the receiver's balance
    /// would not fit in `u64`.
    pub fn try_apply(&mut self, tx: &Transaction) -> (res: Result<(), String>)
        requires
            reaches_signature_check(old(self).accounts@, *tx) ==> old(self).p@ > 0,
        ensures
            final(self).g == old(self).g,
            final(self).p == old(self).p,
            match tx_rejection(old(self).accounts@, old(self).g@, old(self).p@, *tx) {
                Some(msg) => res is Err && res->Err_0@ == msg && final(self).accounts@ == old(
                    self,
                ).accounts@,
                None => if tx_in_range(old(self).accounts@, *tx) {
                    res is Ok && final(self).accounts@ == after_tx(old(self).accounts@, *tx)
                } else {
                    res is Err && res->Err_0@ == overflow_msg() && final(self).accounts@ == old(
                        self,
                    ).accounts@
                },
            },
    {
        broadcast use vstd::string::to_string_from_display_ensures_for_str;

        let checked = self.validate_tx(tx);
        if checked.is_err() {
            return checked;
        }
        if !self.transfer_in_range(tx) {
            return Err("balance overflow".to_string());
        }
        self.apply_tx(tx)
    }

    /// The Merkle root over the account hashes in increasing id order.  The
    /// number of accounts must be a power of two.
    pub fn state_root(&self) -> (root: BigNum)
        requires
            is_pow2(self.accounts@.len()),
        ensures
            root@ == state_root_of(self.accounts@),
    {
        let ids = sort_ids(&account_ids(&self.accounts));
        proof {
            lemma_increasing_unique(ids@, sorted_ids(self.accounts@.dom()));
            assert(ids@.no_duplicates());
            ids@.unique_seq_to_set();
        }
        let mut leaves: Vec<BigNum> = Vec::new();
        let n = ids.len();
        let mut i: usize = 0;
        while i < n
            invariant
                n == ids@.len(),
                i <= n,
                ids@.to_set() == self.accounts@.dom(),
                leaves@.len() == i,
                forall|j: int|
                    0 <= j < i ==> #[trigger] leaves@[j]@ == account_hash(self.accounts@[ids@[j]]),
            decreases n - i,
        {
            assert(ids@.contains(ids@[i as int]));
            assert(ids@.to_set().contains(ids@[i as int]));
            assert(self.accounts@.dom().contains(ids@[i as int]));
            let account = self.accounts.get(&ids[i]).unwrap();
            leaves.push(account.hash());
            i = i + 1;
        }
        assert(values(leaves@) =~= state_leaves(self.accounts@));
        build_tree(leaves)
    }
}

/// An accepted transfer moves exactly `amount` from the sender to the
/// receiver and bumps the sender's nonce; a transfer to oneself only bumps
/// the nonce; no other account changes and no account appears or vanishes.
pub proof fn lemma_accepted_tx_moves_amount(accounts: Map<u32, Account>, g: nat, p: nat, tx: Transaction)
    requires
        tx_rejection(accounts, g, p, tx) is None,
        tx_in_range(accounts, tx),
    ensures
        after_tx(accounts, tx).dom() == accounts.dom(),
        after_tx(accounts, tx)[tx.from].nonce == accounts[tx.from].nonce + 1,
        tx.from != tx.to ==> after_tx(accounts, tx)[tx.from].balance == accounts[tx.from].balance
            - tx.amount,
        tx.from != tx.to ==> after_tx(accounts, tx)[tx.to].balance == accounts[tx.to].balance
            + tx.amount,
        tx.from == tx.to ==> after_tx(accounts, tx)[tx.from].balance == accounts[tx.from].balance,
        forall|id: u32|
            id != tx.from && id != tx.to && accounts.contains_key(id) ==> #[trigger] after_tx(
                accounts,
                tx,
            )[id] == accounts[id],
{
    assert(after_tx(accounts, tx).dom() =~= accounts.dom());
}

/// The state root depends on the accounts alone, not on the order in which
/// they were added: adding two accounts with different ids in either order
/// gives the same accounts and so the same root.
pub proof fn lemma_root_independent_of_insertion_order(accounts: Map<u32, Account>, a: Account, b: Account)
    requires
        a.id != b.id,
    ensures
        accounts.insert(a.id, a).insert(b.id, b) == accounts.insert(b.id, b).insert(a.id, a),
        state_root_of(accounts.insert(a.id, a).insert(b.id, b)) == state_root_of(
            accounts.insert(b.id, b).insert(a.id, a),
        ),
{
    assert(accounts.insert(a.id, a).insert(b.id, b) =~= accounts.insert(b.id, b).insert(a.id, a));
}

/// The error when an accepted transfer would overflow a balance or nonce.
pub open spec fn overflow_msg() -> Seq<char> {
    "balance overflow"@
}

/// A signed transfer takes effect at most once: after it has been applied,
/// the same transfer (same nonce, same proof) is refused.
pub proof fn lemma_replay_refused(accounts: Map<u32, Account>, g: nat, p: nat, tx: Transaction)
    requires
        tx_rejection(accounts, g, p, tx) is None,
        tx_in_range(accounts, tx),
    ensures
        tx_rejection(after_tx(accounts, tx), g, p, tx) is Some,
{
    let after = after_tx(accounts, tx);
    assert(after.contains_key(tx.from));
    assert(after[tx.from].nonce == accounts[tx.from].nonce + 1);
    assert(!nonce_is_next(after[tx.from], tx));
}

/// The sum of the balances of the accounts listed in `ids`.
pub open spec fn balance_sum(ids: Seq<u32>, accounts: Map<u32, Account>) -> int
    decreases ids.len(),
{
    if ids.len() == 0 {
        0
    } else {
        balance_sum(ids.drop_last(), accounts) + accounts[ids.last()].balance
    }
}

/// Replacing one account changes the sum over a list of distinct ids by the
/// change in that account's balance, if the list holds its id.
proof fn lemma_balance_sum_insert(ids: Seq<u32>, accounts: Map<u32, Account>, k: u32, a: Account)
    requires
        ids.no_duplicates(),
    ensures
        balance_sum(ids, accounts.insert(k, a)) == balance_sum(ids, accounts) + (if ids.contains(k) {
            a.balance - accounts[k].balance
        } else {
            0
        }),
    decreases ids.len(),
{
    if ids.len() > 0 {
        let d = ids.drop_last();
        assert(d.no_duplicates());
        lemma_balance_sum_insert(d, accounts, k, a);
        if ids.last() == k {
            assert(!d.contains(k)) by {
                if d.contains(k) {
                    let i = choose|i: int| 0 <= i < d.len() && d[i] == k;
                    assert(ids[i] == ids[ids.len() - 1]);
                }
            }
            assert(ids.contains(k)) by {
                assert(ids[ids.len() - 1] == k);
            }
        } else {
            assert(ids.contains(k) == d.contains(k)) by {
                if ids.contains(k) {
                    let i = choose|i: int| 0 <= i < ids.len() && ids[i] == k;
                    assert(i != ids.len() - 1);
                    assert(d[i] == k);
                }
                if d.contains(k) {
                    let i = choose|i: int| 0 <= i < d.len() && d[i] == k;
                    assert(ids[i] == k);
                }
            }
        }
    }
}

/// An accepted transfer conserves money: over any list that names every
/// account once, the balances add up to the same total before and after.
pub proof fn lemma_transfer_conserves_total(
    accounts: Map<u32, Account>,
    g: nat,
    p: nat,
    tx: Transaction,
    ids: Seq<u32>,
)
    requires
        tx_rejection(accounts, g, p, tx) is None,
        tx_in_range(accounts, tx),
        ids.no_duplicates(),
        ids.to_set() == accounts.dom(),
    ensures
        balance_sum(ids, after_tx(accounts, tx)) == balance_sum(ids, accounts),
{
    let paid = accounts.insert(tx.from, debited(accounts[tx.from], tx.amount));
    assert(ids.contains(tx.from)) by {
        assert(ids.to_set().contains(tx.from));
    }
    assert(ids.contains(tx.to)) by {
        assert(ids.to_set().contains(tx.to));
    }
    lemma_balance_sum_insert(ids, accounts, tx.from, debited(accounts[tx.from], tx.amount));
    lemma_balance_sum_insert(ids, paid, tx.to, credited(paid[tx.to], tx.amount));
}

/// What a client is shown of an account.
pub open spec fn summary_of(a: Account) -> AccountSummary {
    AccountSummary { id: a.id, balance: a.balance, nonce: a.nonce }
}

impl State {
    /// The summary of account `id`, or `AccountNotFound`.
    pub fn account_summary(&self, id: u32) -> (res: Result<AccountSummary, RollupError>)
        ensures
            self.accounts@.contains_key(id) ==> res == Ok::<AccountSummary, RollupError>(
                summary_of(self.accounts@[id]),
            ),
            !self.accounts@.contains_key(id) ==> res == Err::<AccountSummary, RollupError>(
                RollupError::AccountNotFound { id },
            ),
    {
        match self.accounts.get(&id) {
            Some(a) => Ok(AccountSummary { id: a.id, balance: a.balance, nonce: a.nonce }),
            None => Err(RollupError::AccountNotFound { id }),
        }
    }

    /// The summaries of all accounts, in increasing id order.
    pub fn account_summaries(&self) -> (res: Vec<AccountSummary>)
        ensures
            res@ == sorted_ids(self.accounts@.dom()).map_values(
                |id: u32| summary_of(self.accounts@[id]),
            ),
    {
        let ids = sort_ids(&account_ids(&self.accounts));
        proof {
            lemma_increasing_unique(ids@, sorted_ids(self.accounts@.dom()));
        }
        let mut res: Vec<AccountSummary> = Vec::new();
        let n = ids.len();
        let mut i: usize = 0;
        while i < n
            invariant
                n == ids@.len(),
                i <= n,
                ids@.to_set() == self.accounts@.dom(),
                res@.len() == i,
                forall|j: int|
                    0 <= j < i ==> #[trigger] res@[j] == summary_of(self.accounts@[ids@[j]]),
            decreases n - i,
        {
            assert(ids@.contains(ids@[i as int]));
            assert(ids@.to_set().contains(ids@[i as int]));
            let a = self.accounts.get(&ids[i]).unwrap();
            res.push(AccountSummary { id: a.id, balance: a.balance, nonce: a.nonce });
            i = i + 1;
        }
        assert(res@ =~= sorted_ids(self.accounts@.dom()).map_values(
            |id: u32| summary_of(self.accounts@[id]),
        ));
        res
    }
}

} // verus!
