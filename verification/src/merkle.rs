//! Binary Merkle trees over SHA-256, with membership proofs.

use crate::bignum::{be_of, nat_of_be, values, BigNum};
use crate::digest::{sha256, sha256_spec};
use crate::transcript::push_bytes;
use vstd::arithmetic::div_mod::*;
use vstd::arithmetic::power::*;
use vstd::prelude::*;

verus! {

/// The hash of an inner node: SHA-256 of the children's canonical
/// big-endian encodings, read back as a number.
pub open spec fn node_hash(left: nat, right: nat) -> nat {
    nat_of_be(sha256_spec(be_of(left) + be_of(right)))
}

/// Whether `n` is a power of two (1, 2, 4, ...).
pub open spec fn is_pow2(n: nat) -> bool
    decreases n,
{
    if n == 1 {
        true
    } else if n == 0 || n % 2 == 1 {
        false
    } else {
        is_pow2(n / 2)
    }
}

/// The level above `level`: each pair of neighbours hashed together.
pub open spec fn next_level(level: Seq<nat>) -> Seq<nat> {
    Seq::new(level.len() / 2, |i: int| node_hash(level[2 * i], level[2 * i + 1]))
}

/// The root of the tree whose bottom level is `level`.
pub open spec fn merkle_root(level: Seq<nat>) -> nat
    decreases level.len(),
{
    if level.len() <= 1 {
        level[0]
    } else {
        merkle_root(next_level(level))
    }
}

/// The index of the neighbour of node `index` on its level.
pub open spec fn sibling(index: nat) -> nat {
    if index % 2 == 0 {
        index + 1
    } else {
        (index - 1) as nat
    }
}

/// The membership path of leaf `index`: its sibling on each level, from
/// the bottom up.
pub open spec fn merkle_path(level: Seq<nat>, index: nat) -> Seq<nat>
    decreases level.len(),
{
    if level.len() <= 1 {
        Seq::empty()
    } else {
        seq![level[sibling(index) as int]] + merkle_path(next_level(level), index / 2)
    }
}

/// One step up a membership path: combine the current node with its
/// sibling, on the side that the index gives.
pub open spec fn path_step(current: nat, index: nat, sibling: nat) -> nat {
    if index % 2 == 0 {
        node_hash(current, sibling)
    } else {
        node_hash(sibling, current)
    }
}

/// The root that a membership path leads to from `leaf` at `index`.
pub open spec fn path_root(leaf: nat, index: nat, path: Seq<nat>) -> nat
    decreases path.len(),
{
    if path.len() == 0 {
        leaf
    } else {
        path_root(path_step(leaf, index, path[0]), index / 2, path.drop_first())
    }
}

/// Hashes two nodes: SHA-256 of `left`'s then `right`'s canonical
/// big-endian bytes, read as a big-endian number.
pub fn hash_pair(left: &BigNum, right: &BigNum) -> (res: BigNum)
    ensures
        res@ == node_hash(left@, right@),
{
    let mut msg: Vec<u8> = Vec::new();
    push_bytes(&mut msg, left.as_be_bytes());
    push_bytes(&mut msg, right.as_be_bytes());
    assert(msg@ =~= be_of(left@) + be_of(right@));
    let h = sha256(msg.as_slice());
    BigNum::from_be_bytes(h.as_slice())
}

fn hash_level(level: &Vec<BigNum>) -> (next: Vec<BigNum>)
    requires
        level@.len() % 2 == 0,
    ensures
        next@.len() == level@.len() / 2,
        values(next@) == next_level(values(level@)),
{
    let len = level.len();
    let n = len / 2;
    let mut next: Vec<BigNum> = Vec::new();
    let mut i: usize = 0;
    while i < n
        invariant
            len == level@.len(),
            n == level@.len() / 2,
            level@.len() % 2 == 0,
            i <= n,
            next@.len() == i,
            forall|j: int|
                0 <= j < i ==> #[trigger] next@[j]@ == node_hash(
                    level@[2 * j]@,
                    level@[2 * j + 1]@,
                ),
        decreases n - i,
    {
        assert(2 * i + 1 < len) by (nonlinear_arith)
            requires
                i < n,
                n == len / 2,
        ;
        next.push(hash_pair(&level[2 * i], &level[2 * i + 1]));
        i = i + 1;
    }
    assert(values(next@) =~= next_level(values(level@)));
    next
}

/// The Merkle root of `leaves`, whose number must be a power of two (a
/// level of odd length above one has no partner for its last node).
pub fn build_tree(leaves: Vec<BigNum>) -> (root: BigNum)
    requires
        is_pow2(leaves@.len()),
    ensures
        root@ == merkle_root(values(leaves@)),
{
    let mut level = leaves;
    while level.len() > 1
        invariant
            is_pow2(level@.len()),
            merkle_root(values(level@)) == merkle_root(values(leaves@)),
        decreases level@.len(),
    {
        let next = hash_level(&level);
        assert(values(level@).len() == level@.len());
        level = next;
    }
    level.remove(0)
}

/// Copies a slice of numbers.
pub fn copy_all(items: &[BigNum]) -> (res: Vec<BigNum>)
    ensures
        res@.len() == items@.len(),
        values(res@) == values(items@),
{
    let mut res: Vec<BigNum> = Vec::new();
    let n = items.len();
    let mut i: usize = 0;
    while i < n
        invariant
            n == items@.len(),
            i <= n,
            res@.len() == i,
            forall|j: int| 0 <= j < i ==> #[trigger] res@[j]@ == items@[j]@,
        decreases n - i,
    {
        res.push(items[i].copy());
        i = i + 1;
    }
    assert(values(res@) =~= values(items@));
    res
}

/// The membership path of leaf `index`.  Above a single leaf the path is
/// empty; otherwise the number of leaves must be a power of two and `index`
/// one of them.
pub fn merkle_proof(leaves: &[BigNum], index: usize) -> (path: Vec<BigNum>)
    requires
        leaves@.len() <= 1 || (is_pow2(leaves@.len()) && index < leaves@.len()),
    ensures
        values(path@) == merkle_path(values(leaves@), index as nat),
{
    let mut proof: Vec<BigNum> = Vec::new();
    let mut level: Vec<BigNum> = copy_all(leaves);
    let mut index = index;
    let ghost first = index;
    while level.len() > 1
        invariant
            level@.len() <= 1 || (is_pow2(level@.len()) && index < level@.len()),
            values(proof@) + merkle_path(values(level@), index as nat) == merkle_path(
                values(leaves@),
                first as nat,
            ),
        decreases level@.len(),
    {
        let sibling_index = if index % 2 == 0 {
            index + 1
        } else {
            index - 1
        };
        proof.push(level[sibling_index].clone());
        let next = hash_level(&level);
        level = next;
        index = index / 2;
    }
    proof
}

/// Walks a membership path from `leaf` at `index` and checks that it ends
/// at `root`.
pub fn verify_merkle(leaf: &BigNum, index: usize, path: &[BigNum], root: &BigNum) -> (res: bool)
    ensures
        res == (path_root(leaf@, index as nat, values(path@)) == root@),
{
    let mut computed = leaf.clone();
    let ghost start = index;
    let mut index = index;
    let n = path.len();
    let mut i: usize = 0;
    assert(values(path@).skip(0) =~= values(path@));
    while i < n
        invariant
            n == path@.len(),
            i <= n,
            path_root(computed@, index as nat, values(path@).skip(i as int)) == path_root(
                leaf@,
                start as nat,
                values(path@),
            ),
        decreases n - i,
    {
        let ghost rest = values(path@).skip(i as int);
        assert(rest[0] == path@[i as int]@);
        assert(rest.drop_first() =~= values(path@).skip(i + 1));
        if index % 2 == 0 {
            computed = hash_pair(&computed, &path[i]);
        } else {
            computed = hash_pair(&path[i], &computed);
        }
        index = index / 2;
        i = i + 1;
    }
    assert(values(path@).skip(n as int) =~= Seq::<nat>::empty());
    computed.equals(root)
}

/// Completeness of membership proofs: for a tree whose number of leaves is a
/// power of two, walking the membership path of any leaf from that leaf
/// leads to the tree's root, so `verify_merkle` accepts the path that
/// `merkle_proof` gives against the root that `build_tree` gives.
pub proof fn lemma_membership_complete(leaves: Seq<nat>, index: nat)
    requires
        is_pow2(leaves.len()),
        index < leaves.len(),
    ensures
        path_root(leaves[index as int], index, merkle_path(leaves, index)) == merkle_root(leaves),
    decreases leaves.len(),
{
    if leaves.len() > 1 {
        let next = next_level(leaves);
        let i = index / 2;
        assert(index == 2 * i || index == 2 * i + 1);
        assert(path_step(leaves[index as int], index, leaves[sibling(index) as int]) == next[i as int]);
        lemma_membership_complete(next, i);
        let path = merkle_path(leaves, index);
        assert(path[0] == leaves[sibling(index) as int]);
        assert(path.drop_first() =~= merkle_path(next, i));
    }
}

/// `index / 2^(i+1) == (index / 2^i) / 2`.
proof fn lemma_pow2_step(index: nat, i: nat)
    ensures
        pow(2, i) > 0,
        pow(2, i + 1) == 2 * pow(2, i),
        index / (pow(2, i + 1) as nat) == (index / (pow(2, i) as nat)) / 2,
{
    lemma_pow_positive(2, i);
    assert(pow(2, i + 1) == 2 * pow(2, i)) by {
        reveal(pow);
    }
    lemma_div_denominator(index as int, pow(2, i), 2);
    assert(pow(2, i) * 2 == 2 * pow(2, i));
}

/// Walking one more sibling extends the walk by one step, taken on the side
/// that bit `len` of the index gives.
proof fn lemma_path_root_push(leaf: nat, index: nat, path: Seq<nat>, x: nat)
    ensures
        pow(2, path.len()) > 0,
        path_root(leaf, index, path.push(x)) == path_step(
            path_root(leaf, index, path),
            index / (pow(2, path.len()) as nat),
            x,
        ),
    decreases path.len(),
{
    lemma_pow_positive(2, path.len());
    if path.len() == 0 {
        lemma_pow0(2);
        assert(index / 1 == index);
        let pushed = path.push(x);
        assert(pushed.drop_first() =~= Seq::<nat>::empty());
        assert(pushed[0] == x);
        assert(path_root(leaf, index, pushed) == path_root(
            path_step(leaf, index, x),
            index / 2,
            pushed.drop_first(),
        ));
    } else {
        let first = path_step(leaf, index, path[0]);
        let pushed = path.push(x);
        let rest = path.drop_first();
        assert(pushed.drop_first() =~= rest.push(x));
        assert(pushed[0] == path[0]);
        lemma_path_root_push(first, index / 2, rest, x);
        let k = (path.len() - 1) as nat;
        lemma_pow2_step(index, k);
        lemma_pow_positive(2, k);
        lemma_div_denominator(index as int, 2, pow(2, k));
        assert(2 * pow(2, k) == pow(2, path.len()));
        assert((index / 2) / (pow(2, k) as nat) == index / (pow(2, path.len()) as nat));
        assert(path_root(leaf, index, pushed) == path_root(first, index / 2, rest.push(x)));
        assert(path_root(leaf, index, path) == path_root(first, index / 2, rest));
    }
}

/// The walk over the first `i + 1` siblings is one step past the walk over
/// the first `i`.
proof fn lemma_path_root_extend(leaf: nat, index: nat, path: Seq<nat>, i: nat)
    requires
        i < path.len(),
    ensures
        pow(2, i) > 0,
        path_root(leaf, index, path.take(i as int + 1)) == path_step(
            path_root(leaf, index, path.take(i as int)),
            index / (pow(2, i) as nat),
            path[i as int],
        ),
{
    assert(path.take(i as int + 1) =~= path.take(i as int).push(path[i as int]));
    lemma_path_root_push(leaf, index, path.take(i as int), path[i as int]);
}

/// Whether `n` is a power of two.
pub fn is_pow2_exec(n: usize) -> (res: bool)
    ensures
        res == is_pow2(n as nat),
{
    let mut m = n;
    while m > 1 && m % 2 == 0
        invariant
            is_pow2(n as nat) == is_pow2(m as nat),
        decreases m,
    {
        m = m / 2;
    }
    m == 1
}

/// The smallest power of two that is at least `n` (and at least 1).
pub open spec fn pow2_at_least(n: nat, k: nat) -> bool {
    is_pow2(k) && n <= k && (k == 1 || k / 2 < n)
}

/// Pads `leaves` with zeros up to the next power of two (at least one
/// leaf), so that a tree can be built over them.
pub fn pad_to_pow2(leaves: Vec<BigNum>) -> (padded: Vec<BigNum>)
    requires
        leaves@.len() <= usize::MAX / 2 + 1,
    ensures
        pow2_at_least(leaves@.len(), padded@.len()),
        padded@.len() >= leaves@.len(),
        values(padded@) == values(leaves@) + Seq::new(
            (padded@.len() - leaves@.len()) as nat,
            |i: int| 0nat,
        ),
{
    let n = leaves.len();
    let mut target: usize = 1;
    while target < n
        invariant
            is_pow2(target as nat),
            target >= 1,
            target == 1 || target / 2 < n,
            n <= usize::MAX / 2 + 1,
        decreases 2 * (n as int) - (target as int),
    {
        assert(target <= usize::MAX / 2);
        let doubled = target * 2;
        assert(doubled / 2 == target);
        assert(doubled % 2 == 0);
        target = doubled;
    }
    let mut leaves = leaves;
    let ghost orig = values(leaves@);
    while leaves.len() < target
        invariant
            target >= n,
            n <= leaves@.len() <= target,
            values(leaves@) == orig + Seq::new((leaves@.len() - n) as nat, |i: int| 0nat),
            orig.len() == n,
        decreases target - leaves@.len(),
    {
        let z = BigNum::from_u64(0);
        let ghost before = leaves@;
        leaves.push(z);
        assert(leaves@ == before.push(z));
        assert(values(leaves@) =~= values(before).push(0nat));
        assert(values(leaves@) =~= orig + Seq::new((leaves@.len() - n) as nat, |i: int| 0nat));
    }
    leaves
}

/// One step of walking a membership path, for display: which side the
/// current node was on, the two children and their hash.
pub struct MerkleStep {
    pub current_is_left: bool,
    pub left: BigNum,
    pub right: BigNum,
    pub out: BigNum,
}

/// Walks a membership path like `verify_merkle`, recording every step:
/// the node computed so far and the path's sibling, ordered by the index
/// bit, and their hash.  Returns the steps, the computed root and whether
/// it equals `root`.
pub fn merkle_verify_steps(leaf: &BigNum, index: usize, path: &[BigNum], root: &BigNum) -> (res: (
    Vec<MerkleStep>,
    BigNum,
    bool,
))
    ensures
        res.0@.len() == path@.len(),
        // Step `i` hashes the root of the first `i` path nodes with the
        // `i`-th sibling, in the order the index bit gives, and yields the
        // root of the first `i + 1` path nodes.
        forall|i: int|
            0 <= i < path@.len() ==> {
                let cur = path_root(leaf@, index as nat, values(path@).take(i));
                let idx = index as nat / (pow(2, i as nat) as nat);
                let st = #[trigger] res.0@[i];
                &&& st.current_is_left == (idx % 2 == 0)
                &&& st.left@ == (if idx % 2 == 0 { cur } else { path@[i]@ })
                &&& st.right@ == (if idx % 2 == 0 { path@[i]@ } else { cur })
                &&& st.out@ == node_hash(st.left@, st.right@)
                &&& st.out@ == path_root(leaf@, index as nat, values(path@).take(i + 1))
            },
        res.1@ == path_root(leaf@, index as nat, values(path@)),
        res.2 == (res.1@ == root@),
{
    let mut steps: Vec<MerkleStep> = Vec::new();
    let mut computed = leaf.clone();
    let ghost start = index;
    let mut idx = index;
    let n = path.len();
    let mut i: usize = 0;
    proof {
        lemma_pow0(2);
        assert(values(path@).take(0) =~= Seq::<nat>::empty());
        assert(values(path@).skip(0) =~= values(path@));
        assert(start as nat / 1 == start as nat);
    }
    while i < n
        invariant
            n == path@.len(),
            i <= n,
            start == index,
            steps@.len() == i,
            idx as nat == start as nat / (pow(2, i as nat) as nat),
            pow(2, i as nat) > 0,
            computed@ == path_root(leaf@, start as nat, values(path@).take(i as int)),
            path_root(computed@, idx as nat, values(path@).skip(i as int)) == path_root(
                leaf@,
                start as nat,
                values(path@),
            ),
            forall|j: int|
                0 <= j < i ==> {
                    let cur = path_root(leaf@, index as nat, values(path@).take(j));
                    let bit_idx = index as nat / (pow(2, j as nat) as nat);
                    let st = #[trigger] steps@[j];
                    &&& st.current_is_left == (bit_idx % 2 == 0)
                    &&& st.left@ == (if bit_idx % 2 == 0 { cur } else { path@[j]@ })
                    &&& st.right@ == (if bit_idx % 2 == 0 { path@[j]@ } else { cur })
                    &&& st.out@ == node_hash(st.left@, st.right@)
                    &&& st.out@ == path_root(leaf@, index as nat, values(path@).take(j + 1))
                },
        decreases n - i,
    {
        let ghost rest = values(path@).skip(i as int);
        assert(rest[0] == path@[i as int]@);
        assert(rest.drop_first() =~= values(path@).skip(i + 1));
        proof {
            lemma_path_root_extend(leaf@, start as nat, values(path@), i as nat);
        }
        let is_left = idx % 2 == 0;
        let (left, right) = if is_left {
            (computed.copy(), path[i].copy())
        } else {
            (path[i].copy(), computed.copy())
        };
        let out = hash_pair(&left, &right);
        computed = out.copy();
        steps.push(MerkleStep { current_is_left: is_left, left, right, out });
        proof {
            lemma_pow2_step(start as nat, i as nat);
        }
        idx = idx / 2;
        i = i + 1;
    }
    assert(values(path@).skip(n as int) =~= Seq::<nat>::empty());
    assert(values(path@).take(n as int) =~= values(path@));
    let valid = computed.equals(root);
    (steps, computed, valid)
}

} // verus!
