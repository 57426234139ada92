//! The constraints of a state transition: openings of the old and new leaf
//! of each touched key, a chain of Merkle path updates from the old root to
//! the new root (each key's new leaf with the siblings of its old leaf), the
//! range of each value, and conservation of the total value.

use crate::pedersen_parameters::{bytes_equal, commitment_of, sha256_of, Commitment, PedersenParameters};
use crate::smt::{
    copy_proof, holds, is_path_of, node_hash, key_fits, leaf_encoding, lemma_node_hash_by_slots, lemma_path_by_slots,
    lemma_path_root_of, lemma_siblings_kept, lemma_stored_absent, lemma_stored_append, lemma_stored_push,
    path_root, path_root_from, proves, same_siblings, stored, verify_proof, Leaf, MerkleProof, SparseMerkleTree,
};
use vstd::prelude::*;

verus! {

/// The largest value a leaf may commit to: 21 million coins of 10^8 units.
pub const MAX_VALUE: u64 = 2_100_000_000_000_000;

/// The opening of a commitment: its value and blinding factor.
#[derive(Debug, Clone, Copy, PartialEq, Eq)]
pub struct Opening {
    pub value: u64,
    pub blinding: [u8; 32],
}

/// The private data of one touched key.
#[derive(Debug, Clone, PartialEq, Eq)]
pub struct TouchedKey {
    pub key: u64,
    pub old_leaf: Leaf,
    pub old_opening: Opening,
    pub old_path: MerkleProof,
    pub new_leaf: Leaf,
    pub new_opening: Opening,
    pub new_path: MerkleProof,
}

/// A transition's witness: the public roots and authorization slot, and the
/// private data of every touched key.
#[derive(Debug, Clone, PartialEq, Eq)]
pub struct TransitionWitness {
    pub depth: u32,
    pub old_root: [u8; 32],
    pub new_root: [u8; 32],
    pub touched: Vec<TouchedKey>,
    pub authorization: Vec<u8>,
}

/// The public inputs a transition is bound to.
#[derive(Debug, Clone, PartialEq, Eq)]
pub struct PublicInputs {
    pub old_root: [u8; 32],
    pub new_root: [u8; 32],
    pub touched_keys: Vec<u64>,
    pub authorization: Vec<u8>,
}

/// Errors of proving.
#[derive(Debug, Clone, Copy, PartialEq, Eq, Structural)]
pub enum ProveError {
    /// The witness breaks a constraint.
    ConstraintViolation,
}

/// `leaf` commits to the opening under `params`.
pub open spec fn opens(params: PedersenParameters, leaf: Leaf, o: Opening) -> bool {
    leaf.commitment.point@ == commitment_of(params.g@, params.h@, o.value, o.blinding@)
}

/// The root after the first `n` touched keys: the old root for none, else
/// the root reached from the `n`-th key's new leaf through its new path.
pub open spec fn chain_root(w: TransitionWitness, n: nat) -> Seq<u8> {
    if n == 0 {
        w.old_root@
    } else {
        let t = w.touched@[n - 1];
        path_root(sha256_of(leaf_encoding(t.new_leaf)), t.key as nat, t.new_path.siblings@, w.depth as nat)
    }
}

/// Every constraint on the `i`-th touched key but conservation: its openings
/// and ranges, its old leaf proved against the root left by the keys before
/// it, and its new leaf at the same key with the same siblings.
pub open spec fn step_constraints(params: PedersenParameters, w: TransitionWitness, i: int) -> bool {
    let t = w.touched@[i];
    &&& opens(params, t.old_leaf, t.old_opening)
    &&& opens(params, t.new_leaf, t.new_opening)
    &&& t.old_opening.value <= MAX_VALUE
    &&& t.new_opening.value <= MAX_VALUE
    &&& proves(w.depth as nat, chain_root(w, i as nat), t.key, t.old_leaf, t.old_path.siblings@)
    &&& t.new_leaf.key == t.key
    &&& t.new_path.siblings@ == t.old_path.siblings@
}

/// The total value before the transition.
pub open spec fn old_total(ts: Seq<TouchedKey>) -> int
    decreases ts.len(),
{
    if ts.len() == 0 {
        0
    } else {
        old_total(ts.drop_last()) + ts.last().old_opening.value
    }
}

/// The total value after the transition.
pub open spec fn new_total(ts: Seq<TouchedKey>) -> int
    decreases ts.len(),
{
    if ts.len() == 0 {
        0
    } else {
        new_total(ts.drop_last()) + ts.last().new_opening.value
    }
}

/// The witness satisfies every constraint: each step holds, the touched
/// keys are pairwise distinct, the chain of updates ends at the new root, and
/// the total value is conserved.
pub open spec fn satisfied(params: PedersenParameters, w: TransitionWitness) -> bool {
    &&& forall|i: int| 0 <= i < w.touched@.len() ==> #[trigger] step_constraints(params, w, i)
    &&& forall|a: int, b: int|
        0 <= a < b < w.touched@.len() ==> (#[trigger] w.touched@[a]).key != (#[trigger] w.touched@[b]).key
    &&& chain_root(w, w.touched@.len()) == w.new_root@
    &&& new_total(w.touched@) == old_total(w.touched@)
}

/// Whether a key among the first `n` touched keys is `key`.
fn key_seen(touched: &Vec<TouchedKey>, n: usize, key: u64) -> (r: bool)
    requires
        n <= touched@.len(),
    ensures
        r == exists|j: int| 0 <= j < n && (#[trigger] touched@[j]).key == key,
{
    let mut j: usize = 0;
    while j < n
        invariant
            j <= n,
            n <= touched@.len(),
            forall|i: int| 0 <= i < j ==> (#[trigger] touched@[i]).key != key,
        decreases n - j,
    {
        if touched[j].key == key {
            return true;
        }
        j = j + 1;
    }
    false
}

/// Checks every constraint of the transition, walking the touched keys in
/// order from the old root; on success returns the public inputs the
/// transition is bound to.
pub fn check_constraints(params: &PedersenParameters, w: TransitionWitness) -> (r: Result<PublicInputs, ProveError>)
    requires
        params.wf(),
    ensures
        r is Ok <==> satisfied(*params, w),
        r is Err ==> r->Err_0 == ProveError::ConstraintViolation,
        new_total(w.touched@) != old_total(w.touched@) ==> r is Err,
        (exists|i: int|
            0 <= i < w.touched@.len() && !proves(
                w.depth as nat,
                chain_root(w, i as nat),
                (#[trigger] w.touched@[i]).key,
                w.touched@[i].old_leaf,
                w.touched@[i].old_path.siblings@,
            )) ==> r is Err,
        r is Ok ==> ({
            let p = r->Ok_0;
            &&& p.old_root == w.old_root
            &&& p.new_root == w.new_root
            &&& p.touched_keys@ == w.touched@.map_values(|t: TouchedKey| t.key)
            &&& p.authorization@ == w.authorization@
        }),
{
    let mut old_sum: u128 = 0;
    let mut new_sum: u128 = 0;
    let mut keys: Vec<u64> = Vec::new();
    let mut cur: [u8; 32] = w.old_root;
    let mut i: usize = 0;
    while i < w.touched.len()
        invariant
            params.wf(),
            i <= w.touched@.len(),
            forall|j: int| 0 <= j < i ==> #[trigger] step_constraints(*params, w, j),
            forall|a: int, b: int| 0 <= a < b < i ==> (#[trigger] w.touched@[a]).key != (#[trigger] w.touched@[b]).key,
            cur@ == chain_root(w, i as nat),
            old_sum == old_total(w.touched@.take(i as int)),
            new_sum == new_total(w.touched@.take(i as int)),
            old_sum <= i * MAX_VALUE,
            new_sum <= i * MAX_VALUE,
            keys@ == w.touched@.take(i as int).map_values(|t: TouchedKey| t.key),
        decreases w.touched@.len() - i,
    {
        let t = &w.touched[i];
        if key_seen(&w.touched, i, t.key) {
            proof {
                let j = choose|j: int| 0 <= j < i && (#[trigger] w.touched@[j]).key == t.key;
                assert(w.touched@[j].key == w.touched@[i as int].key);
            }
            return Err(ProveError::ConstraintViolation);
        }
        if !(params.verify_opening(&t.old_leaf.commitment, t.old_opening.value, &t.old_opening.blinding)
            && params.verify_opening(&t.new_leaf.commitment, t.new_opening.value, &t.new_opening.blinding)
            && t.old_opening.value <= MAX_VALUE && t.new_opening.value <= MAX_VALUE
            && verify_proof(w.depth, &cur, t.key, &t.old_leaf, &t.old_path)
            && t.new_leaf.key == t.key
            && same_siblings(&t.new_path, &t.old_path)) {
            assert(!step_constraints(*params, w, i as int));
            return Err(ProveError::ConstraintViolation);
        }
        assert(step_constraints(*params, w, i as int));
        cur = path_root_from(w.depth, t.key, &t.new_leaf, &t.new_path);
        proof {
            let s = w.touched@.take(i + 1);
            assert(s.drop_last() =~= w.touched@.take(i as int));
            let n: int = i as int;
            assert(n + 1 <= 0x1_0000_0000_0000_0000);
            assert((n + 1) * 2_100_000_000_000_000 <= 0x1_0000_0000_0000_0000 * 2_100_000_000_000_000)
                by (nonlinear_arith)
                requires
                    0 <= n + 1 <= 0x1_0000_0000_0000_0000,
            ;
            assert((n + 1) * 2_100_000_000_000_000 == n * 2_100_000_000_000_000 + 2_100_000_000_000_000)
                by (nonlinear_arith);
        }
        old_sum = old_sum + t.old_opening.value as u128;
        new_sum = new_sum + t.new_opening.value as u128;
        keys.push(t.key);
        i = i + 1;
        assert(keys@ =~= w.touched@.take(i as int).map_values(|t: TouchedKey| t.key));
    }
    assert(w.touched@.take(i as int) =~= w.touched@);
    if !bytes_equal(&cur, &w.new_root) {
        return Err(ProveError::ConstraintViolation);
    }
    if old_sum != new_sum {
        return Err(ProveError::ConstraintViolation);
    }
    assert forall|j: int| 0 <= j < w.touched@.len() implies proves(
        w.depth as nat,
        chain_root(w, j as nat),
        (#[trigger] w.touched@[j]).key,
        w.touched@[j].old_leaf,
        w.touched@[j].old_path.siblings@,
    ) by {
        assert(step_constraints(*params, w, j));
    }
    Ok(PublicInputs { old_root: w.old_root, new_root: w.new_root, touched_keys: keys, authorization: w.authorization })
}

/// A requested change of one key's balance.
#[derive(Debug, Clone, Copy, PartialEq, Eq)]
pub struct Change {
    pub key: u64,
    pub old_opening: Opening,
    pub new_opening: Opening,
    pub new_version: u64,
}

/// Errors of witness assembly.
#[derive(Debug, Clone, Copy, PartialEq, Eq, Structural)]
pub enum WitnessError {
    /// The tree is not at the current root.
    StaleRoot,
    /// The changes do not conserve the total value.
    Unbalanced,
    /// A key does not fit in the tree's depth.
    InvalidKeyWidth,
}

/// The total value of the old openings.
pub open spec fn old_sum_of(cs: Seq<Change>) -> int
    decreases cs.len(),
{
    if cs.len() == 0 {
        0
    } else {
        old_sum_of(cs.drop_last()) + cs.last().old_opening.value
    }
}

/// The total value of the new openings.
pub open spec fn new_sum_of(cs: Seq<Change>) -> int
    decreases cs.len(),
{
    if cs.len() == 0 {
        0
    } else {
        new_sum_of(cs.drop_last()) + cs.last().new_opening.value
    }
}

/// The leaf a change writes: a commitment to the new opening at the new
/// version.
pub open spec fn written_leaf(params: PedersenParameters, c: Change, l: Leaf) -> bool {
    &&& l.key == c.key
    &&& opens(params, l, c.new_opening)
    &&& l.version == c.new_version
}

/// The leaves after the first `n` changes of `w` were written over `base`.
pub open spec fn leaves_after(base: Seq<Leaf>, w: TransitionWitness, n: int) -> Seq<Leaf> {
    base + w.touched@.map_values(|x: TouchedKey| x.new_leaf).take(n)
}

/// `w` is the witness, and `t` the tree, of applying `changes` to `tree` one
/// after another: each touched key carries its change's openings, the leaf
/// held before its change with the path to it, and the written leaf with
/// the same siblings.
pub open spec fn assembled(
    params: PedersenParameters,
    tree: SparseMerkleTree,
    changes: Seq<Change>,
    authorization: Vec<u8>,
    w: TransitionWitness,
    t: SparseMerkleTree,
) -> bool {
    &&& t.wf()
    &&& t.spec_depth() == tree.spec_depth()
    &&& w.depth == tree.spec_depth()
    &&& w.old_root@ == tree.spec_root()
    &&& w.new_root@ == t.spec_root()
    &&& w.authorization == authorization
    &&& w.touched@.len() == changes.len()
    &&& forall|k: nat|
        #[trigger] stored(t.spec_leaves(), k) == stored(
            leaves_after(tree.spec_leaves(), w, changes.len() as int),
            k,
        )
    &&& forall|i: int|
        0 <= i < changes.len() ==> {
            let x = #[trigger] w.touched@[i];
            let c = changes[i];
            let before = leaves_after(tree.spec_leaves(), w, i);
            &&& x.key == c.key
            &&& key_fits(c.key, tree.spec_depth())
            &&& x.old_opening == c.old_opening
            &&& x.new_opening == c.new_opening
            &&& holds(before, c.key as nat, x.old_leaf)
            &&& is_path_of(before, c.key as nat, x.old_path.siblings@, tree.spec_depth())
            &&& written_leaf(params, c, x.new_leaf)
            &&& x.new_path.siblings@ == x.old_path.siblings@
        }
}

/// The totals of the old and new openings of `cs`.
fn totals(cs: &Vec<Change>) -> (r: (u128, u128))
    ensures
        r.0 == old_sum_of(cs@),
        r.1 == new_sum_of(cs@),
{
    let mut old_sum: u128 = 0;
    let mut new_sum: u128 = 0;
    let mut i: usize = 0;
    while i < cs.len()
        invariant
            i <= cs@.len(),
            old_sum == old_sum_of(cs@.take(i as int)),
            new_sum == new_sum_of(cs@.take(i as int)),
            old_sum <= i * 0xffff_ffff_ffff_ffff,
            new_sum <= i * 0xffff_ffff_ffff_ffff,
        decreases cs@.len() - i,
    {
        proof {
            assert(cs@.take(i + 1).drop_last() =~= cs@.take(i as int));
            let n: int = i as int;
            assert(n + 1 <= 0x1_0000_0000_0000_0000);
            assert((n + 1) * 0xffff_ffff_ffff_ffff <= 0x1_0000_0000_0000_0000 * 0xffff_ffff_ffff_ffff)
                by (nonlinear_arith)
                requires
                    0 <= n + 1 <= 0x1_0000_0000_0000_0000,
            ;
            assert((n + 1) * 0xffff_ffff_ffff_ffff == n * 0xffff_ffff_ffff_ffff + 0xffff_ffff_ffff_ffff)
                by (nonlinear_arith);
        }
        old_sum = old_sum + cs[i].old_opening.value as u128;
        new_sum = new_sum + cs[i].new_opening.value as u128;
        i = i + 1;
    }
    assert(cs@.take(i as int) =~= cs@);
    (old_sum, new_sum)
}

/// Assembles the witness of applying `changes` to `tree` one after another,
/// and the tree after them. Fails if `tree` is not at `current_root`, if the
/// changes do not conserve the total value, or if a key does not fit, in that
/// order.
pub fn build_witness(
    params: &PedersenParameters,
    tree: &SparseMerkleTree,
    current_root: &[u8; 32],
    changes: &Vec<Change>,
    authorization: Vec<u8>,
) -> (r: Result<(TransitionWitness, SparseMerkleTree), WitnessError>)
    requires
        params.wf(),
        tree.wf(),
    ensures
        tree.spec_root() != current_root@ ==> r == Err::<(TransitionWitness, SparseMerkleTree), WitnessError>(
            WitnessError::StaleRoot,
        ),
        tree.spec_root() == current_root@ && old_sum_of(changes@) != new_sum_of(changes@) ==> r == Err::<
            (TransitionWitness, SparseMerkleTree),
            WitnessError,
        >(WitnessError::Unbalanced),
        tree.spec_root() == current_root@ && old_sum_of(changes@) == new_sum_of(changes@) ==> (r is Ok
            <==> forall|j: int| 0 <= j < changes@.len() ==> key_fits(#[trigger] changes@[j].key, tree.spec_depth())),
        r is Err ==> (r->Err_0 == WitnessError::InvalidKeyWidth <==> tree.spec_root() == current_root@
            && old_sum_of(changes@) == new_sum_of(changes@)),
        r is Ok ==> assembled(*params, *tree, changes@, authorization, r->Ok_0.0, r->Ok_0.1),
{
    let root = tree.root();
    if !bytes_equal(&root, current_root) {
        return Err(WitnessError::StaleRoot);
    }
    let (old_sum, new_sum) = totals(changes);
    if old_sum != new_sum {
        return Err(WitnessError::Unbalanced);
    }
    let mut batch: Vec<Leaf> = Vec::new();
    let mut i: usize = 0;
    while i < changes.len()
        invariant
            params.wf(),
            tree.spec_root() == current_root@,
            old_sum_of(changes@) == new_sum_of(changes@),
            i <= changes@.len(),
            batch@.len() == i,
            forall|j: int| 0 <= j < i ==> written_leaf(*params, changes@[j], #[trigger] batch@[j]),
        decreases changes@.len() - i,
    {
        let c = changes[i];
        let commitment: Commitment = params.commit(c.new_opening.value, &c.new_opening.blinding);
        batch.push(Leaf { key: c.key, commitment, version: c.new_version });
        i = i + 1;
    }
    let ghost base = tree.spec_leaves();
    let mut cur = tree.duplicate();
    let mut touched: Vec<TouchedKey> = Vec::new();
    let mut n: usize = 0;
    while n < changes.len()
        invariant
            params.wf(),
            tree.wf(),
            base == tree.spec_leaves(),
            root@ == tree.spec_root(),
            tree.spec_root() == current_root@,
            old_sum_of(changes@) == new_sum_of(changes@),
            cur.wf(),
            cur.spec_depth() == tree.spec_depth(),
            n <= changes@.len(),
            batch@.len() == changes@.len(),
            forall|j: int| 0 <= j < changes@.len() ==> written_leaf(*params, changes@[j], #[trigger] batch@[j]),
            forall|k: nat| #[trigger] stored(cur.spec_leaves(), k) == stored(base + batch@.take(n as int), k),
            touched@.len() == n,
            forall|j: int| 0 <= j < n ==> #[trigger] touched@[j].new_leaf == batch@[j],
            forall|j: int|
                0 <= j < n ==> {
                    let x = #[trigger] touched@[j];
                    let c = changes@[j];
                    let before = base + batch@.take(j);
                    &&& x.key == c.key
                    &&& key_fits(c.key, tree.spec_depth())
                    &&& x.old_opening == c.old_opening
                    &&& x.new_opening == c.new_opening
                    &&& holds(before, c.key as nat, x.old_leaf)
                    &&& is_path_of(before, c.key as nat, x.old_path.siblings@, tree.spec_depth())
                    &&& written_leaf(*params, c, x.new_leaf)
                    &&& x.new_path.siblings@ == x.old_path.siblings@
                },
        decreases changes@.len() - n,
    {
        let c = changes[n];
        let (old_leaf, old_path) = match cur.get(c.key) {
            Ok(x) => x,
            Err(_) => {
                return Err(WitnessError::InvalidKeyWidth);
            },
        };
        let ghost before = base + batch@.take(n as int);
        proof {
            assert(stored(cur.spec_leaves(), c.key as nat) == stored(before, c.key as nat));
            lemma_path_by_slots(cur.spec_leaves(), before, c.key as nat, old_path.siblings@, tree.spec_depth());
        }
        let new_path = copy_proof(&old_path);
        let b = batch[n];
        let next = match cur.update(b) {
            Ok(x) => x.0,
            Err(_) => {
                return Err(WitnessError::InvalidKeyWidth);
            },
        };
        proof {
            assert(before.push(b) =~= base + batch@.take(n + 1));
            lemma_stored_push(before, b);
        }
        assert(key_fits(c.key, tree.spec_depth()));
        assert(holds(before, c.key as nat, old_leaf));
        assert(is_path_of(before, c.key as nat, old_path.siblings@, tree.spec_depth()));
        assert(written_leaf(*params, c, b));
        assert(new_path.siblings@ == old_path.siblings@);
        cur = next;
        let ghost prev = touched@;
        let tk = TouchedKey {
            key: c.key,
            old_leaf,
            old_opening: c.old_opening,
            old_path,
            new_leaf: b,
            new_opening: c.new_opening,
            new_path,
        };
        touched.push(tk);
        proof {
            assert forall|j: int| 0 <= j < n + 1 implies {
                let x = #[trigger] touched@[j];
                let c = changes@[j];
                let before = base + batch@.take(j);
                &&& x.key == c.key
                &&& key_fits(c.key, tree.spec_depth())
                &&& x.old_opening == c.old_opening
                &&& x.new_opening == c.new_opening
                &&& holds(before, c.key as nat, x.old_leaf)
                &&& is_path_of(before, c.key as nat, x.old_path.siblings@, tree.spec_depth())
                &&& written_leaf(*params, c, x.new_leaf)
                &&& x.new_path.siblings@ == x.old_path.siblings@
            } by {
                if j < n {
                    assert(touched@[j] == prev[j]);
                } else {
                    assert(touched@[j] == tk);
                }
            }
        }
        n = n + 1;
    }
    let w = TransitionWitness { depth: tree.depth(), old_root: root, new_root: cur.root(), touched, authorization };
    proof {
        assert(w.touched@.map_values(|x: TouchedKey| x.new_leaf) =~= batch@);
        assert(batch@.take(changes@.len() as int) =~= batch@);
        assert forall|j: int| 0 <= j <= changes@.len() implies #[trigger] leaves_after(base, w, j) == base + batch@.take(j) by {
            assert(w.touched@.map_values(|x: TouchedKey| x.new_leaf).take(j) =~= batch@.take(j));
        }
        assert forall|i: int| 0 <= i < changes@.len() implies {
            let x = #[trigger] w.touched@[i];
            let c = changes@[i];
            let before = leaves_after(base, w, i);
            &&& x.key == c.key
            &&& key_fits(c.key, tree.spec_depth())
            &&& x.old_opening == c.old_opening
            &&& x.new_opening == c.new_opening
            &&& holds(before, c.key as nat, x.old_leaf)
            &&& is_path_of(before, c.key as nat, x.old_path.siblings@, tree.spec_depth())
            &&& written_leaf(*params, c, x.new_leaf)
            &&& x.new_path.siblings@ == x.old_path.siblings@
        } by {
            assert(leaves_after(base, w, i) == base + batch@.take(i));
        }
        assert(leaves_after(base, w, changes@.len() as int) == base + batch@.take(changes@.len() as int));
        assert forall|j: int| 0 <= j < changes@.len() implies key_fits(#[trigger] changes@[j].key, tree.spec_depth()) by {
            assert(key_fits(w.touched@[j].key, tree.spec_depth()));
        }
    }
    Ok((w, cur))
}

/// The root after the first `i` keys of an assembled witness is the root of
/// the leaves written so far.
proof fn lemma_chain_root(
    params: PedersenParameters,
    tree: SparseMerkleTree,
    changes: Seq<Change>,
    authorization: Vec<u8>,
    w: TransitionWitness,
    t: SparseMerkleTree,
    i: int,
)
    requires
        tree.wf(),
        assembled(params, tree, changes, authorization, w, t),
        0 <= i <= changes.len(),
    ensures
        chain_root(w, i as nat) == node_hash(leaves_after(tree.spec_leaves(), w, i), tree.spec_depth(), 0),
{
    let base = tree.spec_leaves();
    let news = w.touched@.map_values(|x: TouchedKey| x.new_leaf);
    if i == 0 {
        assert(leaves_after(base, w, 0) =~= base);
    } else {
        let x = w.touched@[i - 1];
        let c = changes[i - 1];
        let before = leaves_after(base, w, i - 1);
        let after = leaves_after(base, w, i);
        assert(news.take(i) =~= news.take(i - 1).push(news[i - 1]));
        assert(after =~= before.push(x.new_leaf));
        lemma_stored_push(before, x.new_leaf);
        lemma_siblings_kept(before, after, c.key as nat, x.old_path.siblings@, tree.spec_depth());
        assert(holds(after, c.key as nat, x.new_leaf));
        lemma_path_root_of(after, tree.spec_depth(), c.key, x.new_leaf, x.new_path.siblings@);
    }
}

proof fn lemma_totals_match(ts: Seq<TouchedKey>, cs: Seq<Change>)
    requires
        ts.len() == cs.len(),
        forall|i: int|
            0 <= i < ts.len() ==> (#[trigger] ts[i]).old_opening == cs[i].old_opening && ts[i].new_opening
                == cs[i].new_opening,
    ensures
        old_total(ts) == old_sum_of(cs),
        new_total(ts) == new_sum_of(cs),
    decreases ts.len(),
{
    if ts.len() > 0 {
        let (a, b) = (ts.drop_last(), cs.drop_last());
        assert forall|i: int| 0 <= i < a.len() implies (#[trigger] a[i]).old_opening == b[i].old_opening
            && a[i].new_opening == b[i].new_opening by {
            assert(a[i] == ts[i] && b[i] == cs[i]);
        }
        lemma_totals_match(a, b);
        assert(ts.last() == ts[ts.len() - 1]);
    }
}

/// A witness assembled from changes that conserve the total value, touch
/// pairwise distinct keys, keep every value in range, and whose old openings
/// open the leaves the tree holds, satisfies every constraint: the check
/// accepts it.
pub proof fn lemma_assembled_witness_satisfied(
    params: PedersenParameters,
    tree: SparseMerkleTree,
    changes: Seq<Change>,
    authorization: Vec<u8>,
    w: TransitionWitness,
    t: SparseMerkleTree,
)
    requires
        params.wf(),
        tree.wf(),
        assembled(params, tree, changes, authorization, w, t),
        old_sum_of(changes) == new_sum_of(changes),
        forall|a: int, b: int| 0 <= a < b < changes.len() ==> (#[trigger] changes[a]).key != (#[trigger] changes[b]).key,
        forall|i: int|
            0 <= i < changes.len() ==> (#[trigger] changes[i]).old_opening.value <= MAX_VALUE
                && changes[i].new_opening.value <= MAX_VALUE,
        forall|i: int, l: Leaf|
            0 <= i < changes.len() && #[trigger] holds(tree.spec_leaves(), changes[i].key as nat, l) ==> opens(
                params,
                l,
                changes[i].old_opening,
            ),
    ensures
        satisfied(params, w),
{
    let base = tree.spec_leaves();
    let ts = w.touched@;
    let news = ts.map_values(|x: TouchedKey| x.new_leaf);
    assert forall|a: int, b: int| 0 <= a < b < ts.len() implies (#[trigger] ts[a]).key != (#[trigger] ts[b]).key by {
        assert(ts[a].key == changes[a].key && ts[b].key == changes[b].key);
    }
    assert forall|i: int| 0 <= i < ts.len() implies #[trigger] step_constraints(params, w, i) by {
        let x = ts[i];
        let c = changes[i];
        let before = leaves_after(base, w, i);
        lemma_chain_root(params, tree, changes, authorization, w, t, i);
        lemma_path_root_of(before, tree.spec_depth(), c.key, x.old_leaf, x.old_path.siblings@);
        let prefix = news.take(i);
        assert forall|j: int| 0 <= j < prefix.len() implies (#[trigger] prefix[j]).key as nat != c.key as nat by {
            assert(prefix[j] == news[j]);
            assert(news[j].key == changes[j].key);
        }
        lemma_stored_absent(prefix, c.key as nat);
        lemma_stored_append(base, prefix);
        assert(stored(before, c.key as nat) == stored(base, c.key as nat));
        assert(holds(base, c.key as nat, x.old_leaf));
    }
    lemma_chain_root(params, tree, changes, authorization, w, t, changes.len() as int);
    lemma_node_hash_by_slots(leaves_after(base, w, changes.len() as int), t.spec_leaves(), tree.spec_depth(), 0);
    assert forall|i: int|
        0 <= i < ts.len() implies (#[trigger] ts[i]).old_opening == changes[i].old_opening && ts[i].new_opening
        == changes[i].new_opening by {}
    lemma_totals_match(ts, changes);
}

} // verus!
