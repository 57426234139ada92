//! A sparse Merkle tree of commitment leaves.
//!
//! A tree of depth `d` holds a leaf for every key below `2^d`; keys never
//! set hold the empty leaf. The node at height `h` and index `p` covers the
//! keys whose `h`-th ancestor index is `p`; its children are `2p` (left) and
//! `2p + 1` (right), and its hash is `SHA-256(left || right)`.

use crate::pedersen_parameters::{bytes_equal, sha256, sha256_of, zeros, Commitment};
use vstd::arithmetic::div_mod::{lemma_basic_div, lemma_div_denominator, lemma_div_non_zero};
use vstd::arithmetic::power2::{lemma_pow2_pos, lemma_pow2_unfold, pow2};
use vstd::prelude::*;

verus! {

/// The largest supported depth: keys are 64 bits wide.
pub const MAX_DEPTH: u32 = 64;

/// A leaf of the tree.
#[derive(Debug, Clone, Copy, PartialEq, Eq)]
pub struct Leaf {
    pub key: u64,
    pub commitment: Commitment,
    pub version: u64,
}

/// Siblings of the path from a leaf to the root, the leaf's sibling first.
#[derive(Debug, Clone, PartialEq, Eq)]
pub struct MerkleProof {
    pub siblings: Vec<[u8; 32]>,
}

/// Errors of the tree.
#[derive(Debug, Clone, Copy, PartialEq, Eq, Structural)]
pub enum SmtError {
    /// A key that does not fit in the tree's depth.
    InvalidKeyWidth,
}

/// The index of the ancestor of `key` at height `height`.
pub open spec fn ancestor(key: nat, height: nat) -> nat
    decreases height,
{
    if height == 0 {
        key
    } else {
        ancestor(key, (height - 1) as nat) / 2
    }
}

/// `key` is at most `depth` bits wide.
pub open spec fn key_fits(key: u64, depth: nat) -> bool {
    (key as nat) < pow2(depth)
}

/// The index of the other child of a node's parent.
pub open spec fn sibling_index(p: nat) -> nat {
    if p % 2 == 0 {
        p + 1
    } else {
        (p - 1) as nat
    }
}

/// The big-endian bytes of a version number.
pub open spec fn version_bytes(v: u64) -> Seq<u8> {
    Seq::new(8, |i: int| ((v >> ((56 - 8 * i) as u64)) & 0xff) as u8)
}

/// The bytes hashed for a leaf: its commitment, then its version.
pub open spec fn leaf_encoding(l: Leaf) -> Seq<u8> {
    l.commitment.point@ + version_bytes(l.version)
}

/// The encoding of the empty leaf: the identity point and version zero.
pub open spec fn empty_leaf_encoding() -> Seq<u8> {
    Seq::new(40, |i: int| 0u8)
}

/// The empty leaf: a commitment to zero with a zero blinding (the identity
/// point, encoded as zeros), at version zero.
pub open spec fn is_empty_leaf(l: Leaf) -> bool {
    l.commitment.point@ == zeros() && l.version == 0
}

/// The leaf last written at `key`, if any.
pub open spec fn stored(leaves: Seq<Leaf>, key: nat) -> Option<Leaf>
    decreases leaves.len(),
{
    if leaves.len() == 0 {
        None
    } else if leaves.last().key as nat == key {
        Some(leaves.last())
    } else {
        stored(leaves.drop_last(), key)
    }
}

/// The hash of the leaf slot at `key`.
pub open spec fn slot_hash(leaves: Seq<Leaf>, key: nat) -> Seq<u8> {
    match stored(leaves, key) {
        Some(l) => sha256_of(leaf_encoding(l)),
        None => sha256_of(empty_leaf_encoding()),
    }
}

/// The hash of the node at `height` and index `p`.
pub open spec fn node_hash(leaves: Seq<Leaf>, height: nat, p: nat) -> Seq<u8>
    decreases height,
{
    if height == 0 {
        slot_hash(leaves, p)
    } else {
        sha256_of(
            node_hash(leaves, (height - 1) as nat, 2 * p) + node_hash(leaves, (height - 1) as nat, 2 * p + 1),
        )
    }
}

/// The hash of an empty subtree of height `height`.
pub open spec fn empty_hash(height: nat) -> Seq<u8>
    decreases height,
{
    if height == 0 {
        sha256_of(empty_leaf_encoding())
    } else {
        sha256_of(empty_hash((height - 1) as nat) + empty_hash((height - 1) as nat))
    }
}

/// The hash reached from `start` at the leaf `key` after `levels` steps up
/// the path, combining with the given siblings.
pub open spec fn path_root(start: Seq<u8>, key: nat, siblings: Seq<[u8; 32]>, levels: nat) -> Seq<u8>
    decreases levels,
{
    if levels == 0 {
        start
    } else {
        let i = (levels - 1) as nat;
        let below = path_root(start, key, siblings, i);
        if ancestor(key, i) % 2 == 0 {
            sha256_of(below + siblings[i as int]@)
        } else {
            sha256_of(siblings[i as int]@ + below)
        }
    }
}

/// The siblings of the path of `key` in the tree holding `leaves`.
pub open spec fn is_path_of(leaves: Seq<Leaf>, key: nat, siblings: Seq<[u8; 32]>, depth: nat) -> bool {
    &&& siblings.len() == depth
    &&& forall|i: int|
        0 <= i < depth ==> #[trigger] siblings[i]@ == node_hash(
            leaves,
            i as nat,
            sibling_index(ancestor(key, i as nat)),
        )
}

proof fn lemma_ancestor_is_div(key: nat, h: nat)
    ensures
        ancestor(key, h) == key / pow2(h),
    decreases h,
{
    lemma_pow2_pos(h);
    if h > 0 {
        let c = (h - 1) as nat;
        lemma_ancestor_is_div(key, c);
        lemma_pow2_pos(c);
        lemma_pow2_unfold(h);
        lemma_div_denominator(key as int, pow2(c) as int, 2);
    } else {
        assert(pow2(0) == 1) by {
            vstd::arithmetic::power2::lemma2_to64();
        }
    }
}

/// A key fits exactly when the root is its ancestor at `depth`.
proof fn lemma_key_fits(key: u64, depth: nat)
    ensures
        key_fits(key, depth) <==> ancestor(key as nat, depth) == 0,
{
    lemma_ancestor_is_div(key as nat, depth);
    lemma_pow2_pos(depth);
    if (key as nat) < pow2(depth) {
        lemma_basic_div(key as int, pow2(depth) as int);
    } else {
        lemma_div_non_zero(key as int, pow2(depth) as int);
    }
}

proof fn lemma_ancestor_le(key: nat, h: nat)
    ensures
        ancestor(key, h) <= key,
    decreases h,
{
    if h > 0 {
        lemma_ancestor_le(key, (h - 1) as nat);
    }
}

proof fn lemma_stored_in(leaves: Seq<Leaf>, key: nat)
    ensures
        stored(leaves, key) is Some ==> exists|i: int|
            0 <= i < leaves.len() && leaves[i] == stored(leaves, key)->0 && leaves[i].key == key,
    decreases leaves.len(),
{
    if leaves.len() > 0 && leaves.last().key as nat != key {
        lemma_stored_in(leaves.drop_last(), key);
        if stored(leaves, key) is Some {
            let i = choose|i: int|
                0 <= i < leaves.drop_last().len() && leaves.drop_last()[i] == stored(leaves, key)->0
                    && leaves.drop_last()[i].key == key;
            assert(leaves[i] == leaves.drop_last()[i]);
        }
    }
}

/// A subtree that holds no written key hashes as the empty subtree.
proof fn lemma_empty_subtree(leaves: Seq<Leaf>, h: nat, p: nat)
    requires
        forall|i: int| 0 <= i < leaves.len() ==> ancestor(#[trigger] leaves[i].key as nat, h) != p,
    ensures
        node_hash(leaves, h, p) == empty_hash(h),
    decreases h,
{
    if h == 0 {
        lemma_stored_in(leaves, p);
    } else {
        let c = (h - 1) as nat;
        assert forall|i: int| 0 <= i < leaves.len() implies ancestor(#[trigger] leaves[i].key as nat, c) != 2 * p by {
            assert(ancestor(leaves[i].key as nat, h) == ancestor(leaves[i].key as nat, c) / 2);
        }
        assert forall|i: int| 0 <= i < leaves.len() implies ancestor(#[trigger] leaves[i].key as nat, c) != 2 * p + 1 by {
            assert(ancestor(leaves[i].key as nat, h) == ancestor(leaves[i].key as nat, c) / 2);
        }
        lemma_empty_subtree(leaves, c, 2 * p);
        lemma_empty_subtree(leaves, c, 2 * p + 1);
    }
}

/// Walking up the path of `key` with its true siblings reaches its ancestor.
proof fn lemma_path_reaches(leaves: Seq<Leaf>, key: nat, siblings: Seq<[u8; 32]>, depth: nat, levels: nat)
    requires
        is_path_of(leaves, key, siblings, depth),
        levels <= depth,
    ensures
        path_root(slot_hash(leaves, key), key, siblings, levels) == node_hash(leaves, levels, ancestor(key, levels)),
    decreases levels,
{
    if levels > 0 {
        let i = (levels - 1) as nat;
        lemma_path_reaches(leaves, key, siblings, depth, i);
        assert(siblings[i as int]@ == node_hash(leaves, i, sibling_index(ancestor(key, i))));
    }
}

/// The ancestor of `key` at height `height`.
fn ancestor_of(key: u64, height: u32) -> (r: u64)
    ensures
        r == ancestor(key as nat, height as nat),
{
    let mut idx: u64 = key;
    let mut i: u32 = 0;
    while i < height
        invariant
            i <= height,
            idx == ancestor(key as nat, i as nat),
        decreases height - i,
    {
        idx = idx / 2;
        i = i + 1;
    }
    idx
}

/// SHA-256 of the concatenation of two hashes.
fn hash_pair(a: &[u8; 32], b: &[u8; 32]) -> (r: [u8; 32])
    ensures
        r@ == sha256_of(a@ + b@),
{
    let mut buf: Vec<u8> = Vec::new();
    let mut i: usize = 0;
    while i < 32
        invariant
            i <= 32,
            buf@ =~= a@.take(i as int),
        decreases 32 - i,
    {
        buf.push(a[i]);
        i = i + 1;
    }
    let mut j: usize = 0;
    while j < 32
        invariant
            j <= 32,
            buf@ =~= a@ + b@.take(j as int),
        decreases 32 - j,
    {
        buf.push(b[j]);
        j = j + 1;
    }
    assert(b@.take(32) =~= b@);
    sha256(buf.as_slice())
}

/// The hash of a leaf.
pub fn leaf_hash(l: &Leaf) -> (r: [u8; 32])
    ensures
        r@ == sha256_of(leaf_encoding(*l)),
{
    let mut buf: Vec<u8> = Vec::new();
    let mut i: usize = 0;
    while i < 32
        invariant
            i <= 32,
            buf@ =~= l.commitment.point@.take(i as int),
        decreases 32 - i,
    {
        buf.push(l.commitment.point[i]);
        i = i + 1;
    }
    let v: u64 = l.version;
    let mut j: usize = 0;
    while j < 8
        invariant
            j <= 8,
            buf@ =~= l.commitment.point@ + version_bytes(v).take(j as int),
        decreases 8 - j,
    {
        let shift: u64 = (56 - 8 * j) as u64;
        buf.push(((v >> shift) & 0xff) as u8);
        j = j + 1;
    }
    assert(version_bytes(v).take(8) =~= version_bytes(v));
    sha256(buf.as_slice())
}

/// The empty leaf hashes as the empty leaf slot.
proof fn lemma_empty_leaf_hash(l: Leaf)
    requires
        is_empty_leaf(l),
    ensures
        leaf_encoding(l) == empty_leaf_encoding(),
{
    assert forall|i: int| 0 <= i < 8 implies #[trigger] version_bytes(0)[i] == 0u8 by {
        let s = (56 - 8 * i) as u64;
        assert((0u64 >> s) & 0xff == 0) by (bit_vector);
    }
    assert(leaf_encoding(l) =~= empty_leaf_encoding());
}

/// The empty leaf at `key`.
pub fn empty_leaf(key: u64) -> (r: Leaf)
    ensures
        r.key == key,
        is_empty_leaf(r),
{
    let r = Leaf { key, commitment: Commitment { point: [0u8; 32] }, version: 0 };
    assert(r.commitment.point@ =~= zeros());
    r
}

/// The leaf last written at `key`, if any.
fn find(leaves: &Vec<Leaf>, key: u64) -> (r: Option<Leaf>)
    ensures
        r == stored(leaves@, key as nat),
{
    let mut i: usize = leaves.len();
    assert(leaves@.take(i as int) =~= leaves@);
    while i > 0
        invariant
            i <= leaves@.len(),
            stored(leaves@, key as nat) == stored(leaves@.take(i as int), key as nat),
        decreases i,
    {
        assert(leaves@.take(i as int).drop_last() =~= leaves@.take(i - 1));
        if leaves[i - 1].key == key {
            return Some(leaves[i - 1]);
        }
        i = i - 1;
    }
    None
}

/// Whether some written key lies under the node at `height` and index `p`.
fn covers_any(leaves: &Vec<Leaf>, height: u32, p: u64) -> (r: bool)
    ensures
        r == exists|i: int| 0 <= i < leaves@.len() && ancestor(#[trigger] leaves@[i].key as nat, height as nat) == p,
{
    let mut i: usize = 0;
    while i < leaves.len()
        invariant
            i <= leaves@.len(),
            forall|j: int| 0 <= j < i ==> ancestor(#[trigger] leaves@[j].key as nat, height as nat) != p,
        decreases leaves@.len() - i,
    {
        if ancestor_of(leaves[i].key, height) == p {
            return true;
        }
        i = i + 1;
    }
    false
}

/// The hash of the node at `height` and index `p`, taking empty subtrees
/// from the table `empties`.
fn node(leaves: &Vec<Leaf>, empties: &Vec<[u8; 32]>, height: u32, p: u64) -> (r: [u8; 32])
    requires
        height < empties@.len(),
        forall|i: int| 0 <= i < empties@.len() ==> #[trigger] empties@[i]@ == empty_hash(i as nat),
    ensures
        r@ == node_hash(leaves@, height as nat, p as nat),
    decreases height,
{
    if !covers_any(leaves, height, p) {
        proof {
            lemma_empty_subtree(leaves@, height as nat, p as nat);
        }
        return empties[height as usize];
    }
    if height == 0 {
        match find(leaves, p) {
            Some(l) => leaf_hash(&l),
            None => {
                let e = empty_leaf(p);
                proof {
                    lemma_empty_leaf_hash(e);
                }
                leaf_hash(&e)
            },
        }
    } else {
        proof {
            let i = choose|i: int| 0 <= i < leaves@.len() && ancestor(#[trigger] leaves@[i].key as nat, height as nat) == p;
            let k = leaves@[i].key as nat;
            lemma_ancestor_le(k, (height - 1) as nat);
            assert(ancestor(k, height as nat) == ancestor(k, (height - 1) as nat) / 2);
        }
        let left = node(leaves, empties, height - 1, 2 * p);
        let right = node(leaves, empties, height - 1, 2 * p + 1);
        hash_pair(&left, &right)
    }
}

/// The hashes of empty subtrees of heights `0..=depth`.
fn empty_hashes(depth: u32) -> (r: Vec<[u8; 32]>)
    requires
        depth <= MAX_DEPTH,
    ensures
        r@.len() == depth + 1,
        forall|i: int| 0 <= i < r@.len() ==> #[trigger] r@[i]@ == empty_hash(i as nat),
{
    let e = empty_leaf(0);
    proof {
        lemma_empty_leaf_hash(e);
    }
    let mut r: Vec<[u8; 32]> = Vec::new();
    r.push(leaf_hash(&e));
    let mut h: u32 = 0;
    while h < depth
        invariant
            h <= depth,
            r@.len() == h + 1,
            forall|i: int| 0 <= i < r@.len() ==> #[trigger] r@[i]@ == empty_hash(i as nat),
        decreases depth - h,
    {
        let below = r[h as usize];
        let up = hash_pair(&below, &below);
        r.push(up);
        h = h + 1;
    }
    r
}

pub(crate) proof fn lemma_stored_push(s: Seq<Leaf>, x: Leaf)
    ensures
        forall|k: nat|
            #[trigger] stored(s.push(x), k) == if x.key as nat == k {
                Some(x)
            } else {
                stored(s, k)
            },
{
    assert(s.push(x).drop_last() =~= s);
}

/// `leaves` with the leaf at `leaf.key` replaced by `leaf`.
fn replaced(leaves: &Vec<Leaf>, leaf: Leaf, depth: u32) -> (r: Vec<Leaf>)
    requires
        key_fits(leaf.key, depth as nat),
        forall|j: int| 0 <= j < leaves@.len() ==> key_fits(#[trigger] leaves@[j].key, depth as nat),
    ensures
        forall|k: nat|
            #[trigger] stored(r@, k) == if k == leaf.key as nat {
                Some(leaf)
            } else {
                stored(leaves@, k)
            },
        forall|j: int| 0 <= j < r@.len() ==> key_fits(#[trigger] r@[j].key, depth as nat),
{
    let mut out: Vec<Leaf> = Vec::new();
    let mut i: usize = 0;
    while i < leaves.len()
        invariant
            i <= leaves@.len(),
            forall|k: nat| k != leaf.key as nat ==> #[trigger] stored(out@, k) == stored(leaves@.take(i as int), k),
            stored(out@, leaf.key as nat) is None,
            forall|j: int| 0 <= j < leaves@.len() ==> key_fits(#[trigger] leaves@[j].key, depth as nat),
            forall|j: int| 0 <= j < out@.len() ==> key_fits(#[trigger] out@[j].key, depth as nat),
        decreases leaves@.len() - i,
    {
        let x = leaves[i];
        proof {
            assert(leaves@.take(i + 1) =~= leaves@.take(i as int).push(x));
            lemma_stored_push(leaves@.take(i as int), x);
            lemma_stored_push(out@, x);
        }
        if x.key != leaf.key {
            out.push(x);
        }
        i = i + 1;
    }
    assert(leaves@.take(leaves@.len() as int) =~= leaves@);
    proof {
        lemma_stored_push(out@, leaf);
    }
    out.push(leaf);
    out
}

/// What the tree holds at `key`: the leaf last written there, or else the
/// empty leaf at `key`.
pub open spec fn holds(leaves: Seq<Leaf>, key: nat, leaf: Leaf) -> bool {
    match stored(leaves, key) {
        Some(l) => leaf == l,
        None => leaf.key as nat == key && is_empty_leaf(leaf),
    }
}

/// The hashes of the nodes on the path of `key`, from the leaf up to the
/// root.
fn path_hashes(leaves: &Vec<Leaf>, empties: &Vec<[u8; 32]>, depth: u32, key: u64) -> (r: Vec<[u8; 32]>)
    requires
        depth <= MAX_DEPTH,
        depth < empties@.len(),
        forall|i: int| 0 <= i < empties@.len() ==> #[trigger] empties@[i]@ == empty_hash(i as nat),
    ensures
        r@.len() == depth + 1,
        forall|h: int| 0 <= h <= depth ==> #[trigger] r@[h]@ == node_hash(leaves@, h as nat, ancestor(key as nat, h as nat)),
{
    let mut r: Vec<[u8; 32]> = Vec::new();
    let mut idx: u64 = key;
    let mut h: u32 = 0;
    while h < depth + 1
        invariant
            depth <= MAX_DEPTH,
            depth < empties@.len(),
            forall|i: int| 0 <= i < empties@.len() ==> #[trigger] empties@[i]@ == empty_hash(i as nat),
            h <= depth + 1,
            r@.len() == h,
            idx == ancestor(key as nat, h as nat),
            forall|j: int| 0 <= j < h ==> #[trigger] r@[j]@ == node_hash(leaves@, j as nat, ancestor(key as nat, j as nat)),
        decreases depth + 1 - h,
    {
        r.push(node(leaves, empties, h, idx));
        idx = idx / 2;
        h = h + 1;
    }
    r
}

/// A sparse Merkle tree: a persistent value; updates return a new tree.
///
/// Besides the leaves written, the tree keeps the hashes of its non-default
/// nodes: for each written key, the hashes on its path. Every other node is
/// the empty subtree of its height, whose hash comes from a table.
#[derive(Debug, Clone)]
pub struct SparseMerkleTree {
    depth: u32,
    leaves: Vec<Leaf>,
    empties: Vec<[u8; 32]>,
    paths: Vec<Vec<[u8; 32]>>,
    root: [u8; 32],
}

impl SparseMerkleTree {
    /// The depth: the number of bits of a key.
    pub closed spec fn spec_depth(&self) -> nat {
        self.depth as nat
    }

    /// The leaves written, oldest first; the last write to a key wins.
    pub closed spec fn spec_leaves(&self) -> Seq<Leaf> {
        self.leaves@
    }

    /// The root hash.
    pub closed spec fn spec_root(&self) -> Seq<u8> {
        self.root@
    }

    /// The table of empty-subtree hashes covers every height.
    pub closed spec fn tables_ok(&self) -> bool {
        &&& self.empties@.len() == self.depth + 1
        &&& forall|i: int| 0 <= i < self.empties@.len() ==> #[trigger] self.empties@[i]@ == empty_hash(i as nat)
        &&& self.paths@.len() == self.leaves@.len()
        &&& forall|j: int| 0 <= j < self.paths@.len() ==> (#[trigger] self.paths@[j])@.len() == self.depth + 1
        &&& forall|j: int, h: int|
            0 <= j < self.paths@.len() && 0 <= h <= self.depth ==> (#[trigger] self.paths@[j]@[h])@ == node_hash(
                self.leaves@,
                h as nat,
                ancestor(self.leaves@[j].key as nat, h as nat),
            )
    }

    /// The hash of the node at `height` and index `p`: a stored hash when a
    /// written key lies below it, else the empty subtree's.
    fn stored_node(&self, height: u32, p: u64) -> (r: [u8; 32])
        requires
            self.wf(),
            height <= self.depth,
        ensures
            r@ == node_hash(self.leaves@, height as nat, p as nat),
    {
        let mut j: usize = 0;
        while j < self.leaves.len()
            invariant
                self.wf(),
                height <= self.depth,
                j <= self.leaves@.len(),
                forall|i: int| 0 <= i < j ==> ancestor(#[trigger] self.leaves@[i].key as nat, height as nat) != p,
            decreases self.leaves@.len() - j,
        {
            if ancestor_of(self.leaves[j].key, height) == p {
                assert(self.paths@[j as int]@[height as int]@ == node_hash(self.leaves@, height as nat, p as nat));
                return self.paths[j][height as usize];
            }
            j = j + 1;
        }
        proof {
            lemma_empty_subtree(self.leaves@, height as nat, p as nat);
        }
        self.empties[height as usize]
    }

    /// The root is the hash of the leaves' tree, and every key fits.
    pub open spec fn wf(&self) -> bool {
        &&& self.spec_depth() <= MAX_DEPTH
        &&& self.spec_root() == node_hash(self.spec_leaves(), self.spec_depth(), 0)
        &&& forall|j: int|
            0 <= j < self.spec_leaves().len() ==> key_fits(#[trigger] self.spec_leaves()[j].key, self.spec_depth())
        &&& self.tables_ok()
    }

    /// The tree of depth `depth` in which every key holds the empty leaf.
    pub fn empty(depth: u32) -> (r: SparseMerkleTree)
        requires
            depth <= MAX_DEPTH,
        ensures
            r.wf(),
            r.spec_depth() == depth,
            r.spec_leaves() == Seq::<Leaf>::empty(),
            r.spec_root() == empty_hash(depth as nat),
    {
        let leaves: Vec<Leaf> = Vec::new();
        let empties = empty_hashes(depth);
        let root = empties[depth as usize];
        proof {
            lemma_empty_subtree(leaves@, depth as nat, 0);
        }
        let paths: Vec<Vec<[u8; 32]>> = Vec::new();
        SparseMerkleTree { depth, leaves, empties, paths, root }
    }

    /// The depth of the tree.
    pub fn depth(&self) -> (r: u32)
        ensures
            r == self.spec_depth(),
    {
        self.depth
    }

    /// The root hash of the tree.
    pub fn root(&self) -> (r: [u8; 32])
        ensures
            r@ == self.spec_root(),
    {
        self.root
    }

    /// The siblings of the path of `key`.
    fn path(&self, key: u64) -> (r: MerkleProof)
        requires
            self.wf(),
            key_fits(key, self.spec_depth()),
        ensures
            is_path_of(self.spec_leaves(), key as nat, r.siblings@, self.spec_depth()),
    {
        let mut siblings: Vec<[u8; 32]> = Vec::new();
        let mut idx: u64 = key;
        let mut i: u32 = 0;
        while i < self.depth
            invariant
                self.wf(),
                i <= self.depth,
                idx == ancestor(key as nat, i as nat),
                siblings@.len() == i,
                forall|j: int|
                    0 <= j < i ==> #[trigger] siblings@[j]@ == node_hash(
                        self.leaves@,
                        j as nat,
                        sibling_index(ancestor(key as nat, j as nat)),
                    ),
            decreases self.depth - i,
        {
            proof {
                lemma_ancestor_le(key as nat, i as nat);
            }
            let other: u64 = if idx % 2 == 0 { idx + 1 } else { idx - 1 };
            let h = self.stored_node(i, other);
            siblings.push(h);
            idx = idx / 2;
            i = i + 1;
        }
        MerkleProof { siblings }
    }

    /// The leaf at `key` (the empty leaf if never written) and its proof.
    pub fn get(&self, key: u64) -> (r: Result<(Leaf, MerkleProof), SmtError>)
        requires
            self.wf(),
        ensures
            r is Ok <==> key_fits(key, self.spec_depth()),
            r is Err ==> r->Err_0 == SmtError::InvalidKeyWidth,
            r is Ok ==> holds(self.spec_leaves(), key as nat, r->Ok_0.0),
            r is Ok ==> is_path_of(self.spec_leaves(), key as nat, r->Ok_0.1.siblings@, self.spec_depth()),
    {
        proof {
            lemma_key_fits(key, self.depth as nat);
        }
        if ancestor_of(key, self.depth) != 0 {
            return Err(SmtError::InvalidKeyWidth);
        }
        let leaf = match find(&self.leaves, key) {
            Some(l) => l,
            None => empty_leaf(key),
        };
        Ok((leaf, self.path(key)))
    }

    /// A tree over `leaves`, which all fit the depth.
    fn with_leaves(depth: u32, leaves: Vec<Leaf>) -> (r: SparseMerkleTree)
        requires
            depth <= MAX_DEPTH,
            forall|j: int| 0 <= j < leaves@.len() ==> key_fits(#[trigger] leaves@[j].key, depth as nat),
        ensures
            r.wf(),
            r.spec_depth() == depth,
            r.spec_leaves() == leaves@,
    {
        let empties = empty_hashes(depth);
        let root = node(&leaves, &empties, depth, 0);
        let mut paths: Vec<Vec<[u8; 32]>> = Vec::new();
        let mut j: usize = 0;
        while j < leaves.len()
            invariant
                depth <= MAX_DEPTH,
                empties@.len() == depth + 1,
                forall|i: int| 0 <= i < empties@.len() ==> #[trigger] empties@[i]@ == empty_hash(i as nat),
                j <= leaves@.len(),
                paths@.len() == j,
                forall|i: int| 0 <= i < paths@.len() ==> (#[trigger] paths@[i])@.len() == depth + 1,
                forall|i: int, h: int|
                    0 <= i < paths@.len() && 0 <= h <= depth ==> (#[trigger] paths@[i]@[h])@ == node_hash(
                        leaves@,
                        h as nat,
                        ancestor(leaves@[i].key as nat, h as nat),
                    ),
            decreases leaves@.len() - j,
        {
            let hashes = path_hashes(&leaves, &empties, depth, leaves[j].key);
            paths.push(hashes);
            j = j + 1;
        }
        SparseMerkleTree { depth, leaves, empties, paths, root }
    }

    /// A tree holding the same leaves as `self`.
    pub(crate) fn duplicate(&self) -> (r: SparseMerkleTree)
        requires
            self.wf(),
        ensures
            r.wf(),
            r.spec_depth() == self.spec_depth(),
            r.spec_leaves() == self.spec_leaves(),
    {
        let mut leaves: Vec<Leaf> = Vec::new();
        let mut j: usize = 0;
        while j < self.leaves.len()
            invariant
                self.wf(),
                j <= self.leaves@.len(),
                leaves@ =~= self.leaves@.take(j as int),
            decreases self.leaves@.len() - j,
        {
            leaves.push(self.leaves[j]);
            j = j + 1;
        }
        assert(self.leaves@.take(self.leaves@.len() as int) =~= self.leaves@);
        SparseMerkleTree::with_leaves(self.depth, leaves)
    }

    /// Writes `leaf` at `leaf.key`. Returns the new tree, the proof of the old
    /// leaf against the old root and the proof of `leaf` against the new root;
    /// `self` is left as it was.
    pub fn update(&self, leaf: Leaf) -> (r: Result<(SparseMerkleTree, MerkleProof, MerkleProof), SmtError>)
        requires
            self.wf(),
        ensures
            r is Ok <==> key_fits(leaf.key, self.spec_depth()),
            r is Err ==> r->Err_0 == SmtError::InvalidKeyWidth,
            r is Ok ==> ({
                let (t, old_proof, new_proof) = r->Ok_0;
                &&& t.wf()
                &&& t.spec_depth() == self.spec_depth()
                &&& forall|k: nat|
                    #[trigger] stored(t.spec_leaves(), k) == if k == leaf.key as nat {
                        Some(leaf)
                    } else {
                        stored(self.spec_leaves(), k)
                    }
                &&& is_path_of(self.spec_leaves(), leaf.key as nat, old_proof.siblings@, self.spec_depth())
                &&& is_path_of(t.spec_leaves(), leaf.key as nat, new_proof.siblings@, self.spec_depth())
            }),
    {
        proof {
            lemma_key_fits(leaf.key, self.depth as nat);
        }
        if ancestor_of(leaf.key, self.depth) != 0 {
            return Err(SmtError::InvalidKeyWidth);
        }
        let old_proof = self.path(leaf.key);
        let leaves = replaced(&self.leaves, leaf, self.depth);
        let t = SparseMerkleTree::with_leaves(self.depth, leaves);
        let new_proof = t.path(leaf.key);
        Ok((t, old_proof, new_proof))
    }

    /// Writes every leaf of `batch`, as single updates in ascending key
    /// order; of two leaves with one key, the later in `batch` wins.
    pub fn update_many(&self, batch: &Vec<Leaf>) -> (r: Result<SparseMerkleTree, SmtError>)
        requires
            self.wf(),
        ensures
            r is Ok <==> forall|j: int| 0 <= j < batch@.len() ==> key_fits(#[trigger] batch@[j].key, self.spec_depth()),
            r is Err ==> r->Err_0 == SmtError::InvalidKeyWidth,
            r is Ok ==> ({
                let t = r->Ok_0;
                &&& t.wf()
                &&& t.spec_depth() == self.spec_depth()
                &&& forall|k: nat|
                    #[trigger] stored(t.spec_leaves(), k) == match stored(batch@, k) {
                        Some(l) => Some(l),
                        None => stored(self.spec_leaves(), k),
                    }
            }),
    {
        let mut i: usize = 0;
        while i < batch.len()
            invariant
                i <= batch@.len(),
                forall|j: int| 0 <= j < i ==> key_fits(#[trigger] batch@[j].key, self.spec_depth()),
            decreases batch@.len() - i,
        {
            proof {
                lemma_key_fits(batch@[i as int].key, self.depth as nat);
            }
            if ancestor_of(batch[i].key, self.depth) != 0 {
                return Err(SmtError::InvalidKeyWidth);
            }
            i = i + 1;
        }
        let mut leaves: Vec<Leaf> = Vec::new();
        let mut j: usize = 0;
        while j < self.leaves.len()
            invariant
                self.wf(),
                j <= self.leaves@.len(),
                leaves@ =~= self.leaves@.take(j as int),
            decreases self.leaves@.len() - j,
        {
            leaves.push(self.leaves[j]);
            j = j + 1;
        }
        assert(self.leaves@.take(self.leaves@.len() as int) =~= self.leaves@);
        let mut n: usize = 0;
        while n < batch.len()
            invariant
                self.wf(),
                n <= batch@.len(),
                forall|j: int| 0 <= j < batch@.len() ==> key_fits(#[trigger] batch@[j].key, self.spec_depth()),
                forall|j: int| 0 <= j < leaves@.len() ==> key_fits(#[trigger] leaves@[j].key, self.spec_depth()),
                forall|k: nat|
                    #[trigger] stored(leaves@, k) == match stored(batch@.take(n as int), k) {
                        Some(l) => Some(l),
                        None => stored(self.leaves@, k),
                    },
            decreases batch@.len() - n,
        {
            let b = batch[n];
            proof {
                assert(batch@.take(n + 1) =~= batch@.take(n as int).push(b));
                lemma_stored_push(batch@.take(n as int), b);
            }
            leaves = replaced(&leaves, b, self.depth);
            n = n + 1;
        }
        assert(batch@.take(batch@.len() as int) =~= batch@);
        Ok(SparseMerkleTree::with_leaves(self.depth, leaves))
    }
}

pub(crate) proof fn lemma_node_hash_by_slots(a: Seq<Leaf>, b: Seq<Leaf>, h: nat, p: nat)
    requires
        forall|k: nat| #[trigger] stored(a, k) == stored(b, k),
    ensures
        node_hash(a, h, p) == node_hash(b, h, p),
    decreases h,
{
    if h > 0 {
        lemma_node_hash_by_slots(a, b, (h - 1) as nat, 2 * p);
        lemma_node_hash_by_slots(a, b, (h - 1) as nat, 2 * p + 1);
    } else {
        assert(stored(a, p) == stored(b, p));
    }
}

/// The root is a function of what the tree holds at each key: two trees of
/// one depth that hold the same leaf at every key have the same root, however
/// the writes that built them were ordered.
pub proof fn lemma_root_determined_by_leaves(a: SparseMerkleTree, b: SparseMerkleTree)
    requires
        a.wf(),
        b.wf(),
        a.spec_depth() == b.spec_depth(),
        forall|k: nat| #[trigger] stored(a.spec_leaves(), k) == stored(b.spec_leaves(), k),
    ensures
        a.spec_root() == b.spec_root(),
{
    lemma_node_hash_by_slots(a.spec_leaves(), b.spec_leaves(), a.spec_depth(), 0);
}

/// The same update applied to two trees that hold the same leaves gives two
/// trees that again hold the same leaves and have the same root; so runs that
/// start from `empty(depth)` and make the same updates in the same order end
/// at the same root, however long the sequence.
pub proof fn lemma_same_update_same_root(
    a: SparseMerkleTree,
    b: SparseMerkleTree,
    leaf: Leaf,
    a2: SparseMerkleTree,
    b2: SparseMerkleTree,
)
    requires
        a.spec_depth() == b.spec_depth(),
        forall|k: nat| #[trigger] stored(a.spec_leaves(), k) == stored(b.spec_leaves(), k),
        a2.wf(),
        b2.wf(),
        a2.spec_depth() == a.spec_depth(),
        b2.spec_depth() == b.spec_depth(),
        forall|k: nat|
            #[trigger] stored(a2.spec_leaves(), k) == if k == leaf.key as nat {
                Some(leaf)
            } else {
                stored(a.spec_leaves(), k)
            },
        forall|k: nat|
            #[trigger] stored(b2.spec_leaves(), k) == if k == leaf.key as nat {
                Some(leaf)
            } else {
                stored(b.spec_leaves(), k)
            },
    ensures
        forall|k: nat| #[trigger] stored(a2.spec_leaves(), k) == stored(b2.spec_leaves(), k),
        a2.spec_root() == b2.spec_root(),
{
    assert forall|k: nat| #[trigger] stored(a2.spec_leaves(), k) == stored(b2.spec_leaves(), k) by {
        if k != leaf.key as nat {
            assert(stored(a.spec_leaves(), k) == stored(b.spec_leaves(), k));
        }
    }
    lemma_root_determined_by_leaves(a2, b2);
}

/// A leaf held at `key` and the true siblings of its path walk up to the
/// root of the tree holding `leaves`.
pub(crate) proof fn lemma_path_root_of(leaves: Seq<Leaf>, depth: nat, key: u64, leaf: Leaf, siblings: Seq<[u8; 32]>)
    requires
        key_fits(key, depth),
        holds(leaves, key as nat, leaf),
        is_path_of(leaves, key as nat, siblings, depth),
    ensures
        leaf.key == key,
        path_root(sha256_of(leaf_encoding(leaf)), key as nat, siblings, depth) == node_hash(leaves, depth, 0),
{
    match stored(leaves, key as nat) {
        Some(l) => {
            lemma_stored_in(leaves, key as nat);
        },
        None => {
            lemma_empty_leaf_hash(leaf);
        },
    }
    assert(sha256_of(leaf_encoding(leaf)) == slot_hash(leaves, key as nat));
    lemma_key_fits(key, depth);
    lemma_path_reaches(leaves, key as nat, siblings, depth, depth);
}

/// A leaf and proof as `get` returns them for a key verify against the
/// tree's root: `verify_proof` accepts them.
pub proof fn lemma_inclusion_round_trip(t: SparseMerkleTree, key: u64, leaf: Leaf, siblings: Seq<[u8; 32]>)
    requires
        t.wf(),
        key_fits(key, t.spec_depth()),
        holds(t.spec_leaves(), key as nat, leaf),
        is_path_of(t.spec_leaves(), key as nat, siblings, t.spec_depth()),
    ensures
        leaf.key == key,
        path_root(sha256_of(leaf_encoding(leaf)), key as nat, siblings, t.spec_depth()) == t.spec_root(),
{
    lemma_path_root_of(t.spec_leaves(), t.spec_depth(), key, leaf, siblings);
}

/// Two leaf lists that agree at every key below a node hash it alike.
proof fn lemma_node_hash_local(a: Seq<Leaf>, b: Seq<Leaf>, h: nat, p: nat)
    requires
        forall|k: nat| #[trigger] ancestor(k, h) == p ==> stored(a, k) == stored(b, k),
    ensures
        node_hash(a, h, p) == node_hash(b, h, p),
    decreases h,
{
    if h > 0 {
        let c = (h - 1) as nat;
        assert forall|k: nat| #[trigger] ancestor(k, c) == 2 * p implies stored(a, k) == stored(b, k) by {
            assert(ancestor(k, h) == ancestor(k, c) / 2);
        }
        assert forall|k: nat| #[trigger] ancestor(k, c) == 2 * p + 1 implies stored(a, k) == stored(b, k) by {
            assert(ancestor(k, h) == ancestor(k, c) / 2);
        }
        lemma_node_hash_local(a, b, c, 2 * p);
        lemma_node_hash_local(a, b, c, 2 * p + 1);
    } else {
        assert(ancestor(p, 0) == p);
    }
}

/// The siblings of a key's path stay its siblings when only that key's leaf
/// changes.
pub(crate) proof fn lemma_siblings_kept(a: Seq<Leaf>, b: Seq<Leaf>, key: nat, siblings: Seq<[u8; 32]>, depth: nat)
    requires
        is_path_of(a, key, siblings, depth),
        forall|k: nat| k != key ==> #[trigger] stored(a, k) == stored(b, k),
    ensures
        is_path_of(b, key, siblings, depth),
{
    assert forall|i: int| 0 <= i < depth implies #[trigger] siblings[i]@ == node_hash(
        b,
        i as nat,
        sibling_index(ancestor(key, i as nat)),
    ) by {
        let s = sibling_index(ancestor(key, i as nat));
        assert forall|k: nat| #[trigger] ancestor(k, i as nat) == s implies stored(a, k) == stored(b, k) by {
            if k == key {
                assert(ancestor(key, i as nat) != s);
            }
        }
        lemma_node_hash_local(a, b, i as nat, s);
    }
}

/// A path stays a path in a leaf list that agrees at every key.
pub(crate) proof fn lemma_path_by_slots(a: Seq<Leaf>, b: Seq<Leaf>, key: nat, siblings: Seq<[u8; 32]>, depth: nat)
    requires
        is_path_of(a, key, siblings, depth),
        forall|k: nat| #[trigger] stored(a, k) == stored(b, k),
    ensures
        is_path_of(b, key, siblings, depth),
{
    lemma_siblings_kept(a, b, key, siblings, depth);
}

/// Writes appended after `base` take precedence over it.
pub(crate) proof fn lemma_stored_append(base: Seq<Leaf>, s: Seq<Leaf>)
    ensures
        forall|k: nat|
            #[trigger] stored(base + s, k) == match stored(s, k) {
                Some(l) => Some(l),
                None => stored(base, k),
            },
    decreases s.len(),
{
    if s.len() == 0 {
        assert(base + s =~= base);
        assert forall|k: nat| #[trigger] stored(base + s, k) == stored(base, k) by {
            assert(base + s == base);
        }
    } else {
        lemma_stored_append(base, s.drop_last());
        assert((base + s).drop_last() =~= base + s.drop_last());
        assert((base + s).last() == s.last());
        assert forall|k: nat|
            #[trigger] stored(base + s, k) == match stored(s, k) {
                Some(l) => Some(l),
                None => stored(base, k),
            } by {
            assert(stored(base + s.drop_last(), k) == match stored(s.drop_last(), k) {
                Some(l) => Some(l),
                None => stored(base, k),
            });
        }
    }
}

/// A key absent from `s` is not stored in it.
pub(crate) proof fn lemma_stored_absent(s: Seq<Leaf>, key: nat)
    requires
        forall|i: int| 0 <= i < s.len() ==> (#[trigger] s[i]).key as nat != key,
    ensures
        stored(s, key) is None,
{
    lemma_stored_in(s, key);
}

/// A proof with the same siblings as `p`.
pub(crate) fn copy_proof(p: &MerkleProof) -> (r: MerkleProof)
    ensures
        r.siblings@ == p.siblings@,
{
    let mut siblings: Vec<[u8; 32]> = Vec::new();
    let mut i: usize = 0;
    while i < p.siblings.len()
        invariant
            i <= p.siblings@.len(),
            siblings@ =~= p.siblings@.take(i as int),
        decreases p.siblings@.len() - i,
    {
        siblings.push(p.siblings[i]);
        i = i + 1;
    }
    assert(p.siblings@.take(p.siblings@.len() as int) =~= p.siblings@);
    MerkleProof { siblings }
}

/// Whether two proofs have the same siblings.
pub(crate) fn same_siblings(a: &MerkleProof, b: &MerkleProof) -> (r: bool)
    ensures
        r == (a.siblings@ == b.siblings@),
{
    if a.siblings.len() != b.siblings.len() {
        return false;
    }
    let mut i: usize = 0;
    while i < a.siblings.len()
        invariant
            i <= a.siblings@.len(),
            a.siblings@.len() == b.siblings@.len(),
            forall|j: int| 0 <= j < i ==> a.siblings@[j] == b.siblings@[j],
        decreases a.siblings@.len() - i,
    {
        if !bytes_equal(&a.siblings[i], &b.siblings[i]) {
            return false;
        }
        assert(a.siblings@[i as int] =~= b.siblings@[i as int]);
        i = i + 1;
    }
    assert(a.siblings@ =~= b.siblings@);
    true
}

/// The root reached from `leaf` at `key` through `proof`.
pub(crate) fn path_root_from(depth: u32, key: u64, leaf: &Leaf, proof: &MerkleProof) -> (r: [u8; 32])
    requires
        proof.siblings@.len() == depth,
    ensures
        r@ == path_root(sha256_of(leaf_encoding(*leaf)), key as nat, proof.siblings@, depth as nat),
{
    let mut cur = leaf_hash(leaf);
    let mut idx: u64 = key;
    let mut i: u32 = 0;
    while i < depth
        invariant
            i <= depth,
            proof.siblings@.len() == depth,
            idx == ancestor(key as nat, i as nat),
            cur@ == path_root(sha256_of(leaf_encoding(*leaf)), key as nat, proof.siblings@, i as nat),
        decreases depth - i,
    {
        let sib = proof.siblings[i as usize];
        if idx % 2 == 0 {
            cur = hash_pair(&cur, &sib);
        } else {
            cur = hash_pair(&sib, &cur);
        }
        idx = idx / 2;
        i = i + 1;
    }
    cur
}

/// `siblings` lead from `leaf`, standing at `key`, to `root` in a tree of
/// depth `depth`.
pub open spec fn proves(depth: nat, root: Seq<u8>, key: u64, leaf: Leaf, siblings: Seq<[u8; 32]>) -> bool {
    &&& siblings.len() == depth
    &&& key_fits(key, depth)
    &&& leaf.key == key
    &&& path_root(sha256_of(leaf_encoding(leaf)), key as nat, siblings, depth) == root
}

/// Whether `proof` shows that `leaf` stands at `key` in a tree of depth
/// `depth` with root `root`. A proof of another length, or a key wider than
/// the depth, is rejected.
pub fn verify_proof(depth: u32, root: &[u8; 32], key: u64, leaf: &Leaf, proof: &MerkleProof) -> (r: bool)
    ensures
        r == proves(depth as nat, root@, key, *leaf, proof.siblings@),
{
    if proof.siblings.len() != depth as usize || leaf.key != key {
        return false;
    }
    if ancestor_of(key, depth) != 0 {
        proof {
            lemma_key_fits(key, depth as nat);
        }
        return false;
    }
    proof {
        lemma_key_fits(key, depth as nat);
    }
    let cur = path_root_from(depth, key, leaf, proof);
    bytes_equal(&cur, root)
}

} // verus!
