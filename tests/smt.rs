use overpass_core::pedersen_parameters::{Commitment, PedersenParameters};
use overpass_core::smt::{empty_leaf, leaf_hash, verify_proof, Leaf, MerkleProof, SmtError, SparseMerkleTree};
use sha2::{Digest, Sha256};

fn sha(data: &[u8]) -> [u8; 32] {
    Sha256::digest(data).into()
}

fn empty_root(depth: u32) -> [u8; 32] {
    let mut h = sha(&[0u8; 40]);
    for _ in 0..depth {
        let mut buf = h.to_vec();
        buf.extend_from_slice(&h);
        h = sha(&buf);
    }
    h
}

fn leaf(key: u64, byte: u8, version: u64) -> Leaf {
    Leaf { key, commitment: Commitment { point: [byte; 32] }, version }
}

#[test]
fn leaf_hash_encodes_commitment_then_version() {
    let l = leaf(3, 9, 0x0102_0304_0506_0708);
    let mut buf = vec![9u8; 32];
    buf.extend_from_slice(&[1, 2, 3, 4, 5, 6, 7, 8]);
    assert_eq!(leaf_hash(&l), sha(&buf));
    assert_eq!(leaf_hash(&empty_leaf(5)), sha(&[0u8; 40]));
}

#[test]
fn empty_tree_root_is_empty_constant() {
    for depth in [0u32, 1, 4, 16] {
        let t = SparseMerkleTree::empty(depth);
        assert_eq!(t.root(), empty_root(depth));
        assert_eq!(t.depth(), depth);
    }
}

#[test]
fn insert_into_depth_four_tree() {
    let t0 = SparseMerkleTree::empty(4);
    let c1 = leaf(0b0101, 0xc1, 1);
    let (t1, old_proof, new_proof) = t0.update(c1).unwrap();
    let r1 = t1.root();
    assert_eq!(t0.root(), empty_root(4));
    assert_ne!(r1, empty_root(4));
    assert_eq!(old_proof.siblings.len(), 4);
    assert!(verify_proof(4, &t0.root(), 0b0101, &empty_leaf(0b0101), &old_proof));
    assert!(verify_proof(4, &r1, 0b0101, &c1, &new_proof));
    let (got, proof) = t1.get(0b0101).unwrap();
    assert_eq!(got, c1);
    assert_eq!(proof.siblings.len(), 4);
    assert!(verify_proof(4, &r1, 0b0101, &got, &proof));
    for other in 0u64..16 {
        if other == 0b0101 {
            continue;
        }
        let (l, p) = t1.get(other).unwrap();
        assert_eq!(l, empty_leaf(other));
        assert!(verify_proof(4, &r1, other, &l, &p));
    }
}

#[test]
fn root_matches_hand_computed_hash() {
    let t = SparseMerkleTree::empty(1).update(leaf(1, 7, 2)).unwrap().0;
    let mut enc = vec![7u8; 32];
    enc.extend_from_slice(&[0, 0, 0, 0, 0, 0, 0, 2]);
    let right = sha(&enc);
    let left = sha(&[0u8; 40]);
    let mut buf = left.to_vec();
    buf.extend_from_slice(&right);
    assert_eq!(t.root(), sha(&buf));
}

#[test]
fn inclusion_round_trip_for_every_key() {
    let mut t = SparseMerkleTree::empty(3);
    for k in [1u64, 4, 6] {
        t = t.update(leaf(k, k as u8 + 1, k)).unwrap().0;
    }
    for k in 0u64..8 {
        let (l, p) = t.get(k).unwrap();
        assert!(verify_proof(3, &t.root(), k, &l, &p));
    }
}

#[test]
fn tampering_breaks_proof() {
    let t = SparseMerkleTree::empty(4).update(leaf(9, 0x33, 1)).unwrap().0;
    let (l, p) = t.get(9).unwrap();
    assert!(verify_proof(4, &t.root(), 9, &l, &p));
    for byte in [0usize, 17, 31] {
        for bit in 0..8 {
            let mut bad = l;
            bad.commitment.point[byte] ^= 1 << bit;
            assert!(!verify_proof(4, &t.root(), 9, &bad, &p));
        }
    }
    for level in 0..4 {
        let mut bad = p.clone();
        bad.siblings[level][5] ^= 0x10;
        assert!(!verify_proof(4, &t.root(), 9, &l, &bad));
    }
    assert!(!verify_proof(4, &t.root(), 8, &l, &p));
}

#[test]
fn malformed_proof_length_is_rejected() {
    let t = SparseMerkleTree::empty(4);
    let (l, p) = t.get(2).unwrap();
    let mut short = p.clone();
    short.siblings.pop();
    assert!(!verify_proof(4, &t.root(), 2, &l, &short));
    let mut long = p.clone();
    long.siblings.push([0u8; 32]);
    assert!(!verify_proof(4, &t.root(), 2, &l, &long));
    assert!(!verify_proof(4, &t.root(), 2, &l, &MerkleProof { siblings: Vec::new() }));
}

#[test]
fn key_wider_than_depth_is_rejected() {
    let t = SparseMerkleTree::empty(4);
    assert_eq!(t.get(16).unwrap_err(), SmtError::InvalidKeyWidth);
    assert_eq!(t.update(leaf(16, 1, 1)).unwrap_err(), SmtError::InvalidKeyWidth);
    assert_eq!(t.update_many(&vec![leaf(1, 1, 1), leaf(99, 1, 1)]).unwrap_err(), SmtError::InvalidKeyWidth);
    assert!(t.get(15).is_ok());
    let (l, p) = t.get(15).unwrap();
    assert!(!verify_proof(4, &t.root(), 31, &Leaf { key: 31, ..l }, &p));
}

#[test]
fn full_width_keys() {
    let t = SparseMerkleTree::empty(64).update(leaf(u64::MAX, 5, 1)).unwrap().0;
    let (l, p) = t.get(u64::MAX).unwrap();
    assert_eq!(l, leaf(u64::MAX, 5, 1));
    assert!(verify_proof(64, &t.root(), u64::MAX, &l, &p));
    let (e, q) = t.get(0).unwrap();
    assert_eq!(e, empty_leaf(0));
    assert!(verify_proof(64, &t.root(), 0, &e, &q));
}

#[test]
fn same_updates_same_root() {
    let ops = [leaf(3, 1, 1), leaf(12, 2, 1), leaf(3, 4, 2), leaf(7, 8, 1)];
    let mut a = SparseMerkleTree::empty(4);
    let mut b = SparseMerkleTree::empty(4);
    for l in ops {
        a = a.update(l).unwrap().0;
        b = b.update(l).unwrap().0;
    }
    assert_eq!(a.root(), b.root());
    let mut c = SparseMerkleTree::empty(4);
    for l in [leaf(7, 8, 1), leaf(3, 4, 2), leaf(12, 2, 1)] {
        c = c.update(l).unwrap().0;
    }
    assert_eq!(a.root(), c.root());
}

#[test]
fn two_updates_to_one_key_change_root() {
    let t0 = SparseMerkleTree::empty(4);
    let (t1, _, _) = t0.update(leaf(6, 1, 1)).unwrap();
    let (t2, _, p2) = t1.update(leaf(6, 2, 2)).unwrap();
    assert_ne!(t1.root(), t2.root());
    assert!(verify_proof(4, &t2.root(), 6, &leaf(6, 2, 2), &p2));
    assert!(!verify_proof(4, &t1.root(), 6, &leaf(6, 2, 2), &p2));
    assert_eq!(t1.get(6).unwrap().0, leaf(6, 1, 1));
}

#[test]
fn update_many_matches_ascending_single_updates() {
    let t = SparseMerkleTree::empty(4).update(leaf(2, 9, 1)).unwrap().0;
    let batch = vec![leaf(11, 1, 1), leaf(5, 2, 1), leaf(11, 3, 2), leaf(2, 4, 2)];
    let many = t.update_many(&batch).unwrap();
    let mut seq = t.clone();
    for l in [leaf(2, 4, 2), leaf(5, 2, 1), leaf(11, 1, 1), leaf(11, 3, 2)] {
        seq = seq.update(l).unwrap().0;
    }
    assert_eq!(many.root(), seq.root());
    assert_eq!(many.get(11).unwrap().0, leaf(11, 3, 2));
    assert_eq!(t.update_many(&Vec::new()).unwrap().root(), t.root());
}

#[test]
fn empty_leaf_commits_to_zero() {
    let p = PedersenParameters::new(128);
    assert_eq!(empty_leaf(7).commitment, p.commit(0, &[0u8; 32]));
}

#[test]
fn depth_four_scenario_with_real_commitment() {
    let p = PedersenParameters::new(128);
    let c1 = Leaf { key: 0b0101, commitment: p.commit(25, &[3u8; 32]), version: 1 };
    let t0 = SparseMerkleTree::empty(4);
    let t1 = t0.update(c1).unwrap().0;
    assert_eq!(t0.root(), empty_root(4));
    assert_ne!(t1.root(), t0.root());
    let (l, proof) = t1.get(0b0101).unwrap();
    assert_eq!(l, c1);
    assert!(verify_proof(4, &t1.root(), 0b0101, &l, &proof));
    assert_eq!(t1.get(0b1010).unwrap().0, empty_leaf(0b1010));
}
