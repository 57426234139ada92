use overpass_core::pedersen_parameters::PedersenParameters;
use overpass_core::smt::{Leaf, SparseMerkleTree};
use overpass_core::transition::{
    build_witness, check_constraints, Change, Opening, ProveError, WitnessError, MAX_VALUE,
};

fn scalar(n: u8) -> [u8; 32] {
    let mut b = [0u8; 32];
    b[0] = n;
    b
}

fn opening(value: u64, r: u8) -> Opening {
    Opening { value, blinding: scalar(r) }
}

fn funded_tree(p: &PedersenParameters) -> SparseMerkleTree {
    let a = Leaf { key: 1, commitment: p.commit(70, &scalar(3)), version: 1 };
    let b = Leaf { key: 6, commitment: p.commit(30, &scalar(4)), version: 1 };
    SparseMerkleTree::empty(4).update_many(&vec![a, b]).unwrap()
}

fn transfer() -> Vec<Change> {
    vec![
        Change { key: 1, old_opening: opening(70, 3), new_opening: opening(50, 5), new_version: 2 },
        Change { key: 6, old_opening: opening(30, 4), new_opening: opening(50, 6), new_version: 2 },
    ]
}

#[test]
fn balanced_transfer_satisfies_constraints() {
    let p = PedersenParameters::new(128);
    let t = funded_tree(&p);
    let (w, t2) = build_witness(&p, &t, &t.root(), &transfer(), vec![1, 2, 3]).unwrap();
    assert_eq!(w.old_root, t.root());
    assert_eq!(w.new_root, t2.root());
    assert_eq!(t2.get(1).unwrap().0.commitment, p.commit(50, &scalar(5)));
    let public = check_constraints(&p, w).unwrap();
    assert_eq!(public.old_root, t.root());
    assert_eq!(public.new_root, t2.root());
    assert_eq!(public.touched_keys, vec![1, 6]);
    assert_eq!(public.authorization, vec![1, 2, 3]);
}

#[test]
fn unbalanced_transfer_is_refused() {
    let p = PedersenParameters::new(128);
    let t = funded_tree(&p);
    let mut changes = transfer();
    changes[1].new_opening = opening(51, 6);
    assert_eq!(
        build_witness(&p, &t, &t.root(), &changes, Vec::new()).unwrap_err(),
        WitnessError::Unbalanced
    );
    let (mut w, _) = build_witness(&p, &t, &t.root(), &transfer(), Vec::new()).unwrap();
    w.touched[1].new_opening = opening(51, 6);
    assert_eq!(check_constraints(&p, w).unwrap_err(), ProveError::ConstraintViolation);
}

#[test]
fn stale_root_is_refused() {
    let p = PedersenParameters::new(128);
    let t = funded_tree(&p);
    let stale = SparseMerkleTree::empty(4).root();
    assert_eq!(
        build_witness(&p, &t, &stale, &transfer(), Vec::new()).unwrap_err(),
        WitnessError::StaleRoot
    );
}

#[test]
fn wide_key_is_refused_in_witness() {
    let p = PedersenParameters::new(128);
    let t = funded_tree(&p);
    let mut changes = transfer();
    changes[0].key = 40;
    assert_eq!(
        build_witness(&p, &t, &t.root(), &changes, Vec::new()).unwrap_err(),
        WitnessError::InvalidKeyWidth
    );
}

#[test]
fn corrupted_paths_fail_the_check() {
    let p = PedersenParameters::new(128);
    let t = funded_tree(&p);
    let (w, _) = build_witness(&p, &t, &t.root(), &transfer(), Vec::new()).unwrap();
    let mut bad_old = w.clone();
    bad_old.touched[0].old_path.siblings[2][0] ^= 1;
    assert_eq!(check_constraints(&p, bad_old).unwrap_err(), ProveError::ConstraintViolation);
    let mut bad_new = w.clone();
    bad_new.touched[1].new_path.siblings[0][7] ^= 0x80;
    assert_eq!(check_constraints(&p, bad_new).unwrap_err(), ProveError::ConstraintViolation);
}

#[test]
fn wrong_opening_fails_the_check() {
    let p = PedersenParameters::new(128);
    let t = funded_tree(&p);
    let mut changes = transfer();
    changes[0].old_opening = opening(70, 9);
    let (w, _) = build_witness(&p, &t, &t.root(), &changes, Vec::new()).unwrap();
    assert_eq!(check_constraints(&p, w).unwrap_err(), ProveError::ConstraintViolation);
}

#[test]
fn value_above_maximum_fails_the_check() {
    let p = PedersenParameters::new(128);
    let a = Leaf { key: 2, commitment: p.commit(MAX_VALUE + 1, &scalar(1)), version: 1 };
    let t = SparseMerkleTree::empty(2).update(a).unwrap().0;
    let changes = vec![Change {
        key: 2,
        old_opening: opening(MAX_VALUE + 1, 1),
        new_opening: opening(MAX_VALUE + 1, 2),
        new_version: 2,
    }];
    let (w, _) = build_witness(&p, &t, &t.root(), &changes, Vec::new()).unwrap();
    assert_eq!(check_constraints(&p, w).unwrap_err(), ProveError::ConstraintViolation);
}

#[test]
fn forged_new_root_is_refused() {
    let p = PedersenParameters::new(128);
    let t = funded_tree(&p);
    let same = vec![Change { key: 1, old_opening: opening(70, 3), new_opening: opening(70, 3), new_version: 1 }];
    let (honest, _) = build_witness(&p, &t, &t.root(), &same, Vec::new()).unwrap();
    assert!(check_constraints(&p, honest.clone()).is_ok());
    let rich = Leaf { key: 6, commitment: p.commit(1_000_000, &scalar(4)), version: 1 };
    let forged_tree = t.update(rich).unwrap().0;
    let mut forged = honest.clone();
    forged.new_root = forged_tree.root();
    forged.touched[0].new_path = forged_tree.get(1).unwrap().1;
    assert_eq!(check_constraints(&p, forged).unwrap_err(), ProveError::ConstraintViolation);
    let mut forged_root_only = honest;
    forged_root_only.new_root = forged_tree.root();
    assert_eq!(check_constraints(&p, forged_root_only).unwrap_err(), ProveError::ConstraintViolation);
}

#[test]
fn repeated_key_is_refused() {
    let p = PedersenParameters::new(128);
    let t = funded_tree(&p);
    let changes = vec![
        Change { key: 1, old_opening: opening(70, 3), new_opening: opening(60, 5), new_version: 2 },
        Change { key: 1, old_opening: opening(60, 5), new_opening: opening(70, 6), new_version: 3 },
    ];
    let (w, _) = build_witness(&p, &t, &t.root(), &changes, Vec::new()).unwrap();
    assert_eq!(check_constraints(&p, w).unwrap_err(), ProveError::ConstraintViolation);
}

#[test]
fn single_key_paths_share_siblings() {
    let p = PedersenParameters::new(128);
    let t = funded_tree(&p);
    let (w, t2) = build_witness(&p, &t, &t.root(), &transfer(), Vec::new()).unwrap();
    for x in &w.touched {
        assert_eq!(x.old_path, x.new_path);
    }
    assert_eq!(w.new_root, t2.root());
}
