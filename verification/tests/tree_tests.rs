use lean_imt_bn254::tree::{fold_proof, LeanIMTBN254, TreeError};
use soroban_sdk::Env;

// The default test budget meters host costs; the Poseidon-heavy tree
// operations need it lifted.
fn test_env() -> Env {
    let env = Env::default();
    env.cost_estimate().budget().reset_unlimited();
    env
}

#[test]
fn test_new_tree() {
    let env = test_env();
    let tree = LeanIMTBN254::new(&env, 10);
    assert_eq!(tree.get_depth(), 10);
    assert_eq!(tree.get_leaf_count(), 0);
    assert!(!tree.is_full());
}

#[test]
fn test_insert_leaf() {
    let env = test_env();
    let mut tree = LeanIMTBN254::new(&env, 10);

    let leaf = [1u8; 32];
    tree.insert(leaf).unwrap();

    assert_eq!(tree.get_leaf_count(), 1);
}

#[test]
fn test_root_changes_on_insert() {
    let env = test_env();
    let mut tree = LeanIMTBN254::new(&env, 10);

    let initial_root = tree.get_root();

    let leaf = [1u8; 32];
    tree.insert(leaf).unwrap();

    let new_root = tree.get_root();
    assert_ne!(initial_root, new_root);
}

#[test]
fn test_generate_proof() {
    let env = test_env();
    let mut tree = LeanIMTBN254::new(&env, 3);

    let leaf = [1u8; 32];
    tree.insert(leaf).unwrap();

    let proof = tree.generate_proof(0);
    assert!(proof.is_some());

    let (siblings, depth) = proof.unwrap();
    assert_eq!(depth, 3);
    assert_eq!(siblings.len() as u32, 3);
}

// A fresh tree's root is the top of the zero ladder built by repeated
// self-hashing from the zero leaf: the root at depth d+1 is the hash of the
// depth-d root with itself, checked here through the public fold.
#[test]
fn test_genesis_root_is_zero_ladder() {
    let env = test_env();
    let zero = [0u8; 32];
    let mut prev = LeanIMTBN254::new(&env, 1).get_root();
    assert_eq!(prev, fold_proof(&env, &zero, &vec![zero], 0));
    for depth in 2..=6u32 {
        let root = LeanIMTBN254::new(&env, depth).get_root();
        assert_eq!(root, fold_proof(&env, &prev, &vec![prev], 0));
        prev = root;
    }
}

// The hash is a genuine two-to-one compression: the fold of a leaf with one
// sibling differs from both inputs, and swapping the operands changes it.
#[test]
fn test_fold_is_not_degenerate() {
    let env = test_env();
    let a = [1u8; 32];
    let b = [2u8; 32];
    let h_ab = fold_proof(&env, &a, &vec![b], 0);
    let h_ba = fold_proof(&env, &b, &vec![a], 0);
    assert_ne!(h_ab, a);
    assert_ne!(h_ab, b);
    assert_ne!(h_ab, h_ba);
}

// Leaf counts track insertions one by one and the tree reports full exactly
// at 2^depth leaves.
#[test]
fn test_leaf_count_and_fullness() {
    let env = test_env();
    let mut tree = LeanIMTBN254::new(&env, 2);
    assert_eq!(tree.get_capacity(), 4);
    for n in 0..4u32 {
        assert_eq!(tree.get_leaf_count(), n);
        assert!(!tree.is_full());
        tree.insert([(n + 1) as u8; 32]).unwrap();
    }
    assert_eq!(tree.get_leaf_count(), 4);
    assert!(tree.is_full());
}

// Inserting into a full tree fails with TreeAtCapacity and leaves the state
// untouched.
#[test]
fn test_insert_at_capacity_fails_unchanged() {
    let env = test_env();
    let mut tree = LeanIMTBN254::new(&env, 1);
    tree.insert([1u8; 32]).unwrap();
    tree.insert([2u8; 32]).unwrap();
    let root_before = tree.get_root();
    let count_before = tree.get_leaf_count();
    let proof_before = tree.generate_proof(0).unwrap();

    let result = tree.insert([3u8; 32]);
    assert_eq!(result, Err(TreeError::TreeAtCapacity));

    assert_eq!(tree.get_root(), root_before);
    assert_eq!(tree.get_leaf_count(), count_before);
    assert_eq!(tree.generate_proof(0).unwrap(), proof_before);
}

// Depth-3 scenario: after each of four insertions the proof for the fresh
// leaf has three siblings and folds back to the current root; an index with
// no leaf yields no proof.
#[test]
fn test_depth_three_scenario() {
    let env = test_env();
    let mut tree = LeanIMTBN254::new(&env, 3);
    let leaves = [[1u8; 32], [2u8; 32], [3u8; 32], [4u8; 32]];
    for (i, leaf) in leaves.iter().enumerate() {
        tree.insert(*leaf).unwrap();
        let (siblings, depth) = tree.generate_proof(i as u32).unwrap();
        assert_eq!(depth, 3);
        assert_eq!(siblings.len(), 3);
        assert_eq!(fold_proof(&env, leaf, &siblings, i as u32), tree.get_root());
    }
    assert!(tree.generate_proof(4).is_none());
}

// Earlier proofs keep folding to the root after later insertions, as long
// as they are regenerated against the current state.
#[test]
fn test_proofs_for_all_leaves_fold_to_root() {
    let env = test_env();
    let mut tree = LeanIMTBN254::new(&env, 3);
    let leaves = [[1u8; 32], [2u8; 32], [3u8; 32], [4u8; 32], [5u8; 32]];
    for leaf in leaves.iter() {
        tree.insert(*leaf).unwrap();
    }
    let root = tree.get_root();
    for (i, leaf) in leaves.iter().enumerate() {
        let (siblings, _) = tree.generate_proof(i as u32).unwrap();
        assert_eq!(fold_proof(&env, leaf, &siblings, i as u32), root);
    }
}

// Depth-1 scenario: with one leaf the sibling is the zero value; after the
// second insertion the sibling is the other leaf and the root has moved.
#[test]
fn test_depth_one_scenario() {
    let env = test_env();
    let mut tree = LeanIMTBN254::new(&env, 1);
    tree.insert([1u8; 32]).unwrap();
    let (siblings, depth) = tree.generate_proof(0).unwrap();
    assert_eq!(depth, 1);
    assert_eq!(siblings, vec![[0u8; 32]]);
    let root_one = tree.get_root();

    tree.insert([2u8; 32]).unwrap();
    let (siblings, _) = tree.generate_proof(0).unwrap();
    assert_eq!(siblings, vec![[2u8; 32]]);
    let (siblings, _) = tree.generate_proof(1).unwrap();
    assert_eq!(siblings, vec![[1u8; 32]]);
    assert_ne!(tree.get_root(), root_one);
}

// Serialization round-trip: a reconstructed tree serves the same root and
// proofs, and evolves identically under further insertions, even though its
// caches start cold.
#[test]
fn test_storage_round_trip_behaves_identically() {
    let env = test_env();
    let mut tree = LeanIMTBN254::new(&env, 3);
    tree.insert([1u8; 32]).unwrap();
    tree.insert([2u8; 32]).unwrap();

    let (leaves, depth, root) = tree.to_storage();
    let mut restored = LeanIMTBN254::from_storage(&env, leaves, depth, root);

    assert_eq!(restored.get_root(), tree.get_root());
    assert_eq!(restored.get_leaf_count(), tree.get_leaf_count());
    assert_eq!(restored.get_depth(), tree.get_depth());
    assert_eq!(restored.generate_proof(0), tree.generate_proof(0));
    assert_eq!(restored.generate_proof(1), tree.generate_proof(1));

    tree.insert([3u8; 32]).unwrap();
    restored.insert([3u8; 32]).unwrap();
    assert_eq!(restored.get_root(), tree.get_root());
    assert_eq!(restored.generate_proof(2), tree.generate_proof(2));
}

// An empty tree round-trips through storage onto the genesis root.
#[test]
fn test_storage_round_trip_empty() {
    let env = test_env();
    let tree = LeanIMTBN254::new(&env, 4);
    let (leaves, depth, root) = tree.to_storage();
    assert!(leaves.is_empty());
    let restored = LeanIMTBN254::from_storage(&env, leaves, depth, root);
    assert_eq!(restored.get_root(), tree.get_root());
    assert!(restored.is_empty());
}

#[test]
fn test_leaf_accessors() {
    let env = test_env();
    let mut tree = LeanIMTBN254::new(&env, 2);
    assert!(tree.is_empty());
    assert!(tree.get_leaf(0).is_none());
    assert!(tree.get_leaf_scalar(0).is_none());

    tree.insert([9u8; 32]).unwrap();
    assert!(!tree.is_empty());
    assert_eq!(tree.get_leaf(0), Some([9u8; 32]));
    assert!(tree.get_leaf_scalar(0).is_some());
    assert!(tree.get_leaf(1).is_none());
    assert_eq!(tree.get_leaves().as_slice(), &[[9u8; 32]]);

    // the scalar view of the root decodes the same bytes the root getter
    // serves
    let root_scalar = tree.get_root_scalar();
    let expected = lean_imt_bn254::host::bytes_to_bn254_scalar(&env, &tree.get_root());
    assert_eq!(root_scalar.to_u256(), expected.to_u256());
}

#[test]
fn test_scalar_conversions() {
    let env = test_env();
    // a small integer encodes big-endian into the last bytes
    let scalar = lean_imt_bn254::host::u64_to_bn254_scalar(&env, 0x0102);
    let bytes = lean_imt_bn254::host::bn254_scalar_to_bytes(&scalar);
    let mut expected = [0u8; 32];
    expected[30] = 0x01;
    expected[31] = 0x02;
    assert_eq!(bytes, expected);
    // decoding canonical bytes and re-encoding them is the identity
    let back = lean_imt_bn254::host::bytes_to_bn254_scalar(&env, &bytes);
    assert_eq!(lean_imt_bn254::host::bn254_scalar_to_bytes(&back), expected);
}
