//! End-to-end tests of the indexed tree: the reference insertion scenario,
//! path extraction, and every checked error.

use indexed_merkle_tree::hash::hash_pair;
use indexed_merkle_tree::hash256::Hash256;
use indexed_merkle_tree::leaf::IndexedTreeLeaf;
use indexed_merkle_tree::leaf::NullifierLeaf;
use indexed_merkle_tree::memory_indexed_merkle_tree::MemoryIndexedMerkleTree;
use indexed_merkle_tree::memory_indexed_merkle_tree::TreeError;

fn nullifier(value: u64, next_index: usize, next_value: u64) -> NullifierLeaf {
    NullifierLeaf::new_leaf(Hash256::from_u64(value), next_index, Hash256::from_u64(next_value))
}

fn leaf_hash_of(tree: &MemoryIndexedMerkleTree, index: u64) -> Hash256 {
    NullifierLeaf::new(Some(tree.get_leaf(index).unwrap())).hash()
}

#[test]
fn test_tree() {
    // Test small depth 3 tree
    let mut tree = MemoryIndexedMerkleTree::new(3).unwrap();

    // Initial state:
    //
    //  index     0       1       2       3        4       5       6       7
    //  ---------------------------------------------------------------------
    //  val       0       0       0       0        0       0       0       0
    //  nextIdx   0       0       0       0        0       0       0       0
    //  nextVal   0       0       0       0        0       0       0       0
    let zero_leaf = NullifierLeaf::zero();
    assert_eq!(tree.size(), 1);
    assert_eq!(NullifierLeaf::new(Some(tree.get_leaf(0).unwrap())), zero_leaf);

    // Add new value 30:
    //
    //  index     0       1       2       3        4       5       6       7
    //  ---------------------------------------------------------------------
    //  val       0       30      0       0        0       0       0       0
    //  nextIdx   1       0       0       0        0       0       0       0
    //  nextVal   30      0       0       0        0       0       0       0
    tree.insert_element(Hash256::from_u64(30)).unwrap();

    let expected_leaf = nullifier(30, 0, 0);
    let expected_low_nullifier = nullifier(0, 1, 30);
    assert_eq!(tree.size(), 2);
    assert_eq!(leaf_hash_of(&tree, 0), expected_low_nullifier.hash());
    assert_eq!(leaf_hash_of(&tree, 1), expected_leaf.hash());

    // Add new value 10:
    //
    // index     0       1       2       3        4       5       6       7
    // ---------------------------------------------------------------------
    // val       0       30      10      0        0       0       0       0
    // nextIdx   2       0       1       0        0       0       0       0
    // nextVal   10      0       30      0        0       0       0       0
    tree.insert_element(Hash256::from_u64(10)).unwrap();

    assert_eq!(tree.size(), 3);
    assert_eq!(leaf_hash_of(&tree, 0), nullifier(0, 2, 10).hash());
    assert_eq!(leaf_hash_of(&tree, 1), nullifier(30, 0, 0).hash());
    assert_eq!(leaf_hash_of(&tree, 2), nullifier(10, 1, 30).hash());

    // Add new value 20:
    //
    // index     0       1       2       3        4       5       6       7
    // ---------------------------------------------------------------------
    // val       0       30      10      20       0       0       0       0
    // nextIdx   2       0       3       1        0       0       0       0
    // nextVal   10      0       20      30       0       0       0       0
    tree.insert_element(Hash256::from_u64(20)).unwrap();

    assert_eq!(tree.size(), 4);
    assert_eq!(leaf_hash_of(&tree, 0), nullifier(0, 2, 10).hash());
    assert_eq!(leaf_hash_of(&tree, 1), nullifier(30, 0, 0).hash());
    assert_eq!(leaf_hash_of(&tree, 2), nullifier(10, 3, 20).hash());
    assert_eq!(leaf_hash_of(&tree, 3), nullifier(20, 1, 30).hash());

    // Add new value 50:
    //
    //  index     0       1       2       3        4       5       6       7
    //  ---------------------------------------------------------------------
    //  val       0       30      10      20       50      0       0       0
    //  nextIdx   2       4       3       1        0       0       0       0
    //  nextVal   10      50      20      30       0       0       0       0
    tree.insert_element(Hash256::from_u64(50)).unwrap();
    assert_eq!(tree.size(), 5);
    assert_eq!(leaf_hash_of(&tree, 0), nullifier(0, 2, 10).hash());
    assert_eq!(leaf_hash_of(&tree, 1), nullifier(30, 4, 50).hash());
    assert_eq!(leaf_hash_of(&tree, 2), nullifier(10, 3, 20).hash());
    assert_eq!(leaf_hash_of(&tree, 3), nullifier(20, 1, 30).hash());
    assert_eq!(leaf_hash_of(&tree, 4), nullifier(50, 0, 0).hash());

    // Check the merkle paths, we manually build the tree and check parity.
    // Naming of nodes here is n<level><index> e.g. n04 is the node at level 0, index 4

    // Level 0
    let n00 = nullifier(0, 2, 10).hash();
    let n01 = nullifier(30, 4, 50).hash();
    let n02 = nullifier(10, 3, 20).hash();
    let n03 = nullifier(20, 1, 30).hash();
    let n04 = nullifier(50, 0, 0).hash();
    let n05 = nullifier(0, 0, 0).hash();
    let n06 = nullifier(0, 0, 0).hash();
    let n07 = nullifier(0, 0, 0).hash();

    // Level 1
    let n10 = hash_pair(n00, n01);
    let n11 = hash_pair(n02, n03);
    let n12 = hash_pair(n04, n05);
    let n13 = hash_pair(n06, n07);

    // Level 2
    let n20 = hash_pair(n10, n11);
    let n21 = hash_pair(n12, n13);

    // the cached root equals the root rebuilt from scratch
    assert_eq!(tree.root, hash_pair(n20, n21));

    // Item 0: path from leaf to root is (n00, n01), (n10, n11), (n20, n21)
    let merkle_path_0 = tree.get_hash_path(0).unwrap();
    assert_eq!(merkle_path_0.len(), 3);
    assert_eq!(merkle_path_0, vec![(n00, n01), (n10, n11), (n20, n21)]);

    // Item 1: same pairs as item 0
    let merkle_path_1 = tree.get_hash_path(1).unwrap();
    assert_eq!(merkle_path_1.len(), 3);
    assert_eq!(merkle_path_1, vec![(n00, n01), (n10, n11), (n20, n21)]);

    // Item 2: (n02, n03), (n10, n11), (n20, n21)
    let merkle_path_2 = tree.get_hash_path(2).unwrap();
    assert_eq!(merkle_path_2.len(), 3);
    assert_eq!(merkle_path_2, vec![(n02, n03), (n10, n11), (n20, n21)]);

    // Item 3: same pairs as item 2
    let merkle_path_3 = tree.get_hash_path(3).unwrap();
    assert_eq!(merkle_path_3.len(), 3);
    assert_eq!(merkle_path_3, vec![(n02, n03), (n10, n11), (n20, n21)]);

    // Item 4: (n04, n05), (n12, n13), (n20, n21)
    let merkle_path_4 = tree.get_hash_path(4).unwrap();
    assert_eq!(merkle_path_4.len(), 3);
    assert_eq!(merkle_path_4, vec![(n04, n05), (n12, n13), (n20, n21)]);

    // Item 5: same pairs as item 4
    let merkle_path_5 = tree.get_hash_path(5).unwrap();
    assert_eq!(merkle_path_5.len(), 3);
    assert_eq!(merkle_path_5, vec![(n04, n05), (n12, n13), (n20, n21)]);

    // Item 6: (n06, n07), (n12, n13), (n20, n21)
    let merkle_path_6 = tree.get_hash_path(6).unwrap();
    assert_eq!(merkle_path_6.len(), 3);
    assert_eq!(merkle_path_6, vec![(n06, n07), (n12, n13), (n20, n21)]);

    // Item 7: same pairs as item 6
    let merkle_path_7 = tree.get_hash_path(7).unwrap();
    assert_eq!(merkle_path_7.len(), 3);
    assert_eq!(merkle_path_7, vec![(n06, n07), (n12, n13), (n20, n21)]);
}

#[test]
fn scenario_depth_3_inserts() {
    let mut tree = MemoryIndexedMerkleTree::new(3).unwrap();
    tree.insert_element(Hash256::from_u64(30)).unwrap();
    tree.insert_element(Hash256::from_u64(10)).unwrap();
    tree.insert_element(Hash256::from_u64(20)).unwrap();
    tree.insert_element(Hash256::from_u64(50)).unwrap();
    assert_eq!(tree.size(), 5);

    let expected: [(u64, usize, u64); 5] = [(0, 2, 10), (30, 4, 50), (10, 3, 20), (20, 1, 30), (50, 0, 0)];
    for (i, (v, ni, nv)) in expected.iter().enumerate() {
        let got = tree.get_leaf(i as u64).unwrap();
        let want = IndexedTreeLeaf::new(Hash256::from_u64(*v), *ni, Hash256::from_u64(*nv));
        assert_eq!(got, want);
    }

    // slots 5..7 stay unallocated: leaf queries beyond size are out of range
    assert_eq!(tree.get_leaf(5), Err(TreeError::IndexOutOfRange));

    // the first two slots share one sibling-pair path
    let p0 = tree.get_hash_path(0).unwrap();
    let p1 = tree.get_hash_path(1).unwrap();
    assert_eq!(p0, p1);
    assert_eq!(p0.len(), 3);
}

#[test]
fn path_fold_reproduces_root() {
    let mut tree = MemoryIndexedMerkleTree::new(2).unwrap();
    tree.insert_element(Hash256::from_u64(7)).unwrap();
    tree.insert_element(Hash256::from_u64(3)).unwrap();
    let root = tree.insert_element(Hash256::from_u64(9)).unwrap();

    for index in 0..4u64 {
        let path = tree.get_hash_path(index).unwrap();
        assert_eq!(path.len(), 2);
        // the slot's own hash stands at its parity in the first pair
        if index < tree.size() as u64 {
            let own = NullifierLeaf::new(Some(tree.get_leaf(index).unwrap())).hash();
            let (left, right) = path[0];
            if index % 2 == 0 {
                assert_eq!(own, left);
            } else {
                assert_eq!(own, right);
            }
        }
        // folding the pairs reproduces the root; the running hash reappears
        // inside each later pair on the way up
        let mut current = hash_pair(path[0].0, path[0].1);
        for level in 1..path.len() {
            let (left, right) = path[level];
            assert!(current == left || current == right);
            current = hash_pair(left, right);
        }
        assert_eq!(current, root);
    }
}

#[test]
fn initial_root_is_the_zero_chain() {
    // depth 1: both leaf slots are zero, so the root is the zero pair hash
    let tree = MemoryIndexedMerkleTree::new(1).unwrap();
    assert_eq!(tree.root, hash_pair(Hash256::zero(), Hash256::zero()));

    // depth 2: one more level of pairing the constant
    let tree = MemoryIndexedMerkleTree::new(2).unwrap();
    let level1 = hash_pair(Hash256::zero(), Hash256::zero());
    assert_eq!(tree.root, hash_pair(level1, level1));
}

#[test]
fn reads_are_idempotent() {
    let mut tree = MemoryIndexedMerkleTree::new(3).unwrap();
    tree.insert_element(Hash256::from_u64(12)).unwrap();
    tree.insert_element(Hash256::from_u64(4)).unwrap();

    assert_eq!(tree.size(), tree.size());
    assert_eq!(tree.get_leaf(1), tree.get_leaf(1));
    assert_eq!(tree.get_leaf(9), tree.get_leaf(9));
    assert_eq!(tree.get_hash_path(2), tree.get_hash_path(2));
    assert_eq!(tree.get_hash_path(8), tree.get_hash_path(8));
}

#[test]
fn boundary_errors() {
    // depth outside 1..=32
    assert_eq!(MemoryIndexedMerkleTree::new(0).err(), Some(TreeError::ConfigError));
    assert_eq!(MemoryIndexedMerkleTree::new(33).err(), Some(TreeError::ConfigError));
    assert!(MemoryIndexedMerkleTree::new(1).is_ok());

    // a full tree rejects further inserts
    let mut tree = MemoryIndexedMerkleTree::new(1).unwrap();
    tree.insert_element(Hash256::from_u64(5)).unwrap();
    assert_eq!(tree.size(), 2);
    assert_eq!(tree.insert_element(Hash256::from_u64(7)), Err(TreeError::TreeFull));
    assert_eq!(tree.size(), 2);

    // zero is the sentinel's value, so inserting it is a duplicate
    let mut tree = MemoryIndexedMerkleTree::new(3).unwrap();
    assert_eq!(tree.insert_element(Hash256::zero()), Err(TreeError::DuplicateValue));

    // a value already present is a duplicate, and the tree stays unchanged
    let root = tree.insert_element(Hash256::from_u64(42)).unwrap();
    assert_eq!(tree.insert_element(Hash256::from_u64(42)), Err(TreeError::DuplicateValue));
    assert_eq!(tree.size(), 2);
    let recheck = tree.insert_element(Hash256::from_u64(43)).unwrap();
    assert_ne!(root, recheck);

    // leaf and path queries beyond their bounds
    assert_eq!(tree.get_leaf(3), Err(TreeError::IndexOutOfRange));
    assert!(tree.get_leaf(2).is_ok());
    assert_eq!(tree.get_hash_path(8), Err(TreeError::IndexOutOfRange));
    assert!(tree.get_hash_path(7).is_ok());
}

#[test]
fn duplicate_reported_even_when_full() {
    let mut tree = MemoryIndexedMerkleTree::new(1).unwrap();
    tree.insert_element(Hash256::from_u64(5)).unwrap();
    // the tree is full, but a duplicate is still reported as such
    assert_eq!(tree.insert_element(Hash256::from_u64(5)), Err(TreeError::DuplicateValue));
}

#[test]
fn predecessor_excludes_larger_values() {
    // inserting below every stored value must splice behind the sentinel,
    // not behind some larger leaf
    let mut tree = MemoryIndexedMerkleTree::new(3).unwrap();
    tree.insert_element(Hash256::from_u64(100)).unwrap();
    tree.insert_element(Hash256::from_u64(200)).unwrap();
    tree.insert_element(Hash256::from_u64(50)).unwrap();
    // sentinel -> 50 -> 100 -> 200
    assert_eq!(tree.get_leaf(0).unwrap(), IndexedTreeLeaf::new(Hash256::zero(), 3, Hash256::from_u64(50)));
    assert_eq!(tree.get_leaf(3).unwrap(), IndexedTreeLeaf::new(Hash256::from_u64(50), 1, Hash256::from_u64(100)));
    assert_eq!(tree.get_leaf(1).unwrap(), IndexedTreeLeaf::new(Hash256::from_u64(100), 2, Hash256::from_u64(200)));
    assert_eq!(tree.get_leaf(2).unwrap(), IndexedTreeLeaf::new(Hash256::from_u64(200), 0, Hash256::zero()));
}
