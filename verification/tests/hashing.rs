//! Tests of the value type and the hash rules: ordering, zero handling,
//! exact SHA-256 vectors and the zero-collapse convention.

use indexed_merkle_tree::hash::hash_pair;
use indexed_merkle_tree::hash256::Hash256;
use indexed_merkle_tree::leaf::IndexedTreeLeaf;
use indexed_merkle_tree::leaf::NullifierLeaf;

fn from_hex(hex: &str) -> [u8; 32] {
    let bytes = hex.as_bytes();
    let mut out = [0u8; 32];
    for i in 0..32 {
        let hi = (bytes[2 * i] as char).to_digit(16).unwrap() as u8;
        let lo = (bytes[2 * i + 1] as char).to_digit(16).unwrap() as u8;
        out[i] = hi * 16 + lo;
    }
    out
}

#[test]
fn value_order_and_zero() {
    let a = Hash256::from_u64(3);
    let b = Hash256::from_u64(260);
    let z = Hash256::zero();
    assert!(a.lt(&b));
    assert!(!b.lt(&a));
    assert!(!a.lt(&a));
    assert!(z.lt(&a));
    assert!(a.eq_value(&Hash256::from_u64(3)));
    assert!(!a.eq_value(&b));
    assert!(z.is_zero());
    assert!(Hash256::from_u64(0).is_zero());
    assert!(z.eq_value(&Hash256::from_u64(0)));
    assert!(!a.is_zero());
}

#[test]
fn from_u64_lays_out_big_endian() {
    let h = Hash256::from_u64(0x0102030405060708);
    let mut want = [0u8; 32];
    for i in 0..8 {
        want[24 + i] = (i + 1) as u8;
    }
    assert_eq!(h.bytes, want);
    assert_eq!(Hash256::from_u64(0).bytes, [0u8; 32]);
}

#[test]
fn hash_pair_matches_sha256() {
    // SHA-256 over 64 zero bytes: the two operands' big-endian encodings
    let got = hash_pair(Hash256::zero(), Hash256::zero());
    let want = from_hex("f5a5fd42d16a20302798ef6ed309979b43003d2320d9f0e8ea9831a92759fb4b");
    assert_eq!(got.bytes, want);
}

#[test]
fn hash_pair_is_order_sensitive() {
    let a = Hash256::from_u64(1);
    let b = Hash256::from_u64(2);
    assert_ne!(hash_pair(a, b), hash_pair(b, a));
    assert_eq!(hash_pair(a, b), hash_pair(a, b));
}

#[test]
fn leaf_hash_matches_sha256() {
    // SHA-256 over value (32 bytes) || next_index (8 bytes) || next_value (32
    // bytes), all big-endian
    let leaf = IndexedTreeLeaf::new(Hash256::from_u64(1), 2, Hash256::from_u64(3));
    let want = from_hex("2a7ae02a167babd9b0474ad5873e0f1d7a3adad1825d22bdb6460016c92db7a2");
    assert_eq!(leaf.hash_leaf().bytes, want);
}

#[test]
fn zero_leaves_collapse_to_zero_hash() {
    // an unallocated slot and a zero-valued (sentinel) leaf hash identically
    let empty = NullifierLeaf::empty();
    let sentinel = NullifierLeaf::zero();
    assert!(empty.is_zero());
    assert!(sentinel.is_zero());
    assert_eq!(empty.hash(), Hash256::zero());
    assert_eq!(sentinel.hash(), Hash256::zero());
    // but an occupied leaf of positive value does not
    let occupied = NullifierLeaf::new_leaf(Hash256::from_u64(4), 0, Hash256::zero());
    assert!(!occupied.is_zero());
    assert_ne!(occupied.hash(), Hash256::zero());
    // the raw digest of the sentinel's fields is not what it contributes
    assert_ne!(IndexedTreeLeaf::empty().hash_leaf(), sentinel.hash());
}

#[test]
fn leaf_wrappers() {
    let inner = IndexedTreeLeaf::new(Hash256::from_u64(9), 1, Hash256::from_u64(11));
    assert_eq!(NullifierLeaf::new(Some(inner)), NullifierLeaf::Occupied(inner));
    assert_eq!(NullifierLeaf::new(None), NullifierLeaf::Empty);
    assert_eq!(NullifierLeaf::new(Some(inner)).inner(), inner);
    assert_eq!(NullifierLeaf::Empty.inner(), IndexedTreeLeaf::empty());
    assert_eq!(NullifierLeaf::new_leaf(Hash256::from_u64(9), 1, Hash256::from_u64(11)).inner(), inner);
    assert!(!IndexedTreeLeaf::new(Hash256::from_u64(9), 0, Hash256::zero()).is_zero());
    assert!(IndexedTreeLeaf::empty().is_zero());
}
