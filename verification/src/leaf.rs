//! The leaf model: one node of the sorted linked list threaded through the
//! tree's leaf slots, its tagged occupied/unallocated wrapper, and the hash
//! rule that collapses both zero cases to the zero digest.

use vstd::prelude::*;
use crate::hash256::Hash256;
use crate::hash256::be_val;
use crate::hash256::zero_bytes;
use crate::hash::sha256;
use crate::hash::sha256_digest;

verus! {

/// The fixed 8-byte big-endian encoding of a successor index inside a leaf's
/// hash input; the width is pinned so that roots agree across machines.
pub open spec fn index_bytes(i: usize) -> Seq<u8> {
    Seq::new(8, |k: int| (((i as u64) >> ((56 - 8 * k) as u64)) & 0xff) as u8)
}

/// Appends the 8 big-endian bytes of a successor index to a buffer.
fn append_index(out: &mut Vec<u8>, i: usize)
    ensures
        final(out)@ == old(out)@ + index_bytes(i),
{
    let x = i as u64;
    let b0: u8 = ((x >> 56u64) & 0xff) as u8;
    let b1: u8 = ((x >> 48u64) & 0xff) as u8;
    let b2: u8 = ((x >> 40u64) & 0xff) as u8;
    let b3: u8 = ((x >> 32u64) & 0xff) as u8;
    let b4: u8 = ((x >> 24u64) & 0xff) as u8;
    let b5: u8 = ((x >> 16u64) & 0xff) as u8;
    let b6: u8 = ((x >> 8u64) & 0xff) as u8;
    let b7: u8 = (x & 0xff) as u8;
    out.push(b0);
    out.push(b1);
    out.push(b2);
    out.push(b3);
    out.push(b4);
    out.push(b5);
    out.push(b6);
    out.push(b7);
    proof {
        assert(index_bytes(i)[0] == b0);
        assert(index_bytes(i)[1] == b1);
        assert(index_bytes(i)[2] == b2);
        assert(index_bytes(i)[3] == b3);
        assert(index_bytes(i)[4] == b4);
        assert(index_bytes(i)[5] == b5);
        assert(index_bytes(i)[6] == b6);
        assert(x >> 0u64 == x) by (bit_vector);
        assert(index_bytes(i)[7] == b7);
        assert(out@ =~= old(out)@ + index_bytes(i));
    }
}

/// One node of the sorted singly-linked list: a value, the slot of the
/// next-larger value, and that value itself, cached.
#[derive(Clone, Copy, PartialEq, Eq, Debug)]
pub struct IndexedTreeLeaf {
    pub value: Hash256,
    pub next_index: usize,
    pub next_value: Hash256,
}

/// The digest of an occupied leaf's encoding: its value (32 bytes), its
/// successor index (8 bytes) and its successor value (32 bytes), hashed.
pub open spec fn leaf_digest(l: IndexedTreeLeaf) -> Seq<u8> {
    sha256_digest(l.value@ + index_bytes(l.next_index) + l.next_value@)
}

impl IndexedTreeLeaf {
    /// Builds a leaf from its three fields.
    pub fn new(value: Hash256, next_index: usize, next_value: Hash256) -> (r: Self)
        ensures
            r == (IndexedTreeLeaf { value, next_index, next_value }),
    {
        Self { value, next_index, next_value }
    }

    /// The sentinel leaf: value zero, pointing at slot 0 / value 0.
    pub fn empty() -> (r: Self)
        ensures
            r.value@ == zero_bytes(),
            r.next_index == 0,
            r.next_value@ == zero_bytes(),
    {
        Self { value: Hash256::zero(), next_index: 0, next_value: Hash256::zero() }
    }

    /// True exactly when the leaf's value is zero.
    pub fn is_zero(&self) -> (r: bool)
        ensures
            r == (be_val(self.value@) == 0),
    {
        self.value.is_zero()
    }

    /// The leaf's raw digest, with no zero-collapse rule applied.
    pub fn hash_leaf(&self) -> (r: Hash256)
        ensures
            r@ == leaf_digest(*self),
    {
        let mut input: Vec<u8> = Vec::new();
        self.value.append_to(&mut input);
        append_index(&mut input, self.next_index);
        self.next_value.append_to(&mut input);
        proof {
            assert(input@ =~= self.value@ + index_bytes(self.next_index) + self.next_value@);
        }
        let digest = sha256(&input);
        Hash256::from_bytes(&digest)
    }
}

/// A leaf slot: either unallocated, or holding a linked-list node.
#[derive(Clone, Copy, PartialEq, Eq, Debug)]
pub enum NullifierLeaf {
    Empty,
    Occupied(IndexedTreeLeaf),
}

/// The node a slot holds; meaningful only for occupied slots.
pub open spec fn list_entry(l: NullifierLeaf) -> IndexedTreeLeaf {
    match l {
        NullifierLeaf::Empty => arbitrary(),
        NullifierLeaf::Occupied(f) => f,
    }
}

/// True when the slot contributes the zero hash: unallocated, or holding a
/// leaf whose value is zero (the sentinel).
pub open spec fn nullifier_is_zero(l: NullifierLeaf) -> bool {
    match l {
        NullifierLeaf::Empty => true,
        NullifierLeaf::Occupied(leaf) => be_val(leaf.value@) == 0,
    }
}

/// The hash a slot contributes to the leaf layer: zero for an unallocated
/// slot and for any leaf whose value is zero, the leaf digest otherwise.
pub open spec fn nullifier_hash(l: NullifierLeaf) -> Seq<u8> {
    match l {
        NullifierLeaf::Empty => zero_bytes(),
        NullifierLeaf::Occupied(leaf) => if be_val(leaf.value@) == 0 {
            zero_bytes()
        } else {
            leaf_digest(leaf)
        },
    }
}

impl NullifierLeaf {
    /// Wraps an optional linked-list node as a slot.
    pub fn new(leaf: Option<IndexedTreeLeaf>) -> (r: Self)
        ensures
            r == (match leaf {
                Option::None => NullifierLeaf::Empty,
                Option::Some(l) => NullifierLeaf::Occupied(l),
            }),
    {
        match leaf {
            Option::None => NullifierLeaf::Empty,
            Option::Some(l) => NullifierLeaf::Occupied(l),
        }
    }

    /// Builds an occupied slot from the node's three fields.
    pub fn new_leaf(value: Hash256, next_index: usize, next_value: Hash256) -> (r: Self)
        ensures
            r == (NullifierLeaf::Occupied(IndexedTreeLeaf { value, next_index, next_value })),
    {
        NullifierLeaf::Occupied(IndexedTreeLeaf::new(value, next_index, next_value))
    }

    /// An unallocated slot.
    pub fn empty() -> (r: Self)
        ensures
            r == NullifierLeaf::Empty,
    {
        NullifierLeaf::Empty
    }

    /// An occupied slot holding the sentinel leaf.
    pub fn zero() -> (r: Self)
        ensures
            r matches NullifierLeaf::Occupied(l) && l.value@ == zero_bytes() && l.next_index == 0
                && l.next_value@ == zero_bytes(),
    {
        NullifierLeaf::Occupied(IndexedTreeLeaf::empty())
    }

    /// The held node, or the sentinel shape for an unallocated slot.
    pub fn inner(self) -> (r: IndexedTreeLeaf)
        ensures
            (match self {
                NullifierLeaf::Empty => r.value@ == zero_bytes() && r.next_index == 0
                    && r.next_value@ == zero_bytes(),
                NullifierLeaf::Occupied(l) => r == l,
            }),
    {
        match self {
            NullifierLeaf::Empty => IndexedTreeLeaf::empty(),
            NullifierLeaf::Occupied(l) => l,
        }
    }

    /// True when the slot contributes the zero hash.
    pub fn is_zero(&self) -> (r: bool)
        ensures
            r == nullifier_is_zero(*self),
    {
        match self {
            NullifierLeaf::Empty => true,
            NullifierLeaf::Occupied(leaf) => leaf.is_zero(),
        }
    }

    /// The slot's hash under the zero-collapse rule.
    pub fn hash(&self) -> (r: Hash256)
        ensures
            r@ == nullifier_hash(*self),
    {
        match self {
            NullifierLeaf::Empty => Hash256::zero(),
            NullifierLeaf::Occupied(leaf) => if leaf.is_zero() {
                Hash256::zero()
            } else {
                leaf.hash_leaf()
            },
        }
    }
}

} // verus!
