//! The indexed tree itself: a flat per-level node array over 2^depth leaf
//! slots, an append-only list of occupied leaves threaded into a sorted
//! linked list, and a cached root recomputed along one path per mutation.

use vstd::prelude::*;
use vstd::arithmetic::power2::pow2;
use vstd::arithmetic::power2::lemma_pow2_unfold;
use vstd::arithmetic::power2::lemma_pow2_adds;
use vstd::arithmetic::power2::lemma_pow2_pos;
use vstd::arithmetic::power2::lemma_pow2_strictly_increases;
use vstd::arithmetic::div_mod::lemma_fundamental_div_mod;
use vstd::arithmetic::div_mod::lemma_mod_bound;
use crate::hash256::Hash256;
use crate::hash256::be_val;
use crate::hash256::zero_bytes;
use crate::hash::hash_pair;
use crate::hash::pair_digest;
use crate::leaf::IndexedTreeLeaf;
use crate::leaf::NullifierLeaf;
use crate::leaf::nullifier_hash;
use crate::leaf::list_entry;

verus! {

/// Why an operation was refused.
#[derive(Clone, Copy, PartialEq, Eq, Structural, Debug)]
pub enum TreeError {
    /// The requested depth lies outside 1..=32.
    ConfigError,
    /// A leaf or path query named a slot beyond the relevant bound.
    IndexOutOfRange,
    /// An insert was asked of a tree whose every leaf slot is occupied.
    TreeFull,
    /// The inserted value is already present (zero counts: the sentinel holds it).
    DuplicateValue,
    /// The predecessor scan found no eligible leaf; unreachable while the
    /// sentinel occupies slot 0, but reported rather than assumed away.
    InternalInvariantViolation,
}

/// The hash of node j at level l of a complete binary hash tree over the
/// given leaf layer (level 0): each parent hashes its two children.
pub open spec fn node_hash(s: Seq<Seq<u8>>, l: nat, j: int) -> Seq<u8>
    decreases l,
{
    if l == 0 {
        s[j]
    } else {
        pair_digest(
            node_hash(s, (l - 1) as nat, 2 * j),
            node_hash(s, (l - 1) as nat, 2 * j + 1),
        )
    }
}

/// The hash of a level-l node all of whose leaves are zero.
pub open spec fn zero_chain(l: nat) -> Seq<u8>
    decreases l,
{
    if l == 0 {
        zero_bytes()
    } else {
        pair_digest(zero_chain((l - 1) as nat), zero_chain((l - 1) as nat))
    }
}

/// How many nodes level l has in a tree of the given depth.
pub open spec fn level_width(depth: int, l: int) -> int {
    pow2((depth - l) as nat) as int
}

/// Where level l starts inside the flat node array.
pub open spec fn level_offset(depth: int, l: int) -> int {
    2 * pow2(depth as nat) - 2 * level_width(depth, l)
}

/// The stored hash of node j at level l inside a flat node array.
pub open spec fn flat_node(h: Seq<Hash256>, depth: int, l: int, j: int) -> Seq<u8> {
    h[level_offset(depth, l) + j]@
}

/// x / p picks out j exactly when x lies in the j-th block of width p.
proof fn lemma_div_block(x: int, p: int, j: int)
    requires
        0 <= x,
        0 < p,
    ensures
        (x / p == j) <==> (j * p <= x < (j + 1) * p),
{
    lemma_fundamental_div_mod(x, p);
    lemma_mod_bound(x, p);
    let q = x / p;
    let r = x % p;
    assert((q == j) <==> (j * p <= p * q + r < (j + 1) * p)) by (nonlinear_arith)
        requires
            0 <= r < p,
    ;
}

/// A node's hash depends only on the leaves of its own subtree.
proof fn lemma_node_hash_frame(s1: Seq<Seq<u8>>, s2: Seq<Seq<u8>>, l: nat, j: int)
    requires
        s1.len() == s2.len(),
        0 <= j,
        (j + 1) * pow2(l) <= s1.len(),
        forall|k: int| j * pow2(l) <= k < (j + 1) * pow2(l) ==> s1[k] == s2[k],
    ensures
        node_hash(s1, l, j) == node_hash(s2, l, j),
    decreases l,
{
    if l == 0 {
        vstd::arithmetic::power2::lemma2_to64();
        assert(pow2(l) == 1);
        assert(j * pow2(l) == j && (j + 1) * pow2(l) == j + 1) by (nonlinear_arith)
            requires
                pow2(l) == 1,
        ;
        assert(s1[j] == s2[j]);
    } else {
        let p = pow2((l - 1) as nat);
        lemma_pow2_unfold(l);
        assert(pow2(l) == 2 * p);
        assert((2 * j) * p == j * pow2(l) && (2 * j + 2) * p == (j + 1) * pow2(l) && (2 * j
            + 1) * p + p == (2 * j + 2) * p && (2 * j) * p + p == (2 * j + 1) * p)
            by (nonlinear_arith)
            requires
                pow2(l) == 2 * p,
        ;
        lemma_pow2_pos((l - 1) as nat);
        assert forall|k: int| (2 * j) * p <= k < (2 * j + 1) * p implies s1[k] == s2[k] by {
            assert(j * pow2(l) <= k < (j + 1) * pow2(l));
        }
        assert forall|k: int| (2 * j + 1) * p <= k < (2 * j + 2) * p implies s1[k] == s2[k] by {
            assert(j * pow2(l) <= k < (j + 1) * pow2(l));
        }
        lemma_node_hash_frame(s1, s2, (l - 1) as nat, 2 * j);
        lemma_node_hash_frame(s1, s2, (l - 1) as nat, 2 * j + 1);
    }
}

/// Over an all-zero leaf layer every level-l node hashes to the zero chain.
proof fn lemma_node_hash_zero(s: Seq<Seq<u8>>, l: nat, j: int)
    requires
        0 <= j,
        (j + 1) * pow2(l) <= s.len(),
        forall|k: int| 0 <= k < s.len() ==> s[k] == zero_bytes(),
    ensures
        node_hash(s, l, j) == zero_chain(l),
    decreases l,
{
    lemma_pow2_pos(l);
    if l == 0 {
        vstd::arithmetic::power2::lemma2_to64();
        assert(0 <= j < s.len()) by (nonlinear_arith)
            requires
                0 <= j,
                (j + 1) * pow2(l) <= s.len(),
                pow2(l) == 1,
        ;
    } else {
        let p = pow2((l - 1) as nat);
        lemma_pow2_unfold(l);
        assert((2 * j + 2) * p == (j + 1) * pow2(l) && (2 * j + 1) * p <= (2 * j + 2) * p)
            by (nonlinear_arith)
            requires
                pow2(l) == 2 * p,
                0 <= p,
                0 <= j,
        ;
        lemma_node_hash_zero(s, (l - 1) as nat, 2 * j);
        lemma_node_hash_zero(s, (l - 1) as nat, 2 * j + 1);
    }
}

/// How one level of the flat node array sits against the next: each level
/// is half as wide, starts where the previous ends, and stays inside the
/// array of 2 * 2^depth - 2 nodes.
proof fn lemma_level_geometry(depth: int, l: int)
    requires
        0 <= l < depth,
    ensures
        level_width(depth, l) == 2 * level_width(depth, l + 1),
        level_offset(depth, l) + level_width(depth, l) == level_offset(depth, l + 1),
        level_width(depth, l) >= 2,
        level_offset(depth, l) >= 0,
        level_offset(depth, l) + level_width(depth, l) <= 2 * pow2(depth as nat) - 2,
{
    lemma_pow2_unfold((depth - l) as nat);
    lemma_pow2_pos((depth - l - 1) as nat);
    lemma_pow2_pos((depth - l) as nat);
    if (depth - l) as nat >= 2 {
        vstd::arithmetic::power2::lemma2_to64();
        lemma_pow2_strictly_increases(1, (depth - l) as nat);
    } else {
        vstd::arithmetic::power2::lemma2_to64();
    }
    if l > 0 {
        lemma_pow2_strictly_increases((depth - l) as nat, depth as nat);
    }
}

/// Level offsets grow with the level.
proof fn lemma_offset_mono(depth: int, l1: int, l2: int)
    requires
        0 <= l1 <= l2 <= depth,
    ensures
        level_offset(depth, l1) <= level_offset(depth, l2),
    decreases l2 - l1,
{
    if l1 < l2 {
        lemma_level_geometry(depth, l1);
        lemma_offset_mono(depth, l1 + 1, l2);
    }
}

/// The indexed authenticated tree: fixed depth, 2^depth leaf slots, an
/// append-only occupied-leaf list, the flat per-level hash array and the
/// cached root.
pub struct MemoryIndexedMerkleTree {
    pub depth: usize,
    pub total_size: usize,
    pub root: Hash256,
    pub leaves: Vec<NullifierLeaf>,
    pub hashes: Vec<Hash256>,
}

impl MemoryIndexedMerkleTree {
    /// Leaf capacity: 2^depth slots.
    pub open spec fn capacity(&self) -> int {
        pow2(self.depth as nat) as int
    }

    /// The node the occupied-leaf list holds at position i.
    pub open spec fn entry(&self, i: int) -> IndexedTreeLeaf {
        list_entry(self.leaves@[i])
    }

    /// The value at list position i, as a number.
    pub open spec fn value_at(&self, i: int) -> nat {
        be_val(self.entry(i).value@)
    }

    /// The number of occupied leaves.
    pub open spec fn spec_size(&self) -> int {
        self.leaves@.len() as int
    }

    /// The leaf layer the tree is committed to: each occupied slot's hash,
    /// then zero for each unallocated slot.
    pub open spec fn leaf_hashes(&self) -> Seq<Seq<u8>> {
        Seq::new(
            self.capacity() as nat,
            |i: int|
                if i < self.leaves@.len() {
                    nullifier_hash(self.leaves@[i])
                } else {
                    zero_bytes()
                },
        )
    }

    /// The leaf layer as stored in the flat node array.
    pub open spec fn stored_leaf_layer(&self) -> Seq<Seq<u8>> {
        Seq::new(self.capacity() as nat, |i: int| self.hashes@[i]@)
    }

    /// Fixed shape: depth in range and array lengths derived from it.
    pub open spec fn structural(&self) -> bool {
        &&& 1 <= self.depth <= 32
        &&& self.total_size == self.capacity()
        &&& 2 * self.capacity() - 2 <= usize::MAX
        &&& self.hashes@.len() == 2 * self.capacity() - 2
        &&& 1 <= self.leaves@.len() <= self.capacity()
    }

    /// Every stored internal node, and the cached root, is the hash of its
    /// children, all the way down to the stored leaf layer.
    pub open spec fn internal_ok(&self) -> bool {
        &&& forall|l: nat, j: int|
            l < self.depth && 0 <= j < level_width(self.depth as int, l as int)
                ==> self.hashes@[level_offset(self.depth as int, l as int) + j]@
                == #[trigger] node_hash(self.stored_leaf_layer(), l, j)
        &&& self.root@ == node_hash(self.stored_leaf_layer(), self.depth as nat, 0)
    }

    /// The stored leaf layer is exactly the hash of the occupied leaves.
    pub open spec fn leaves_ok(&self) -> bool {
        forall|i: int|
            0 <= i < self.capacity() ==> #[trigger] self.stored_leaf_layer()[i]
                == self.leaf_hashes()[i]
    }

    /// The occupied leaves form a sorted singly-linked list: the sentinel
    /// (value zero) sits at position 0, every slot is occupied, successor
    /// pointers stay in bounds and cache the successor's value, values are
    /// pairwise distinct, and each link ascends except the wrap to slot 0.
    pub open spec fn list_ok(&self) -> bool {
        &&& self.leaves@[0] is Occupied
        &&& self.value_at(0) == 0
        &&& forall|i: int| 0 <= i < self.leaves@.len() ==> #[trigger] self.leaves@[i] is Occupied
        &&& forall|i: int|
            0 <= i < self.leaves@.len() ==> 0 <= #[trigger] self.entry(i).next_index
                < self.leaves@.len()
        &&& forall|i: int|
            0 <= i < self.leaves@.len() ==> #[trigger] self.entry(i).next_value@ == self.entry(
                self.entry(i).next_index as int,
            ).value@
        &&& forall|i: int, j: int|
            0 <= i < j < self.leaves@.len() ==> #[trigger] self.value_at(i) != #[trigger] self.value_at(j)
        &&& forall|i: int|
            0 <= i < self.leaves@.len() ==> self.entry(i).next_index == 0 || #[trigger] self.value_at(
                i,
            ) < be_val(self.entry(i).next_value@)
    }

    /// Full well-formedness: shape, hash coherence and list structure.
    pub open spec fn wf(&self) -> bool {
        &&& self.structural()
        &&& self.internal_ok()
        &&& self.leaves_ok()
        &&& self.list_ok()
    }

    /// The current occupied count.
    pub fn size(&self) -> (r: usize)
        ensures
            r == self.spec_size(),
    {
        self.leaves.len()
    }

    /// What `get_leaf` returns: the occupied leaf at the position, or the
    /// out-of-range error.
    pub open spec fn get_leaf_spec(&self, index: u64) -> Result<IndexedTreeLeaf, TreeError> {
        if index < self.spec_size() {
            Result::Ok(self.entry(index as int))
        } else {
            Result::Err(TreeError::IndexOutOfRange)
        }
    }

    /// The occupied leaf at list position `index`.
    pub fn get_leaf(&self, index: u64) -> (r: Result<IndexedTreeLeaf, TreeError>)
        requires
            self.wf(),
        ensures
            r == self.get_leaf_spec(index),
    {
        if index >= self.leaves.len() as u64 {
            Err(TreeError::IndexOutOfRange)
        } else {
            Ok(self.leaves[index as usize].inner())
        }
    }

    /// Rewrites the leaf-layer hash at `index` to `leaf`'s hash and
    /// recomputes the stored path from that slot up to the cached root.
    #[verifier::loop_isolation(false)]
    #[verifier::rlimit(60)]
    fn update_path(&mut self, index: usize, leaf: &NullifierLeaf) -> (r: Hash256)
        requires
            old(self).structural(),
            old(self).internal_ok(),
            index < old(self).total_size,
        ensures
            final(self).structural(),
            final(self).internal_ok(),
            final(self).depth == old(self).depth,
            final(self).total_size == old(self).total_size,
            final(self).leaves == old(self).leaves,
            final(self).stored_leaf_layer() == old(self).stored_leaf_layer().update(
                index as int,
                nullifier_hash(*leaf),
            ),
            r == final(self).root,
    {
        let ghost d = old(self).depth as int;
        let ghost cap = old(self).capacity();
        let ghost new_layer = old(self).stored_leaf_layer().update(
            index as int,
            nullifier_hash(*leaf),
        );
        let mut idx: usize = index;
        let mut offset: usize = 0;
        let mut layer_size: usize = self.total_size;
        let mut current: Hash256 = leaf.hash();
        let mut l: usize = 0;
        proof {
            lemma_pow2_pos(0);
            vstd::arithmetic::power2::lemma2_to64();
            assert(level_width(d, 0) == cap);
            assert(level_offset(d, 0) == 0);
            assert((idx as int) / (pow2(0) as int) == idx) by {
                lemma_div_block(idx as int, pow2(0) as int, idx as int);
            }
        }
        while l < self.depth
            invariant
                l <= self.depth,
                layer_size == level_width(d, l as int),
                offset == level_offset(d, l as int),
                idx == (index as int) / (pow2(l as nat) as int),
                self.depth == old(self).depth,
                self.total_size == old(self).total_size,
                self.leaves == old(self).leaves,
                self.hashes@.len() == old(self).hashes@.len(),
                current@ == node_hash(new_layer, l as nat, idx as int),
                forall|l2: nat, j: int|
                    l2 < l && 0 <= j < level_width(d, l2 as int) ==> self.hashes@[level_offset(
                        d,
                        l2 as int,
                    ) + j]@ == #[trigger] node_hash(new_layer, l2, j),
                forall|k: int|
                    offset <= k < self.hashes@.len() ==> self.hashes@[k] == old(self).hashes@[k],
            decreases self.depth - l,
        {
            let ghost li = l as int;
            let ghost p = pow2(l as nat) as int;
            proof {
                lemma_pow2_pos(l as nat);
                lemma_pow2_pos((d - li) as nat);
                lemma_pow2_pos((d - li - 1) as nat);
                lemma_pow2_unfold((d - li) as nat);
                // the level is wide enough: idx < level_width(d, l)
                lemma_pow2_adds(l as nat, (d - li) as nat);
                assert(cap == p * level_width(d, li));
                lemma_div_block(index as int, p, idx as int);
                assert(idx < level_width(d, li)) by (nonlinear_arith)
                    requires
                        idx * p <= index,
                        (index as int) < cap,
                        cap == p * level_width(d, li),
                        p > 0,
                ;
                lemma_level_geometry(d, li);
                assert(offset + idx < self.hashes@.len());
            }
            let pair_base: usize = if idx % 2 == 0 {
                idx
            } else {
                idx - 1
            };
            // write this level's node on the path
            self.hashes[offset + idx] = current;
            proof {
                // every node of this level now agrees with the new leaf layer
                assert forall|j: int| 0 <= j < level_width(d, li) implies self.hashes@[level_offset(
                    d,
                    li,
                ) + j]@ == node_hash(new_layer, l as nat, j) by {
                    if j == idx as int {
                        assert(self.hashes@[level_offset(d, li) + j] == current);
                    } else {
                        lemma_div_block(index as int, p, j);
                        assert(!(j * p <= index < (j + 1) * p));
                        assert((j + 1) * p <= cap) by (nonlinear_arith)
                            requires
                                j < level_width(d, li),
                                cap == p * level_width(d, li),
                                p > 0,
                        ;
                        assert(j * p >= 0) by (nonlinear_arith)
                            requires
                                j >= 0,
                                p > 0,
                        ;
                        lemma_node_hash_frame(
                            old(self).stored_leaf_layer(),
                            new_layer,
                            l as nat,
                            j,
                        );
                        assert(self.hashes@[level_offset(d, li) + j]
                            == old(self).hashes@[level_offset(d, li) + j]);
                        if l == 0 {
                            assert(node_hash(old(self).stored_leaf_layer(), 0, j)
                                == old(self).stored_leaf_layer()[j]);
                            assert(node_hash(new_layer, 0, j) == new_layer[j]);
                        } else {
                            assert(old(self).hashes@[level_offset(d, li) + j]@ == node_hash(
                                old(self).stored_leaf_layer(),
                                l as nat,
                                j,
                            ));
                        }
                    }
                }
                // the sibling pair covers blocks 2*(idx/2) and 2*(idx/2)+1
                assert(pair_base as int == 2 * ((idx as int) / 2));
                assert(pair_base + 1 < level_width(d, li)) by {
                    assert(level_width(d, li) == 2 * pow2((d - li - 1) as nat));
                }
            }
            let left = self.hashes[offset + pair_base];
            let right = self.hashes[offset + pair_base + 1];
            current = hash_pair(left, right);
            proof {
                let half = (idx as int) / 2;
                assert(current@ == pair_digest(
                    node_hash(new_layer, l as nat, 2 * half),
                    node_hash(new_layer, l as nat, 2 * half + 1),
                ));
                assert(current@ == node_hash(new_layer, (l + 1) as nat, half));
                // index / 2^l / 2 == index / 2^(l+1)
                vstd::arithmetic::div_mod::lemma_div_denominator(index as int, p, 2);
                lemma_pow2_unfold(l as nat + 1);
                assert(half == (index as int) / (pow2((l + 1) as nat) as int));
            }
            offset = offset + layer_size;
            layer_size = layer_size / 2;
            l = l + 1;
            idx = idx / 2;
            proof {
                assert(layer_size == level_width(d, l as int));
                assert(offset == level_offset(d, l as int));
            }
        }
        proof {
            // at the top the path index is 0 and current is the root hash
            lemma_div_block(index as int, pow2(self.depth as nat) as int, 0);
            lemma_pow2_pos(self.depth as nat);
            assert(idx == 0);
            // the stored leaf layer is now the updated one
            assert(self.stored_leaf_layer() =~= new_layer) by {
                assert forall|i: int| 0 <= i < cap implies self.stored_leaf_layer()[i]
                    == new_layer[i] by {
                    assert(self.hashes@[level_offset(d, 0) + i]@ == node_hash(new_layer, 0, i));
                }
            }
        }
        self.root = current;
        self.root
    }

    /// Position i holds an eligible predecessor candidate for inserting v:
    /// its value lies strictly below v (the sentinel's zero always does, for
    /// the positive v that insertion admits). Slots at or above v are out.
    pub open spec fn eligible(&self, v: nat, i: int) -> bool {
        self.value_at(i) < v
    }

    /// p is the predecessor slot for inserting v: eligible, and of greatest
    /// value among the eligible slots.
    pub open spec fn is_predecessor(&self, v: nat, p: int) -> bool {
        &&& 0 <= p < self.spec_size()
        &&& self.eligible(v, p)
        &&& forall|j: int|
            0 <= j < self.spec_size() && self.eligible(v, j) ==> #[trigger] self.value_at(j)
                <= self.value_at(p)
    }

    /// Scans the occupied leaves for the predecessor of `value`: the leaf of
    /// greatest value strictly below it. Reports a duplicate instead if some
    /// leaf holds `value` exactly; reports the (unreachable, while the
    /// sentinel holds slot 0) absence of any candidate rather than assuming it.
    #[verifier::loop_isolation(false)]
    fn find_predecessor(&self, value: &Hash256) -> (r: Result<usize, TreeError>)
        requires
            self.wf(),
            be_val(value@) > 0,
        ensures
            r is Err <==> (exists|i: int|
                0 <= i < self.spec_size() && #[trigger] self.value_at(i) == be_val(value@)),
            r matches Err(e) ==> e == TreeError::DuplicateValue,
            r matches Ok(p) ==> self.is_predecessor(be_val(value@), p as int),
    {
        let ghost v = be_val(value@);
        let n = self.leaves.len();
        let mut best: Option<usize> = None;
        let mut i: usize = 0;
        while i < n
            invariant
                i <= n,
                best is None ==> i == 0,
                best matches Some(b) ==> 0 <= b < i && self.eligible(v, b as int),
                best matches Some(b) ==> forall|j: int|
                    0 <= j < i && self.eligible(v, j) ==> #[trigger] self.value_at(j)
                        <= self.value_at(b as int),
                forall|j: int| 0 <= j < i ==> #[trigger] self.value_at(j) != v,
            decreases n - i,
        {
            let leaf = self.leaves[i].inner();
            if leaf.value.eq_value(value) {
                proof {
                    assert(self.leaves@[i as int] is Occupied);
                    assert(self.value_at(i as int) == v);
                }
                return Err(TreeError::DuplicateValue);
            }
            if leaf.value.lt(value) {
                best = match best {
                    None => Some(i),
                    Some(b) => {
                        let best_leaf = self.leaves[b].inner();
                        if best_leaf.value.lt(&leaf.value) {
                            Some(i)
                        } else {
                            Some(b)
                        }
                    },
                };
            }
            i = i + 1;
        }
        match best {
            Some(b) => Ok(b),
            None => {
                proof {
                    // unreachable: the sentinel at slot 0 is always eligible
                    assert(self.value_at(0) == 0 && self.eligible(v, 0));
                }
                Err(TreeError::InternalInvariantViolation)
            },
        }
    }

    /// Some occupied leaf holds the value v.
    pub open spec fn has_value(&self, v: nat) -> bool {
        exists|i: int| 0 <= i < self.spec_size() && #[trigger] self.value_at(i) == v
    }

    /// The occupied-leaf list after splicing `value` in behind the
    /// predecessor at position p: the predecessor is rewired to point at the
    /// new tail slot, and the new leaf inherits its old successor pointer.
    pub open spec fn spliced(&self, p: int, value: Hash256) -> Seq<NullifierLeaf> {
        self.leaves@.update(
            p,
            NullifierLeaf::Occupied(
                IndexedTreeLeaf {
                    value: self.entry(p).value,
                    next_index: self.leaves@.len() as usize,
                    next_value: value,
                },
            ),
        ).push(
            NullifierLeaf::Occupied(
                IndexedTreeLeaf {
                    value: value,
                    next_index: self.entry(p).next_index,
                    next_value: self.entry(p).next_value,
                },
            ),
        )
    }

    /// Inserts a positive value: finds its predecessor, rewires that leaf to
    /// point at the new tail slot, appends the new leaf with the
    /// predecessor's former successor pointer, recomputes both hash paths and
    /// returns the new root. Rejected inserts (zero or duplicate value, full
    /// tree) leave the tree untouched.
    #[verifier::rlimit(80)]
    pub fn insert_element(&mut self, value: Hash256) -> (r: Result<Hash256, TreeError>)
        requires
            old(self).wf(),
        ensures
            final(self).wf(),
            final(self).depth == old(self).depth,
            final(self).total_size == old(self).total_size,
            r is Err ==> *final(self) == *old(self),
            (r == Result::<Hash256, TreeError>::Err(TreeError::DuplicateValue)) <==> (be_val(
                value@,
            ) == 0 || old(self).has_value(be_val(value@))),
            (r == Result::<Hash256, TreeError>::Err(TreeError::TreeFull)) <==> (be_val(value@)
                != 0 && !old(self).has_value(be_val(value@)) && old(self).spec_size() == old(
                self,
            ).capacity()),
            r is Ok <==> (be_val(value@) != 0 && !old(self).has_value(be_val(value@)) && old(
                self,
            ).spec_size() < old(self).capacity()),
            r matches Ok(root) ==> root == final(self).root && final(self).spec_size() == old(
                self,
            ).spec_size() + 1 && (exists|p: int|
                #[trigger] old(self).is_predecessor(be_val(value@), p) && final(self).leaves@
                    == old(self).spliced(p, value)),
    {
        let ghost t0 = *old(self);
        let ghost v = be_val(value@);
        if value.is_zero() {
            return Err(TreeError::DuplicateValue);
        }
        let pred = match self.find_predecessor(&value) {
            Ok(p) => p,
            Err(e) => {
                return Err(e);
            },
        };
        if self.leaves.len() == self.total_size {
            return Err(TreeError::TreeFull);
        }
        let ghost n0 = t0.spec_size();
        let old_leaf = self.leaves[pred].inner();
        let new_size = self.leaves.len();
        let new_leaf = IndexedTreeLeaf::new(value, old_leaf.next_index, old_leaf.next_value);
        let updated_pred = IndexedTreeLeaf::new(old_leaf.value, new_size, value);
        let wrapped_pred = NullifierLeaf::Occupied(updated_pred);
        let wrapped_new = NullifierLeaf::Occupied(new_leaf);
        self.leaves[pred] = wrapped_pred;
        self.leaves.push(wrapped_new);
        proof {
            assert(self.leaves@ =~= t0.spliced(pred as int, value));
        }
        self.update_path(pred, &wrapped_pred);
        let root = self.update_path(new_size, &wrapped_new);
        proof {
            let tf = *self;
            assert(tf.structural());
            // the stored leaf layer matches the new occupied leaves
            assert forall|i: int| 0 <= i < tf.capacity() implies tf.stored_leaf_layer()[i]
                == tf.leaf_hashes()[i] by {
                if i == pred as int {
                } else if i == n0 {
                } else if i < n0 {
                    assert(t0.stored_leaf_layer()[i] == t0.leaf_hashes()[i]);
                } else {
                    assert(t0.stored_leaf_layer()[i] == t0.leaf_hashes()[i]);
                }
            }
            // the linked list is still a sorted chain
            assert forall|i: int| 0 <= i <= n0 implies #[trigger] tf.leaves@[i] is Occupied by {
                if i != pred as int && i != n0 {
                    assert(t0.leaves@[i] is Occupied);
                }
            }
            assert(tf.leaves@[0] is Occupied && tf.value_at(0) == 0);
            assert forall|i: int| 0 <= i <= n0 implies 0 <= #[trigger] tf.entry(i).next_index
                <= n0 by {
                if i != pred as int && i != n0 {
                    assert(0 <= t0.entry(i).next_index < n0);
                }
            }
            assert forall|i: int| 0 <= i <= n0 implies #[trigger] tf.entry(i).next_value@
                == tf.entry(tf.entry(i).next_index as int).value@ by {
                if i == pred as int {
                    assert(tf.entry(n0).value == value);
                } else if i == n0 {
                    let q = t0.entry(pred as int).next_index as int;
                    assert(t0.entry(pred as int).next_value@ == t0.entry(q).value@);
                    assert(tf.entry(q).value == t0.entry(q).value);
                } else {
                    let q = t0.entry(i).next_index as int;
                    assert(t0.entry(i).next_value@ == t0.entry(q).value@);
                    assert(tf.entry(q).value == t0.entry(q).value);
                }
            }
            assert forall|i: int, j: int| 0 <= i < j <= n0 implies #[trigger] tf.value_at(i)
                != #[trigger] tf.value_at(j) by {
                if j == n0 {
                    assert(tf.value_at(j) == v);
                    assert(tf.value_at(i) == t0.value_at(i));
                    assert(t0.value_at(i) != v);
                } else {
                    assert(tf.value_at(i) == t0.value_at(i));
                    assert(tf.value_at(j) == t0.value_at(j));
                }
            }
            assert forall|i: int| 0 <= i <= n0 implies (tf.entry(i).next_index == 0
                || #[trigger] tf.value_at(i) < be_val(tf.entry(i).next_value@)) by {
                if i == pred as int {
                    assert(tf.value_at(i) == t0.value_at(pred as int));
                    assert(t0.value_at(pred as int) < v);
                } else if i == n0 {
                    let q = t0.entry(pred as int).next_index as int;
                    if q != 0 {
                        // the predecessor's old successor lies strictly above v
                        assert(t0.value_at(pred as int) < be_val(
                            t0.entry(pred as int).next_value@,
                        ));
                        assert(be_val(t0.entry(pred as int).next_value@) == t0.value_at(q));
                        if t0.value_at(q) < v {
                            assert(t0.eligible(v, q));
                            assert(t0.value_at(q) <= t0.value_at(pred as int));
                            assert(false);
                        }
                        if t0.value_at(q) == v {
                            assert(t0.has_value(v));
                            assert(false);
                        }
                        assert(tf.value_at(i) == v);
                        assert(be_val(tf.entry(i).next_value@) == t0.value_at(q));
                    }
                } else {
                    if t0.entry(i).next_index != 0 {
                        assert(t0.value_at(i) < be_val(t0.entry(i).next_value@));
                        assert(tf.value_at(i) == t0.value_at(i));
                    }
                }
            }
            assert(tf.wf());
            assert(t0.is_predecessor(v, pred as int));
        }
        Ok(root)
    }

    /// The sibling pair that level l contributes to the hash path from leaf
    /// slot `index`: the even-aligned node covering the slot, then its right
    /// neighbour.
    pub open spec fn path_pair(&self, index: int, l: nat) -> (Seq<u8>, Seq<u8>) {
        let base = 2 * ((index / (pow2(l) as int)) / 2);
        (node_hash(self.leaf_hashes(), l, base), node_hash(self.leaf_hashes(), l, base + 1))
    }

    /// The ordered sibling pairs from leaf slot `index` up to the root:
    /// exactly `depth` pairs, leaf level first.
    #[verifier::loop_isolation(false)]
    #[verifier::rlimit(60)]
    pub fn get_hash_path(&self, index: u64) -> (r: Result<Vec<(Hash256, Hash256)>, TreeError>)
        requires
            self.wf(),
        ensures
            (index < self.total_size) <==> r is Ok,
            r matches Err(e) ==> e == TreeError::IndexOutOfRange,
            r matches Ok(path) ==> path@.len() == self.depth && forall|l: nat|
                l < self.depth ==> (#[trigger] path@[l as int]).0@ == self.path_pair(
                    index as int,
                    l,
                ).0 && path@[l as int].1@ == self.path_pair(index as int, l).1,
    {
        if index >= self.total_size as u64 {
            return Err(TreeError::IndexOutOfRange);
        }
        let ghost d = self.depth as int;
        let ghost cap = self.capacity();
        proof {
            assert(self.stored_leaf_layer() =~= self.leaf_hashes());
            vstd::arithmetic::power2::lemma2_to64();
        }
        let mut path: Vec<(Hash256, Hash256)> = Vec::new();
        let mut idx: usize = index as usize;
        let mut offset: usize = 0;
        let mut layer_size: usize = self.total_size;
        let mut l: usize = 0;
        while l < self.depth
            invariant
                l <= self.depth,
                layer_size == level_width(d, l as int),
                offset == level_offset(d, l as int),
                idx == (index as int) / (pow2(l as nat) as int),
                path@.len() == l,
                forall|l2: nat|
                    l2 < l ==> (#[trigger] path@[l2 as int]).0@ == self.path_pair(
                        index as int,
                        l2,
                    ).0 && path@[l2 as int].1@ == self.path_pair(index as int, l2).1,
            decreases self.depth - l,
        {
            let ghost li = l as int;
            let ghost p = pow2(l as nat) as int;
            proof {
                lemma_pow2_pos(l as nat);
                lemma_pow2_pos((d - li) as nat);
                lemma_pow2_pos((d - li - 1) as nat);
                lemma_pow2_unfold((d - li) as nat);
                lemma_pow2_adds(l as nat, (d - li) as nat);
                assert(cap == p * level_width(d, li));
                lemma_div_block(index as int, p, idx as int);
                assert(idx < level_width(d, li)) by (nonlinear_arith)
                    requires
                        idx * p <= index,
                        (index as int) < cap,
                        cap == p * level_width(d, li),
                        p > 0,
                ;
                lemma_level_geometry(d, li);
            }
            let base: usize = if idx % 2 == 0 {
                idx
            } else {
                idx - 1
            };
            proof {
                assert(base as int == 2 * ((idx as int) / 2));
                assert(base + 1 < level_width(d, li));
                if l == 0 {
                    assert(self.hashes@[level_offset(d, 0) + base]@ == node_hash(
                        self.stored_leaf_layer(),
                        0,
                        base as int,
                    ));
                    assert(self.hashes@[level_offset(d, 0) + base + 1]@ == node_hash(
                        self.stored_leaf_layer(),
                        0,
                        base as int + 1,
                    ));
                }
            }
            let left = self.hashes[offset + base];
            let right = self.hashes[offset + base + 1];
            path.push((left, right));
            proof {
                vstd::arithmetic::div_mod::lemma_div_denominator(index as int, p, 2);
                lemma_pow2_unfold(l as nat + 1);
            }
            offset = offset + layer_size;
            layer_size = layer_size / 2;
            l = l + 1;
            idx = idx / 2;
        }
        Ok(path)
    }

    /// Builds a tree of the given depth: every leaf slot starts unallocated
    /// (hash zero), each level above holds that level's constant hash, and
    /// the sentinel leaf is written into occupied slot 0.
    #[verifier::loop_isolation(false)]
    #[verifier::rlimit(60)]
    pub fn new(depth: u64) -> (r: Result<Self, TreeError>)
        requires
            1 <= depth <= 32 ==> pow2(depth as nat + 1) - 2 <= usize::MAX,
        ensures
            (1 <= depth <= 32) <==> r is Ok,
            r matches Err(e) ==> e == TreeError::ConfigError,
            r matches Ok(t) ==> t.wf() && t.depth == depth && t.spec_size() == 1,
            r matches Ok(t) ==> t.entry(0).value@ == zero_bytes() && t.entry(0).next_index == 0
                && t.entry(0).next_value@ == zero_bytes(),
    {
        if depth < 1 || depth > 32 {
            return Err(TreeError::ConfigError);
        }
        let d: usize = depth as usize;
        // capacity = 2^depth, by doubling
        let mut cap: usize = 1;
        let mut l: usize = 0;
        proof {
            vstd::arithmetic::power2::lemma2_to64();
        }
        while l < d
            invariant
                l <= d,
                cap == pow2(l as nat),
            decreases d - l,
        {
            proof {
                lemma_pow2_unfold(l as nat + 1);
                lemma_pow2_unfold(d as nat + 1);
                if l + 1 < d {
                    lemma_pow2_strictly_increases(l as nat + 1, d as nat);
                }
                lemma_pow2_pos(d as nat);
                assert(cap * 2 == pow2(l as nat + 1));
                assert(pow2(l as nat + 1) <= pow2(d as nat));
                assert(2 * pow2(d as nat) - 2 <= usize::MAX);
            }
            cap = cap * 2;
            l = l + 1;
        }
        let num_nodes: usize = cap - 2 + cap;
        // fill each level with its constant hash, leaves first
        let mut hashes: Vec<Hash256> = Vec::new();
        let mut current: Hash256 = Hash256::zero();
        let mut layer_size: usize = cap;
        let mut lev: usize = 0;
        proof {
            assert(level_offset(d as int, 0) == 0);
        }
        while lev < d
            invariant
                lev <= d,
                layer_size == level_width(d as int, lev as int),
                hashes@.len() == level_offset(d as int, lev as int),
                current@ == zero_chain(lev as nat),
                forall|l2: int, j: int|
                    0 <= l2 < lev && 0 <= j < level_width(d as int, l2) ==> #[trigger] flat_node(
                        hashes@,
                        d as int,
                        l2,
                        j,
                    ) == zero_chain(l2 as nat),
            decreases d - lev,
        {
            proof {
                lemma_pow2_pos((d - lev) as nat);
                lemma_pow2_pos((d - lev - 1) as nat);
                lemma_pow2_unfold((d - lev) as nat);
            }
            let mut i: usize = 0;
            while i < layer_size
                invariant
                    i <= layer_size,
                    hashes@.len() == level_offset(d as int, lev as int) + i,
                    forall|l2: int, j: int|
                        0 <= l2 < lev && 0 <= j < level_width(d as int, l2) ==> #[trigger]
                            flat_node(hashes@, d as int, l2, j) == zero_chain(l2 as nat),
                    forall|j: int|
                        0 <= j < i ==> #[trigger] flat_node(hashes@, d as int, lev as int, j)
                            == zero_chain(lev as nat),
                decreases layer_size - i,
            {
                let ghost pre = hashes@;
                hashes.push(current);
                proof {
                    assert forall|l2: int, j: int|
                        0 <= l2 < lev && 0 <= j < level_width(d as int, l2) implies #[trigger]
                        flat_node(hashes@, d as int, l2, j) == zero_chain(l2 as nat) by {
                        lemma_level_geometry(d as int, l2);
                        lemma_offset_mono(d as int, l2 + 1, lev as int);
                        assert(level_offset(d as int, l2) + j < pre.len());
                        assert(flat_node(pre, d as int, l2, j) == zero_chain(l2 as nat));
                    }
                    assert forall|j: int|
                        0 <= j <= i implies #[trigger] flat_node(hashes@, d as int, lev as int, j)
                        == zero_chain(lev as nat) by {
                        if j < i {
                            assert(level_offset(d as int, lev as int) + j < pre.len());
                            assert(flat_node(pre, d as int, lev as int, j) == zero_chain(
                                lev as nat,
                            ));
                        } else {
                            assert(level_offset(d as int, lev as int) + j == pre.len());
                        }
                    }
                }
                i = i + 1;
            }
            current = hash_pair(current, current);
            layer_size = layer_size / 2;
            lev = lev + 1;
        }
        // one occupied leaf: the sentinel
        let mut leaves: Vec<NullifierLeaf> = Vec::new();
        let initial = NullifierLeaf::zero();
        leaves.push(initial);
        let mut tree = MemoryIndexedMerkleTree {
            depth: d,
            total_size: cap,
            root: current,
            leaves,
            hashes,
        };
        proof {
            assert(tree.structural());
            assert forall|i: int| 0 <= i < tree.capacity() implies tree.stored_leaf_layer()[i]
                == zero_bytes() by {
                assert(flat_node(tree.hashes@, d as int, 0, i) == zero_chain(0));
            }
            assert forall|l2: nat, j: int|
                l2 < tree.depth && 0 <= j < level_width(d as int, l2 as int) implies tree.hashes@[
                level_offset(d as int, l2 as int) + j]@ == #[trigger] node_hash(
                tree.stored_leaf_layer(),
                l2,
                j,
            ) by {
                assert(flat_node(tree.hashes@, d as int, l2 as int, j) == zero_chain(l2));
                lemma_pow2_adds(l2, (d - l2) as nat);
                assert((j + 1) * pow2(l2) <= pow2(d as nat)) by (nonlinear_arith)
                    requires
                        0 <= j,
                        j < level_width(d as int, l2 as int),
                        pow2(d as nat) == pow2(l2) * level_width(d as int, l2 as int),
                ;
                lemma_node_hash_zero(tree.stored_leaf_layer(), l2, j);
            }
            lemma_pow2_adds(d as nat, 0);
            vstd::arithmetic::power2::lemma2_to64();
            assert((0 + 1) * pow2(d as nat) <= pow2(d as nat)) by (nonlinear_arith);
            lemma_node_hash_zero(tree.stored_leaf_layer(), d as nat, 0);
            assert(tree.internal_ok());
        }
        let sentinel = initial;
        tree.update_path(0, &sentinel);
        proof {
            assert(nullifier_hash(sentinel) == zero_bytes());
            assert forall|i: int| 0 <= i < tree.capacity() implies tree.stored_leaf_layer()[i]
                == tree.leaf_hashes()[i] by {}
            assert(tree.wf());
        }
        Ok(tree)
    }

    /// The whole hash path from leaf slot `index`: one sibling pair per
    /// level, leaf level first. `get_hash_path` returns exactly these pairs.
    pub open spec fn hash_path(&self, index: int) -> Seq<(Seq<u8>, Seq<u8>)> {
        Seq::new(self.depth as nat, |l: int| self.path_pair(index, l as nat))
    }
}

/// Folding the pair hash over a sibling-pair path: each step replaces the
/// running hash by the digest of the level's full pair, as a verifier
/// recomputing a root does.
pub open spec fn fold_path(path: Seq<(Seq<u8>, Seq<u8>)>, acc: Seq<u8>) -> Seq<u8>
    decreases path.len(),
{
    if path.len() == 0 {
        acc
    } else {
        fold_path(path.skip(1), pair_digest(path[0].0, path[0].1))
    }
}

/// Law: in a well-formed tree every stored leaf-layer hash equals the hash
/// of the occupied leaf now held at that position (zero for unallocated
/// slots), and the cached root equals the root recomputed from scratch by
/// pairing the full leaf layer up to the top. Insertion ensures
/// well-formedness, so both hold after every insert.
pub proof fn lemma_root_recomputed_from_scratch(t: &MemoryIndexedMerkleTree)
    requires
        t.wf(),
    ensures
        forall|i: int|
            0 <= i < t.spec_size() ==> (#[trigger] t.stored_leaf_layer()[i]) == nullifier_hash(
                t.leaves@[i],
            ),
        t.root@ == node_hash(t.leaf_hashes(), t.depth as nat, 0),
{
    assert(t.stored_leaf_layer() =~= t.leaf_hashes());
}

/// From level l upward, folding the remaining path pairs over the level-l
/// node covering `index` lands on the root.
proof fn lemma_fold_path_from(t: &MemoryIndexedMerkleTree, index: int, l: nat)
    requires
        t.wf(),
        0 <= index < t.capacity(),
        l <= t.depth,
    ensures
        fold_path(
            t.hash_path(index).skip(l as int),
            node_hash(t.leaf_hashes(), l, index / (pow2(l) as int)),
        ) == node_hash(t.leaf_hashes(), t.depth as nat, 0),
    decreases t.depth - l,
{
    let p = pow2(l) as int;
    lemma_pow2_pos(l);
    if l == t.depth {
        lemma_div_block(index, p, 0);
        assert(t.hash_path(index).skip(l as int) =~= Seq::<(Seq<u8>, Seq<u8>)>::empty());
    } else {
        let rest = t.hash_path(index).skip(l as int);
        let idx = index / p;
        let half = idx / 2;
        let base = 2 * half;
        assert(rest[0] == t.path_pair(index, l));
        assert(pair_digest(t.path_pair(index, l).0, t.path_pair(index, l).1) == node_hash(
            t.leaf_hashes(),
            l + 1,
            half,
        ));
        vstd::arithmetic::div_mod::lemma_div_denominator(index, p, 2);
        lemma_pow2_unfold(l + 1);
        assert(half == index / (pow2((l + 1) as nat) as int));
        assert(rest.skip(1) =~= t.hash_path(index).skip(l as int + 1));
        lemma_fold_path_from(t, index, l + 1);
    }
}

/// Law: for any leaf slot of a well-formed tree, the hash path has exactly
/// `depth` pairs; the slot's own leaf hash stands in the first pair at the
/// slot's parity; and folding the pair hash over the path, starting from
/// that leaf hash, reproduces the cached root.
pub proof fn lemma_hash_path_recomputes_root(t: &MemoryIndexedMerkleTree, index: int)
    requires
        t.wf(),
        0 <= index < t.capacity(),
    ensures
        t.hash_path(index).len() == t.depth,
        index % 2 == 0 ==> t.hash_path(index)[0].0 == t.leaf_hashes()[index],
        index % 2 != 0 ==> t.hash_path(index)[0].1 == t.leaf_hashes()[index],
        fold_path(t.hash_path(index), t.leaf_hashes()[index]) == t.root@,
{
    vstd::arithmetic::power2::lemma2_to64();
    lemma_div_block(index, 1, index);
    assert(index / (pow2(0) as int) == index);
    assert(2 * ((index / (pow2(0) as int)) / 2) == if index % 2 == 0 {
        index
    } else {
        index - 1
    });
    assert(t.hash_path(index).skip(0) =~= t.hash_path(index));
    lemma_fold_path_from(t, index, 0);
    assert(t.stored_leaf_layer() =~= t.leaf_hashes());
    assert(t.root@ == node_hash(t.leaf_hashes(), t.depth as nat, 0));
}

/// Law: reads are idempotent. `get_leaf` and `get_hash_path` return values
/// that their contracts pin down as functions of the tree alone, and both
/// take the tree by shared reference; so two results obtained from the same
/// tree without an intervening insert are identical.
pub proof fn lemma_reads_idempotent(
    t: &MemoryIndexedMerkleTree,
    index: u64,
    r1: Result<IndexedTreeLeaf, TreeError>,
    r2: Result<IndexedTreeLeaf, TreeError>,
    p1: Seq<(Seq<u8>, Seq<u8>)>,
    p2: Seq<(Seq<u8>, Seq<u8>)>,
)
    requires
        r1 == t.get_leaf_spec(index),
        r2 == t.get_leaf_spec(index),
        p1.len() == t.depth,
        p2.len() == t.depth,
        forall|l: nat| l < t.depth ==> #[trigger] p1[l as int] == t.path_pair(index as int, l),
        forall|l: nat| l < t.depth ==> #[trigger] p2[l as int] == t.path_pair(index as int, l),
    ensures
        r1 == r2,
        p1 == p2,
{
    assert forall|l: int| 0 <= l < p1.len() implies p1[l] == p2[l] by {
        assert(p1[l] == t.path_pair(index as int, l as nat));
        assert(p2[l] == t.path_pair(index as int, l as nat));
    }
    assert(p1 =~= p2);
}

} // verus!
