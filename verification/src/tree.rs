//! The incremental Merkle tree engine.
//!
//! A tree of fixed `depth` holds an append-only sequence of 32-byte leaves.
//! The value of the node at `(level, index)` is defined by [`node_val`]:
//! leaves (padded with the zero encoding) at level 0, and the Poseidon2
//! compression of the two children at higher levels.  The root is the node
//! at `(depth, 0)`.
//!
//! Two caches accelerate recomputation and are never authoritative:
//! `subtree_cache[level]` holds the value of a fully-unfilled subtree at
//! that level (the zero ladder), and `sparse_cache[level][index]` holds
//! materialized node values along previously updated insertion paths.  The
//! well-formedness predicate [`LeanIMTBN254::wf`] pins every cache entry to
//! the node value it stands for, which is what makes the cached fast paths
//! provably agree with the recursive reference computation.

use vstd::prelude::*;

use vstd::arithmetic::div_mod::{
    lemma_basic_div, lemma_div_denominator, lemma_div_nonincreasing, lemma_fundamental_div_mod,
    lemma_fundamental_div_mod_converse,
};
use vstd::arithmetic::power2::{
    lemma2_to64, lemma_pow2_pos, lemma_pow2_strictly_increases, lemma_pow2_unfold, pow2,
};

use soroban_sdk::crypto::bn254::Bn254Fr;
use soroban_sdk::Env;

use crate::host::{
    bytes_to_bn254_scalar, env_clone, hash2, poseidon_hash_pair,
};

verus! {

broadcast use vstd::array::group_array_axioms;

/// Error returned by [`LeanIMTBN254::insert`].
#[derive(Clone, Copy, Debug, PartialEq, Eq, Structural)]
pub enum TreeError {
    /// The tree already holds `2^depth` leaves.
    TreeAtCapacity,
}

/// The 32-byte encoding of the zero field element.
pub open spec fn zero32() -> Seq<u8> {
    Seq::new(32, |i: int| 0u8)
}

/// The zero ladder: the value of a fully-unfilled subtree rooted at `level`.
pub open spec fn zero_node(level: nat) -> Seq<u8>
    decreases level,
{
    if level == 0 {
        zero32()
    } else {
        hash2(zero_node((level - 1) as nat), zero_node((level - 1) as nat))
    }
}

/// The leaf at position `k`, or the zero encoding beyond the stored range.
pub open spec fn leaf_or_zero(leaves: Seq<Seq<u8>>, k: int) -> Seq<u8> {
    if 0 <= k < leaves.len() {
        leaves[k]
    } else {
        zero32()
    }
}

/// The reference value of the node at `(level, index)` over the given
/// leaves: the defining recursion of the tree.
pub open spec fn node_val(leaves: Seq<Seq<u8>>, level: nat, index: nat) -> Seq<u8>
    decreases level,
{
    if level == 0 {
        leaf_or_zero(leaves, index as int)
    } else {
        hash2(
            node_val(leaves, (level - 1) as nat, 2 * index),
            node_val(leaves, (level - 1) as nat, 2 * index + 1),
        )
    }
}

/// The index of the sibling, at `level`, of the path rising from
/// `leaf_index`: the path node's neighbour under the same parent.
pub open spec fn sibling_index(leaf_index: nat, level: nat) -> nat {
    let p = leaf_index / pow2(level);
    if p % 2 == 0 {
        p + 1
    } else {
        (p - 1) as nat
    }
}

/// Folding a node value upward with an ordered sibling path: at each step
/// the even-indexed operand stands on the left.
pub open spec fn fold_path(cur: Seq<u8>, siblings: Seq<Seq<u8>>, index: nat) -> Seq<u8>
    decreases siblings.len(),
{
    if siblings.len() == 0 {
        cur
    } else {
        let next = if index % 2 == 0 {
            hash2(cur, siblings[0])
        } else {
            hash2(siblings[0], cur)
        };
        fold_path(next, siblings.drop_first(), index / 2)
    }
}

/// The capacity of a tree of the given depth: `2^depth`, clamped to the
/// largest representable count when the shift would overflow.
pub open spec fn cap_spec(depth: nat) -> nat {
    if depth >= 32 {
        u32::MAX as nat
    } else {
        pow2(depth)
    }
}

/// A node whose subtree lies entirely beyond the stored leaves has the
/// zero-ladder value: hashing unfilled children reproduces the ladder.
pub proof fn lemma_node_val_beyond(leaves: Seq<Seq<u8>>, level: nat, index: nat)
    requires
        index * pow2(level) >= leaves.len(),
    ensures
        node_val(leaves, level, index) == zero_node(level),
    decreases level,
{
    lemma_pow2_pos(level);
    if level == 0 {
        assert(pow2(0) == 1) by {
            lemma2_to64();
        }
    } else {
        let l1 = (level - 1) as nat;
        lemma_pow2_unfold(level);
        assert((2 * index) * pow2(l1) == index * pow2(level)) by (nonlinear_arith)
            requires
                pow2(level) == 2 * pow2(l1),
        ;
        assert((2 * index + 1) * pow2(l1) >= (2 * index) * pow2(l1)) by (nonlinear_arith)
            requires
                pow2(l1) > 0,
        ;
        lemma_node_val_beyond(leaves, l1, 2 * index);
        lemma_node_val_beyond(leaves, l1, 2 * index + 1);
    }
}

/// The node at `(level, index)` reads only the leaf window
/// `[index * 2^level, (index + 1) * 2^level)`: two leaf sequences that agree
/// there (padding included) give the node the same value.
pub proof fn lemma_node_val_agree(
    l1: Seq<Seq<u8>>,
    l2: Seq<Seq<u8>>,
    level: nat,
    index: nat,
)
    requires
        forall|k: int|
            index * pow2(level) <= k < (index + 1) * pow2(level) ==> leaf_or_zero(l1, k)
                == leaf_or_zero(l2, k),
    ensures
        node_val(l1, level, index) == node_val(l2, level, index),
    decreases level,
{
    lemma_pow2_pos(level);
    if level == 0 {
        assert(pow2(0) == 1) by {
            lemma2_to64();
        }
        assert(index * 1 == index) by (nonlinear_arith);
        assert((index + 1) * 1 == index + 1) by (nonlinear_arith);
        assert(leaf_or_zero(l1, index as int) == leaf_or_zero(l2, index as int));
    } else {
        let l1v = (level - 1) as nat;
        lemma_pow2_unfold(level);
        assert((2 * index) * pow2(l1v) == index * pow2(level)) by (nonlinear_arith)
            requires
                pow2(level) == 2 * pow2(l1v),
        ;
        assert((2 * index + 2) * pow2(l1v) == (index + 1) * pow2(level)) by (nonlinear_arith)
            requires
                pow2(level) == 2 * pow2(l1v),
        ;
        assert((2 * index + 1) * pow2(l1v) == (2 * index) * pow2(l1v) + pow2(l1v))
            by (nonlinear_arith);
        assert((2 * index + 2) * pow2(l1v) == (2 * index + 1) * pow2(l1v) + pow2(l1v))
            by (nonlinear_arith);
        lemma_node_val_agree(l1, l2, l1v, 2 * index);
        lemma_node_val_agree(l1, l2, l1v, 2 * index + 1);
    }
}

/// Appending a leaf leaves every node unchanged whose window does not
/// contain the new position.
pub proof fn lemma_node_val_push(
    leaves: Seq<Seq<u8>>,
    x: Seq<u8>,
    level: nat,
    index: nat,
)
    requires
        !(index * pow2(level) <= leaves.len() < (index + 1) * pow2(level)),
    ensures
        node_val(leaves.push(x), level, index) == node_val(leaves, level, index),
{
    let n = leaves.len() as int;
    assert forall|k: int|
        index * pow2(level) <= k < (index + 1) * pow2(level) implies leaf_or_zero(
        leaves.push(x),
        k,
    ) == leaf_or_zero(leaves, k) by {
        if k != n {
            if 0 <= k < n {
                assert(leaves.push(x)[k] == leaves[k]);
            }
        }
    }
    lemma_node_val_agree(leaves.push(x), leaves, level, index);
}

/// `k / 2^level == index` exactly when `k` lies in the window of
/// `(level, index)`.
pub proof fn lemma_div_window(k: nat, level: nat, index: nat)
    requires
        k / pow2(level) == index,
    ensures
        index * pow2(level) <= k < (index + 1) * pow2(level),
{
    lemma_pow2_pos(level);
    let p = pow2(level) as int;
    lemma_fundamental_div_mod(k as int, p);
    assert(k as int == p * (k as int / p) + (k as int % p));
    assert(index * p == p * index) by (nonlinear_arith);
    assert((index + 1) * p == p * index + p) by (nonlinear_arith);
}

/// The converse: a position inside the window of `(level, index)` divides
/// down to `index`.
pub proof fn lemma_window_div(k: nat, level: nat, index: nat)
    requires
        index * pow2(level) <= k < (index + 1) * pow2(level),
    ensures
        k / pow2(level) == index,
{
    lemma_pow2_pos(level);
    let p = pow2(level) as int;
    assert((index + 1) * p == index * p + p) by (nonlinear_arith);
    lemma_fundamental_div_mod_converse(k as int, p, index as int, k as int - index as int * p);
}

/// The byte sequences of a vector of fixed-width byte values.
pub open spec fn views_of<const N: usize>(leaves: Seq<[u8; N]>) -> Seq<Seq<u8>> {
    leaves.map_values(|a: [u8; N]| a@)
}

/// The incremental Merkle tree over the BN254 scalar field.
///
/// Only `insert` mutates a tree; it appends one leaf and recomputes the
/// nodes along that leaf's path to the root.  The caller must serialize
/// mutations: the structure carries no internal locking, so a single writer
/// must own the instance while an insertion runs (reads of a completed
/// snapshot are harmless).
pub struct LeanIMTBN254 {
    env: Env,
    leaves: Vec<[u8; 32]>,
    depth: u32,
    capacity: u32,
    root: [u8; 32],
    subtree_cache: Vec<[u8; 32]>,
    sparse_cache: Vec<Vec<Option<[u8; 32]>>>,
}

impl LeanIMTBN254 {
    /// The stored leaves, as byte sequences in insertion order.
    pub closed spec fn lview(self) -> Seq<Seq<u8>> {
        views_of(self.leaves@)
    }

    /// The fixed depth.
    pub closed spec fn spec_depth(self) -> nat {
        self.depth as nat
    }

    /// The cached root bytes.
    pub closed spec fn spec_root(self) -> Seq<u8> {
        self.root@
    }

    /// The maximum number of leaves.
    pub closed spec fn spec_capacity(self) -> nat {
        self.capacity as nat
    }

    /// The sparse-cache entry at `(level, index)`, if any.
    spec fn sparse_at(self, l: int, j: int) -> Option<[u8; 32]> {
        if 0 <= l < self.sparse_cache@.len() && 0 <= j < self.sparse_cache@[l]@.len() {
            self.sparse_cache@[l]@[j]
        } else {
            None
        }
    }

    /// A present sparse entry at `(l, j)` holds the node's reference value.
    spec fn entry_ok(self, l: int, j: int) -> bool {
        self.sparse_at(l, j) matches Some(v) ==> v@ == node_val(
            self.lview(),
            l as nat,
            j as nat,
        )
    }

    /// The node at `(l, j)` overlaps the stored leaves.
    spec fn materialized(self, l: int, j: int) -> bool {
        j * pow2(l as nat) < self.lview().len()
    }

    /// The sparse cache has one (possibly empty) lane per level.
    spec fn sparse_levels(self) -> bool {
        self.sparse_cache@.len() == self.depth as int + 1
    }

    /// The zero-subtree cache is either unfilled or holds the whole ladder.
    spec fn subtree_ok(self) -> bool {
        &&& (self.subtree_cache@.len() == 0 || self.subtree_cache@.len() == self.depth as int
            + 1)
        &&& forall|l: int|
            0 <= l < self.subtree_cache@.len() ==> (#[trigger] self.subtree_cache@[l])@
                == zero_node(l as nat)
    }

    /// Sparse entries at levels up to `up` hold reference node values.
    spec fn sparse_ok_upto(self, up: int) -> bool {
        forall|l: int, j: int| 0 <= l <= up ==> #[trigger] self.entry_ok(l, j)
    }

    /// When the zero-subtree shortcut is armed, every node overlapping the
    /// stored leaves is present in the sparse cache, so the shortcut is only
    /// ever consulted for genuinely unfilled subtrees.
    spec fn covered(self) -> bool {
        self.subtree_cache@.len() > 0 ==> forall|l: int, j: int|
            0 <= l <= self.depth as int && 0 <= j && #[trigger] self.materialized(l, j)
                ==> self.sparse_at(l, j) is Some
    }

    /// Every sparse lane is empty.
    spec fn sparse_all_none(self) -> bool {
        forall|l: int, j: int| self.sparse_at(l, j) is None
    }

    /// Mid-insertion cache state, after the walk has reached `level` while
    /// absorbing the new last leaf `new_i`: an entry may hold a stale value
    /// only at a strict ancestor of the new leaf above `level`; every other
    /// entry holds its reference value.  Ancestors at or below `level` have
    /// already been rewritten by the walk.
    spec fn entry_stale_ok(self, new_i: nat, level: nat, l: int, j: int) -> bool {
        self.sparse_at(l, j) matches Some(v) ==> ((l > level && j == (new_i / pow2(
            l as nat,
        )) as int) || v@ == node_val(self.lview(), l as nat, j as nat))
    }

    /// All sparse entries are stale-only-above-`level` for the path of
    /// `new_i`.
    spec fn walk_inv(self, new_i: nat, level: nat) -> bool {
        forall|l: int, j: int| 0 <= l ==> #[trigger] self.entry_stale_ok(new_i, level, l, j)
    }

    /// Mid-insertion coverage: when the zero-subtree shortcut is armed,
    /// every materialized node is present in the sparse cache, except
    /// possibly the not-yet-visited ancestors of `new_i` above `level`.
    spec fn walk_cov(self, new_i: nat, level: nat) -> bool {
        self.subtree_cache@.len() > 0 ==> forall|l: int, j: int|
            0 <= l <= self.depth as int && 0 <= j && #[trigger] self.materialized(l, j) ==> (
            self.sparse_at(l, j) is Some || (l > level && j == (new_i / pow2(l as nat)) as int))
    }

    /// Well-formedness: capacity matches the depth, the leaf count is in
    /// range, and both caches agree with the reference node values.
    pub closed spec fn wf(self) -> bool {
        &&& self.capacity as nat == cap_spec(self.depth as nat)
        &&& self.lview().len() <= self.capacity as nat
        &&& self.sparse_levels()
        &&& self.subtree_ok()
        &&& self.sparse_ok_upto(self.depth as int)
        &&& self.covered()
    }

    /// The cached root equals the reference root over the stored leaves.
    pub open spec fn root_ok(self) -> bool {
        self.spec_root() == node_val(self.lview(), self.spec_depth(), 0)
    }

    /// Creates a tree of the given depth: no leaves, the zero ladder
    /// precomputed for every level, and the ladder's top as root.
    pub fn new(env: &Env, depth: u32) -> (t: Self)
        ensures
            t.wf(),
            t.root_ok(),
            t.spec_depth() == depth as nat,
            t.spec_capacity() == cap_spec(depth as nat),
            t.lview().len() == 0,
            t.spec_root() == zero_node(depth as nat),
    {
        let capacity = compute_capacity(depth);
        let mut tree = LeanIMTBN254 {
            env: env_clone(env),
            leaves: Vec::new(),
            depth,
            capacity,
            root: zero_bytes(),
            subtree_cache: Vec::new(),
            sparse_cache: empty_levels(depth),
        };
        tree.recompute_tree();
        tree
    }

    /// A tree with no sparse entries satisfies the sparse-cache clauses of
    /// well-formedness, and with no leaves the coverage clause as well.
    proof fn lemma_none_entries_ok(self)
        requires
            forall|l: int, j: int| #[trigger] self.sparse_at(l, j) is None,
        ensures
            self.sparse_ok_upto(self.depth as int),
            self.lview().len() == 0 ==> self.covered(),
    {
        assert forall|l: int, j: int| 0 <= l <= self.depth as int implies #[trigger] self
            .entry_ok(l, j) by {
            assert(self.sparse_at(l, j) is None);
        }
        if self.lview().len() == 0 {
            assert forall|l: int, j: int|
                0 <= l <= self.depth as int && 0 <= j && #[trigger] self.materialized(
                    l,
                    j,
                ) implies self.sparse_at(l, j) is Some by {
                lemma_pow2_pos(l as nat);
                assert(j * pow2(l as nat) >= 0) by (nonlinear_arith)
                    requires
                        j >= 0,
                        pow2(l as nat) > 0,
                ;
            }
        }
    }

    /// Rebuilds the zero ladder from scratch.  On a depth-zero tree the root
    /// is the zero leaf itself and the ladder stays unfilled.
    fn recompute_tree(&mut self)
        requires
            old(self).lview().len() == 0,
            old(self).subtree_cache@.len() == 0,
            old(self).sparse_levels(),
            old(self).sparse_all_none(),
            old(self).capacity as nat == cap_spec(old(self).depth as nat),
        ensures
            final(self).wf(),
            final(self).root_ok(),
            final(self).spec_root() == zero_node(final(self).spec_depth()),
            final(self).lview() == old(self).lview(),
            final(self).depth == old(self).depth,
            final(self).capacity == old(self).capacity,
            final(self).env == old(self).env,
    {
        if self.depth == 0 {
            self.root = zero_bytes();
            proof {
                assert forall|l: int, j: int| #[trigger] self.sparse_at(l, j) is None by {
                    assert(old(self).sparse_at(l, j) is None);
                }
                self.lemma_none_entries_ok();
            }
            return ;
        }
        let ghost orig = *self;
        let mut current = zero_bytes();
        let mut level: u64 = 0;
        while level <= self.depth as u64
            invariant
                *self == (LeanIMTBN254 { root: self.root, subtree_cache: self.subtree_cache, ..orig }),
                level <= self.depth as u64 + 1,
                self.subtree_cache@.len() == level,
                forall|l: int|
                    0 <= l < level ==> (#[trigger] self.subtree_cache@[l])@ == zero_node(
                        l as nat,
                    ),
                level > 0 ==> current@ == zero_node((level - 1) as nat),
            decreases self.depth as u64 + 1 - level,
        {
            if level == 0 {
                current = zero_bytes();
            } else {
                current = poseidon_hash_pair(&self.env, &current, &current);
            }
            self.subtree_cache.push(current);
            level = level + 1;
        }
        self.root = current;
        proof {
            assert forall|l: int, j: int| #[trigger] self.sparse_at(l, j) is None by {
                assert(old(self).sparse_at(l, j) is None);
            }
            self.lemma_none_entries_ok();
            lemma_node_val_beyond(self.lview(), self.depth as nat, 0);
        }
    }

    /// The current root.
    pub fn get_root(&self) -> (r: [u8; 32])
        ensures
            r@ == self.spec_root(),
    {
        self.root
    }

    /// The current root, decoded as a scalar field element.
    pub fn get_root_scalar(&self) -> Bn254Fr {
        bytes_to_bn254_scalar(&self.env, &self.root)
    }

    /// The fixed depth.
    pub fn get_depth(&self) -> (d: u32)
        ensures
            d as nat == self.spec_depth(),
    {
        self.depth
    }

    /// The number of leaves inserted so far.
    pub fn get_leaf_count(&self) -> (c: u32)
        requires
            self.wf(),
        ensures
            c as nat == self.lview().len(),
    {
        self.leaves.len() as u32
    }

    /// The maximum number of leaves, `2^depth` clamped to `u32::MAX`.
    pub fn get_capacity(&self) -> (c: u32)
        ensures
            c as nat == self.spec_capacity(),
    {
        self.capacity
    }

    /// Whether the tree can take no further leaf.
    pub fn is_full(&self) -> (b: bool)
        requires
            self.wf(),
        ensures
            b == (self.lview().len() >= self.spec_capacity()),
    {
        self.get_leaf_count() >= self.get_capacity()
    }

    /// Whether no leaf has been inserted.
    pub fn is_empty(&self) -> (b: bool)
        ensures
            b == (self.lview().len() == 0),
    {
        self.leaves.len() == 0
    }

    /// The leaf at `index`, if one has been inserted there.
    pub fn get_leaf(&self, index: usize) -> (r: Option<[u8; 32]>)
        ensures
            match r {
                Some(leaf) => index < self.lview().len() && leaf@ == self.lview()[index as int],
                None => index >= self.lview().len(),
            },
    {
        if index < self.leaves.len() {
            Some(self.leaves[index])
        } else {
            None
        }
    }

    /// The leaf at `index`, decoded as a scalar field element.
    pub fn get_leaf_scalar(&self, index: usize) -> (r: Option<Bn254Fr>)
        ensures
            r is Some <==> index < self.lview().len(),
    {
        match self.get_leaf(index) {
            Some(bytes) => Some(bytes_to_bn254_scalar(&self.env, &bytes)),
            None => None,
        }
    }

    /// All stored leaves, in insertion order.
    pub fn get_leaves(&self) -> (r: &Vec<[u8; 32]>)
        ensures
            views_of(r@) == self.lview(),
    {
        &self.leaves
    }

    /// The persistent state: the triple `(leaves, depth, root)`.  The two
    /// caches are deliberately not part of it; they are rebuilt on demand.
    pub fn to_storage(&self) -> (r: (Vec<[u8; 32]>, u32, [u8; 32]))
        ensures
            views_of(r.0@) == self.lview(),
            r.1 as nat == self.spec_depth(),
            r.2@ == self.spec_root(),
    {
        (copy_leaves(&self.leaves), self.depth, self.root)
    }

    /// Reconstructs a tree from a stored `(leaves, depth, root)` triple.
    ///
    /// With stored leaves the caches start cold and are rebuilt lazily by
    /// later operations; the stored root is served as-is until then.  With
    /// no leaves this is `new`: the ladder is precomputed and the stored
    /// root argument is replaced by the ladder top.
    pub fn from_storage(env: &Env, leaves: Vec<[u8; 32]>, depth: u32, root: [u8; 32]) -> (t:
        Self)
        requires
            leaves@.len() <= cap_spec(depth as nat),
        ensures
            t.wf(),
            t.lview() == views_of(leaves@),
            t.spec_depth() == depth as nat,
            t.spec_capacity() == cap_spec(depth as nat),
            leaves@.len() == 0 ==> t.root_ok() && t.spec_root() == zero_node(depth as nat),
            leaves@.len() > 0 ==> t.spec_root() == root@,
            leaves@.len() > 0 ==> (t.root_ok() <==> root@ == node_val(
                views_of(leaves@),
                depth as nat,
                0,
            )),
    {
        let capacity = compute_capacity(depth);
        let mut tree = LeanIMTBN254 {
            env: env_clone(env),
            leaves,
            depth,
            capacity,
            root,
            subtree_cache: Vec::new(),
            sparse_cache: empty_levels(depth),
        };
        tree.rebuild_cache_from_leaves();
        tree
    }

    /// Resets both caches.  An empty tree instead precomputes the ladder,
    /// which also restores the genesis root.
    fn rebuild_cache_from_leaves(&mut self)
        requires
            old(self).subtree_cache@.len() == 0,
            old(self).sparse_levels(),
            old(self).sparse_all_none(),
            old(self).capacity as nat == cap_spec(old(self).depth as nat),
            old(self).lview().len() <= old(self).capacity as nat,
        ensures
            final(self).wf(),
            final(self).lview() == old(self).lview(),
            final(self).depth == old(self).depth,
            final(self).capacity == old(self).capacity,
            final(self).env == old(self).env,
            old(self).lview().len() == 0 ==> final(self).root_ok() && final(self).spec_root()
                == zero_node(final(self).spec_depth()),
            old(self).lview().len() > 0 ==> final(self).root == old(self).root,
    {
        if self.leaves.len() == 0 {
            self.recompute_tree();
            return ;
        }
    }

    /// The leaves before the most recent append.
    spec fn prev_lview(self) -> Seq<Seq<u8>> {
        self.lview().drop_last()
    }

    /// A present sparse entry holds the node's value over the pre-append
    /// leaves.
    spec fn entry_ok_prev(self, l: int, j: int) -> bool {
        self.sparse_at(l, j) matches Some(v) ==> v@ == node_val(
            self.prev_lview(),
            l as nat,
            j as nat,
        )
    }

    /// The node at `(l, j)` overlaps the pre-append leaves.
    spec fn materialized_prev(self, l: int, j: int) -> bool {
        j * pow2(l as nat) < self.prev_lview().len()
    }

    /// Coverage over the pre-append leaves.
    spec fn covered_prev(self) -> bool {
        self.subtree_cache@.len() > 0 ==> forall|l: int, j: int|
            0 <= l <= self.depth as int && 0 <= j && #[trigger] self.materialized_prev(l, j)
                ==> self.sparse_at(l, j) is Some
    }

    /// Looks a node up in the caches: a materialized sparse entry wins over
    /// the per-level zero-subtree shortcut.
    fn get_cached_node(&self, level: u32, node_index: u64) -> (r: Option<[u8; 32]>)
        ensures
            match r {
                Some(v) => self.sparse_at(level as int, node_index as int) == Some(v) || (
                self.sparse_at(level as int, node_index as int) is None && (level as int)
                    < self.subtree_cache@.len() && v == self.subtree_cache@[level as int]),
                None => self.sparse_at(level as int, node_index as int) is None && level as int
                    >= self.subtree_cache@.len(),
            },
    {
        if (level as usize) < self.sparse_cache.len() {
            let lane = &self.sparse_cache[level as usize];
            if node_index < lane.len() as u64 {
                if let Some(v) = lane[node_index as usize] {
                    return Some(v);
                }
            }
        }
        if (level as usize) < self.subtree_cache.len() {
            return Some(self.subtree_cache[level as usize]);
        }
        None
    }

    /// Writes `value` at `(level, node_index)`, growing that level's lane
    /// with empty slots as needed.
    fn cache_sparse_node(&mut self, level: u32, node_index: u64, value: [u8; 32])
        requires
            old(self).sparse_levels(),
            level <= old(self).depth,
            node_index < u32::MAX as u64,
        ensures
            final(self).sparse_levels(),
            final(self).depth == old(self).depth,
            final(self).capacity == old(self).capacity,
            final(self).leaves == old(self).leaves,
            final(self).root == old(self).root,
            final(self).subtree_cache == old(self).subtree_cache,
            final(self).env == old(self).env,
            final(self).sparse_at(level as int, node_index as int) == Some(value),
            forall|l: int, j: int|
                !(l == level as int && j == node_index as int) ==> final(self).sparse_at(l, j)
                    == old(self).sparse_at(l, j),
    {
        let level_us = level as usize;
        let mut lane: Vec<Option<[u8; 32]>> = Vec::new();
        self.sparse_cache.set_and_swap(level_us, &mut lane);
        let ghost lane0 = lane@;
        let target = node_index as usize;
        while lane.len() <= target
            invariant
                lane@.len() >= lane0.len(),
                forall|k: int|
                    0 <= k < lane@.len() ==> lane@[k] == (if k < lane0.len() {
                        lane0[k]
                    } else {
                        None
                    }),
            decreases target + 1 - lane@.len(),
        {
            lane.push(None);
        }
        lane.set(target, Some(value));
        self.sparse_cache.set_and_swap(level_us, &mut lane);
        proof {
            assert forall|l: int, j: int|
                !(l == level as int && j == node_index as int) implies self.sparse_at(l, j)
                == old(self).sparse_at(l, j) by {
                if l == level as int {
                    if 0 <= j < lane0.len() {
                    }
                }
            }
        }
    }

    /// Computes the node at `(node_index, target_level)` by the reference
    /// recursion: caches first, then the indexed leaf at level zero, else
    /// the hash of the two recursively computed children.
    fn compute_node_at_level(&self, node_index: u64, target_level: u32) -> (r: [u8; 32])
        requires
            self.sparse_levels(),
            self.subtree_ok(),
            self.lview().len() <= u32::MAX as nat,
            self.sparse_ok_upto(target_level as int),
            self.subtree_cache@.len() > 0 ==> self.covered(),
        ensures
            target_level <= self.depth ==> r@ == node_val(
                self.lview(),
                target_level as nat,
                node_index as nat,
            ),
            target_level > self.depth ==> r@ == zero32(),
        decreases target_level,
    {
        if target_level > self.depth {
            return zero_bytes();
        }
        let cached = self.get_cached_node(target_level, node_index);
        if let Some(value) = cached {
            proof {
                let l = target_level as int;
                let j = node_index as int;
                if self.sparse_at(l, j) == Some(value) {
                    assert(self.entry_ok(l, j));
                } else {
                    if self.materialized(l, j) {
                        assert(self.sparse_at(l, j) is Some);
                        assert(false);
                    }
                    lemma_node_val_beyond(self.lview(), target_level as nat, node_index as nat);
                }
            }
            return value;
        }
        if target_level == 0 {
            if node_index < self.leaves.len() as u64 {
                self.leaves[node_index as usize]
            } else {
                zero_bytes()
            }
        } else {
            // An index at or above 2^32 lies beyond any storable leaf (the
            // leaf count fits in u32), so its subtree is unfilled and its
            // children's values equal its own; reusing the index keeps the
            // doubling within u64 without changing the result.
            let clamped = node_index >= 0x1_0000_0000u64;
            let left_child_index: u64 = if clamped {
                node_index
            } else {
                node_index * 2
            };
            let right_child_index: u64 = if clamped {
                node_index
            } else {
                node_index * 2 + 1
            };
            let left = self.compute_node_at_level(left_child_index, target_level - 1);
            let right = self.compute_node_at_level(right_child_index, target_level - 1);
            proof {
                if clamped {
                    let lv = self.lview();
                    let tl = target_level as nat;
                    let j = node_index as nat;
                    lemma_pow2_pos(tl);
                    lemma_pow2_pos((tl - 1) as nat);
                    assert(j * pow2(tl) >= j) by (nonlinear_arith)
                        requires
                            pow2(tl) >= 1,
                    ;
                    assert(j * pow2((tl - 1) as nat) >= j) by (nonlinear_arith)
                        requires
                            pow2((tl - 1) as nat) >= 1,
                    ;
                    assert((2 * j) * pow2((tl - 1) as nat) >= j) by (nonlinear_arith)
                        requires
                            pow2((tl - 1) as nat) >= 1,
                    ;
                    assert((2 * j + 1) * pow2((tl - 1) as nat) >= j) by (nonlinear_arith)
                        requires
                            pow2((tl - 1) as nat) >= 1,
                    ;
                    lemma_node_val_beyond(lv, (tl - 1) as nat, j);
                    lemma_node_val_beyond(lv, (tl - 1) as nat, 2 * j);
                    lemma_node_val_beyond(lv, (tl - 1) as nat, 2 * j + 1);
                }
            }
            poseidon_hash_pair(&self.env, &left, &right)
        }
    }

    /// Walks from the freshly appended leaf up to the root: at each level
    /// the sibling is fetched (leaf array, caches, or reference recursion),
    /// the pair is hashed with the even index on the left, and the parent's
    /// cache entry is rewritten.  Returns the value computed at `depth`.
    fn recompute_path_to_root_with_cache_update(&mut self, leaf_index: u32) -> (r: [u8; 32])
        requires
            old(self).capacity as nat == cap_spec(old(self).depth as nat),
            old(self).lview().len() <= old(self).capacity as nat,
            old(self).lview().len() >= 1,
            leaf_index as nat == old(self).lview().len() - 1,
            old(self).sparse_levels(),
            old(self).subtree_ok(),
            old(self).walk_inv(leaf_index as nat, 0),
            old(self).walk_cov(leaf_index as nat, 0),
        ensures
            final(self).wf(),
            r@ == node_val(final(self).lview(), final(self).spec_depth(), 0),
            final(self).leaves == old(self).leaves,
            final(self).depth == old(self).depth,
            final(self).capacity == old(self).capacity,
            final(self).root == old(self).root,
            final(self).subtree_cache == old(self).subtree_cache,
            final(self).env == old(self).env,
    {
        let ghost new_i = leaf_index as nat;
        let leaf_bytes = self.leaves[leaf_index as usize];
        let mut current_index: u64 = leaf_index as u64;
        let mut current_level: u32 = 0;
        let mut current: [u8; 32] = leaf_bytes;
        proof {
            lemma2_to64();
            assert(new_i / pow2(0) == new_i);
        }
        while current_level < self.depth
            invariant
                self.capacity as nat == cap_spec(self.depth as nat),
                self.lview().len() <= self.capacity as nat,
                self.lview().len() >= 1,
                new_i == self.lview().len() - 1,
                self.sparse_levels(),
                self.subtree_ok(),
                current_level <= self.depth,
                current_index as nat == new_i / pow2(current_level as nat),
                current@ == node_val(self.lview(), current_level as nat, current_index as nat),
                self.walk_inv(new_i, current_level as nat),
                self.walk_cov(new_i, current_level as nat),
                self.leaves == old(self).leaves,
                self.depth == old(self).depth,
                self.capacity == old(self).capacity,
                self.root == old(self).root,
                self.subtree_cache == old(self).subtree_cache,
                self.env == old(self).env,
            decreases self.depth - current_level,
        {
            let ghost lv = self.lview();
            let ghost lvl = current_level as nat;
            proof {
                lemma_pow2_pos(lvl);
                lemma_div_nonincreasing(new_i as int, pow2(lvl) as int);
            }
            let sibling_index: u64 = if current_index % 2 == 0 {
                current_index + 1
            } else {
                current_index - 1
            };
            let sibling: [u8; 32] = if current_level == 0 {
                if sibling_index < self.leaves.len() as u64 {
                    self.leaves[sibling_index as usize]
                } else {
                    zero_bytes()
                }
            } else {
                match self.get_cached_node(current_level, sibling_index) {
                    Some(cached) => {
                        proof {
                            let l = current_level as int;
                            let j = sibling_index as int;
                            if self.sparse_at(l, j) == Some(cached) {
                                assert(self.entry_stale_ok(new_i, lvl, l, j));
                            } else {
                                if self.materialized(l, j) {
                                    assert(self.sparse_at(l, j) is Some || (l > lvl && j
                                        == (new_i / pow2(lvl)) as int));
                                    assert(false);
                                }
                                lemma_node_val_beyond(lv, lvl, sibling_index as nat);
                            }
                        }
                        cached
                    },
                    None => {
                        proof {
                            assert forall|l: int, j: int|
                                0 <= l <= current_level as int implies #[trigger] self.entry_ok(
                                l,
                                j,
                            ) by {
                                assert(self.entry_stale_ok(new_i, lvl, l, j));
                            }
                        }
                        self.compute_node_at_level(sibling_index, current_level)
                    },
                }
            };
            proof {
                assert(sibling@ == node_val(lv, lvl, sibling_index as nat));
            }
            let parent = if current_index % 2 == 0 {
                poseidon_hash_pair(&self.env, &current, &sibling)
            } else {
                poseidon_hash_pair(&self.env, &sibling, &current)
            };
            let parent_index = current_index / 2;
            let parent_level = current_level + 1;
            proof {
                lemma_pow2_unfold((lvl + 1) as nat);
                lemma_div_denominator(new_i as int, pow2(lvl) as int, 2);
                assert(pow2(lvl) * 2 == 2 * pow2(lvl)) by (nonlinear_arith);
                assert(parent_index as nat == new_i / pow2((lvl + 1) as nat));
                assert(parent@ == node_val(lv, (lvl + 1) as nat, parent_index as nat));
            }
            let ghost pre = *self;
            self.cache_sparse_node(parent_level, parent_index, parent);
            proof {
                let pl = (lvl + 1) as nat;
                assert(self.lview() == pre.lview());
                assert forall|l: int, j: int| 0 <= l implies #[trigger] self.entry_stale_ok(
                    new_i,
                    pl,
                    l,
                    j,
                ) by {
                    if l == parent_level as int && j == parent_index as int {
                        assert(self.sparse_at(l, j) == Some(parent));
                    } else {
                        assert(self.sparse_at(l, j) == pre.sparse_at(l, j));
                        assert(pre.entry_stale_ok(new_i, lvl, l, j));
                    }
                }
                assert forall|l: int, j: int|
                    self.subtree_cache@.len() > 0 && 0 <= l <= self.depth as int && 0 <= j
                        && #[trigger] self.materialized(l, j) implies (self.sparse_at(l, j)
                    is Some || (l > pl && j == (new_i / pow2(l as nat)) as int)) by {
                    assert(pre.materialized(l, j));
                    assert(pre.sparse_at(l, j) is Some || (l > lvl && j == (new_i / pow2(
                        l as nat,
                    )) as int));
                    if pre.sparse_at(l, j) is Some {
                        if !(l == parent_level as int && j == parent_index as int) {
                            assert(self.sparse_at(l, j) == pre.sparse_at(l, j));
                        }
                    } else {
                        if l == parent_level as int && j == parent_index as int {
                            assert(self.sparse_at(l, j) == Some(parent));
                        }
                    }
                }
            }
            current_index = parent_index;
            current_level = parent_level;
            current = parent;
        }
        proof {
            let d = self.depth as nat;
            // The path index at the top level is zero: the leaf position is
            // below 2^depth.
            if self.depth < 32 {
                lemma_basic_div(new_i as int, pow2(d) as int);
            } else {
                lemma2_to64();
                if self.depth > 32 {
                    lemma_pow2_strictly_increases(32, d);
                }
                lemma_basic_div(new_i as int, pow2(d) as int);
            }
            assert(current_index as nat == 0);
            // Well-formedness follows from the walk predicates at `depth`:
            // no stale ancestor remains above the top level.
            assert forall|l: int, j: int| 0 <= l <= self.depth as int implies #[trigger] self
                .entry_ok(l, j) by {
                assert(self.entry_stale_ok(new_i, d, l, j));
            }
            assert forall|l: int, j: int|
                self.subtree_cache@.len() > 0 && 0 <= l <= self.depth as int && 0 <= j
                    && #[trigger] self.materialized(l, j) implies self.sparse_at(l, j)
                is Some by {
                assert(self.sparse_at(l, j) is Some || (l > d && j == (new_i / pow2(
                    l as nat,
                )) as int));
            }
        }
        current
    }

    /// Absorbs the freshly appended last leaf: caches its value at level
    /// zero, then recomputes and re-caches its path up to the root.
    fn incremental_update(&mut self)
        requires
            old(self).capacity as nat == cap_spec(old(self).depth as nat),
            old(self).lview().len() <= old(self).capacity as nat,
            old(self).lview().len() >= 1,
            old(self).sparse_levels(),
            old(self).subtree_ok(),
            forall|l: int, j: int| 0 <= l ==> #[trigger] old(self).entry_ok_prev(l, j),
            old(self).covered_prev(),
        ensures
            final(self).wf(),
            final(self).root_ok(),
            final(self).lview() == old(self).lview(),
            final(self).leaves == old(self).leaves,
            final(self).depth == old(self).depth,
            final(self).capacity == old(self).capacity,
            final(self).env == old(self).env,
            final(self).subtree_cache == old(self).subtree_cache,
    {
        let leaf_index = (self.leaves.len() - 1) as u32;
        let leaf_bytes = self.leaves[leaf_index as usize];
        let ghost new_i = leaf_index as nat;
        let ghost lv = self.lview();
        let ghost prev = self.prev_lview();
        let ghost pre = *self;
        self.cache_sparse_node(0, leaf_index as u64, leaf_bytes);
        proof {
            lemma2_to64();
            assert(lv[new_i as int] == leaf_bytes@);
            assert(lv =~= prev.push(lv[new_i as int]));
            assert(new_i / pow2(0) == new_i);
            assert forall|l: int, j: int| 0 <= l implies #[trigger] self.entry_stale_ok(
                new_i,
                0,
                l,
                j,
            ) by {
                if self.sparse_at(l, j) is Some {
                    if l == 0 && j == new_i as int {
                        assert(self.sparse_at(l, j) == Some(leaf_bytes));
                        assert(node_val(lv, 0, new_i) == lv[new_i as int]);
                    } else {
                        assert(self.sparse_at(l, j) == pre.sparse_at(l, j));
                        assert(pre.entry_ok_prev(l, j));
                        if !(l > 0 && j == (new_i / pow2(l as nat)) as int) {
                            // the entry's window misses the new position
                            if l == 0 {
                                lemma_pow2_pos(0);
                                assert(j * pow2(0) == j) by (nonlinear_arith)
                                    requires
                                        pow2(0) == 1,
                                ;
                                assert((j + 1) * pow2(0) == j + 1) by (nonlinear_arith)
                                    requires
                                        pow2(0) == 1,
                                ;
                                lemma_node_val_push(prev, lv[new_i as int], 0, j as nat);
                            } else {
                                if j >= 0 && j as nat * pow2(l as nat) <= prev.len() < (
                                j as nat + 1) * pow2(l as nat) {
                                    lemma_window_div(new_i, l as nat, j as nat);
                                    assert(false);
                                }
                                if j >= 0 {
                                    lemma_node_val_push(
                                        prev,
                                        lv[new_i as int],
                                        l as nat,
                                        j as nat,
                                    );
                                }
                            }
                        }
                    }
                }
            }
            assert forall|l: int, j: int|
                self.subtree_cache@.len() > 0 && 0 <= l <= self.depth as int && 0 <= j
                    && #[trigger] self.materialized(l, j) implies (self.sparse_at(l, j)
                is Some || (l > 0 && j == (new_i / pow2(l as nat)) as int)) by {
                lemma_pow2_pos(l as nat);
                if (j as nat) * pow2(l as nat) < prev.len() {
                    assert(pre.materialized_prev(l, j));
                    assert(pre.sparse_at(l, j) is Some);
                    if !(l == 0 && j == new_i as int) {
                        assert(self.sparse_at(l, j) == pre.sparse_at(l, j));
                    }
                } else {
                    // the window starts exactly at the new position
                    assert((j as nat) * pow2(l as nat) == new_i);
                    assert((j as nat + 1) * pow2(l as nat) == (j as nat) * pow2(l as nat)
                        + pow2(l as nat)) by (nonlinear_arith);
                    lemma_window_div(new_i, l as nat, j as nat);
                    if l == 0 {
                        assert(new_i / pow2(0) == new_i);
                        assert(self.sparse_at(0, new_i as int) == Some(leaf_bytes));
                    }
                }
            }
        }
        let new_root = self.recompute_path_to_root_with_cache_update(leaf_index);
        let ghost mid = *self;
        self.root = new_root;
        proof {
            assert(self.lview() == mid.lview());
            assert forall|l: int, j: int| 0 <= l <= self.depth as int implies #[trigger] self
                .entry_ok(l, j) by {
                assert(mid.entry_ok(l, j));
                assert(self.sparse_at(l, j) == mid.sparse_at(l, j));
            }
            assert forall|l: int, j: int|
                self.subtree_cache@.len() > 0 && 0 <= l <= self.depth as int && 0 <= j
                    && #[trigger] self.materialized(l, j) implies self.sparse_at(l, j)
                is Some by {
                assert(mid.materialized(l, j));
                assert(mid.sparse_at(l, j) is Some);
                assert(self.sparse_at(l, j) == mid.sparse_at(l, j));
            }
        }
    }

    /// Appends a leaf and recomputes the root along its path.
    ///
    /// Fails with [`TreeError::TreeAtCapacity`], leaving the tree bit-for-
    /// bit unchanged (caches included), exactly when the tree already holds
    /// `2^depth` leaves.
    pub fn insert(&mut self, leaf: [u8; 32]) -> (result: Result<(), TreeError>)
        requires
            old(self).wf(),
        ensures
            final(self).wf(),
            final(self).spec_depth() == old(self).spec_depth(),
            final(self).spec_capacity() == old(self).spec_capacity(),
            match result {
                Ok(()) => {
                    &&& old(self).lview().len() < old(self).spec_capacity()
                    &&& final(self).lview() == old(self).lview().push(leaf@)
                    &&& final(self).root_ok()
                },
                Err(TreeError::TreeAtCapacity) => {
                    &&& old(self).lview().len() >= old(self).spec_capacity()
                    &&& *final(self) == *old(self)
                },
            },
    {
        let current_count = self.leaves.len() as u32;
        if current_count >= self.capacity {
            return Err(TreeError::TreeAtCapacity);
        }
        let ghost pre = *self;
        self.leaves.push(leaf);
        proof {
            assert(self.lview() =~= pre.lview().push(leaf@));
            assert(self.prev_lview() =~= pre.lview());
            assert forall|l: int, j: int| 0 <= l implies #[trigger] self.entry_ok_prev(
                l,
                j,
            ) by {
                assert(pre.entry_ok(l, j));
                assert(self.sparse_at(l, j) == pre.sparse_at(l, j));
            }
            assert forall|l: int, j: int|
                self.subtree_cache@.len() > 0 && 0 <= l <= self.depth as int && 0 <= j
                    && #[trigger] self.materialized_prev(l, j) implies self.sparse_at(l, j)
                is Some by {
                assert(pre.materialized(l, j));
                assert(pre.sparse_at(l, j) is Some);
                assert(self.sparse_at(l, j) == pre.sparse_at(l, j));
            }
        }
        self.incremental_update();
        Ok(())
    }

    /// Generates the Merkle proof for `leaf_index`: the ordered sibling
    /// values for levels `0 .. depth` (padded with zero-subtree values
    /// above the materialized frontier) together with the tree depth, or
    /// `None` when no leaf sits at that index.
    pub fn generate_proof(&self, leaf_index: u32) -> (r: Option<(Vec<[u8; 32]>, u32)>)
        requires
            self.wf(),
        ensures
            match r {
                Some(pr) => {
                    &&& (leaf_index as nat) < self.lview().len()
                    &&& pr.1 as nat == self.spec_depth()
                    &&& pr.0@.len() == self.spec_depth()
                    &&& forall|l: int|
                        0 <= l < pr.0@.len() ==> (#[trigger] pr.0@[l])@ == node_val(
                            self.lview(),
                            l as nat,
                            sibling_index(leaf_index as nat, l as nat),
                        )
                },
                None => leaf_index as nat >= self.lview().len(),
            },
    {
        if leaf_index as u64 >= self.leaves.len() as u64 {
            return None;
        }
        let mut siblings: Vec<[u8; 32]> = Vec::new();
        if self.depth == 1 && self.leaves.len() == 2 {
            // A full two-leaf tree of depth one answers directly from the
            // leaf array; the general loop below provably returns the same
            // sibling, so this shortcut cannot change any proof.
            proof {
                lemma2_to64();
            }
            if leaf_index == 0 {
                siblings.push(self.leaves[1]);
            } else {
                siblings.push(self.leaves[0]);
            }
            proof {
                assert(leaf_index as nat / pow2(0) == leaf_index as nat);
                if leaf_index == 0 {
                    assert(sibling_index(0, 0) == 1);
                    assert(siblings@[0]@ == self.lview()[1]);
                } else {
                    assert(leaf_index == 1);
                    assert(sibling_index(1, 0) == 0);
                    assert(siblings@[0]@ == self.lview()[0]);
                }
            }
        } else {
            let mut current_index: u64 = leaf_index as u64;
            let mut current_depth: u32 = 0;
            proof {
                lemma2_to64();
            }
            while current_depth < self.depth
                invariant
                    self.wf(),
                    current_depth <= self.depth,
                    (leaf_index as nat) < self.lview().len(),
                    current_index as nat == leaf_index as nat / pow2(current_depth as nat),
                    siblings@.len() == current_depth,
                    forall|l: int|
                        0 <= l < current_depth ==> (#[trigger] siblings@[l])@ == node_val(
                            self.lview(),
                            l as nat,
                            sibling_index(leaf_index as nat, l as nat),
                        ),
                decreases self.depth - current_depth,
            {
                let ghost lvl = current_depth as nat;
                proof {
                    lemma_pow2_pos(lvl);
                    lemma_div_nonincreasing(leaf_index as int, pow2(lvl) as int);
                }
                let sibling_idx: u64 = if current_index % 2 == 0 {
                    current_index + 1
                } else {
                    current_index - 1
                };
                let sibling: [u8; 32] = if current_depth == 0 {
                    if sibling_idx < self.leaves.len() as u64 {
                        self.leaves[sibling_idx as usize]
                    } else {
                        zero_bytes()
                    }
                } else {
                    self.compute_node_at_level(sibling_idx, current_depth)
                };
                proof {
                    assert(sibling@ == node_val(self.lview(), lvl, sibling_idx as nat));
                }
                siblings.push(sibling);
                proof {
                    lemma_pow2_unfold((lvl + 1) as nat);
                    lemma_div_denominator(leaf_index as int, pow2(lvl) as int, 2);
                    assert(pow2(lvl) * 2 == 2 * pow2(lvl)) by (nonlinear_arith);
                }
                current_index = current_index / 2;
                current_depth = current_depth + 1;
            }
        }
        Some((siblings, self.depth))
    }
}

/// Reconstructs a root candidate from a leaf value and its ordered sibling
/// path, applying the same positional rule as the tree: at each level the
/// operand with the even index stands on the left.
pub fn fold_proof(env: &Env, leaf: &[u8; 32], siblings: &Vec<[u8; 32]>, leaf_index: u32) -> (r:
    [u8; 32])
    ensures
        r@ == fold_path(leaf@, views_of(siblings@), leaf_index as nat),
{
    let ghost all = views_of(siblings@);
    let mut current: [u8; 32] = *leaf;
    let mut index: u64 = leaf_index as u64;
    let mut l: usize = 0;
    proof {
        assert(all.skip(0) =~= all);
    }
    while l < siblings.len()
        invariant
            l <= siblings@.len(),
            all == views_of(siblings@),
            fold_path(current@, all.skip(l as int), index as nat) == fold_path(
                leaf@,
                all,
                leaf_index as nat,
            ),
        decreases siblings@.len() - l,
    {
        let sibling = siblings[l];
        proof {
            assert(all.skip(l as int)[0] == all[l as int]);
            assert(all.skip(l as int).drop_first() =~= all.skip(l as int + 1));
        }
        current = if index % 2 == 0 {
            poseidon_hash_pair(env, &current, &sibling)
        } else {
            poseidon_hash_pair(env, &sibling, &current)
        };
        index = index / 2;
        l = l + 1;
    }
    proof {
        assert(all.skip(siblings@.len() as int) =~= Seq::<Seq<u8>>::empty());
    }
    current
}

/// Proof soundness: folding an inserted leaf's value with the sibling path
/// that `generate_proof` describes reproduces the tree's root, for every
/// leaf sequence that fits the depth and every inserted index.
pub proof fn lemma_fold_reconstructs_root(
    leaves: Seq<Seq<u8>>,
    siblings: Seq<Seq<u8>>,
    leaf_index: nat,
    depth: nat,
)
    requires
        leaf_index < leaves.len(),
        leaves.len() <= pow2(depth),
        siblings.len() == depth,
        forall|l: int|
            0 <= l < depth ==> #[trigger] siblings[l] == node_val(
                leaves,
                l as nat,
                sibling_index(leaf_index, l as nat),
            ),
    ensures
        fold_path(node_val(leaves, 0, leaf_index), siblings, leaf_index) == node_val(
            leaves,
            depth,
            0,
        ),
{
    lemma2_to64();
    assert(siblings.skip(0) =~= siblings);
    assert(leaf_index / pow2(0) == leaf_index);
    lemma_fold_from(leaves, siblings, leaf_index, 0, depth);
}

/// The inductive step behind [`lemma_fold_reconstructs_root`]: folding the
/// path node at `k` with the remaining siblings yields the root.
proof fn lemma_fold_from(
    leaves: Seq<Seq<u8>>,
    siblings: Seq<Seq<u8>>,
    leaf_index: nat,
    k: nat,
    depth: nat,
)
    requires
        leaf_index < leaves.len(),
        leaves.len() <= pow2(depth),
        k <= depth,
        siblings.len() == depth,
        forall|l: int|
            0 <= l < depth ==> #[trigger] siblings[l] == node_val(
                leaves,
                l as nat,
                sibling_index(leaf_index, l as nat),
            ),
    ensures
        fold_path(
            node_val(leaves, k, leaf_index / pow2(k)),
            siblings.skip(k as int),
            leaf_index / pow2(k),
        ) == node_val(leaves, depth, 0),
    decreases depth - k,
{
    lemma_pow2_pos(k);
    lemma_pow2_pos(depth);
    if k == depth {
        lemma_basic_div(leaf_index as int, pow2(depth) as int);
        assert(siblings.skip(k as int) =~= Seq::<Seq<u8>>::empty());
    } else {
        let p = leaf_index / pow2(k);
        let rest = siblings.skip(k as int);
        assert(rest[0] == siblings[k as int]);
        assert(rest.drop_first() =~= siblings.skip(k as int + 1));
        lemma_pow2_unfold((k + 1) as nat);
        lemma_div_denominator(leaf_index as int, pow2(k) as int, 2);
        assert(pow2(k) * 2 == 2 * pow2(k)) by (nonlinear_arith);
        assert(p / 2 == leaf_index / pow2((k + 1) as nat));
        lemma_fold_from(leaves, siblings, leaf_index, (k + 1) as nat, depth);
    }
}

/// Proof soundness, stated on a tree: folding a stored leaf with the
/// sibling path that `generate_proof` returns for it reproduces the tree's
/// root.
pub proof fn lemma_tree_proof_folds_to_root(
    t: &LeanIMTBN254,
    siblings: Seq<Seq<u8>>,
    leaf_index: nat,
)
    requires
        t.wf(),
        t.root_ok(),
        leaf_index < t.lview().len(),
        siblings.len() == t.spec_depth(),
        forall|l: int|
            0 <= l < siblings.len() ==> #[trigger] siblings[l] == node_val(
                t.lview(),
                l as nat,
                sibling_index(leaf_index, l as nat),
            ),
    ensures
        fold_path(t.lview()[leaf_index as int], siblings, leaf_index) == t.spec_root(),
{
    let d = t.spec_depth();
    assert(t.lview().len() <= pow2(d)) by {
        if d >= 32 {
            lemma2_to64();
            if d > 32 {
                lemma_pow2_strictly_increases(32, d);
            }
        }
    }
    lemma_fold_reconstructs_root(t.lview(), siblings, leaf_index, d);
}

/// Fullness law: in a well-formed tree the leaf count never exceeds the
/// capacity, so the tree reports full exactly when the count has reached
/// `2^depth` (clamped to the index type's maximum).
pub proof fn lemma_full_iff_at_capacity(t: &LeanIMTBN254)
    requires
        t.wf(),
    ensures
        (t.lview().len() >= t.spec_capacity()) <==> (t.lview().len() == t.spec_capacity()),
        t.spec_capacity() == cap_spec(t.spec_depth()),
{
}

/// Serialization round-trip law: two well-formed trees that agree on the
/// stored triple `(leaves, depth, root)` — as a tree and its
/// `from_storage(to_storage(..))` reconstruction do — are observationally
/// identical afterwards: same reference node values (hence the same roots
/// and proofs), and the same root after inserting any further leaf.
pub proof fn lemma_storage_round_trip(t: &LeanIMTBN254, u: &LeanIMTBN254)
    requires
        t.wf(),
        u.wf(),
        u.lview() == t.lview(),
        u.spec_depth() == t.spec_depth(),
        u.spec_root() == t.spec_root(),
    ensures
        u.spec_capacity() == t.spec_capacity(),
        u.root_ok() <==> t.root_ok(),
        forall|level: nat, index: nat| #[trigger] node_val(u.lview(), level, index) == node_val(
            t.lview(),
            level,
            index,
        ),
        forall|leaf: Seq<u8>| #[trigger] node_val(u.lview().push(leaf), u.spec_depth(), 0)
            == node_val(t.lview().push(leaf), t.spec_depth(), 0),
{
}

/// The all-zero 32-byte value: the canonical encoding of the field zero.
fn zero_bytes() -> (r: [u8; 32])
    ensures
        r@ == zero32(),
{
    let r = [0u8; 32];
    proof {
        assert(r@ =~= zero32());
    }
    r
}

/// `2^depth` as a `u32`, clamped to `u32::MAX` when the shift would
/// overflow.
fn compute_capacity(depth: u32) -> (c: u32)
    ensures
        c as nat == cap_spec(depth as nat),
{
    if depth >= 32 {
        u32::MAX
    } else {
        proof {
            lemma2_to64();
            lemma_pow2_strictly_increases(depth as nat, 32);
            vstd::bits::lemma_u32_shl_is_mul(1u32, depth);
        }
        1u32 << depth
    }
}

/// One empty sparse-cache lane per level, `0 ..= depth`.
fn empty_levels(depth: u32) -> (v: Vec<Vec<Option<[u8; 32]>>>)
    ensures
        v@.len() == depth as int + 1,
        forall|l: int| 0 <= l < v@.len() ==> (#[trigger] v@[l])@.len() == 0,
{
    let mut v: Vec<Vec<Option<[u8; 32]>>> = Vec::new();
    let mut i: u64 = 0;
    while i <= depth as u64
        invariant
            i <= depth as u64 + 1,
            v@.len() == i,
            forall|l: int| 0 <= l < v@.len() ==> (#[trigger] v@[l])@.len() == 0,
        decreases depth as u64 + 1 - i,
    {
        v.push(Vec::new());
        i = i + 1;
    }
    v
}

/// An element-wise copy of a leaf vector.
fn copy_leaves(src: &Vec<[u8; 32]>) -> (out: Vec<[u8; 32]>)
    ensures
        out@ == src@,
{
    let mut out: Vec<[u8; 32]> = Vec::new();
    let mut i: usize = 0;
    while i < src.len()
        invariant
            i <= src@.len(),
            out@ == src@.take(i as int),
        decreases src@.len() - i,
    {
        out.push(src[i]);
        i = i + 1;
    }
    proof {
        assert(out@ == src@.take(src@.len() as int));
        assert(src@.take(src@.len() as int) =~= src@);
    }
    out
}

} // verus!
