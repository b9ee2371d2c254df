//! Partial Merkle trees: the shape of a witness.
//!
//! A witness is a sub-tree of the certified signature store's full Merkle
//! tree in which every branch not on the path to the proven entry is
//! replaced by its bare digest. Recomputing the digest of the witness
//! therefore yields the store's root commitment.

use vstd::prelude::*;
use crate::hashing::{hash_empty, hash_fork, hash_labeled, hash_leaf, Digest};

verus! {

/// A node of a (possibly pruned) labeled Merkle tree.
pub enum HashTree {
    /// An empty subtree.
    Empty,
    /// An internal node joining two subtrees.
    Fork(Box<HashTree>, Box<HashTree>),
    /// A subtree carrying a label on the path to it.
    Labeled(Vec<u8>, Box<HashTree>),
    /// A leaf holding raw bytes.
    Leaf(Vec<u8>),
    /// A branch cut away and replaced by its digest.
    Pruned(Digest),
}

/// The digest a verifier recomputes from a (possibly pruned) tree.
pub open spec fn reconstruct(t: HashTree) -> Seq<u8>
    decreases t,
{
    match t {
        HashTree::Empty => hash_empty(),
        HashTree::Fork(l, r) => hash_fork(reconstruct(*l), reconstruct(*r)),
        HashTree::Labeled(label, sub) => hash_labeled(label@, reconstruct(*sub)),
        HashTree::Leaf(v) => hash_leaf(v@),
        HashTree::Pruned(h) => h@,
    }
}

/// Whether the tree exhibits, in the clear, the message label over a
/// leaf — the inner half of a membership witness.
pub open spec fn exposes_msg(t: HashTree, msg: Seq<u8>) -> bool
    decreases t,
{
    match t {
        HashTree::Fork(l, r) => exposes_msg(*l, msg) || exposes_msg(*r, msg),
        HashTree::Labeled(label, sub) => label@ == msg && *sub is Leaf,
        _ => false,
    }
}

/// Whether the tree exhibits, in the clear, a seed label whose subtree in
/// turn exhibits the message label over a leaf: the shape of a membership
/// witness for one `(seed, message)` entry.
pub open spec fn exposes_entry(t: HashTree, seed: Seq<u8>, msg: Seq<u8>) -> bool
    decreases t,
{
    match t {
        HashTree::Fork(l, r) => exposes_entry(*l, seed, msg) || exposes_entry(*r, seed, msg),
        HashTree::Labeled(label, sub) => label@ == seed && exposes_msg(*sub, msg),
        _ => false,
    }
}

/// Recomputes the digest of a (possibly pruned) tree, as an external
/// verifier would.
pub fn reconstruct_digest(t: &HashTree) -> (r: Digest)
    ensures
        r@ == reconstruct(*t),
    decreases *t,
{
    match t {
        HashTree::Empty => crate::hashing::empty_hash(),
        HashTree::Fork(l, r) => {
            let lh = reconstruct_digest(l);
            let rh = reconstruct_digest(r);
            crate::hashing::fork_hash(&lh, &rh)
        },
        HashTree::Labeled(label, sub) => {
            let sh = reconstruct_digest(sub);
            crate::hashing::labeled_hash(label.as_slice(), &sh)
        },
        HashTree::Leaf(v) => crate::hashing::leaf_hash(v.as_slice()),
        HashTree::Pruned(h) => crate::hashing::hash_clone(h),
    }
}

} // verus!
