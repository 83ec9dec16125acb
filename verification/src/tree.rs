//! The digest of a whole input, all at once: on the calling thread, or with
//! the two halves of each split handed to a thread pool.

use crate::node::{hash_node, node_digest, parent_digest, parent_hash, Finalization};
use crate::shape::{
    left_len, lemma_left_len_shape, spec_left_len, CHUNK_SIZE, HASH_SIZE, MAX_SINGLE_THREADED,
};
use vstd::prelude::*;

verus! {

/// The digest of the tree over `input`. An input of at most one leaf is a
/// single node. A longer one is split after its left subtree's length; both
/// sides are hashed as interior trees, and their digests form the parent
/// node, which alone receives `finalization`.
pub open spec fn tree_hash(input: Seq<u8>, finalization: Finalization) -> Seq<u8>
    decreases input.len(),
    via tree_hash_decreases
{
    if input.len() <= CHUNK_SIZE {
        node_digest(input, finalization)
    } else {
        let mid = spec_left_len(input.len()) as int;
        parent_digest(
            tree_hash(input.subrange(0, mid), Finalization::NotRoot),
            tree_hash(input.subrange(mid, input.len() as int), Finalization::NotRoot),
            finalization,
        )
    }
}

#[via_fn]
proof fn tree_hash_decreases(input: Seq<u8>, finalization: Finalization) {
    if input.len() > CHUNK_SIZE {
        lemma_left_len_shape(input.len());
    }
}

/// The digest of `input` as an entire input: the tree's root carries the
/// input's length.
pub open spec fn root_hash(input: Seq<u8>) -> Seq<u8> {
    tree_hash(input, Finalization::Root(input.len() as u64))
}

/// Path agreement. [`hash`] and [`hash_single_threaded`] give `root_hash`
/// of their input; [`hash_recurse`] and [`hash_recurse_rayon`], finalized as
/// the root of an input of its length, give `tree_hash` of it. The four give
/// one digest.
pub proof fn lemma_path_agreement(input: Seq<u8>)
    ensures
        root_hash(input) == tree_hash(input, Finalization::Root(input.len() as u64)),
{
}

/// `rayon::join` runs both closures, possibly on different threads, and
/// returns the pair of their results. The contract says that each closure is
/// called once where its own precondition holds, and that each half of the
/// pair is a result of the closure it came from.
pub assume_specification<A, B, RA, RB>[ rayon::join::<A, B, RA, RB> ](oper_a: A, oper_b: B) -> (r: (
    RA,
    RB,
)) where A: FnOnce() -> RA + Send, B: FnOnce() -> RB + Send, RA: Send, RB: Send
    requires
        oper_a.requires(()),
        oper_b.requires(()),
    ensures
        oper_a.ensures((), r.0),
        oper_b.ensures((), r.1),
;

/// Hashes `input` as a tree on the calling thread.
pub fn hash_recurse(input: &[u8], finalization: Finalization) -> (hash: crate::node::Hash)
    ensures
        hash@ == tree_hash(input@, finalization),
    decreases input@.len(),
{
    if input.len() <= CHUNK_SIZE {
        return hash_node(input, finalization);
    }
    // If we have more than one chunk of input, recursively hash the left and
    // right sides. The left_len() function determines the shape of the tree.
    let (left, right) = input.split_at(left_len(input.len() as u64) as usize);
    // Child nodes are never the root.
    let left_hash = hash_recurse(left, Finalization::NotRoot);
    let right_hash = hash_recurse(right, Finalization::NotRoot);
    parent_hash(&left_hash, &right_hash, finalization)
}

/// Hashes `input` as a tree, with the two sides of every split run as a
/// fork-join pair on the thread pool.
pub fn hash_recurse_rayon(input: &[u8], finalization: Finalization) -> (hash: crate::node::Hash)
    ensures
        hash@ == tree_hash(input@, finalization),
    decreases input@.len(),
{
    if input.len() <= CHUNK_SIZE {
        return hash_node(input, finalization);
    }
    let (left, right) = input.split_at(left_len(input.len() as u64) as usize);
    let hash_left = || -> (h: [u8; HASH_SIZE])
        ensures
            h@ == tree_hash(left@, Finalization::NotRoot),
    {
        hash_recurse_rayon(left, Finalization::NotRoot)
    };
    let hash_right = || -> (h: [u8; HASH_SIZE])
        ensures
            h@ == tree_hash(right@, Finalization::NotRoot),
    {
        hash_recurse_rayon(right, Finalization::NotRoot)
    };
    let (left_hash, right_hash) = rayon::join(hash_left, hash_right);
    parent_hash(&left_hash, &right_hash, finalization)
}

/// Hashes a slice of input bytes all at once. Above about 16 kilobytes the
/// work is spread over the thread pool.
pub fn hash(input: &[u8]) -> (hash: crate::node::Hash)
    ensures
        hash@ == root_hash(input@),
        hash@ == tree_hash(input@, Finalization::Root(input@.len() as u64)),
{
    // Below about 4 chunks, the overhead of parallelizing isn't worth it.
    if input.len() <= MAX_SINGLE_THREADED {
        hash_recurse(input, Finalization::Root(input.len() as u64))
    } else {
        hash_recurse_rayon(input, Finalization::Root(input.len() as u64))
    }
}

/// Hashes a slice of input bytes all at once on the calling thread.
pub fn hash_single_threaded(input: &[u8]) -> (hash: crate::node::Hash)
    ensures
        hash@ == root_hash(input@),
        hash@ == tree_hash(input@, Finalization::Root(input@.len() as u64)),
{
    hash_recurse(input, Finalization::Root(input.len() as u64))
}

} // verus!
