//! Folding a stream of subtree digests into a root digest.
//!
//! The digests wait on a stack. Adding a subtree is like adding 1 to a
//! binary number, and merging two subtrees is like propagating a carry: the
//! count of subtrees added so far says how many digests should remain, and
//! while the stack is longer than that, its two topmost digests are merged.

use crate::node::{parent_digest, parent_hash, Finalization, ParentNode};
use crate::shape::{HASH_SIZE, MAX_DEPTH, PARENT_SIZE};
use arrayvec::ArrayVec;
use vstd::arithmetic::power2::{lemma2_to64, lemma2_to64_rest, lemma_pow2_unfold, pow2};
use vstd::prelude::*;

verus! {

#[verifier::external_type_specification]
#[verifier::external_body]
#[verifier::reject_recursive_types(T)]
pub struct ExArrayVec<T, const CAP: usize>(ArrayVec<T, CAP>);

/// The digests that an `ArrayVec` of digests holds, oldest first.
pub uninterp spec fn stack_view(stack: ArrayVec<[u8; HASH_SIZE], MAX_DEPTH>) -> Seq<Seq<u8>>;

/// The number of ones in the binary representation of `n`.
pub open spec fn popcount(n: nat) -> nat
    decreases n,
{
    if n == 0 {
        0
    } else {
        n % 2 + popcount(n / 2)
    }
}

/// `u64::count_ones` returns the number of ones in the binary representation
/// of its argument.
pub assume_specification[ u64::count_ones ](i: u64) -> (r: u32)
    ensures
        r == popcount(i as nat),
;

/// Calls `arrayvec::ArrayVec::new`. The contract says that the new vector is
/// empty.
#[verifier::external_body]
fn stack_new() -> (stack: ArrayVec<[u8; HASH_SIZE], MAX_DEPTH>)
    ensures
        stack_view(stack) == Seq::<Seq<u8>>::empty(),
{
    ArrayVec::new()
}

/// Calls `arrayvec::ArrayVec::len`. The contract says that the result is the
/// number of digests held.
#[verifier::external_body]
fn stack_len(stack: &ArrayVec<[u8; HASH_SIZE], MAX_DEPTH>) -> (len: usize)
    ensures
        len == stack_view(*stack).len(),
{
    stack.len()
}

/// Calls `arrayvec::ArrayVec::push`, which panics on a full vector. The
/// contract says that `hash` becomes the newest digest and that the others
/// stay as they were.
#[verifier::external_body]
fn stack_push(stack: &mut ArrayVec<[u8; HASH_SIZE], MAX_DEPTH>, hash: [u8; HASH_SIZE])
    requires
        stack_view(*old(stack)).len() < MAX_DEPTH,
    ensures
        stack_view(*final(stack)) == stack_view(*old(stack)).push(hash@),
{
    stack.push(hash)
}

/// Calls `arrayvec::ArrayVec::pop`. The contract says that an empty vector
/// gives `None` and stays empty, and that any other gives its newest digest
/// and keeps the rest.
#[verifier::external_body]
fn stack_pop(stack: &mut ArrayVec<[u8; HASH_SIZE], MAX_DEPTH>) -> (popped: Option<[u8; HASH_SIZE]>)
    ensures
        stack_view(*old(stack)).len() == 0 ==> popped is None && stack_view(*final(stack))
            == stack_view(*old(stack)),
        stack_view(*old(stack)).len() > 0 ==> popped is Some && popped->0@ == stack_view(
            *old(stack),
        ).last() && stack_view(*final(stack)) == stack_view(*old(stack)).drop_last(),
{
    stack.pop()
}

/// The stack after its two topmost digests have been replaced by the digest
/// of their parent.
pub open spec fn merge_top(stack: Seq<Seq<u8>>, finalization: Finalization) -> Seq<Seq<u8>>
    recommends
        stack.len() >= 2,
{
    let n = stack.len() as int;
    stack.subrange(0, n - 2).push(parent_digest(stack[n - 2], stack[n - 1], finalization))
}

/// The parent node that the two topmost digests of the stack form: the left
/// child's digest, then the right child's.
pub open spec fn top_parent_node(stack: Seq<Seq<u8>>) -> Seq<u8>
    recommends
        stack.len() >= 2,
{
    stack[stack.len() - 2] + stack[stack.len() - 1]
}

/// The stack after interior merges have brought it down to `target` digests,
/// or to one digest if `target` is less.
pub open spec fn settle_to(stack: Seq<Seq<u8>>, target: nat) -> Seq<Seq<u8>>
    decreases stack.len(),
{
    if stack.len() >= 2 && stack.len() > target {
        settle_to(merge_top(stack, Finalization::NotRoot), target)
    } else {
        stack
    }
}

/// The stack after every merge that is due once `count` subtrees have been
/// added: a carry is pending while the stack holds more digests than `count`
/// has ones.
pub open spec fn settle(stack: Seq<Seq<u8>>, count: nat) -> Seq<Seq<u8>> {
    settle_to(stack, popcount(count))
}

/// Settling never empties a stack.
pub proof fn lemma_settle_keeps_one(stack: Seq<Seq<u8>>, target: nat)
    requires
        stack.len() >= 1,
    ensures
        settle_to(stack, target).len() >= 1,
    decreases stack.len(),
{
    if stack.len() >= 2 && stack.len() > target {
        lemma_settle_keeps_one(merge_top(stack, Finalization::NotRoot), target);
    }
}

/// The root digest that a stack of at least two digests is drained into:
/// every digest is the left sibling of all that came after it, and only the
/// last merge, which forms the root, receives `finalization`.
pub open spec fn drained(stack: Seq<Seq<u8>>, finalization: Finalization) -> Seq<u8>
    recommends
        stack.len() >= 2,
    decreases stack.len(),
{
    if stack.len() < 2 {
        stack.last()
    } else if stack.len() == 2 {
        parent_digest(stack[0], stack[1], finalization)
    } else {
        parent_digest(stack[0], drained(stack.skip(1), Finalization::NotRoot), finalization)
    }
}

/// Merging the two topmost digests of a stack of three or more as an
/// interior node does not change what the stack is drained into.
pub proof fn lemma_drained_after_merge(stack: Seq<Seq<u8>>, finalization: Finalization)
    requires
        stack.len() >= 3,
    ensures
        drained(merge_top(stack, Finalization::NotRoot), finalization) == drained(
            stack,
            finalization,
        ),
    decreases stack.len(),
{
    let merged = merge_top(stack, Finalization::NotRoot);
    let rest = stack.skip(1);
    if stack.len() == 3 {
        assert(merged[1] == drained(rest, Finalization::NotRoot));
    } else {
        lemma_drained_after_merge(rest, Finalization::NotRoot);
        assert(merged.skip(1) == merge_top(rest, Finalization::NotRoot));
    }
}

/// Every number but zero has a one in its binary representation.
pub proof fn lemma_popcount_positive(n: nat)
    requires
        n > 0,
    ensures
        popcount(n) >= 1,
    decreases n,
{
    if n % 2 == 0 {
        lemma_popcount_positive(n / 2);
    }
}

/// A number below `2^bits` has at most `bits` ones, and has that many only
/// if it is `2^bits - 1`.
pub proof fn lemma_popcount_bound(n: nat, bits: nat)
    requires
        n < pow2(bits),
    ensures
        popcount(n) <= bits,
        popcount(n) == bits ==> n == pow2(bits) - 1,
    decreases bits,
{
    lemma2_to64();
    if n > 0 {
        lemma_pow2_unfold(bits);
        lemma_popcount_bound(n / 2, (bits - 1) as nat);
    }
}

/// A minimal state object for incrementally hashing input. Most callers
/// should use the [`crate::Writer`] interface instead.
///
/// It handles merging subtrees and keeps track of subtrees assembled so far.
/// It takes only digests as input, rather than raw input bytes, so it can be
/// used with e.g. multiple threads hashing chunks in parallel. Callers that
/// need `ParentNode` bytes for building an encoded tree can use the optional
/// `merge_parent` and `merge_finish` interfaces.
///
/// The stack has room for 64 digests at 32 bytes apiece, enough for the
/// largest possible input of `2^64 - 1` bytes.
#[derive(Debug)]
pub struct State {
    subtrees: ArrayVec<[u8; HASH_SIZE], MAX_DEPTH>,
    subtree_count: u64,
}

impl State {
    /// The subtree digests that wait to be merged, oldest and largest first.
    pub closed spec fn stack(&self) -> Seq<Seq<u8>> {
        stack_view(self.subtrees)
    }

    /// How many subtrees have been added so far.
    pub closed spec fn count(&self) -> nat {
        self.subtree_count as nat
    }

    /// Digests are on the stack only once a subtree has been added, and
    /// never more of them than the stack has room for.
    pub open spec fn wf(&self) -> bool {
        &&& self.count() == 0 ==> self.stack().len() == 0
        &&& self.stack().len() <= MAX_DEPTH
    }

    pub fn new() -> (state: Self)
        ensures
            state.wf(),
            state.stack() == Seq::<Seq<u8>>::empty(),
            state.count() == 0,
    {
        Self { subtrees: stack_new(), subtree_count: 0 }
    }

    fn merge_inner(&mut self, finalization: Finalization) -> (parent_node: ParentNode)
        requires
            2 <= old(self).stack().len() <= MAX_DEPTH,
        ensures
            final(self).stack() == merge_top(old(self).stack(), finalization),
            final(self).count() == old(self).count(),
            parent_node@ == top_parent_node(old(self).stack()),
    {
        let right_child = stack_pop(&mut self.subtrees).unwrap();
        let left_child = stack_pop(&mut self.subtrees).unwrap();
        let mut parent_node = [0u8; PARENT_SIZE];
        for i in 0..HASH_SIZE
            invariant
                forall|j: int| 0 <= j < i ==> parent_node@[j] == left_child@[j],
                forall|j: int| 0 <= j < i ==> parent_node@[HASH_SIZE + j] == right_child@[j],
        {
            parent_node[i] = left_child[i];
            parent_node[HASH_SIZE + i] = right_child[i];
        }
        let parent_hash = parent_hash(&left_child, &right_child, finalization);
        stack_push(&mut self.subtrees, parent_hash);
        parent_node
    }

    // The subtree digests are kept without their sizes. Because every subtree
    // (prior to the finalization step) is a power of two times the chunk
    // size, adding a new subtree to the right/small end is a lot like adding
    // a 1 to a binary number, and merging subtrees is like propagating the
    // carry bit. Each carry represents a place where two subtrees need to be
    // merged, and the final number of 1 bits is the same as the final number
    // of subtrees.
    fn needs_merge(&self) -> (needed: bool)
        ensures
            needed == (self.stack().len() > popcount(self.count())),
    {
        stack_len(&self.subtrees) > self.subtree_count.count_ones() as usize
    }

    /// Add a subtree digest to the state.
    ///
    /// For most callers, this will always be the digest of a `CHUNK_SIZE`
    /// chunk of input bytes, with the final chunk possibly having fewer (but
    /// never zero) bytes. It's possible to use input subtrees larger than a
    /// single chunk, as long as the size is a power of 2 times `CHUNK_SIZE`
    /// and again kept constant until the final chunk.
    ///
    /// In cases where the total input is a single chunk or less, including
    /// the case with no input bytes at all, callers are expected to finalize
    /// that chunk and return the result *without* calling into this state
    /// object.
    pub fn push_subtree(&mut self, hash: crate::node::Hash)
        requires
            old(self).wf(),
            old(self).count() < u64::MAX,
        ensures
            final(self).wf(),
            final(self).stack() == settle(old(self).stack(), old(self).count()).push(hash@),
            final(self).count() == old(self).count() + 1,
            old(self).stack().len() >= 1 ==> final(self).stack().len() >= 2,
    {
        proof {
            if self.stack().len() >= 1 {
                lemma_settle_keeps_one(self.stack(), popcount(self.count()));
            }
        }
        // Merge any subtrees that need to be merged before pushing. In the
        // encoding case, the caller will already have done this via
        // merge_parent(), but in the hashing case the caller doesn't care
        // about the parent nodes.
        while self.needs_merge()
            invariant
                self.wf(),
                self.count() == old(self).count(),
                settle(self.stack(), self.count()) == settle(old(self).stack(), old(self).count()),
            decreases self.stack().len(),
        {
            proof {
                if self.count() > 0 {
                    lemma_popcount_positive(self.count());
                }
            }
            self.merge_inner(Finalization::NotRoot);
        }
        proof {
            lemma2_to64_rest();
            lemma_popcount_bound(self.count(), 64);
        }
        stack_push(&mut self.subtrees, hash);
        self.subtree_count += 1;
    }

    /// Returns a `ParentNode` corresponding to a just-completed subtree, if
    /// any.
    ///
    /// Callers that want parent node bytes (to build an encoded tree) must
    /// call `merge_parent` in a loop, until it returns `None`. Parent nodes
    /// are yielded in smallest-to-largest order. Callers that only want the
    /// final root digest can ignore this function; the next call to
    /// `push_subtree` will take care of merging in that case.
    ///
    /// After the final call to `push_subtree`, you must call `merge_finish`
    /// in a loop instead of this function.
    pub fn merge_parent(&mut self) -> (parent_node: Option<ParentNode>)
        requires
            old(self).wf(),
        ensures
            final(self).wf(),
            final(self).count() == old(self).count(),
            old(self).stack().len() > popcount(old(self).count()) ==> parent_node is Some
                && parent_node->0@ == top_parent_node(old(self).stack()) && final(self).stack()
                == merge_top(old(self).stack(), Finalization::NotRoot),
            old(self).stack().len() <= popcount(old(self).count()) ==> parent_node is None
                && final(self).stack() == old(self).stack(),
    {
        if !self.needs_merge() {
            return None;
        }
        proof {
            if self.count() > 0 {
                lemma_popcount_positive(self.count());
            }
        }
        Some(self.merge_inner(Finalization::NotRoot))
    }

    /// Returns a tuple of `ParentNode` bytes and (in the last call only) the
    /// root digest. Callers who need `ParentNode` bytes must call
    /// `merge_finish` in a loop after pushing the final subtree, until the
    /// second return value is `Some`. Callers who don't need parent nodes
    /// should use the simpler `finish` interface instead.
    pub fn merge_finish(&mut self, finalization: Finalization) -> (merged: (
        ParentNode,
        Option<crate::node::Hash>,
    ))
        requires
            old(self).wf(),
            old(self).stack().len() >= 2,
        ensures
            final(self).wf(),
            final(self).count() == old(self).count(),
            merged.0@ == top_parent_node(old(self).stack()),
            old(self).stack().len() > 2 ==> merged.1 is None && final(self).stack() == merge_top(
                old(self).stack(),
                Finalization::NotRoot,
            ),
            old(self).stack().len() == 2 ==> merged.1 is Some && merged.1->0@ == parent_digest(
                old(self).stack()[0],
                old(self).stack()[1],
                finalization,
            ) && final(self).stack() == Seq::<Seq<u8>>::empty(),
    {
        if stack_len(&self.subtrees) > 2 {
            (self.merge_inner(Finalization::NotRoot), None)
        } else {
            let root_node = self.merge_inner(finalization);
            let root_hash = stack_pop(&mut self.subtrees).unwrap();
            (root_node, Some(root_hash))
        }
    }

    /// A wrapper around `merge_finish` for callers who don't need the parent
    /// nodes.
    pub fn finish(&mut self, finalization: Finalization) -> (root_hash: crate::node::Hash)
        requires
            old(self).wf(),
            old(self).stack().len() >= 2,
        ensures
            final(self).wf(),
            final(self).count() == old(self).count(),
            final(self).stack() == Seq::<Seq<u8>>::empty(),
            root_hash@ == drained(old(self).stack(), finalization),
    {
        loop
            invariant
                self.wf(),
                self.count() == old(self).count(),
                self.stack().len() >= 2,
                drained(self.stack(), finalization) == drained(old(self).stack(), finalization),
            decreases self.stack().len(),
        {
            proof {
                if self.stack().len() >= 3 {
                    lemma_drained_after_merge(self.stack(), finalization);
                }
            }
            if let (_, Some(root_hash)) = self.merge_finish(finalization) {
                return root_hash;
            }
        }
    }
}

} // verus!
