//! Hashing input as it arrives, one leaf at a time.

use crate::merger::State;
use crate::node::{
    finalize_hash, new_blake2b_state, state_input, state_is_node_hasher, state_last_node,
    state_update, Finalization,
};
use crate::pieces::{
    lemma_piece_hashes_prefix, lemma_pushed_pieces_drain_to_tree, lemma_pushed_pieces_step,
    pushed_pieces,
};
use crate::shape::{is_subtree_len, CHUNK_SIZE};
use crate::tree::root_hash;
use blake2b_simd::State as Blake2bState;
use vstd::prelude::*;

verus! {

/// What a writer holds after it has taken the writes in `writes`, in order,
/// on top of the bytes in `before`.
pub open spec fn written_after(before: Seq<u8>, writes: Seq<Seq<u8>>) -> Seq<u8>
    decreases writes.len(),
{
    if writes.len() == 0 {
        before
    } else {
        written_after(before, writes.drop_last()) + writes.last()
    }
}

/// Streaming agreement. However an input is cut into writes, a new writer
/// that has taken them in order holds the input, and so finishes with the
/// root digest of the input. This holds of [`Writer`] and of
/// [`crate::RayonWriter`], whose `write` appends and whose `finish` gives the
/// root digest of what is held.
pub proof fn lemma_streaming_agreement(writes: Seq<Seq<u8>>)
    ensures
        written_after(Seq::empty(), writes) == writes.flatten(),
        root_hash(written_after(Seq::empty(), writes)) == root_hash(writes.flatten()),
    decreases writes.len(),
{
    if writes.len() > 0 {
        lemma_streaming_agreement(writes.drop_last());
        writes.drop_last().lemma_flatten_push(writes.last());
        assert(writes.drop_last().push(writes.last()) == writes);
    }
}

/// An incremental hasher for input that arrives in pieces of any length.
/// Most callers that can't use the all-at-once [`crate::hash`] function
/// should use this interface.
///
/// The bytes of the current leaf go straight into its hash state, so no
/// input is buffered. A leaf is finalized only when a byte of the next one
/// arrives, because not until then is it known not to be the root.
pub struct Writer {
    chunk: Blake2bState,
    chunk_len: usize,
    total_len: u64,
    state: State,
    written: Ghost<Seq<u8>>,
}

impl View for Writer {
    type V = Seq<u8>;

    /// All the bytes written so far, in order.
    closed spec fn view(&self) -> Seq<u8> {
        self.written@
    }
}

impl Writer {
    /// The leaves before the current one have been hashed and added to the
    /// merger; the current leaf's bytes have been fed to its hash state; and
    /// the current leaf is empty only while nothing has been written.
    pub closed spec fn wf(&self) -> bool {
        let pushed = self.total_len - self.chunk_len;
        &&& self.written@.len() == self.total_len
        &&& self.chunk_len <= CHUNK_SIZE
        &&& self.chunk_len <= self.total_len
        &&& self.total_len > 0 ==> self.chunk_len > 0
        &&& pushed % CHUNK_SIZE as int == 0
        &&& state_is_node_hasher(self.chunk)
        &&& !state_last_node(self.chunk)
        &&& state_input(self.chunk) =~= self.written@.subrange(pushed, self.total_len as int)
        &&& self.state.wf()
        &&& self.state.count() == pushed / CHUNK_SIZE as int
        &&& self.state.stack() =~= pushed_pieces(
            self.written@,
            CHUNK_SIZE as nat,
            self.state.count(),
        )
    }

    pub fn new() -> (writer: Self)
        ensures
            writer.wf(),
            writer@ == Seq::<u8>::empty(),
    {
        Self {
            chunk: new_blake2b_state(),
            chunk_len: 0,
            total_len: 0,
            state: State::new(),
            written: Ghost(Seq::empty()),
        }
    }

    /// Takes all of `input` and returns its length.
    pub fn write(&mut self, input: &[u8]) -> (accepted: usize)
        requires
            old(self).wf(),
            old(self)@.len() + input@.len() <= u64::MAX,
        ensures
            final(self).wf(),
            final(self)@ == old(self)@ + input@,
            accepted == input@.len(),
    {
        let input_len = input.len();
        let mut remaining = input;
        while !remaining.is_empty()
            invariant
                self.wf(),
                self@ + remaining@ == old(self)@ + input@,
                self@.len() + remaining@.len() <= u64::MAX,
            decreases remaining@.len(),
        {
            if self.chunk_len == CHUNK_SIZE {
                proof {
                    lemma_pushed_pieces_step(self.written@, CHUNK_SIZE as nat, self.state.count());
                }
                let chunk_hash = finalize_hash(&mut self.chunk, Finalization::NotRoot);
                self.state.push_subtree(chunk_hash);
                self.chunk = new_blake2b_state();
                self.chunk_len = 0;
            }
            let want = CHUNK_SIZE - self.chunk_len;
            let take = if want < remaining.len() {
                want
            } else {
                remaining.len()
            };
            let (taken, rest) = remaining.split_at(take);
            proof {
                lemma_piece_hashes_prefix(
                    self.written@,
                    taken@,
                    CHUNK_SIZE as nat,
                    self.state.count(),
                );
            }
            state_update(&mut self.chunk, taken);
            self.chunk_len += take;
            self.total_len += take as u64;
            self.written = Ghost(self.written@ + taken@);
            remaining = rest;
        }
        input_len
    }

    /// Does nothing: no input is held back.
    pub fn flush(&mut self)
        ensures
            *final(self) == *old(self),
    {
    }

    /// After feeding all the input bytes to `write`, return the root digest.
    /// The writer cannot be used after this.
    pub fn finish(&mut self) -> (hash: crate::node::Hash)
        requires
            old(self).wf(),
        ensures
            hash@ == root_hash(old(self)@),
    {
        let finalization = Finalization::Root(self.total_len);
        if self.total_len <= CHUNK_SIZE as u64 {
            assert(self.written@.subrange(0, self.total_len as int) =~= self.written@);
            return finalize_hash(&mut self.chunk, finalization);
        }
        proof {
            let unit = CHUNK_SIZE as nat;
            assert(is_subtree_len(unit));
            lemma_pushed_pieces_step(self.written@, unit, self.state.count());
            lemma_pushed_pieces_drain_to_tree(
                self.written@,
                unit,
                self.state.count(),
                finalization,
            );
        }
        let last_chunk_hash = finalize_hash(&mut self.chunk, Finalization::NotRoot);
        self.state.push_subtree(last_chunk_hash);
        self.state.finish(finalization)
    }
}

} // verus!
