//! Hashing one node of the tree: a leaf's bytes or a parent's two child
//! digests, finalized as an interior node or as the root.

use crate::shape::{CHUNK_SIZE, HASH_SIZE, HEADER_SIZE, PARENT_SIZE};
use blake2b_simd::State as Blake2bState;
use byteorder::{ByteOrder, LittleEndian};
use vstd::bytes::{lemma_auto_spec_u64_to_from_le_bytes, spec_u64_to_le_bytes};
use vstd::prelude::*;

verus! {

/// A digest.
pub type Hash = [u8; HASH_SIZE];

/// The bytes that a parent's digest is computed from: the left child's
/// digest followed by the right child's.
pub type ParentNode = [u8; PARENT_SIZE];

/// How a node is finalized. The root node is hashed differently from
/// interior nodes: it is suffixed with the length of the entire input, and
/// the BLAKE2 last-node flag is set. So no root digest is computed from the
/// same message and flag as an interior digest, or as the root of an input of
/// another length.
#[derive(Clone, Copy, Debug)]
pub enum Finalization {
    NotRoot,
    Root(u64),
}

#[verifier::external_type_specification]
#[verifier::external_body]
pub struct ExBlake2bState(Blake2bState);

/// The bytes that a `blake2b_simd::State` has been fed so far, in order.
pub uninterp spec fn state_input(state: Blake2bState) -> Seq<u8>;

/// Whether the last-node flag of a `blake2b_simd::State` is set.
pub uninterp spec fn state_last_node(state: Blake2bState) -> bool;

/// Whether a `blake2b_simd::State` was made with the parameters of this
/// tree: a digest of `HASH_SIZE` bytes, no key, and every other parameter at
/// its default.
pub uninterp spec fn state_is_node_hasher(state: Blake2bState) -> bool;

/// The BLAKE2b digest of `input`, `HASH_SIZE` bytes long, unkeyed, every
/// other parameter at its default, computed with the last-node flag set or
/// clear.
pub uninterp spec fn blake2b_digest(input: Seq<u8>, last_node: bool) -> Seq<u8>;

/// What finalization appends to a node's content: the input's length as 8
/// little-endian bytes for the root, nothing for an interior node.
pub open spec fn length_suffix(finalization: Finalization) -> Seq<u8> {
    match finalization {
        Finalization::NotRoot => Seq::empty(),
        Finalization::Root(root_len) => spec_u64_to_le_bytes(root_len),
    }
}

/// The message and the last-node flag that BLAKE2b is run on for a node with
/// the given content.
pub open spec fn node_preimage(content: Seq<u8>, finalization: Finalization) -> (Seq<u8>, bool) {
    (content + length_suffix(finalization), finalization is Root)
}

/// The digest of a node with the given content.
pub open spec fn node_digest(content: Seq<u8>, finalization: Finalization) -> Seq<u8> {
    blake2b_digest(node_preimage(content, finalization).0, node_preimage(content, finalization).1)
}

/// The digest of a parent node with the given child digests.
pub open spec fn parent_digest(left: Seq<u8>, right: Seq<u8>, finalization: Finalization) -> Seq<
    u8,
> {
    node_digest(left + right, finalization)
}

/// Calls `byteorder::LittleEndian::write_u64` on a fresh array of 8 bytes.
/// The contract says that the array then holds `len` in little-endian order,
/// least significant byte first.
#[verifier::external_body]
pub(crate) fn encode_len(len: u64) -> (len_bytes: [u8; HEADER_SIZE])
    ensures
        len_bytes@ == spec_u64_to_le_bytes(len),
{
    let mut len_bytes = [0; HEADER_SIZE];
    LittleEndian::write_u64(&mut len_bytes, len);
    len_bytes
}

/// Calls `blake2b_simd::Params::new`, `hash_length` with `HASH_SIZE`, and
/// `to_state`. The contract says that the new state has been fed nothing,
/// has its last-node flag clear, and has the parameters of this tree.
#[verifier::external_body]
pub(crate) fn new_blake2b_state() -> (state: Blake2bState)
    ensures
        state_input(state) == Seq::<u8>::empty(),
        !state_last_node(state),
        state_is_node_hasher(state),
{
    blake2b_simd::Params::new().hash_length(HASH_SIZE).to_state()
}

/// Calls `blake2b_simd::State::update`. The contract says that `input` is
/// appended to what the state has been fed, and that nothing else about the
/// state changes.
#[verifier::external_body]
pub(crate) fn state_update(state: &mut Blake2bState, input: &[u8])
    ensures
        state_input(*final(state)) == state_input(*old(state)) + input@,
        state_last_node(*final(state)) == state_last_node(*old(state)),
        state_is_node_hasher(*final(state)) == state_is_node_hasher(*old(state)),
{
    state.update(input);
}

/// Calls `blake2b_simd::State::set_last_node`. The contract says that the
/// flag becomes `last_node`, and that nothing else about the state changes.
#[verifier::external_body]
pub(crate) fn state_set_last_node(state: &mut Blake2bState, last_node: bool)
    ensures
        state_last_node(*final(state)) == last_node,
        state_input(*final(state)) == state_input(*old(state)),
        state_is_node_hasher(*final(state)) == state_is_node_hasher(*old(state)),
{
    state.set_last_node(last_node);
}

/// Calls `blake2b_simd::State::finalize` and copies the digest out of
/// `blake2b_simd::Hash::as_bytes`. The contract says that, for a state with
/// the parameters of this tree, the result is the BLAKE2b digest of what the
/// state has been fed, under its last-node flag. The state is left as it
/// was. With another digest length the copy would panic.
#[verifier::external_body]
pub(crate) fn state_finalize(state: &Blake2bState) -> (hash: Hash)
    requires
        state_is_node_hasher(*state),
    ensures
        hash@ == blake2b_digest(state_input(*state), state_last_node(*state)),
{
    let digest = state.finalize();
    let mut hash = [0; HASH_SIZE];
    hash.copy_from_slice(digest.as_bytes());
    hash
}

/// Finalizes a node whose content has been fed to `state`. For the root,
/// the length of the entire input is fed as a suffix and the last-node flag
/// is set first. Since a node need not be known to be the root until this
/// call, a leaf can be hashed as its bytes arrive.
pub(crate) fn finalize_hash(state: &mut Blake2bState, finalization: Finalization) -> (hash:
    Hash)
    requires
        state_is_node_hasher(*old(state)),
        !state_last_node(*old(state)),
    ensures
        hash@ == node_digest(state_input(*old(state)), finalization),
        state_input(*final(state)) == state_input(*old(state)) + length_suffix(finalization),
        state_last_node(*final(state)) == (finalization is Root),
        state_is_node_hasher(*final(state)),
{
    if let Finalization::Root(root_len) = finalization {
        let len_bytes = encode_len(root_len);
        state_update(state, &len_bytes);
        state_set_last_node(state, true);
    }
    state_finalize(state)
}

/// Hashes a leaf: at most `CHUNK_SIZE` bytes of input.
pub fn hash_node(chunk: &[u8], finalization: Finalization) -> (hash: Hash)
    requires
        chunk@.len() <= CHUNK_SIZE,
    ensures
        hash@ == node_digest(chunk@, finalization),
{
    let mut state = new_blake2b_state();
    state_update(&mut state, chunk);
    finalize_hash(&mut state, finalization)
}

/// Hashes a parent node from the digests of its two children.
pub fn parent_hash(left_hash: &Hash, right_hash: &Hash, finalization: Finalization) -> (hash: Hash)
    ensures
        hash@ == parent_digest(left_hash@, right_hash@, finalization),
{
    let mut state = new_blake2b_state();
    state_update(&mut state, left_hash);
    state_update(&mut state, right_hash);
    finalize_hash(&mut state, finalization)
}

/// Domain separation, as far as it is decided before BLAKE2b runs: a root
/// node is never hashed from the same message and flag as an interior node,
/// and two root nodes are hashed from the same message only if their content
/// and the length they carry are the same.
pub proof fn lemma_root_preimage_is_separate(
    content1: Seq<u8>,
    len1: u64,
    content2: Seq<u8>,
    len2: u64,
)
    ensures
        node_preimage(content1, Finalization::Root(len1)) != node_preimage(
            content2,
            Finalization::NotRoot,
        ),
        node_preimage(content1, Finalization::Root(len1)) == node_preimage(
            content2,
            Finalization::Root(len2),
        ) ==> content1 == content2 && len1 == len2,
{
    lemma_auto_spec_u64_to_from_le_bytes();
    let m1 = content1 + spec_u64_to_le_bytes(len1);
    let m2 = content2 + spec_u64_to_le_bytes(len2);
    if m1 == m2 {
        assert(m2.subrange(0, content2.len() as int) == content2);
        assert(m1.subrange(content1.len() as int, m1.len() as int) == spec_u64_to_le_bytes(len1));
        assert(m2.subrange(content2.len() as int, m2.len() as int) == spec_u64_to_le_bytes(len2));
    }
}

} // verus!
