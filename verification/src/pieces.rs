//! Why a stream of equal pieces, merged like a binary counter, ends in the
//! root of the tree over the whole input.
//!
//! An input is cut into pieces of one length, a power-of-two number of full
//! leaves, the last piece possibly shorter. Each piece is hashed as an
//! interior tree and its digest is added to a [`crate::State`]. This module
//! says what the stack then holds, and proves that draining it gives the
//! digest of the tree over the input.

use crate::merger::{
    drained, lemma_drained_after_merge, lemma_popcount_positive, merge_top, popcount, settle,
    settle_to,
};
use crate::node::{node_digest, parent_digest, Finalization};
use crate::shape::{
    is_subtree_len, lemma_left_len_of_subtree_and_rest, lemma_subtree_len_doubles, CHUNK_SIZE,
};
use crate::tree::{root_hash, tree_hash};
use vstd::prelude::*;

verus! {

/// The number of pieces of `unit` bytes, the last possibly shorter, that
/// `len` bytes are cut into.
pub open spec fn piece_count(len: nat, unit: nat) -> nat
    recommends
        unit > 0,
{
    if len == 0 {
        0
    } else {
        ((len - 1) / unit as int + 1) as nat
    }
}

/// The bytes of `input` from the start of piece `from` to the start of piece
/// `to`.
pub open spec fn span(input: Seq<u8>, unit: nat, from: nat, to: nat) -> Seq<u8> {
    input.subrange((from * unit) as int, (to * unit) as int)
}

/// The bytes of `input` from the start of piece `from` to the end.
pub open spec fn span_from(input: Seq<u8>, unit: nat, from: nat) -> Seq<u8> {
    input.subrange((from * unit) as int, input.len() as int)
}

/// The piece of `input` at index `i`: `unit` bytes from `i * unit` on, or as
/// many as are left.
pub open spec fn piece(input: Seq<u8>, unit: nat, i: nat) -> Seq<u8> {
    if (i + 1) * unit <= input.len() {
        span(input, unit, i, i + 1)
    } else {
        span_from(input, unit, i)
    }
}

/// The digests of the first `n` pieces of `input`, each hashed as an
/// interior tree.
pub open spec fn piece_hashes(input: Seq<u8>, unit: nat, n: nat) -> Seq<Seq<u8>> {
    Seq::new(n, |i: int| tree_hash(piece(input, unit, i as nat), Finalization::NotRoot))
}

/// The stack of a new [`crate::State`] after the digests in `hashes` have
/// been added to it in order.
pub open spec fn pushed_all(hashes: Seq<Seq<u8>>) -> Seq<Seq<u8>>
    decreases hashes.len(),
{
    if hashes.len() == 0 {
        Seq::empty()
    } else {
        settle(pushed_all(hashes.drop_last()), (hashes.len() - 1) as nat).push(hashes.last())
    }
}

/// The stack of a new [`crate::State`] after the digests of the first `n`
/// pieces of `input` have been added to it in order.
pub open spec fn pushed_pieces(input: Seq<u8>, unit: nat, n: nat) -> Seq<Seq<u8>> {
    pushed_all(piece_hashes(input, unit, n))
}

/// The digests that stand for the first `count` pieces of `input` once every
/// carry has been propagated: one perfect subtree for each one in the binary
/// representation of `count`, largest first. The lowest bit of `count` says
/// whether a subtree of one piece is there; the bits above it describe the
/// same input cut into pieces of twice the length.
pub open spec fn perfect_stack(input: Seq<u8>, unit: nat, count: nat) -> Seq<Seq<u8>>
    decreases count,
{
    if count == 0 {
        Seq::empty()
    } else {
        let above = perfect_stack(input, 2 * unit, count / 2);
        if count % 2 == 1 {
            above.push(
                tree_hash(
                    span(input, unit, (count - 1) as nat, count),
                    Finalization::NotRoot,
                ),
            )
        } else {
            above
        }
    }
}

/// Adding the digest of the next piece to the stack that `n` pieces have
/// left gives the stack that `n + 1` pieces leave.
pub proof fn lemma_pushed_pieces_step(input: Seq<u8>, unit: nat, n: nat)
    ensures
        pushed_pieces(input, unit, n + 1) == settle(pushed_pieces(input, unit, n), n).push(
            tree_hash(piece(input, unit, n), Finalization::NotRoot),
        ),
{
    assert(piece_hashes(input, unit, n + 1).drop_last() == piece_hashes(input, unit, n));
}

/// A full piece of an input stays as it is when more input follows.
pub proof fn lemma_piece_prefix(input: Seq<u8>, more: Seq<u8>, unit: nat, i: nat)
    requires
        (i + 1) * unit <= input.len(),
    ensures
        piece(input + more, unit, i) == piece(input, unit, i),
        piece(input, unit, i) == span(input, unit, i, i + 1),
        piece(input, unit, i).len() == unit,
{
    lemma_piece_offsets(unit, i);
}

/// Where the pieces of one length and of twice that length start.
pub proof fn lemma_piece_offsets(unit: nat, i: nat)
    by (nonlinear_arith)
    ensures
        (i + 1) * unit == i * unit + unit,
        (2 * i) * unit == i * (2 * unit),
        (2 * i + 1) * unit == i * (2 * unit) + unit,
{
}

/// Pieces that come later start later.
pub proof fn lemma_piece_offsets_ordered(unit: nat, i: nat, j: nat)
    by (nonlinear_arith)
    requires
        i <= j,
    ensures
        i * unit <= j * unit,
{
}

/// The digests of the full pieces of an input stay as they are when more
/// input follows.
pub proof fn lemma_piece_hashes_prefix(input: Seq<u8>, more: Seq<u8>, unit: nat, n: nat)
    requires
        n * unit <= input.len(),
    ensures
        piece_hashes(input + more, unit, n) == piece_hashes(input, unit, n),
{
    assert forall|i: int| 0 <= i < n implies #[trigger] piece_hashes(input + more, unit, n)[i]
        == piece_hashes(input, unit, n)[i] by {
        lemma_piece_offsets_ordered(unit, (i + 1) as nat, n);
        lemma_piece_prefix(input, more, unit, i as nat);
    }
}

/// Adding one to a number adds at most one to the number of its ones.
pub proof fn lemma_popcount_succ(n: nat)
    ensures
        popcount(n + 1) <= popcount(n) + 1,
    decreases n,
{
    if n % 2 == 1 {
        lemma_popcount_succ(n / 2);
    }
}

/// Settling a stack to a target of at least one digest, and no more than it
/// holds, leaves exactly that many.
pub proof fn lemma_settle_len(stack: Seq<Seq<u8>>, target: nat)
    requires
        1 <= target <= stack.len(),
    ensures
        settle_to(stack, target).len() == target,
    decreases stack.len(),
{
    if stack.len() > target {
        lemma_settle_len(merge_top(stack, Finalization::NotRoot), target);
    }
}

/// The binary-counter invariant. After `n` digests have been added to a new
/// state, and the merges that are due have been made, the stack holds as
/// many digests as `n` has ones. Right after the last digest was added, and
/// before those merges, it holds one more than `n - 1` has ones: that is as
/// many as `n` has ones where `n` is odd, when no merge is due, and more
/// where `n` is even.
pub proof fn lemma_binary_counter(hashes: Seq<Seq<u8>>)
    ensures
        settle(pushed_all(hashes), hashes.len()).len() == popcount(hashes.len()),
        hashes.len() >= 1 ==> pushed_all(hashes).len() == popcount((hashes.len() - 1) as nat) + 1,
        hashes.len() % 2 == 1 ==> pushed_all(hashes).len() == popcount(hashes.len()),
        hashes.len() >= 2 && hashes.len() % 2 == 0 ==> pushed_all(hashes).len() > popcount(
            hashes.len(),
        ),
    decreases hashes.len(),
{
    if hashes.len() > 0 {
        let n = hashes.len();
        lemma_binary_counter(hashes.drop_last());
        lemma_popcount_succ((n - 1) as nat);
        lemma_popcount_positive(n);
        lemma_settle_len(pushed_all(hashes), popcount(n));
        if n % 2 == 0 {
            lemma_popcount_succ((n / 2 - 1) as nat);
        }
    }
}

/// There is one perfect subtree for each one in the binary representation
/// of `count`.
proof fn lemma_perfect_stack_len(input: Seq<u8>, unit: nat, count: nat)
    ensures
        perfect_stack(input, unit, count).len() == popcount(count),
    decreases count,
{
    if count > 0 {
        lemma_perfect_stack_len(input, 2 * unit, count / 2);
    }
}

/// A tree over more than one perfect subtree's length, and at most two,
/// splits after the first: its digest is the parent of the perfect
/// subtree's digest and the digest of the tree over the rest.
pub proof fn lemma_tree_hash_splits_after_subtree(
    input: Seq<u8>,
    unit: nat,
    finalization: Finalization,
)
    requires
        is_subtree_len(unit),
        unit < input.len() <= 2 * unit,
    ensures
        tree_hash(input, finalization) == parent_digest(
            tree_hash(input.subrange(0, unit as int), Finalization::NotRoot),
            tree_hash(input.subrange(unit as int, input.len() as int), Finalization::NotRoot),
            finalization,
        ),
{
    lemma_subtree_len_doubles(unit);
    lemma_left_len_of_subtree_and_rest(unit, (input.len() - unit) as nat);
}

/// Carry propagation. Adding the digest of the next full piece to the
/// perfect subtrees of `count` pieces, and merging while more digests are
/// there than `count + 1` has ones, gives the perfect subtrees of
/// `count + 1` pieces.
proof fn lemma_carry(input: Seq<u8>, unit: nat, count: nat)
    requires
        is_subtree_len(unit),
        (count + 1) * unit <= input.len(),
    ensures
        settle_to(
            perfect_stack(input, unit, count).push(
                tree_hash(
                    span(input, unit, count, count + 1),
                    Finalization::NotRoot,
                ),
            ),
            popcount(count + 1),
        ) == perfect_stack(input, unit, count + 1),
    decreases count,
{
    let settled = perfect_stack(input, unit, count);
    let newest = tree_hash(
        span(input, unit, count, count + 1),
        Finalization::NotRoot,
    );
    let stack = settled.push(newest);
    lemma_perfect_stack_len(input, unit, count);
    if count % 2 == 0 {
        assert(perfect_stack(input, unit, count) == perfect_stack(input, 2 * unit, count / 2));
    } else {
        let half = count / 2;
        let above = perfect_stack(input, 2 * unit, half);
        lemma_perfect_stack_len(input, 2 * unit, half);
        lemma_popcount_succ(half);
        // The two topmost digests are those of neighbouring subtrees of one
        // length, so their parent is the digest of a subtree of twice that.
        lemma_piece_offsets(unit, half);
        lemma_piece_offsets(unit, half + 1);
        lemma_piece_offsets(unit, (count - 1) as nat);
        lemma_piece_offsets(unit, count);
        let pair = span(input, unit, (count - 1) as nat, count + 1);
        lemma_tree_hash_splits_after_subtree(pair, unit, Finalization::NotRoot);
        assert(pair.subrange(0, unit as int) == span(input, unit, (count - 1) as nat, count));
        assert(pair.subrange(unit as int, pair.len() as int) == span(input, unit, count, count + 1));
        let merged = merge_top(stack, Finalization::NotRoot);
        assert(merged == above.push(tree_hash(pair, Finalization::NotRoot)));
        lemma_subtree_len_doubles(unit);
        lemma_carry(input, 2 * unit, half);
    }
}

/// Once the merges that are due have been made, the stack that the first
/// `count` full pieces of `input` leave is one perfect subtree for each one
/// in the binary representation of `count`.
pub proof fn lemma_pushed_pieces_settle(input: Seq<u8>, unit: nat, count: nat)
    requires
        is_subtree_len(unit),
        count * unit <= input.len(),
    ensures
        settle(pushed_pieces(input, unit, count), count) == perfect_stack(input, unit, count),
    decreases count,
{
    if count > 0 {
        let before = (count - 1) as nat;
        lemma_piece_offsets(unit, before);
        lemma_pushed_pieces_settle(input, unit, before);
        let hashes = piece_hashes(input, unit, count);
        assert(hashes.drop_last() == piece_hashes(input, unit, before));
        lemma_carry(input, unit, before);
    }
}

/// Draining the perfect subtrees of `count` full pieces together with the
/// digest of what follows them, which is not empty and no longer than a
/// piece, gives the digest of the tree over all of it.
proof fn lemma_drain_perfect_stack(
    input: Seq<u8>,
    unit: nat,
    count: nat,
    finalization: Finalization,
)
    requires
        is_subtree_len(unit),
        count >= 1,
        count * unit < input.len() <= (count + 1) * unit,
    ensures
        drained(
            perfect_stack(input, unit, count).push(
                tree_hash(
                    span_from(input, unit, count),
                    Finalization::NotRoot,
                ),
            ),
            finalization,
        ) == tree_hash(input, finalization),
    decreases count,
{
    let half = count / 2;
    let above = perfect_stack(input, 2 * unit, half);
    let last = tree_hash(span_from(input, unit, count), Finalization::NotRoot);
    let stack = perfect_stack(input, unit, count).push(last);
    lemma_subtree_len_doubles(unit);
    if count % 2 == 0 {
        lemma_piece_offsets(unit, half);
        lemma_piece_offsets(unit, half + 1);
        lemma_piece_offsets(unit, count);
        lemma_piece_offsets(unit, count + 1);
        lemma_drain_perfect_stack(input, 2 * unit, half, finalization);
    } else {
        lemma_piece_offsets(unit, half);
        lemma_piece_offsets(unit, half + 1);
        lemma_piece_offsets(unit, (count - 1) as nat);
        lemma_piece_offsets(unit, count);
        // The last full piece and what follows it form a tree of their own.
        let tail = span_from(input, unit, (count - 1) as nat);
        lemma_tree_hash_splits_after_subtree(tail, unit, finalization);
        lemma_tree_hash_splits_after_subtree(tail, unit, Finalization::NotRoot);
        assert(tail.subrange(0, unit as int) == span(input, unit, (count - 1) as nat, count));
        assert(tail.subrange(unit as int, tail.len() as int) == span_from(input, unit, count));
        if half == 0 {
            assert(tail == input);
        } else {
            lemma_perfect_stack_len(input, 2 * unit, half);
            lemma_popcount_positive(half);
            lemma_drained_after_merge(stack, finalization);
            assert(merge_top(stack, Finalization::NotRoot) == above.push(
                tree_hash(tail, Finalization::NotRoot),
            ));
            lemma_drain_perfect_stack(input, 2 * unit, half, finalization);
        }
    }
}

/// When `count` full pieces of `input` are followed by one more piece, full
/// or not, which ends the input, then adding the digests of all of them to a
/// new state in order and draining it gives the digest of the tree over the
/// input.
pub proof fn lemma_pushed_pieces_drain_to_tree(
    input: Seq<u8>,
    unit: nat,
    count: nat,
    finalization: Finalization,
)
    requires
        is_subtree_len(unit),
        count >= 1,
        count * unit < input.len() <= (count + 1) * unit,
    ensures
        pushed_pieces(input, unit, count + 1).len() >= 2,
        drained(pushed_pieces(input, unit, count + 1), finalization) == tree_hash(
            input,
            finalization,
        ),
{
    lemma_pushed_pieces_settle(input, unit, count);
    lemma_pushed_pieces_step(input, unit, count);
    lemma_perfect_stack_len(input, unit, count);
    lemma_popcount_positive(count);
    lemma_drain_perfect_stack(input, unit, count, finalization);
}

/// Cutting an input of more than one piece into pieces, hashing each as an
/// interior tree, adding the digests to a new state in order and draining
/// it gives the digest of the tree over the input.
pub proof fn lemma_pieces_drain_to_tree(input: Seq<u8>, unit: nat, finalization: Finalization)
    requires
        is_subtree_len(unit),
        input.len() > unit,
    ensures
        drained(
            pushed_pieces(input, unit, piece_count(input.len(), unit)),
            finalization,
        ) == tree_hash(input, finalization),
{
    lemma_subtree_len_doubles(unit);
    let count = ((input.len() - 1) / unit as int) as nat;
    assert(count >= 1 && count * unit < input.len() <= (count + 1) * unit) by (nonlinear_arith)
        requires
            count == (input.len() - 1) / unit as int,
            input.len() > unit > 0,
    ;
    lemma_pushed_pieces_drain_to_tree(input, unit, count, finalization);
}

/// The digests of the leaves of `input`, each hashed as an interior node.
pub open spec fn leaf_hashes(input: Seq<u8>) -> Seq<Seq<u8>> {
    Seq::new(
        piece_count(input.len(), CHUNK_SIZE as nat),
        |i: int| node_digest(piece(input, CHUNK_SIZE as nat, i as nat), Finalization::NotRoot),
    )
}

/// Merger equivalence. Splitting an input of more than one leaf into leaves,
/// hashing each as an interior node, adding the digests to a new state in
/// order and draining it as the root gives the digest of the input.
pub proof fn lemma_merger_equivalence(input: Seq<u8>)
    requires
        input.len() > CHUNK_SIZE,
    ensures
        drained(pushed_all(leaf_hashes(input)), Finalization::Root(input.len() as u64))
            == root_hash(input),
{
    let unit = CHUNK_SIZE as nat;
    assert(is_subtree_len(unit));
    let n = piece_count(input.len(), unit);
    assert(leaf_hashes(input) == piece_hashes(input, unit, n)) by {
        assert forall|i: int| 0 <= i < n implies #[trigger] leaf_hashes(input)[i] == piece_hashes(
            input,
            unit,
            n,
        )[i] by {
            let p = piece(input, unit, i as nat);
            assert(p.len() <= unit) by (nonlinear_arith)
                requires
                    p.len() <= (i + 1) * unit - i * unit,
            ;
        }
    }
    lemma_pieces_drain_to_tree(input, unit, Finalization::Root(input.len() as u64));
}

} // verus!
