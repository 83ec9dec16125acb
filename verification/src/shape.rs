//! The sizes that the format fixes, and the rule that gives a tree its shape.

use vstd::prelude::*;
use vstd::std_specs::bits::{axiom_u64_leading_zeros, u64_leading_zeros};

verus! {

/// Bytes in a digest.
pub const HASH_SIZE: usize = 32;

/// Bytes in a parent node: the left child's digest, then the right child's.
pub const PARENT_SIZE: usize = 2 * HASH_SIZE;

/// Bytes in the length suffix of a root node.
pub const HEADER_SIZE: usize = 8;

/// Bytes in a full leaf.
pub const CHUNK_SIZE: usize = 4096;

/// Most subtree digests that a [`crate::State`] ever holds at once.
pub const MAX_DEPTH: usize = 64;

/// Inputs up to this length are hashed on the calling thread.
pub const MAX_SINGLE_THREADED: usize = 4 * CHUNK_SIZE;

/// `n` is `1`, `2`, `4`, `8`, ...
pub open spec fn is_power_of_two(n: nat) -> bool
    decreases n,
{
    n == 1 || (n > 1 && n % 2 == 0 && is_power_of_two(n / 2))
}

/// The largest power of two that is not above `n`, for `n >= 1`.
pub open spec fn spec_largest_power_of_two(n: nat) -> nat
    decreases n,
{
    if n <= 1 {
        1
    } else {
        2 * spec_largest_power_of_two(n / 2)
    }
}

/// The length of the left subtree of a tree over `n > CHUNK_SIZE` bytes: the
/// largest power-of-two number of full leaves that still leaves a byte for
/// the right subtree.
pub open spec fn spec_left_len(n: nat) -> nat {
    spec_largest_power_of_two(((n - 1) / CHUNK_SIZE as int) as nat) * CHUNK_SIZE as nat
}

/// A length that a perfect subtree can have: a power-of-two number of full
/// leaves.
pub open spec fn is_subtree_len(n: nat) -> bool {
    n % CHUNK_SIZE as nat == 0 && is_power_of_two(n / CHUNK_SIZE as nat)
}

/// `spec_largest_power_of_two(n)` is a power of two, and the only one in
/// `(n / 2, n]`.
pub proof fn lemma_largest_power_of_two_bounds(n: nat)
    requires
        n >= 1,
    ensures
        is_power_of_two(spec_largest_power_of_two(n)),
        spec_largest_power_of_two(n) <= n < 2 * spec_largest_power_of_two(n),
    decreases n,
{
    if n > 1 {
        lemma_largest_power_of_two_bounds(n / 2);
    }
}

/// Every `n` from a power of two `p` up to, but not including, `2 * p` has
/// `p` as its largest power of two.
pub proof fn lemma_largest_power_of_two_unique(p: nat, n: nat)
    requires
        is_power_of_two(p),
        p <= n < 2 * p,
    ensures
        spec_largest_power_of_two(n) == p,
    decreases p,
{
    if p > 1 {
        lemma_largest_power_of_two_unique(p / 2, n / 2);
    }
}

proof fn lemma_largest_power_of_two_is_shift(n: u64)
    requires
        n != 0,
    ensures
        0 <= u64_leading_zeros(n) <= 63,
        spec_largest_power_of_two(n as nat) == 1u64 << ((63 - u64_leading_zeros(n)) as u64),
    decreases n,
{
    reveal(u64_leading_zeros);
    axiom_u64_leading_zeros(n);
    axiom_u64_leading_zeros(n / 2);
    if n == 1 {
        assert(1u64 << 0u64 == 1) by (bit_vector);
    } else {
        lemma_largest_power_of_two_is_shift(n / 2);
        let j = (63 - u64_leading_zeros(n / 2)) as u64;
        assert(j < 63 ==> 2 * (1u64 << j) == 1u64 << ((j + 1) as u64)) by (bit_vector);
    }
}

/// Finds the largest power of two that is not above `n`.
pub fn largest_power_of_two(n: u64) -> (r: u64)
    requires
        n != 0,
    ensures
        r == spec_largest_power_of_two(n as nat),
        is_power_of_two(r as nat),
        r <= n < 2 * r,
{
    proof {
        lemma_largest_power_of_two_is_shift(n);
        lemma_largest_power_of_two_bounds(n as nat);
    }
    1u64 << (63 - n.leading_zeros())
}

/// The tree-shape laws: the left subtree of a tree over `n > CHUNK_SIZE`
/// bytes is a power-of-two number of full leaves, is not empty, and leaves at
/// least one byte to the right subtree, which is never the longer of the two.
pub proof fn lemma_left_len_shape(n: nat)
    requires
        n > CHUNK_SIZE,
    ensures
        is_subtree_len(spec_left_len(n)),
        1 <= spec_left_len(n) < n,
        n - spec_left_len(n) <= spec_left_len(n),
{
    let full_chunks = ((n - 1) / CHUNK_SIZE as int) as nat;
    lemma_largest_power_of_two_bounds(full_chunks);
    let p = spec_largest_power_of_two(full_chunks);
    assert(spec_left_len(n) == p * 4096);
    assert((p * 4096) % 4096 == 0 && (p * 4096) / 4096 == p) by (nonlinear_arith);
}

/// A tree over a perfect subtree's length and up to as many bytes again
/// splits exactly after the perfect subtree. With `rest == len`, a perfect
/// tree of twice the length splits in the middle.
pub proof fn lemma_left_len_of_subtree_and_rest(len: nat, rest: nat)
    requires
        is_subtree_len(len),
        1 <= rest <= len,
    ensures
        spec_left_len(len + rest) == len,
{
    let p = len / CHUNK_SIZE as nat;
    let full_chunks = ((len + rest - 1) / CHUNK_SIZE as int) as nat;
    assert(len == p * 4096);
    assert(p <= full_chunks < 2 * p);
    lemma_largest_power_of_two_unique(p, full_chunks);
}

/// A perfect tree of more than one leaf splits in the middle: with `n` a
/// power of two of at least 2, the left subtree of a tree over
/// `n * CHUNK_SIZE` bytes holds `n / 2 * CHUNK_SIZE` of them.
pub proof fn lemma_left_len_halves_perfect_tree(len: nat)
    requires
        is_subtree_len(len),
        len > CHUNK_SIZE,
    ensures
        spec_left_len(len) == len / 2,
        is_subtree_len(len / 2),
{
    let p = len / CHUNK_SIZE as nat;
    assert(len == p * 4096);
    assert(p > 1);
    assert((len / 2) / 4096 == p / 2);
    lemma_left_len_of_subtree_and_rest(len / 2, len / 2);
}

/// A perfect subtree is at least one leaf long, and twice its length is a
/// perfect subtree's length too.
pub proof fn lemma_subtree_len_doubles(unit: nat)
    requires
        is_subtree_len(unit),
    ensures
        is_subtree_len(2 * unit),
        unit >= CHUNK_SIZE,
{
    let p = unit / CHUNK_SIZE as nat;
    assert(unit == p * 4096);
    assert((2 * unit) / 4096 == 2 * p);
    assert(is_power_of_two(2 * p)) by {
        assert((2 * p) / 2 == p);
    }
}

/// Given the length of an input of more than one leaf, finds the length of
/// the largest perfect tree of leaves that can go on the left.
pub fn left_len(content_len: u64) -> (r: u64)
    requires
        content_len > CHUNK_SIZE,
    ensures
        r == spec_left_len(content_len as nat),
        is_subtree_len(r as nat),
        1 <= r < content_len,
        content_len - r <= r,
{
    proof {
        lemma_left_len_shape(content_len as nat);
        lemma_largest_power_of_two_bounds(((content_len - 1) / CHUNK_SIZE as int) as nat);
    }
    // Subtract 1 to reserve at least one byte for the right side.
    let full_chunks: u64 = (content_len - 1) / CHUNK_SIZE as u64;
    largest_power_of_two(full_chunks) * CHUNK_SIZE as u64
}

} // verus!
