use treehash::{
    hash, hash_node, parent_hash, Finalization, State, CHUNK_SIZE, HASH_SIZE, PARENT_SIZE,
};

// Interesting input lengths to run tests on.
const TEST_CASES: &[usize] = &[
    0,
    1,
    10,
    CHUNK_SIZE - 1,
    CHUNK_SIZE,
    CHUNK_SIZE + 1,
    2 * CHUNK_SIZE - 1,
    2 * CHUNK_SIZE,
    2 * CHUNK_SIZE + 1,
    3 * CHUNK_SIZE - 1,
    3 * CHUNK_SIZE,
    3 * CHUNK_SIZE + 1,
    4 * CHUNK_SIZE - 1,
    4 * CHUNK_SIZE,
    4 * CHUNK_SIZE + 1,
    16 * CHUNK_SIZE - 1,
    16 * CHUNK_SIZE,
    16 * CHUNK_SIZE + 1,
];

fn drive_state(input: &[u8]) -> [u8; HASH_SIZE] {
    let finalization = Finalization::Root(input.len() as u64);
    if input.len() <= CHUNK_SIZE {
        return hash_node(input, finalization);
    }
    let mut state = State::new();
    let chunk_hashes = input
        .chunks(CHUNK_SIZE)
        .map(|chunk| hash_node(chunk, Finalization::NotRoot));
    for chunk_hash in chunk_hashes {
        state.push_subtree(chunk_hash);
    }
    state.finish(finalization)
}

fn leaf(byte: u8) -> [u8; HASH_SIZE] {
    hash_node(&[byte], Finalization::NotRoot)
}

fn node_of(left: &[u8; HASH_SIZE], right: &[u8; HASH_SIZE]) -> [u8; PARENT_SIZE] {
    let mut node = [0u8; PARENT_SIZE];
    node[..HASH_SIZE].copy_from_slice(left);
    node[HASH_SIZE..].copy_from_slice(right);
    node
}

#[test]
fn test_state() {
    for &case in TEST_CASES {
        println!("case {}", case);
        let input = vec![0x42; case];
        let expected = hash(&input);
        let found = drive_state(&input);
        assert_eq!(expected, found, "hashes don't match");
    }
}

#[test]
fn state_agrees_on_varied_input() {
    let mut leaves = 2;
    while leaves <= 40 {
        for &last in &[1, CHUNK_SIZE / 2, CHUNK_SIZE] {
            let len = (leaves - 1) * CHUNK_SIZE + last;
            let mut input = Vec::with_capacity(len);
            let mut i = 0;
            while i < len {
                input.push((i * 13 + i / CHUNK_SIZE) as u8);
                i += 1;
            }
            assert_eq!(hash(&input), drive_state(&input));
        }
        leaves += 1;
    }
}

#[test]
fn two_subtrees_finish_as_one_root_parent() {
    let (a, b) = (leaf(1), leaf(2));
    let mut state = State::new();
    state.push_subtree(a);
    state.push_subtree(b);
    let fin = Finalization::Root(2);
    assert_eq!(parent_hash(&a, &b, fin), state.finish(fin));
}

#[test]
fn three_subtrees_merge_the_first_two_before_the_third() {
    let (a, b, c) = (leaf(1), leaf(2), leaf(3));
    let mut state = State::new();
    state.push_subtree(a);
    state.push_subtree(b);
    state.push_subtree(c);
    let fin = Finalization::Root(3);
    let ab = parent_hash(&a, &b, Finalization::NotRoot);
    assert_eq!(parent_hash(&ab, &c, fin), state.finish(fin));
}

#[test]
fn five_subtrees_hang_the_last_off_a_perfect_four() {
    let hashes = [leaf(1), leaf(2), leaf(3), leaf(4), leaf(5)];
    let mut state = State::new();
    for h in hashes.iter() {
        state.push_subtree(*h);
    }
    let fin = Finalization::Root(5);
    let ab = parent_hash(&hashes[0], &hashes[1], Finalization::NotRoot);
    let cd = parent_hash(&hashes[2], &hashes[3], Finalization::NotRoot);
    let abcd = parent_hash(&ab, &cd, Finalization::NotRoot);
    assert_eq!(parent_hash(&abcd, &hashes[4], fin), state.finish(fin));
}

#[test]
fn merge_parent_yields_nothing_when_no_carry_is_pending() {
    let mut state = State::new();
    assert_eq!(None, state.merge_parent());
    state.push_subtree(leaf(1));
    assert_eq!(None, state.merge_parent());
}

#[test]
fn merge_parent_yields_left_then_right() {
    let (a, b) = (leaf(1), leaf(2));
    let mut state = State::new();
    state.push_subtree(a);
    state.push_subtree(b);
    assert_eq!(Some(node_of(&a, &b)), state.merge_parent());
    assert_eq!(None, state.merge_parent());
}

#[test]
fn merge_parent_counts_carries_like_a_binary_counter() {
    // After n subtrees and every merge that is due, popcount(n) digests are
    // left, so n - popcount(n) parents have been yielded in all.
    let mut state = State::new();
    let mut parents: u64 = 0;
    let mut n: u64 = 0;
    while n < 200 {
        state.push_subtree(leaf(n as u8));
        n += 1;
        let before = parents;
        while state.merge_parent().is_some() {
            parents += 1;
        }
        assert_eq!(n.trailing_zeros() as u64, parents - before);
        assert_eq!(n - n.count_ones() as u64, parents);
    }
}

#[test]
fn merge_parent_yields_smallest_subtree_first() {
    let hashes = [leaf(1), leaf(2), leaf(3), leaf(4)];
    let mut state = State::new();
    state.push_subtree(hashes[0]);
    state.push_subtree(hashes[1]);
    let ab = parent_hash(&hashes[0], &hashes[1], Finalization::NotRoot);
    assert_eq!(Some(node_of(&hashes[0], &hashes[1])), state.merge_parent());
    state.push_subtree(hashes[2]);
    assert_eq!(None, state.merge_parent());
    state.push_subtree(hashes[3]);
    let cd = parent_hash(&hashes[2], &hashes[3], Finalization::NotRoot);
    assert_eq!(Some(node_of(&hashes[2], &hashes[3])), state.merge_parent());
    assert_eq!(Some(node_of(&ab, &cd)), state.merge_parent());
    assert_eq!(None, state.merge_parent());
}

#[test]
fn merge_finish_yields_parents_and_then_the_root() {
    let (a, b, c) = (leaf(1), leaf(2), leaf(3));
    let fin = Finalization::Root(3);
    let mut state = State::new();
    state.push_subtree(a);
    state.push_subtree(b);
    assert_eq!(Some(node_of(&a, &b)), state.merge_parent());
    state.push_subtree(c);
    let ab = parent_hash(&a, &b, Finalization::NotRoot);
    let (node, root) = state.merge_finish(fin);
    assert_eq!(node_of(&ab, &c), node);
    assert_eq!(Some(parent_hash(&ab, &c, fin)), root);
}

#[test]
fn merge_finish_merges_interior_nodes_until_two_are_left() {
    // Six subtrees leave a perfect four, a perfect two that is still
    // unmerged, and nothing else: three digests before the last merges.
    let hashes = [leaf(1), leaf(2), leaf(3), leaf(4), leaf(5), leaf(6)];
    let fin = Finalization::Root(6);
    let mut state = State::new();
    for h in hashes.iter() {
        state.push_subtree(*h);
    }
    let ab = parent_hash(&hashes[0], &hashes[1], Finalization::NotRoot);
    let cd = parent_hash(&hashes[2], &hashes[3], Finalization::NotRoot);
    let abcd = parent_hash(&ab, &cd, Finalization::NotRoot);
    let ef = parent_hash(&hashes[4], &hashes[5], Finalization::NotRoot);
    let (node, root) = state.merge_finish(fin);
    assert_eq!(node_of(&hashes[4], &hashes[5]), node);
    assert_eq!(None, root);
    let (node, root) = state.merge_finish(fin);
    assert_eq!(node_of(&abcd, &ef), node);
    assert_eq!(Some(parent_hash(&abcd, &ef, fin)), root);
}

#[test]
fn larger_subtrees_of_one_size_give_the_same_root() {
    let len = 11 * CHUNK_SIZE + 17;
    let mut input = Vec::with_capacity(len);
    let mut i = 0;
    while i < len {
        input.push((i * 5 + i / 100) as u8);
        i += 1;
    }
    let mut state = State::new();
    for piece in input.chunks(4 * CHUNK_SIZE) {
        state.push_subtree(treehash::hash_recurse(piece, Finalization::NotRoot));
    }
    assert_eq!(hash(&input), state.finish(Finalization::Root(len as u64)));
}
