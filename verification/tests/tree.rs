use treehash::{
    hash, hash_node, hash_recurse, hash_recurse_rayon, hash_single_threaded, parent_hash,
    Finalization, CHUNK_SIZE, HASH_SIZE, PARENT_SIZE,
};

// Interesting input lengths to run tests on.
const TEST_CASES: &[usize] = &[
    0,
    1,
    10,
    CHUNK_SIZE - 1,
    CHUNK_SIZE,
    CHUNK_SIZE + 1,
    2 * CHUNK_SIZE - 1,
    2 * CHUNK_SIZE,
    2 * CHUNK_SIZE + 1,
    3 * CHUNK_SIZE - 1,
    3 * CHUNK_SIZE,
    3 * CHUNK_SIZE + 1,
    4 * CHUNK_SIZE - 1,
    4 * CHUNK_SIZE,
    4 * CHUNK_SIZE + 1,
    16 * CHUNK_SIZE - 1,
    16 * CHUNK_SIZE,
    16 * CHUNK_SIZE + 1,
];

// BLAKE2b with a 32-byte digest, run directly: the content, then for a root
// the length as 8 little-endian bytes and the last-node flag.
fn blake2b_node(content: &[u8], root_len: Option<u64>) -> [u8; HASH_SIZE] {
    let mut params = blake2b_simd::Params::new();
    params.hash_length(HASH_SIZE);
    if root_len.is_some() {
        params.last_node(true);
    }
    let mut state = params.to_state();
    state.update(content);
    if let Some(len) = root_len {
        let mut suffix = [0u8; 8];
        let mut i = 0;
        while i < 8 {
            suffix[i] = (len >> (8 * i)) as u8;
            i += 1;
        }
        state.update(&suffix);
    }
    let mut digest = [0u8; HASH_SIZE];
    digest.copy_from_slice(state.finalize().as_bytes());
    digest
}

fn blake2b_tree(input: &[u8], root_len: Option<u64>) -> [u8; HASH_SIZE] {
    if input.len() <= CHUNK_SIZE {
        return blake2b_node(input, root_len);
    }
    let mut left_len = CHUNK_SIZE;
    while 2 * left_len < input.len() {
        left_len *= 2;
    }
    let mut node = [0u8; PARENT_SIZE];
    node[..HASH_SIZE].copy_from_slice(&blake2b_tree(&input[..left_len], None));
    node[HASH_SIZE..].copy_from_slice(&blake2b_tree(&input[left_len..], None));
    blake2b_node(&node, root_len)
}

fn varied(len: usize) -> Vec<u8> {
    let mut input = Vec::with_capacity(len);
    let mut i = 0;
    while i < len {
        input.push((i * 31 + i / CHUNK_SIZE * 7 + 3) as u8);
        i += 1;
    }
    input
}

fn to_hex(bytes: &[u8]) -> String {
    let mut hex = String::new();
    for byte in bytes {
        hex.push_str(&format!("{:02x}", byte));
    }
    hex
}

#[test]
fn test_compare_python() {
    for &case in TEST_CASES {
        println!("case {}", case);
        let input = vec![0x42; case];
        let hash_hex = to_hex(&hash(&input));

        // Have a second implementation hash the same input, and make sure
        // the result is identical.
        let other_hash = to_hex(&blake2b_tree(&input, Some(case as u64)));
        assert_eq!(hash_hex, other_hash, "hashes don't match");
    }
}

#[test]
fn test_serial_vs_parallel() {
    for &case in TEST_CASES {
        println!("case {}", case);
        let input = vec![0x42; case];
        let hash_serial = hash_recurse(&input, Finalization::Root(case as u64));
        let hash_parallel = hash_recurse_rayon(&input, Finalization::Root(case as u64));
        let hash_highlevel = hash(&input);
        let hash_highlevel_single = hash_single_threaded(&input);
        assert_eq!(hash_serial, hash_parallel, "hashes don't match");
        assert_eq!(hash_serial, hash_highlevel, "hashes don't match");
        assert_eq!(hash_serial, hash_highlevel_single, "hashes don't match");
    }
}

#[test]
fn all_paths_agree_with_blake2b_run_directly() {
    for &case in TEST_CASES {
        let input = varied(case);
        let expected = blake2b_tree(&input, Some(case as u64));
        assert_eq!(expected, hash(&input));
        assert_eq!(expected, hash_single_threaded(&input));
        assert_eq!(expected, hash_recurse(&input, Finalization::Root(case as u64)));
        assert_eq!(expected, hash_recurse_rayon(&input, Finalization::Root(case as u64)));
        let interior = blake2b_tree(&input, None);
        assert_eq!(interior, hash_recurse(&input, Finalization::NotRoot));
        assert_eq!(interior, hash_recurse_rayon(&input, Finalization::NotRoot));
    }
}

#[test]
fn large_input_takes_the_same_shape_on_every_path() {
    let len = 37 * CHUNK_SIZE + 1234;
    let input = varied(len);
    let expected = blake2b_tree(&input, Some(len as u64));
    assert_eq!(expected, hash(&input));
    assert_eq!(expected, hash_single_threaded(&input));
}

#[test]
fn leaf_is_the_blake2b_digest_of_its_bytes() {
    let chunk = varied(100);
    assert_eq!(blake2b_node(&chunk, None), hash_node(&chunk, Finalization::NotRoot));
    assert_eq!(blake2b_node(&chunk, Some(100)), hash_node(&chunk, Finalization::Root(100)));
    let full = varied(CHUNK_SIZE);
    assert_eq!(blake2b_node(&full, None), hash_node(&full, Finalization::NotRoot));
}

#[test]
fn root_suffix_is_the_length_in_little_endian() {
    let chunk = [7u8; 5];
    for &len in &[0u64, 1, 255, 256, 0x0102030405060708, u64::MAX] {
        let expected = blake2b_node(&chunk, Some(len));
        assert_eq!(expected, hash_node(&chunk, Finalization::Root(len)));
    }
    assert_ne!(
        hash_node(&chunk, Finalization::Root(0x0102030405060708)),
        hash_node(&chunk, Finalization::Root(0x0807060504030201))
    );
}

#[test]
fn parent_is_the_blake2b_digest_of_left_then_right() {
    let left = hash_node(b"left", Finalization::NotRoot);
    let right = hash_node(b"right", Finalization::NotRoot);
    let mut node = [0u8; PARENT_SIZE];
    node[..HASH_SIZE].copy_from_slice(&left);
    node[HASH_SIZE..].copy_from_slice(&right);
    assert_eq!(blake2b_node(&node, None), parent_hash(&left, &right, Finalization::NotRoot));
    assert_eq!(
        blake2b_node(&node, Some(9)),
        parent_hash(&left, &right, Finalization::Root(9))
    );
    assert_ne!(
        parent_hash(&left, &right, Finalization::NotRoot),
        parent_hash(&right, &left, Finalization::NotRoot)
    );
}

#[test]
fn empty_input_is_a_root_leaf_of_length_zero() {
    let empty = hash(&[]);
    assert_eq!(hash_node(&[], Finalization::Root(0)), empty);
    assert_eq!(blake2b_node(&[], Some(0)), empty);
    assert_ne!(hash_node(&[], Finalization::NotRoot), empty);
    for &case in &TEST_CASES[1..] {
        assert_ne!(empty, hash(&vec![0; case]));
        assert_ne!(empty, hash(&vec![0x42; case]));
    }
}

#[test]
fn single_byte_is_a_root_leaf() {
    assert_eq!(hash_node(&[0x42], Finalization::Root(1)), hash(&[0x42]));
}

#[test]
fn full_leaf_is_a_root_leaf() {
    let input = vec![0x42; CHUNK_SIZE];
    assert_eq!(hash_node(&input, Finalization::Root(CHUNK_SIZE as u64)), hash(&input));
    assert_ne!(hash_node(&input, Finalization::NotRoot), hash(&input));
}

#[test]
fn one_byte_over_a_leaf_is_a_parent_of_two_leaves() {
    let input = vec![0x42; CHUNK_SIZE + 1];
    let left = hash_node(&input[..CHUNK_SIZE], Finalization::NotRoot);
    let right = hash_node(&[0x42], Finalization::NotRoot);
    let root = parent_hash(&left, &right, Finalization::Root(CHUNK_SIZE as u64 + 1));
    assert_eq!(root, hash(&input));
}

#[test]
fn root_of_a_leaf_differs_from_its_interior_digest() {
    for &case in &[1, 10, CHUNK_SIZE - 1, CHUNK_SIZE] {
        let input = varied(case);
        assert_ne!(hash_node(&input, Finalization::NotRoot), hash(&input));
    }
}

#[test]
fn roots_of_inputs_of_different_lengths_differ() {
    let mut seen: Vec<[u8; HASH_SIZE]> = Vec::new();
    for &case in TEST_CASES {
        let root = hash(&vec![0; case]);
        assert!(!seen.contains(&root));
        seen.push(root);
    }
}

#[test]
fn digests_of_some_inputs_are_what_they_have_been() {
    let empty = [
        76, 33, 208, 153, 60, 125, 170, 132, 25, 13, 2, 18, 166, 132, 160, 90, 246, 169, 190, 76,
        41, 78, 200, 70, 18, 99, 89, 56, 185, 27, 61, 156,
    ];
    let one_byte = [
        206, 68, 148, 143, 162, 111, 196, 62, 54, 183, 204, 105, 1, 66, 79, 116, 162, 124, 234,
        166, 125, 26, 31, 192, 6, 72, 45, 203, 91, 164, 174, 213,
    ];
    let one_leaf = [
        213, 172, 54, 150, 227, 147, 234, 246, 148, 75, 90, 54, 79, 227, 172, 114, 195, 222, 194,
        58, 244, 52, 120, 184, 182, 250, 34, 170, 246, 149, 133, 182,
    ];
    let one_leaf_and_a_byte = [
        182, 253, 111, 160, 131, 216, 30, 33, 38, 233, 246, 125, 45, 42, 29, 183, 210, 111, 175,
        195, 174, 62, 78, 120, 9, 102, 71, 247, 190, 177, 133, 185,
    ];
    let sixteen_leaves_and_a_byte = [
        36, 131, 239, 110, 123, 38, 221, 198, 223, 238, 82, 124, 130, 65, 234, 136, 231, 238, 135,
        4, 67, 46, 94, 187, 47, 96, 216, 87, 239, 199, 20, 127,
    ];
    assert_eq!(empty, hash(&[]));
    assert_eq!(one_byte, hash(&[0x42]));
    assert_eq!(one_leaf, hash(&vec![0x42; CHUNK_SIZE]));
    assert_eq!(one_leaf_and_a_byte, hash(&vec![0x42; CHUNK_SIZE + 1]));
    assert_eq!(sixteen_leaves_and_a_byte, hash(&vec![0x42; 16 * CHUNK_SIZE + 1]));
}
