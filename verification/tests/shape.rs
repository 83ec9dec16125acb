use treehash::{largest_power_of_two, left_len, CHUNK_SIZE};

#[test]
fn test_power_of_two() {
    let input_output = &[
        (1, 1),
        (2, 2),
        (3, 2),
        (4, 4),
        (5, 4),
        (6, 4),
        (7, 4),
        (8, 8),
        // the largest possible u64
        (0xffffffffffffffff, 0x8000000000000000),
    ];
    for &(input, output) in input_output {
        assert_eq!(
            output,
            largest_power_of_two(input),
            "wrong output for n={}",
            input
        );
    }
}

#[test]
fn test_left_subtree_len() {
    let s = CHUNK_SIZE as u64;
    let input_output = &[(s + 1, s), (2 * s - 1, s), (2 * s, s), (2 * s + 1, 2 * s)];
    for &(input, output) in input_output {
        println!("testing {} and {}", input, output);
        assert_eq!(left_len(input), output);
    }
}

#[test]
fn largest_power_of_two_brackets_its_argument() {
    let mut n: u64 = 1;
    while n < 5000 {
        let p = largest_power_of_two(n);
        assert_eq!(1, p.count_ones());
        assert!(p <= n);
        assert!(n / 2 < p);
        n += 1;
    }
    assert_eq!(1 << 62, largest_power_of_two((1 << 63) - 1));
    assert_eq!(1 << 63, largest_power_of_two(1 << 63));
    assert_eq!(1 << 63, largest_power_of_two((1 << 63) + 1));
}

#[test]
fn left_len_is_a_power_of_two_of_leaves() {
    let s = CHUNK_SIZE as u64;
    let mut n = s + 1;
    while n < 70 * s {
        let left = left_len(n);
        assert_eq!(0, left % s);
        assert_eq!(1, (left / s).count_ones());
        assert!(1 <= left && left < n);
        assert!(n - left <= left);
        n += 1021;
    }
    assert_eq!(1 << 63, left_len(u64::MAX));
}

#[test]
fn left_len_halves_a_perfect_tree() {
    let s = CHUNK_SIZE as u64;
    let mut k = 1;
    while k < 52 {
        assert_eq!((1u64 << (k - 1)) * s, left_len((1u64 << k) * s));
        k += 1;
    }
}

#[test]
fn left_len_exact_values() {
    assert_eq!(4096, left_len(4097));
    assert_eq!(4096, left_len(8192));
    assert_eq!(8192, left_len(8193));
    assert_eq!(8192, left_len(12288));
    assert_eq!(8192, left_len(16384));
    assert_eq!(16384, left_len(16385));
    assert_eq!(65536, left_len(65537));
    assert_eq!(65536, left_len(100000));
}
