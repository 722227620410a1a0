use std::collections::HashSet;

use protocache::perfect_hash::{
    build_perfect_hash_index, build_perfect_hash_index_seeded, build_perfect_hash_index_with_positions, fast_mod_magic,
    fast_mod_u32, PerfectHashView,
};

fn run_case(size: usize) {
    let keys = (0..size).map(|i| i.to_string()).collect::<Vec<_>>();
    let index = build_perfect_hash_index(&keys).expect("perfect hash index should build");
    let view = PerfectHashView::new(&index).expect("perfect hash view should decode");

    assert_eq!(view.len(), keys.len());
    assert_eq!(view.data_size(), index.len());

    let mut seen = HashSet::new();
    for key in &keys {
        let pos = view
            .locate(key.as_bytes())
            .expect("every inserted key should resolve");
        assert!(pos < keys.len());
        assert!(seen.insert(pos), "duplicate slot {pos} for key {key}");
    }
}

#[test]
fn tiny_cases_match_cpp_coverage() {
    for size in [0usize, 1, 2, 24] {
        run_case(size);
    }
}

#[test]
fn small_cases_match_cpp_coverage() {
    for size in [200usize, 255, 1000] {
        run_case(size);
    }
}

#[test]
fn big_cases_match_cpp_coverage() {
    for size in [65_535usize, 100_000] {
        run_case(size);
    }
}

#[test]
fn rejects_truncated_indices() {
    assert!(PerfectHashView::new(&[]).is_err());
    assert!(PerfectHashView::new(&[0, 0, 0]).is_err());

    let index = build_perfect_hash_index(&["a", "b", "c"]).unwrap();
    for len in 0..index.len() {
        assert!(PerfectHashView::new(&index[..len]).is_err());
    }
}

#[test]
fn fast_mod_matches_remainder() {
    let divisors = [10u32, 11, 17, 31, 45, 255, 256, 1000, 65535, 100_000];
    let values = [
        0u32,
        1,
        2,
        3,
        7,
        31,
        32,
        255,
        256,
        1024,
        65_535,
        1_000_000,
        u32::MAX - 1,
        u32::MAX,
    ];

    for divisor in divisors {
        let magic = fast_mod_magic(divisor);
        for value in values {
            assert_eq!(fast_mod_u32(value, divisor, magic), value % divisor);
        }
    }
}

#[test]
fn positions_match_the_index_for_each_key() {
    let keys = ["alpha", "beta", "gamma", "delta", "epsilon"];
    let (index, positions) = build_perfect_hash_index_with_positions(&keys).unwrap();
    let view = PerfectHashView::new(&index).unwrap();
    assert_eq!(view.len(), keys.len());
    for (key, pos) in keys.iter().zip(positions.iter()) {
        assert_eq!(view.locate(key.as_bytes()), Some(*pos));
    }
    let distinct: HashSet<_> = positions.iter().collect();
    assert_eq!(distinct.len(), keys.len());
}

#[test]
fn small_key_sets_need_no_search() {
    let none: [&str; 0] = [];
    let (index, positions) = build_perfect_hash_index_with_positions(&none).unwrap();
    assert_eq!(index, vec![0, 0, 0, 0]);
    assert!(positions.is_empty());
    let (index, positions) = build_perfect_hash_index_with_positions(&["only"]).unwrap();
    assert_eq!(index, vec![1, 0, 0, 0]);
    assert_eq!(positions, vec![0]);
    assert_eq!(PerfectHashView::new(&index).unwrap().locate(b"anything"), Some(0));
}

#[test]
fn repeated_keys_cannot_be_separated() {
    assert!(build_perfect_hash_index(&["same", "same"]).is_none());
    assert!(build_perfect_hash_index_with_positions(&["a", "b", "a"]).is_none());
}

#[test]
fn a_given_clock_value_builds_a_usable_index() {
    let keys = ["alpha", "beta", "gamma", "delta", "epsilon", "zeta"];
    for clock in [0u32, 1, 7, 0xdead_beef] {
        let (index, positions) = build_perfect_hash_index_seeded(&keys, clock).unwrap();
        let view = PerfectHashView::new(&index).unwrap();
        for (key, pos) in keys.iter().zip(positions.iter()) {
            assert_eq!(view.locate(key.as_bytes()), Some(*pos));
        }
        let distinct: HashSet<_> = positions.iter().collect();
        assert_eq!(distinct.len(), keys.len());
    }
    assert!(build_perfect_hash_index_seeded(&["x", "x"], 5).is_none());
    assert_eq!(build_perfect_hash_index_seeded(&["only"], 5).unwrap().0, vec![1, 0, 0, 0]);
}
