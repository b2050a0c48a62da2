use jumphash::{jump_hash_from_str, jump_hash_from_u64};

struct TestCase {
    key: u64,
    bucket: Vec<u32>,
}

fn reference_cases() -> Vec<TestCase> {
    vec![
        TestCase { key: 1, bucket: vec![0, 0, 0, 0, 0, 0, 6, 6, 6, 6, 6, 6, 6, 6, 6, 6, 6, 17, 17] },
        TestCase {
            key: 0xdeadbeef,
            bucket: vec![0, 1, 2, 3, 3, 5, 5, 5, 5, 5, 5, 5, 5, 5, 5, 5, 16, 16, 16],
        },
        TestCase {
            key: 0x0ddc0ffeebadf00d,
            bucket: vec![0, 1, 2, 2, 2, 2, 2, 2, 2, 2, 2, 2, 2, 2, 2, 15, 15, 15, 15],
        },
    ]
}

fn check_reference_cases() {
    for case in reference_cases() {
        for (i, expected_value) in case.bucket.iter().enumerate() {
            let result = jump_hash_from_u64(case.key, (i + 1) as u32);
            assert_eq!(&result, expected_value, "test case didn't match")
        }
    }
}

fn check_within_range() {
    for num_buckets in 1..500 {
        for i in 0..100_000 {
            let idx = jump_hash_from_str(&i.to_string(), num_buckets);
            assert!(idx < num_buckets)
        }
    }
}

fn check_minimal_reshuffling() {
    let num_keys = 10_000;
    for num_buckets in 5..=1000 {
        let mut key_moved = 0;
        for i in 1..num_keys {
            let current_shard = jump_hash_from_str(&i.to_string(), num_buckets);
            let next_shard = jump_hash_from_str(&i.to_string(), num_buckets + 1);

            if current_shard != next_shard {
                if next_shard != num_buckets {
                    panic!("if keys move, we'd expect them to move to new shard, not an existing shard")
                }
                key_moved += 1;
            }
        }
        let keys_moved_as_acceptable_proportion =
            (key_moved as f64) < ((num_keys as f64) / (num_buckets as f64) * 1.15);
        let keys_moved_as_acceptable_percent_of_total =
            (key_moved as f64 / num_keys as f64) < 0.02;
        assert!(keys_moved_as_acceptable_proportion || keys_moved_as_acceptable_percent_of_total)
    }
}

#[test]
fn jumphash_bucket_chosen_always_within_range() {
    check_within_range();
}

#[test]
fn lib_bucket_chosen_always_within_range() {
    check_within_range();
}

#[test]
fn jumphash_new_shard_causes_minimal_reshuffling() {
    check_minimal_reshuffling();
}

#[test]
fn lib_new_shard_causes_minimal_reshuffling() {
    check_minimal_reshuffling();
}

#[test]
fn jumphash_matches_reference_code() {
    check_reference_cases();
}

#[test]
fn lib_matches_reference_code() {
    check_reference_cases();
}

/// The walk as written with a double-precision division.
fn walk_in_doubles(key: u64, buckets: u32) -> u32 {
    let mut b: i64 = -1;
    let mut j: i64 = 0;
    let mut h = key;
    while j < buckets as i64 {
        b = j;
        h = h.wrapping_mul(2862933555777941757).wrapping_add(1);
        j = (((b.wrapping_add(1) as f64) * ((1i64 << 31) as f64)) / ((h >> 33).wrapping_add(1) as f64))
            as i64;
    }
    b as u32
}

#[test]
fn agrees_with_double_division_on_large_bucket_counts() {
    let counts: Vec<u32> = vec![u32::MAX, u32::MAX - 1, 1 << 31, 3_000_000_000, 123_456_789, 1 << 24];
    for &buckets in counts.iter() {
        for seed in 0..20_000u64 {
            let key = seed.wrapping_mul(0x9e37_79b9_7f4a_7c15);
            assert_eq!(jump_hash_from_u64(key, buckets), walk_in_doubles(key, buckets));
        }
    }
}

#[test]
fn agrees_with_double_division_on_small_bucket_counts() {
    for buckets in 1..300u32 {
        for seed in 0..200u64 {
            assert_eq!(jump_hash_from_u64(seed, buckets), walk_in_doubles(seed, buckets));
        }
    }
}

#[test]
fn largest_bucket_count_stays_in_range() {
    for seed in [0u64, 1, 52, u64::MAX, 0xdeadbeef] {
        assert!(jump_hash_from_u64(seed, u32::MAX) < u32::MAX);
    }
}

#[test]
fn single_bucket_takes_every_key() {
    for seed in [0u64, 1, u64::MAX, 0x0ddc0ffeebadf00d] {
        assert_eq!(jump_hash_from_u64(seed, 1), 0);
    }
    assert_eq!(jump_hash_from_str("", 1), 0);
    assert_eq!(jump_hash_from_str("foobar", 1), 0);
}

#[test]
fn seed_maps_to_documented_examples() {
    assert!(jump_hash_from_u64(52, 10) < 10);
    assert!(jump_hash_from_str("some_key", 10) < 10);
}

#[test]
fn repeated_calls_agree() {
    for seed in 0..1000u64 {
        assert_eq!(jump_hash_from_u64(seed, 37), jump_hash_from_u64(seed, 37));
    }
    for key in ["", "a", "foobar", "some_key"] {
        assert_eq!(jump_hash_from_str(key, 1000), jump_hash_from_str(key, 1000));
    }
}

#[test]
fn growing_by_one_moves_keys_only_to_new_bucket() {
    for seed in 0..2000u64 {
        for n in 1..200u32 {
            let before = jump_hash_from_u64(seed, n);
            let after = jump_hash_from_u64(seed, n + 1);
            assert!(after == before || after == n);
        }
    }
}

#[test]
fn string_keys_spread_over_all_buckets() {
    let mut seen = vec![false; 10];
    for i in 0..1000 {
        seen[jump_hash_from_str(&format!("key-{}", i), 10) as usize] = true;
    }
    assert!(seen.iter().all(|&s| s));
}

#[test]
fn empty_string_key_is_valid() {
    let b = jump_hash_from_str("", 7);
    assert!(b < 7);
    assert_eq!(b, jump_hash_from_str("", 7));
}
