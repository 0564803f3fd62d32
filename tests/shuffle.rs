use portrait_shuffler::shared::{seed_from_millis, shuffle_characters};
use portrait_shuffler::shuffle::shuffled_indices;

fn is_permutation(v: &[u32], len: u32) -> bool {
    let mut seen = vec![false; len as usize];
    if v.len() != len as usize {
        return false;
    }
    for &x in v {
        if x >= len || seen[x as usize] {
            return false;
        }
        seen[x as usize] = true;
    }
    true
}

#[test]
fn golden_vector_seed_zero_len_five() {
    assert_eq!(shuffled_indices(5, 0), vec![4, 0, 1, 2, 3]);
}

#[test]
fn golden_vector_seed_12345_len_ten() {
    assert_eq!(shuffled_indices(10, 12345), vec![9, 5, 4, 2, 1, 0, 3, 6, 7, 8]);
}

#[test]
fn two_elements_follow_the_generator() {
    assert_eq!(shuffled_indices(2, 0), vec![0, 1]);
    assert_eq!(shuffled_indices(2, 1), vec![1, 0]);
}

#[test]
fn empty_and_single_lengths() {
    for seed in [0u32, 1, 42, u32::MAX] {
        assert_eq!(shuffled_indices(0, seed), Vec::<u32>::new());
        assert_eq!(shuffled_indices(1, seed), vec![0]);
    }
}

#[test]
fn shuffle_is_a_permutation() {
    for len in [2u32, 3, 7, 64, 1000] {
        for seed in [0u32, 7, 42, 123456789, u32::MAX] {
            assert!(is_permutation(&shuffled_indices(len, seed), len));
        }
    }
}

#[test]
fn shuffle_is_deterministic() {
    for seed in [0u32, 99, u32::MAX] {
        assert_eq!(shuffled_indices(50, seed), shuffled_indices(50, seed));
    }
}

#[test]
fn shuffle_characters_with_seed_matches_engine() {
    assert_eq!(shuffle_characters(5, Some(0)), vec![4, 0, 1, 2, 3]);
    assert_eq!(shuffle_characters(3, Some(42)), shuffled_indices(3, 42));
}

#[test]
fn shuffle_characters_without_seed_is_a_permutation() {
    assert!(is_permutation(&shuffle_characters(20, None), 20));
    assert_eq!(shuffle_characters(0, None), Vec::<u32>::new());
}

#[test]
fn seed_keeps_low_bits() {
    assert_eq!(seed_from_millis((1u128 << 40) + 5), 5);
    assert_eq!(seed_from_millis(0xFFFF_FFFF), u32::MAX);
    assert_eq!(seed_from_millis(0x1_0000_0000), 0);
    assert_eq!(seed_from_millis(1_700_000_000_123), (1_700_000_000_123u128 % (1u128 << 32)) as u32);
}
