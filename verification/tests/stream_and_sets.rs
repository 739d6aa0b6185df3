use rand::rngs::StdRng;
use rand::{Rng, SeedableRng};
use rust_bencher::sets::{btree_container, hash_brown};
use rust_bencher::stream::{random_data, BASE_SEED};
use std::collections::BTreeSet;

fn direct_draws(seed: u64, count: usize) -> Vec<u128> {
    let mut rng = StdRng::seed_from_u64(seed);
    let mut out = Vec::new();
    for _ in 0..count {
        out.push(rng.gen::<u128>());
    }
    out
}

fn model_rounds(seed: u64, iteration: usize, insertion: usize, deletion: usize) -> BTreeSet<u128> {
    let mut rng = StdRng::seed_from_u64(seed);
    let mut set = BTreeSet::new();
    for _ in 0..iteration {
        for _ in 0..insertion {
            set.insert(rng.gen::<u128>());
        }
        for _ in 0..deletion {
            set.remove(&rng.gen::<u128>());
        }
    }
    set
}

#[test]
fn base_seed_has_its_value() {
    assert_eq!(BASE_SEED, 0xffff_1145_14ab_cdef);
}

#[test]
fn random_data_is_the_stream_of_the_seed() {
    let data = random_data(BASE_SEED, 5);
    assert_eq!(data, direct_draws(BASE_SEED, 5));
    assert_eq!(data.len(), 5);
}

#[test]
fn random_data_repeats_for_one_seed() {
    assert_eq!(random_data(BASE_SEED, 64), random_data(BASE_SEED, 64));
    assert_eq!(random_data(7, 64), random_data(7, 64));
}

#[test]
fn random_data_differs_between_seeds() {
    assert_ne!(random_data(1, 8), random_data(2, 8));
}

#[test]
fn random_data_of_size_zero_is_empty() {
    assert!(random_data(BASE_SEED, 0).is_empty());
}

#[test]
fn random_data_shorter_run_is_a_prefix() {
    let long = random_data(BASE_SEED, 10);
    let short = random_data(BASE_SEED, 4);
    assert_eq!(&long[..4], &short[..]);
}

#[test]
fn hash_set_three_insertions_leave_three_keys() {
    let set = hash_brown(StdRng::seed_from_u64(BASE_SEED), 1, 3, 0);
    assert_eq!(set.len(), 3);
    let keys = direct_draws(BASE_SEED, 3);
    assert_ne!(keys[0], keys[1]);
    assert_ne!(keys[0], keys[2]);
    assert_ne!(keys[1], keys[2]);
    for key in keys {
        assert!(set.contains(key));
    }
    let again = hash_brown(StdRng::seed_from_u64(BASE_SEED), 1, 3, 0);
    assert_eq!(again.len(), 3);
    for key in direct_draws(BASE_SEED, 3) {
        assert!(again.contains(key));
    }
}

#[test]
fn hash_set_holds_no_key_that_was_not_drawn() {
    let set = hash_brown(StdRng::seed_from_u64(BASE_SEED), 1, 3, 0);
    let later = direct_draws(BASE_SEED, 4)[3];
    assert!(!set.contains(later));
    assert!(!set.contains(0));
}

#[test]
fn ordered_set_three_insertions_leave_three_keys() {
    let set = btree_container(StdRng::seed_from_u64(BASE_SEED), 1, 3, 0);
    let expected: BTreeSet<u128> = direct_draws(BASE_SEED, 3).into_iter().collect();
    assert_eq!(set, expected);
    assert_eq!(set.len(), 3);
}

#[test]
fn ordered_set_follows_the_rounds() {
    let set = btree_container(StdRng::seed_from_u64(BASE_SEED), 3, 50, 20);
    assert_eq!(set, model_rounds(BASE_SEED, 3, 50, 20));
}

#[test]
fn hash_set_follows_the_rounds() {
    let set = hash_brown(StdRng::seed_from_u64(BASE_SEED), 3, 50, 20);
    let model = model_rounds(BASE_SEED, 3, 50, 20);
    assert_eq!(set.len(), model.len());
    for key in model {
        assert!(set.contains(key));
    }
}

#[test]
fn both_sets_end_with_the_same_keys() {
    let ordered = btree_container(StdRng::seed_from_u64(42), 4, 30, 30);
    let hashed = hash_brown(StdRng::seed_from_u64(42), 4, 30, 30);
    assert_eq!(ordered.len(), hashed.len());
    for key in &ordered {
        assert!(hashed.contains(*key));
    }
}

#[test]
fn set_runs_repeat_for_one_seed() {
    let first = btree_container(StdRng::seed_from_u64(BASE_SEED), 2, 40, 10);
    let second = btree_container(StdRng::seed_from_u64(BASE_SEED), 2, 40, 10);
    assert_eq!(first, second);
    let hashed_first = hash_brown(StdRng::seed_from_u64(BASE_SEED), 2, 40, 10);
    let hashed_second = hash_brown(StdRng::seed_from_u64(BASE_SEED), 2, 40, 10);
    assert_eq!(hashed_first.len(), hashed_second.len());
    for key in &first {
        assert!(hashed_first.contains(*key));
        assert!(hashed_second.contains(*key));
    }
}

#[test]
fn removing_absent_keys_changes_nothing() {
    // Random 128-bit keys do not meet: every removal misses.
    let set = btree_container(StdRng::seed_from_u64(BASE_SEED), 1, 5, 5);
    let expected: BTreeSet<u128> = direct_draws(BASE_SEED, 5).into_iter().collect();
    assert_eq!(set, expected);
    let hashed = hash_brown(StdRng::seed_from_u64(BASE_SEED), 1, 5, 5);
    assert_eq!(hashed.len(), 5);
}

#[test]
fn zero_iterations_leave_empty_sets() {
    assert!(btree_container(StdRng::seed_from_u64(BASE_SEED), 0, 10, 10).is_empty());
    assert_eq!(hash_brown(StdRng::seed_from_u64(BASE_SEED), 0, 10, 10).len(), 0);
}

#[test]
fn zero_insertions_leave_empty_sets() {
    assert!(btree_container(StdRng::seed_from_u64(BASE_SEED), 3, 0, 4).is_empty());
    assert_eq!(hash_brown(StdRng::seed_from_u64(BASE_SEED), 3, 0, 4).len(), 0);
}

#[test]
fn later_rounds_start_where_the_round_before_ended() {
    // Two rounds of (2, 1) draw six keys: 0, 1 inserted, 2 removed, 3, 4
    // inserted, 5 removed.
    let keys = direct_draws(BASE_SEED, 6);
    let set = btree_container(StdRng::seed_from_u64(BASE_SEED), 2, 2, 1);
    let expected: BTreeSet<u128> = vec![keys[0], keys[1], keys[3], keys[4]].into_iter().collect();
    assert_eq!(set, expected);
}
