use crossbeam_skiplist::SkipSet;
use rand::rngs::StdRng;
use rand::{Rng, SeedableRng};
use rust_bencher::skiplist::{share, skiplist_worker, worker_seed, Tally};
use rust_bencher::stream::BASE_SEED;

#[test]
fn worker_seed_folds_in_the_eighth_power() {
    assert_eq!(worker_seed(BASE_SEED, 0), BASE_SEED);
    assert_eq!(worker_seed(BASE_SEED, 1), BASE_SEED ^ 1);
    assert_eq!(worker_seed(BASE_SEED, 2), BASE_SEED ^ 256);
    assert_eq!(worker_seed(BASE_SEED, 3), BASE_SEED ^ 6561);
    assert_eq!(worker_seed(0, 11), 214358881);
    assert_eq!(worker_seed(0, 255), 17878103347812890625);
}

#[test]
fn worker_seed_wraps_the_power() {
    // 256 to the eighth is two to the sixty-fourth: nothing is left of it.
    assert_eq!(worker_seed(BASE_SEED, 256), BASE_SEED);
    assert_eq!(worker_seed(0, 257), 257u64.wrapping_pow(8));
}

#[test]
fn the_first_workers_have_seeds_of_their_own() {
    let mut seeds: Vec<u64> = (0..256).map(|i| worker_seed(BASE_SEED, i)).collect();
    seeds.sort();
    seeds.dedup();
    assert_eq!(seeds.len(), 256);
}

#[test]
fn a_worker_does_its_whole_sequence() {
    let set: SkipSet<usize> = SkipSet::new();
    let tally = skiplist_worker(&mut share(&set), BASE_SEED, 0, 100, 30);
    assert_eq!(tally, Tally { insertions: 200, removals: 30 });
}

#[test]
fn a_worker_fills_the_shared_set_from_its_own_stream() {
    let set: SkipSet<usize> = SkipSet::new();
    let tally = skiplist_worker(&mut share(&set), BASE_SEED, 3, 4, 0);
    assert_eq!(tally, Tally { insertions: 8, removals: 0 });
    let mut rng = StdRng::seed_from_u64(BASE_SEED ^ 6561);
    let mut keys = Vec::new();
    for _ in 0..8 {
        keys.push(rng.gen::<usize>());
    }
    for key in &keys {
        assert!(set.contains(key));
    }
    keys.sort();
    keys.dedup();
    assert_eq!(set.len(), keys.len());
}

#[test]
fn a_worker_with_nothing_to_do_leaves_the_set_alone() {
    let set: SkipSet<usize> = SkipSet::new();
    let tally = skiplist_worker(&mut share(&set), BASE_SEED, 5, 0, 0);
    assert_eq!(tally, Tally { insertions: 0, removals: 0 });
    assert_eq!(set.len(), 0);
    let removing = skiplist_worker(&mut share(&set), BASE_SEED, 5, 0, 7);
    assert_eq!(removing, Tally { insertions: 0, removals: 7 });
    assert_eq!(set.len(), 0);
}

#[test]
fn workers_share_one_set() {
    let set: SkipSet<usize> = SkipSet::new();
    for index in 0..4 {
        let tally = skiplist_worker(&mut share(&set), BASE_SEED, index, 10, 2);
        assert_eq!(tally, Tally { insertions: 20, removals: 2 });
    }
    assert!(set.len() > 20);
    assert!(set.len() <= 80);
}

#[test]
fn a_worker_inserts_removes_and_inserts_in_this_order() {
    // Two insertions, one removal, two insertions: five draws. The key that
    // is removed is the third draw, which was never inserted, so all four
    // inserted keys stay.
    let set: SkipSet<usize> = SkipSet::new();
    let tally = skiplist_worker(&mut share(&set), BASE_SEED, 1, 2, 1);
    assert_eq!(tally, Tally { insertions: 4, removals: 1 });
    let mut rng = StdRng::seed_from_u64(BASE_SEED ^ 1);
    let mut keys = Vec::new();
    for _ in 0..5 {
        keys.push(rng.gen::<usize>());
    }
    for at in [0, 1, 3, 4] {
        assert!(set.contains(&keys[at]));
    }
    assert!(!set.contains(&keys[2]));
    assert_eq!(set.len(), 4);
}

#[test]
fn a_removal_takes_out_what_another_worker_put_in() {
    // A worker that only removes draws the keys that the same stream
    // inserted before: the removals come after the insertions they undo.
    let set: SkipSet<usize> = SkipSet::new();
    let mut rng = StdRng::seed_from_u64(BASE_SEED ^ 256);
    for _ in 0..3 {
        set.insert(rng.gen::<usize>());
    }
    assert_eq!(set.len(), 3);
    let tally = skiplist_worker(&mut share(&set), BASE_SEED, 2, 0, 3);
    assert_eq!(tally, Tally { insertions: 0, removals: 3 });
    assert_eq!(set.len(), 0);
}

#[test]
fn three_workers_make_fifteen_calls() {
    let set: SkipSet<usize> = SkipSet::new();
    let mut inserted = 0;
    let mut removed = 0;
    for index in 0..3 {
        let tally = skiplist_worker(&mut share(&set), BASE_SEED, index, 2, 1);
        inserted += tally.insertions;
        removed += tally.removals;
    }
    assert_eq!(inserted, 12);
    assert_eq!(removed, 3);
    assert_eq!(inserted + removed, 15);
}
