use rust_bencher::parallel::{double, keeps, rayon, reference, replicate};

fn sorted(mut values: Vec<u128>) -> Vec<u128> {
    values.sort();
    values
}

#[test]
fn double_wraps() {
    assert_eq!(double(0), 0);
    assert_eq!(double(21), 42);
    assert_eq!(double(u128::MAX), u128::MAX - 1);
    assert_eq!(double(1u128 << 127), 0);
    assert_eq!(double((1u128 << 127) + 3), 6);
}

#[test]
fn replicate_makes_copies() {
    assert_eq!(replicate(9, 3), vec![9, 9, 9]);
    assert!(replicate(9, 0).is_empty());
}

#[test]
fn keeps_even_values_only() {
    assert!(keeps(&0));
    assert!(keeps(&4));
    assert!(!keeps(&5));
    assert!(!keeps(&u128::MAX));
}

#[test]
fn parallel_map_expands_each_double() {
    let out = rayon(vec![1, 2, 3], 2);
    assert_eq!(sorted(out), vec![2, 2, 4, 4, 6, 6]);
}

#[test]
fn parallel_map_keeps_odd_inputs_too() {
    // Every double is even, so nothing is filtered out.
    let out = rayon(vec![1, 3, 5, 7], 1);
    assert_eq!(sorted(out), vec![2, 6, 10, 14]);
}

#[test]
fn parallel_map_wraps_large_values() {
    let out = rayon(vec![u128::MAX, 1u128 << 127], 2);
    assert_eq!(sorted(out), vec![0, 0, u128::MAX - 1, u128::MAX - 1]);
}

#[test]
fn parallel_map_of_nothing_is_empty() {
    assert!(rayon(Vec::new(), 1000).is_empty());
    assert!(rayon(vec![1, 2, 3], 0).is_empty());
}

#[test]
fn parallel_map_equals_the_reference_as_a_bag() {
    let data: Vec<u128> = (0..500u128).map(|x| x * 0x1_0000_0001 + 7).collect();
    let one_thread = reference(&data, 13);
    let many = rayon(data.clone(), 13);
    assert_eq!(many.len(), 500 * 13);
    assert_eq!(sorted(many), sorted(one_thread));
}

#[test]
fn reference_keeps_the_order_of_the_input() {
    assert_eq!(reference(&vec![5, 1, 4], 2), vec![10, 10, 2, 2, 8, 8]);
    assert!(reference(&vec![5, 1, 4], 0).is_empty());
    assert!(reference(&Vec::new(), 3).is_empty());
}

#[test]
fn parallel_map_yields_even_values_only() {
    let out = rayon(vec![11, 13, u128::MAX, 2], 3);
    assert_eq!(out.len(), 12);
    assert!(out.iter().all(|v| v % 2 == 0));
}

#[test]
fn parallel_map_of_two_inputs_in_a_row_is_the_sum_of_both() {
    let first: Vec<u128> = vec![1, 2, 3];
    let second: Vec<u128> = vec![3, 40];
    let mut joined = first.clone();
    joined.extend(second.iter());
    let mut parts = rayon(first, 2);
    parts.extend(rayon(second, 2));
    assert_eq!(sorted(rayon(joined, 2)), sorted(parts));
}

#[test]
fn parallel_map_does_not_mind_the_order_of_the_input() {
    assert_eq!(sorted(rayon(vec![9, 1, 5, 1], 3)), sorted(rayon(vec![1, 1, 5, 9], 3)));
}

#[test]
fn parallel_map_counts_both_halves_of_a_value() {
    // 3 and 3 + 2^127 have the same double, 6.
    let out = rayon(vec![3, 3 + (1u128 << 127), 4], 2);
    assert_eq!(sorted(out), vec![6, 6, 6, 6, 8, 8]);
}

#[test]
fn parallel_map_repeats_for_one_input() {
    let data: Vec<u128> = (0..200u128).collect();
    assert_eq!(sorted(rayon(data.clone(), 7)), sorted(rayon(data, 7)));
}
