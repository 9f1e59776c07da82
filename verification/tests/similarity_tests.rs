use minhash_cluster::similarity::{matching_positions, mismatching_positions};
use probminhash::jaccard::compute_probminhash_jaccard;

fn least_matches_for(threshold: f64, sketch_size: usize) -> usize {
    (0..=sketch_size)
        .find(|&m| m as f64 / sketch_size as f64 >= threshold)
        .unwrap_or(sketch_size + 1)
}

fn pair_with_matches(sketch_size: usize, matches: usize) -> (Vec<u64>, Vec<u64>) {
    let a: Vec<u64> = (0..sketch_size as u64).collect();
    let b: Vec<u64> = (0..sketch_size as u64)
        .map(|i| if (i as usize) < matches { i } else { i + 1_000_000 })
        .collect();
    (a, b)
}

#[test]
fn matching_positions_counts_equal_slots() {
    assert_eq!(matching_positions(&[1, 2, 3], &[1, 5, 3]), 2);
    assert_eq!(matching_positions(&[1, 2, 3], &[3, 1, 2]), 0);
    assert_eq!(matching_positions(&[7, 7, 7, 7], &[7, 7, 7, 7]), 4);
}

#[test]
fn mismatching_positions_counts_the_other_slots() {
    assert_eq!(mismatching_positions(&[1, 2, 3], &[1, 5, 3]), 1);
    assert_eq!(mismatching_positions(&[1, 2, 3], &[3, 1, 2]), 3);
    assert_eq!(mismatching_positions(&[7, 7, 7, 7], &[7, 7, 7, 7]), 0);
    assert_eq!(mismatching_positions(&[], &[]), 0);
}

#[test]
fn distance_in_slots_is_one_minus_the_jaccard_estimate() {
    for matches in [0usize, 1, 50, 100, 150, 200] {
        let (a, b) = pair_with_matches(200, matches);
        let distance = mismatching_positions(&a, &b) as f64 / 200.0;
        assert_eq!(distance, (200 - matches) as f64 / 200.0);
        assert!((distance - (1.0 - compute_probminhash_jaccard(&a, &b))).abs() < 1e-12);
        assert!((0.0..=1.0).contains(&distance));
    }
}

#[test]
fn matching_positions_of_empty_signatures_is_zero() {
    assert_eq!(matching_positions(&[], &[]), 0);
}

#[test]
fn matching_positions_is_symmetric() {
    let a = [4u64, 8, 15, 16, 23, 42];
    let b = [4u64, 9, 15, 17, 23, 43];
    assert_eq!(matching_positions(&a, &b), 3);
    assert_eq!(matching_positions(&b, &a), 3);
}

#[test]
fn identical_signatures_are_at_distance_zero() {
    let a: Vec<u64> = (0..200u64).map(|i| i * i + 1).collect();
    let matches = matching_positions(&a, &a);
    assert_eq!(matches, 200);
    assert_eq!(mismatching_positions(&a, &a), 0);
    assert_eq!(1.0 - compute_probminhash_jaccard(&a, &a), 0.0);
}

#[test]
fn empty_slots_are_compared_like_any_other() {
    let a = [u64::MAX, 5, u64::MAX];
    let b = [u64::MAX, 6, u64::MAX];
    assert_eq!(matching_positions(&a, &b), 2);
    assert_eq!(compute_probminhash_jaccard(&a, &b), 2.0 / 3.0);
}

#[test]
fn matching_positions_is_the_count_behind_the_jaccard_estimate() {
    for matches in [0usize, 1, 19, 20, 21, 100, 199, 200] {
        let (a, b) = pair_with_matches(200, matches);
        assert_eq!(matching_positions(&a, &b), matches);
        assert_eq!(compute_probminhash_jaccard(&a, &b), matches as f64 / 200.0);
    }
}

#[test]
fn whole_slot_threshold_decides_as_the_fraction_does() {
    for sketch_size in [1usize, 3, 7, 50, 200] {
        for threshold in [0.0, 0.05, 0.1, 0.3, 0.5, 0.999, 1.0, 1.5, -1.0, f64::NAN] {
            let least = least_matches_for(threshold, sketch_size);
            for matches in 0..=sketch_size {
                let (a, b) = pair_with_matches(sketch_size, matches);
                let by_fraction = compute_probminhash_jaccard(&a, &b) >= threshold;
                let by_slots = matching_positions(&a, &b) >= least;
                assert_eq!(by_fraction, by_slots, "size {sketch_size} threshold {threshold} matches {matches}");
            }
        }
    }
}

#[test]
fn threshold_of_a_tenth_on_200_slots_is_20_slots() {
    assert_eq!(least_matches_for(0.1, 200), 20);
    assert_eq!(least_matches_for(0.05, 200), 10);
    assert_eq!(least_matches_for(0.0, 200), 0);
    assert_eq!(least_matches_for(1.0, 200), 200);
    assert_eq!(least_matches_for(1.01, 200), 201);
}
