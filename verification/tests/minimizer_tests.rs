use minhash_cluster::config::Config;
use minhash_cluster::minimizer::{distinct_minimizers, distinct_values};
use minimizer_iter::MinimizerBuilder;

fn settings(kmer_size: usize, window_size: u16) -> Config {
    Config { sketch_size: 200, kmer_size, window_size, min_matches: 20 }
}

fn bases_for_minimizers(seed: u64, len: usize) -> Vec<u8> {
    let mut state = seed;
    (0..len)
        .map(|_| {
            state = state.wrapping_mul(6364136223846793005).wrapping_add(1442695040888963407);
            b"ACGT"[(state >> 33) as usize % 4]
        })
        .collect()
}

fn first_seen(values: &[u64]) -> Vec<u64> {
    let mut kept: Vec<u64> = Vec::new();
    for v in values {
        if !kept.contains(v) {
            kept.push(*v);
        }
    }
    kept
}

#[test]
fn distinct_values_keeps_first_occurrences_in_order() {
    let found = [(5u64, 0usize), (3, 1), (5, 2), (7, 3), (3, 4), (5, 9)];
    assert_eq!(distinct_values(&found), vec![5, 3, 7]);
}

#[test]
fn distinct_values_of_nothing_is_nothing() {
    assert_eq!(distinct_values(&[]), Vec::<u64>::new());
}

#[test]
fn distinct_values_without_repeats_is_unchanged() {
    let found = [(9u64, 0usize), (8, 4), (7, 6), (u64::MAX, 9), (0, 12)];
    assert_eq!(distinct_values(&found), vec![9, 8, 7, u64::MAX, 0]);
}

#[test]
fn distinct_values_of_one_repeated_value() {
    let found = [(4u64, 0usize), (4, 1), (4, 2)];
    assert_eq!(distinct_values(&found), vec![4]);
}

#[test]
fn distinct_minimizers_are_those_of_the_builder() {
    for (seed, len, k, w) in [(1u64, 200usize, 9usize, 20u16), (2, 500, 15, 30), (3, 64, 3, 4), (4, 31, 31, 1), (5, 100, 1, 1)] {
        let seq = bases_for_minimizers(seed, len);
        let direct: Vec<u64> = MinimizerBuilder::<u64>::new()
            .minimizer_size(k)
            .width(w)
            .iter(&seq)
            .map(|(value, _)| value)
            .collect();
        assert!(!direct.is_empty());
        assert_eq!(distinct_minimizers(&seq, &settings(k, w)), first_seen(&direct));
    }
}

#[test]
fn extraction_is_repeatable() {
    let seq = bases_for_minimizers(11, 300);
    let cfg = settings(9, 20);
    let first = distinct_minimizers(&seq, &cfg);
    let second = distinct_minimizers(&seq.clone(), &cfg);
    assert!(!first.is_empty());
    assert_eq!(first, second);
}

#[test]
fn distinct_minimizers_hold_no_value_twice() {
    let seq = bases_for_minimizers(12, 2000);
    let found = distinct_minimizers(&seq, &settings(5, 8));
    let mut sorted = found.clone();
    sorted.sort();
    sorted.dedup();
    assert_eq!(sorted.len(), found.len());
}

#[test]
fn a_read_shorter_than_one_window_has_no_minimizers() {
    let seq = bases_for_minimizers(13, 27);
    assert_eq!(distinct_minimizers(&seq, &settings(9, 20)), Vec::<u64>::new());
    assert_eq!(distinct_minimizers(&[], &settings(9, 20)), Vec::<u64>::new());
}

#[test]
fn a_read_of_one_window_has_one_minimizer() {
    let seq = bases_for_minimizers(14, 28);
    assert_eq!(distinct_minimizers(&seq, &settings(9, 20)).len(), 1);
}

#[test]
fn minimizers_of_a_known_read() {
    // TGA, GAT, TGC, CAC, ACA, two bits for each base.
    let found = distinct_minimizers(b"TGATTGCACAATC", &settings(3, 4));
    assert_eq!(found, vec![0b111000, 0b100011, 0b111001, 0b010001, 0b000100]);
}
