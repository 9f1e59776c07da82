use fxhash::FxHasher;
use minhash_cluster::config::Config;
use minhash_cluster::minimizer::distinct_minimizers;
use minhash_cluster::sketch::{sketch_items, sketch_read, EMPTY_SLOT, UNIT_WEIGHT};
use minimizer_iter::MinimizerBuilder;
use probminhash::probminhasher::ProbMinHash2;
use std::collections::HashSet;

fn settings(sketch_size: usize, kmer_size: usize, window_size: u16) -> Config {
    Config { sketch_size, kmer_size, window_size, min_matches: 20 }
}

fn bases_for_sketches(seed: u64, len: usize) -> Vec<u8> {
    let mut state = seed;
    (0..len)
        .map(|_| {
            state = state.wrapping_mul(6364136223846793005).wrapping_add(1442695040888963407);
            b"ACGT"[(state >> 33) as usize % 4]
        })
        .collect()
}

fn accumulate_directly(ids: &[u64], sketch_size: usize) -> Vec<u64> {
    let mut acc = ProbMinHash2::<u64, FxHasher>::new(sketch_size, u64::MAX);
    for id in ids {
        acc.hash_item(*id, 1.0);
    }
    acc.get_signature().to_owned()
}

fn sketch_directly(seq: &[u8], cfg: &Config) -> Vec<u64> {
    let mut acc = ProbMinHash2::<u64, FxHasher>::new(cfg.sketch_size, u64::MAX);
    let mut seen: HashSet<u64> = HashSet::new();
    for (value, _) in MinimizerBuilder::<u64>::new()
        .minimizer_size(cfg.kmer_size)
        .width(cfg.window_size)
        .iter(seq)
    {
        if seen.contains(&value) {
            continue;
        }
        acc.hash_item(value, 1.0);
        seen.insert(value);
    }
    acc.get_signature().to_owned()
}

#[test]
fn constants_of_the_sketcher() {
    assert_eq!(EMPTY_SLOT, u64::MAX);
    assert_eq!(UNIT_WEIGHT, 1);
}

#[test]
fn sketch_items_is_the_accumulator_signature() {
    for (ids, size) in [
        (vec![1u64, 2, 3], 4usize),
        (vec![42], 1),
        (vec![10, 20, 30, 40, 50, 60, 70], 16),
        ((0..500u64).map(|i| i * 7919).collect::<Vec<u64>>(), 200),
    ] {
        assert_eq!(sketch_items(&ids, size), accumulate_directly(&ids, size));
    }
}

#[test]
fn sketch_items_differs_from_its_input() {
    let ids: Vec<u64> = vec![10, 20, 30, 40];
    let signature = sketch_items(&ids, 4);
    assert_ne!(signature, ids);
    assert_eq!(signature, vec![10, 40, 30, 20]);
    assert_eq!(sketch_items(&[1, 2, 3], 4), vec![3, 1, 1, 1]);
}

#[test]
fn sketch_of_no_items_is_all_empty_slots() {
    assert_eq!(sketch_items(&[], 5), vec![EMPTY_SLOT; 5]);
    assert_eq!(sketch_items(&[], 1), vec![EMPTY_SLOT]);
}

#[test]
fn sketch_of_one_item_holds_it_in_every_slot() {
    assert_eq!(sketch_items(&[7], 3), vec![7, 7, 7]);
    assert_eq!(sketch_items(&[123456789], 1), vec![123456789]);
}

#[test]
fn every_signature_has_sketch_size_slots() {
    let seq = bases_for_sketches(21, 400);
    for size in [1usize, 2, 3, 5, 64, 200, 1000] {
        assert_eq!(sketch_read(&seq, &settings(size, 9, 20)).len(), size);
        assert_eq!(sketch_items(&[1, 2, 3, 4, 5], size).len(), size);
    }
}

#[test]
fn every_slot_holds_a_minimizer_of_the_read() {
    let seq = bases_for_sketches(22, 600);
    let cfg = settings(200, 9, 20);
    let minimizers = distinct_minimizers(&seq, &cfg);
    for slot in sketch_read(&seq, &cfg) {
        assert!(slot == EMPTY_SLOT || minimizers.contains(&slot));
    }
}

#[test]
fn identical_reads_have_identical_signatures() {
    let first = bases_for_sketches(23, 350);
    let second = first.clone();
    let cfg = settings(200, 9, 20);
    assert_eq!(sketch_read(&first, &cfg), sketch_read(&second, &cfg));
}

#[test]
fn sketch_read_is_repeatable() {
    let seq = bases_for_sketches(24, 350);
    let cfg = settings(200, 15, 30);
    let first = sketch_read(&seq, &cfg);
    assert_eq!(sketch_read(&seq, &cfg), first);
    assert_eq!(sketch_read(&seq, &cfg), first);
}

#[test]
fn sketch_read_gives_each_distinct_minimizer_once() {
    for (seed, len, size, k, w) in [
        (31u64, 300usize, 200usize, 9usize, 20u16),
        (32, 1000, 200, 15, 30),
        (33, 28, 200, 9, 20),
        (34, 2000, 50, 4, 6),
        (35, 100, 8, 2, 3),
    ] {
        let seq = bases_for_sketches(seed, len);
        let cfg = settings(size, k, w);
        assert_eq!(sketch_read(&seq, &cfg), sketch_directly(&seq, &cfg));
        assert_eq!(sketch_read(&seq, &cfg), sketch_items(&distinct_minimizers(&seq, &cfg), size));
    }
}

#[test]
fn a_read_of_repeats_is_sketched_from_its_one_minimizer() {
    let seq = vec![b'A'; 100];
    let cfg = settings(10, 9, 20);
    assert_eq!(distinct_minimizers(&seq, &cfg), vec![0]);
    assert_eq!(sketch_read(&seq, &cfg), vec![0; 10]);
}

#[test]
fn a_read_of_exactly_one_window_is_sketched() {
    let seq = bases_for_sketches(36, 28);
    let cfg = settings(200, 9, 20);
    let signature = sketch_read(&seq, &cfg);
    assert_eq!(signature.len(), 200);
    assert_eq!(signature, sketch_directly(&seq, &cfg));
}
