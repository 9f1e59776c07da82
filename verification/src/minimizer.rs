//! Minimizers of a read: the smallest k-mer of every window, in window order.

use crate::config::{Config, MAX_KMER_SIZE, MAX_WINDOW_SIZE};
use minimizer_iter::MinimizerBuilder;
use std::collections::HashSet;
use vstd::prelude::*;

verus! {

broadcast use vstd::std_specs::hash::group_hash_axioms;

/// The minimizers of `seq` as `(value, position)` pairs, for k-mers of `kmer_size` bases and
/// windows of `window_size` consecutive k-mers, in the order in which the windows give them.
pub uninterp spec fn minimizers_of(seq: Seq<u8>, kmer_size: nat, window_size: nat) -> Seq<(u64, usize)>;

/// Runs `minimizer_iter::MinimizerBuilder::<u64>::iter` to its end and collects what it yields.
///
/// Trusted: the pairs are the ones `minimizers_of` names. The builder orders k-mers with a
/// hasher of constant seed, so they depend on the three arguments alone. A sequence too short
/// for one window yields nothing: the iterator ends at once when the window and the k-mer
/// together are longer than the sequence. The sizes are bounded because the builder refuses
/// k-mers that do not fit 64 bits, shifts by twice the k-mer size, divides by the window size,
/// and adds two positions within a window in 16 bits.
#[verifier::external_body]
pub(crate) fn get_minimizers(seq: &[u8], kmer_size: usize, window_size: u16) -> (found: Vec<(u64, usize)>)
    requires
        1 <= kmer_size <= MAX_KMER_SIZE,
        1 <= window_size <= MAX_WINDOW_SIZE,
    ensures
        found@ == minimizers_of(seq@, kmer_size as nat, window_size as nat),
        seq@.len() < window_size + kmer_size - 1 ==> found@.len() == 0,
{
    MinimizerBuilder::<u64>::new().minimizer_size(kmer_size).width(window_size).iter(seq).collect()
}

/// The values of a run of minimizers, their positions left out.
pub open spec fn values_of(found: Seq<(u64, usize)>) -> Seq<u64> {
    Seq::new(found.len(), |i: int| found[i].0)
}

/// The values of `values` in order, each kept only where it occurs first.
pub open spec fn first_occurrences(values: Seq<u64>) -> Seq<u64>
    decreases values.len(),
{
    if values.len() == 0 {
        Seq::empty()
    } else if values.drop_last().contains(values.last()) {
        first_occurrences(values.drop_last())
    } else {
        first_occurrences(values.drop_last()).push(values.last())
    }
}

/// The distinct minimizer values of a read, in the order of their first windows.
pub open spec fn distinct_minimizers_of(seq: Seq<u8>, cfg: Config) -> Seq<u64> {
    first_occurrences(values_of(minimizers_of(seq, cfg.kmer_size as nat, cfg.window_size as nat)))
}

/// Extracting twice from the same bases with the same sizes gives the same minimizers in the
/// same order, and so the same distinct values.
pub proof fn lemma_extraction_is_repeatable(first: Seq<u8>, second: Seq<u8>, cfg: Config)
    requires
        first == second,
    ensures
        minimizers_of(first, cfg.kmer_size as nat, cfg.window_size as nat) == minimizers_of(
            second,
            cfg.kmer_size as nat,
            cfg.window_size as nat,
        ),
        distinct_minimizers_of(first, cfg) == distinct_minimizers_of(second, cfg),
{
}

/// Keeping first occurrences loses no value and adds none.
pub proof fn lemma_first_occurrences_same_values(values: Seq<u64>)
    ensures
        forall|v: u64| first_occurrences(values).contains(v) <==> values.contains(v),
    decreases values.len(),
{
    if values.len() > 0 {
        let earlier = values.drop_last();
        let last = values.last();
        lemma_first_occurrences_same_values(earlier);
        let kept = first_occurrences(values);
        assert forall|v: u64| kept.contains(v) <==> values.contains(v) by {
            if values.contains(v) {
                let i = choose|i: int| 0 <= i < values.len() && values[i] == v;
                if i < earlier.len() {
                    assert(earlier[i] == v);
                    assert(first_occurrences(earlier).contains(v) <==> earlier.contains(v));
                    let j = choose|j: int| 0 <= j < first_occurrences(earlier).len() && first_occurrences(earlier)[j] == v;
                    assert(kept[j] == v);
                } else {
                    assert(v == last);
                    if earlier.contains(last) {
                        assert(first_occurrences(earlier).contains(v) <==> earlier.contains(v));
                        let j = choose|j: int| 0 <= j < first_occurrences(earlier).len() && first_occurrences(earlier)[j] == v;
                        assert(kept[j] == v);
                    } else {
                        assert(kept[kept.len() - 1] == v);
                    }
                }
            }
            if kept.contains(v) {
                let j = choose|j: int| 0 <= j < kept.len() && kept[j] == v;
                if j < first_occurrences(earlier).len() {
                    assert(first_occurrences(earlier)[j] == v);
                    assert(first_occurrences(earlier).contains(v) <==> earlier.contains(v));
                    let i = choose|i: int| 0 <= i < earlier.len() && earlier[i] == v;
                    assert(values[i] == v);
                } else {
                    assert(v == last);
                    assert(values[values.len() - 1] == v);
                }
            }
        }
    }
}

/// No value is kept twice.
pub proof fn lemma_first_occurrences_distinct(values: Seq<u64>)
    ensures
        first_occurrences(values).no_duplicates(),
    decreases values.len(),
{
    if values.len() > 0 {
        let earlier = values.drop_last();
        lemma_first_occurrences_distinct(earlier);
        lemma_first_occurrences_same_values(earlier);
    }
}

/// A run without repeats is kept as it is.
pub proof fn lemma_first_occurrences_of_distinct(values: Seq<u64>)
    requires
        values.no_duplicates(),
    ensures
        first_occurrences(values) == values,
    decreases values.len(),
{
    if values.len() > 0 {
        let earlier = values.drop_last();
        lemma_first_occurrences_of_distinct(earlier);
        if earlier.contains(values.last()) {
            let i = choose|i: int| 0 <= i < earlier.len() && earlier[i] == values.last();
            assert(values[i] == values[values.len() - 1]);
        }
        assert(earlier.push(values.last()) =~= values);
    }
}

/// Drops the positions and every repeated value, keeping each value where it first occurs.
pub fn distinct_values(found: &[(u64, usize)]) -> (distinct: Vec<u64>)
    ensures
        distinct@ == first_occurrences(values_of(found@)),
{
    let n: usize = found.len();
    let ghost values = values_of(found@);
    let mut seen: HashSet<u64> = HashSet::with_capacity(n);
    let mut distinct: Vec<u64> = Vec::new();
    let mut i: usize = 0;
    assert(values.take(0) =~= Seq::<u64>::empty());
    while i < n
        invariant
            n == found@.len(),
            values == values_of(found@),
            i <= n,
            distinct@ == first_occurrences(values.take(i as int)),
            forall|v: u64| seen@.contains(v) <==> values.take(i as int).contains(v),
        decreases n - i,
    {
        let value: u64 = found[i].0;
        proof {
            let next = values.take(i + 1);
            assert(next.drop_last() =~= values.take(i as int));
            assert(next.last() == value);
        }
        if !seen.contains(&value) {
            seen.insert(value);
            distinct.push(value);
        }
        proof {
            let before = values.take(i as int);
            let next = values.take(i + 1);
            assert forall|v: u64| seen@.contains(v) <==> next.contains(v) by {
                if next.contains(v) {
                    let j = choose|j: int| 0 <= j < next.len() && next[j] == v;
                    if j < i {
                        assert(before[j] == v);
                    }
                }
                if before.contains(v) {
                    let j = choose|j: int| 0 <= j < before.len() && before[j] == v;
                    assert(next[j] == v);
                }
                assert(next[i as int] == value);
            }
        }
        i = i + 1;
    }
    assert(values.take(n as int) =~= values);
    distinct
}

/// The distinct minimizer values of a read, in the order of their first windows. A read too
/// short for one window has none.
pub fn distinct_minimizers(seq: &[u8], cfg: &Config) -> (distinct: Vec<u64>)
    requires
        cfg.well_formed(),
    ensures
        distinct@ == distinct_minimizers_of(seq@, *cfg),
        !cfg.admits(seq@.len()) ==> distinct@.len() == 0,
{
    let found = get_minimizers(seq, cfg.kmer_size, cfg.window_size);
    distinct_values(found.as_slice())
}

} // verus!
