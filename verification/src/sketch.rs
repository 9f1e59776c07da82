//! Sketching a read: its distinct minimizers, fed to a probabilistic min-hash accumulator.

use crate::config::Config;
use crate::minimizer::{distinct_minimizers, distinct_minimizers_of, lemma_first_occurrences_same_values, minimizers_of, values_of};
use fxhash::FxHasher;
use probminhash::probminhasher::ProbMinHash2;
use std::fmt::Debug;
use std::hash::{Hash, Hasher};
use vstd::prelude::*;

verus! {

/// What a signature slot holds until an item claims it.
pub const EMPTY_SLOT: u64 = u64::MAX;

/// The weight of every minimizer: how often a read repeats one is not counted.
pub const UNIT_WEIGHT: u32 = 1;

/// `fxhash::FxHasher`, the hasher from which the accumulator seeds its draws for an item.
#[verifier::external_type_specification]
#[verifier::external_body]
pub struct ExFxHasher(FxHasher);

/// `probminhash::probminhasher::ProbMinHash2`, the accumulator. Nothing inside it is visible
/// here; `hashed_items`, `slot_count` and `initial_value` name what it was made with and given.
#[verifier::external_type_specification]
#[verifier::external_body]
#[verifier::reject_recursive_types(D)]
#[verifier::reject_recursive_types(H)]
pub struct ExProbMinHash2<D: Copy + Eq + Hash + Debug, H: Hasher + Default>(ProbMinHash2<D, H>);

/// The items an accumulator has been given, each with its weight, in the order given.
pub uninterp spec fn hashed_items(acc: ProbMinHash2<u64, FxHasher>) -> Seq<(u64, nat)>;

/// The number of slots an accumulator was made with.
pub uninterp spec fn slot_count(acc: ProbMinHash2<u64, FxHasher>) -> nat;

/// The value with which an accumulator filled its slots when it was made.
pub uninterp spec fn initial_value(acc: ProbMinHash2<u64, FxHasher>) -> u64;

/// The signature of an accumulator of `slots` slots, first filled with `initial`, that was
/// given `items` in this order.
pub uninterp spec fn signature_of(items: Seq<(u64, nat)>, slots: nat, initial: u64) -> Seq<u64>;

/// Calls `ProbMinHash2::<u64, FxHasher>::new`.
///
/// Trusted: the new accumulator has been given nothing and remembers its two arguments. The
/// slot count is bounded because the constructor subtracts 2 from twice the count and
/// allocates that many numbers.
#[verifier::external_body]
fn new_accumulator(slots: usize, initial: u64) -> (acc: ProbMinHash2<u64, FxHasher>)
    requires
        1 <= slots,
        16 * slots <= isize::MAX,
    ensures
        hashed_items(acc) == Seq::<(u64, nat)>::empty(),
        slot_count(acc) == slots,
        initial_value(acc) == initial,
{
    ProbMinHash2::new(slots, initial)
}

/// Calls `ProbMinHash2::hash_item`, with the weight turned into the number type it takes.
///
/// Trusted: the item and its weight are added after those given before; the slot count and the
/// initial value stay. The method refuses a weight that is not positive.
#[verifier::external_body]
fn hash_item(acc: &mut ProbMinHash2<u64, FxHasher>, id: u64, weight: u32)
    requires
        weight > 0,
    ensures
        hashed_items(*final(acc)) == hashed_items(*old(acc)).push((id, weight as nat)),
        slot_count(*final(acc)) == slot_count(*old(acc)),
        initial_value(*final(acc)) == initial_value(*old(acc)),
{
    acc.hash_item(id, weight.into())
}

/// Calls `ProbMinHash2::get_signature` and copies what it borrows.
///
/// Trusted: the signature is the one `signature_of` names. The accumulator seeds its draws for
/// an item from a hash of the item with a fixed hasher, so the signature depends on the slot
/// count, the initial value and the items alone. It has one entry for each slot, and a slot
/// holds the initial value or an item that was given: the accumulator writes nothing else.
#[verifier::external_body]
fn get_signature(acc: &ProbMinHash2<u64, FxHasher>) -> (signature: Vec<u64>)
    ensures
        signature@ == signature_of(hashed_items(*acc), slot_count(*acc), initial_value(*acc)),
        signature@.len() == slot_count(*acc),
        forall|i: int|
            0 <= i < signature@.len() ==> signature@[i] == initial_value(*acc) || exists|j: int|
                0 <= j < hashed_items(*acc).len() && (#[trigger] hashed_items(*acc)[j]).0
                    == #[trigger] signature@[i],
{
    acc.get_signature().clone()
}

/// The items with the weight that every minimizer has.
pub open spec fn unit_weighted(ids: Seq<u64>) -> Seq<(u64, nat)> {
    Seq::new(ids.len(), |i: int| (ids[i], UNIT_WEIGHT as nat))
}

/// The signature of a set of items of equal weight, given in this order.
pub open spec fn signature_of_items(ids: Seq<u64>, sketch_size: nat) -> Seq<u64> {
    signature_of(unit_weighted(ids), sketch_size, EMPTY_SLOT)
}

/// The signature of a read: that of its distinct minimizers.
pub open spec fn read_signature(seq: Seq<u8>, cfg: Config) -> Seq<u64> {
    signature_of_items(distinct_minimizers_of(seq, cfg), cfg.sketch_size as nat)
}

/// Reads of the same bases have the same signature, and so do reads with the same distinct
/// minimizers in the same order, whatever else sets them apart.
pub proof fn lemma_identical_reads_same_signature(first: Seq<u8>, second: Seq<u8>, cfg: Config)
    requires
        first == second || distinct_minimizers_of(first, cfg) == distinct_minimizers_of(second, cfg),
    ensures
        read_signature(first, cfg) == read_signature(second, cfg),
{
}

/// Whether every slot of `signature` is empty or holds one of `ids`.
pub open spec fn drawn_from(signature: Seq<u64>, ids: Seq<u64>) -> bool {
    forall|i: int|
        0 <= i < signature.len() ==> #[trigger] signature[i] == EMPTY_SLOT || ids.contains(
            signature[i],
        )
}

/// Sketches items that are already distinct: each is given to the accumulator once, in order,
/// with the same weight.
pub fn sketch_items(ids: &[u64], sketch_size: usize) -> (signature: Vec<u64>)
    requires
        1 <= sketch_size,
        16 * sketch_size <= isize::MAX,
    ensures
        signature@ == signature_of_items(ids@, sketch_size as nat),
        signature@.len() == sketch_size,
        drawn_from(signature@, ids@),
{
    let n: usize = ids.len();
    let mut acc = new_accumulator(sketch_size, EMPTY_SLOT);
    let mut i: usize = 0;
    assert(unit_weighted(ids@.take(0)) =~= Seq::<(u64, nat)>::empty());
    while i < n
        invariant
            n == ids@.len(),
            i <= n,
            hashed_items(acc) == unit_weighted(ids@.take(i as int)),
            slot_count(acc) == sketch_size,
            initial_value(acc) == EMPTY_SLOT,
        decreases n - i,
    {
        hash_item(&mut acc, ids[i], UNIT_WEIGHT);
        assert(unit_weighted(ids@.take(i as int)).push((ids@[i as int], UNIT_WEIGHT as nat))
            =~= unit_weighted(ids@.take(i + 1)));
        i = i + 1;
    }
    assert(ids@.take(n as int) =~= ids@);
    let signature = get_signature(&acc);
    proof {
        assert forall|k: int| 0 <= k < signature@.len() implies #[trigger] signature@[k]
            == EMPTY_SLOT || ids@.contains(signature@[k]) by {
            if signature@[k] != EMPTY_SLOT {
                let j = choose|j: int|
                    0 <= j < hashed_items(acc).len() && (#[trigger] hashed_items(acc)[j]).0
                        == signature@[k];
                assert(ids@[j] == signature@[k]);
            }
        }
    }
    signature
}

/// Sketches a read that is long enough for one window: its minimizers are extracted, each
/// distinct value is given to the accumulator once, and the accumulator's signature is the
/// read's.
pub fn sketch_read(seq: &[u8], cfg: &Config) -> (signature: Vec<u64>)
    requires
        cfg.well_formed(),
        cfg.admits(seq@.len()),
    ensures
        signature@ == read_signature(seq@, *cfg),
        signature@.len() == cfg.sketch_size,
        drawn_from(
            signature@,
            values_of(minimizers_of(seq@, cfg.kmer_size as nat, cfg.window_size as nat)),
        ),
{
    let distinct = distinct_minimizers(seq, cfg);
    let signature = sketch_items(distinct.as_slice(), cfg.sketch_size);
    proof {
        lemma_first_occurrences_same_values(
            values_of(minimizers_of(seq@, cfg.kmer_size as nat, cfg.window_size as nat)),
        );
    }
    signature
}

} // verus!
