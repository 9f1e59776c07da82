//! Comparing two signatures slot by slot.
//!
//! The share of slots at which two signatures agree estimates the Jaccard similarity of the
//! sets they were drawn from, and the share at which they differ estimates the distance
//! between them. All slots are compared alike: one that no item has claimed agrees with
//! another such slot.

use vstd::prelude::*;

verus! {

/// Number of slots below `n` at which `a` and `b` hold the same value.
pub open spec fn agreeing_below(a: Seq<u64>, b: Seq<u64>, n: nat) -> nat
    decreases n,
{
    if n == 0 {
        0
    } else {
        let rest = agreeing_below(a, b, (n - 1) as nat);
        if a[n - 1] == b[n - 1] {
            rest + 1
        } else {
            rest
        }
    }
}

/// Number of slots at which two signatures of one length agree.
pub open spec fn matching_count(a: Seq<u64>, b: Seq<u64>) -> nat
    recommends
        a.len() == b.len(),
{
    agreeing_below(a, b, a.len())
}

/// Number of slots at which two signatures of one length differ.
pub open spec fn mismatch_count(a: Seq<u64>, b: Seq<u64>) -> nat
    recommends
        a.len() == b.len(),
{
    (a.len() - matching_count(a, b)) as nat
}

/// A signature is similar enough to a representative when at least `min_matches` slots agree.
pub open spec fn is_similar(a: Seq<u64>, b: Seq<u64>, min_matches: nat) -> bool {
    matching_count(a, b) >= min_matches
}

/// No more slots can agree than were looked at.
pub proof fn lemma_agreeing_below_bounded(a: Seq<u64>, b: Seq<u64>, n: nat)
    ensures
        agreeing_below(a, b, n) <= n,
    decreases n,
{
    if n > 0 {
        lemma_agreeing_below_bounded(a, b, (n - 1) as nat);
    }
}

/// The estimate lies between no slot and every slot: the distance it stands for lies between 0
/// and 1.
pub proof fn lemma_matching_count_bounded(a: Seq<u64>, b: Seq<u64>)
    ensures
        matching_count(a, b) <= a.len(),
        matching_count(a, b) + mismatch_count(a, b) == a.len(),
{
    lemma_agreeing_below_bounded(a, b, a.len());
}

/// Which of two signatures is named first makes no difference.
pub proof fn lemma_matching_count_symmetric(a: Seq<u64>, b: Seq<u64>)
    requires
        a.len() == b.len(),
    ensures
        matching_count(a, b) == matching_count(b, a),
{
    lemma_agreeing_below_symmetric(a, b, a.len());
}

proof fn lemma_agreeing_below_symmetric(a: Seq<u64>, b: Seq<u64>, n: nat)
    ensures
        agreeing_below(a, b, n) == agreeing_below(b, a, n),
    decreases n,
{
    if n > 0 {
        lemma_agreeing_below_symmetric(a, b, (n - 1) as nat);
    }
}

proof fn lemma_agreeing_below_all(a: Seq<u64>, b: Seq<u64>, n: nat)
    requires
        n <= a.len(),
        n <= b.len(),
    ensures
        agreeing_below(a, b, n) == n <==> a.take(n as int) == b.take(n as int),
    decreases n,
{
    if n == 0 {
        assert(a.take(0) =~= b.take(0));
    } else {
        let m = (n - 1) as nat;
        lemma_agreeing_below_all(a, b, m);
        lemma_agreeing_below_bounded(a, b, m);
        if a.take(n as int) == b.take(n as int) {
            assert(a.take(n as int)[n - 1] == b.take(n as int)[n - 1]);
            assert(a.take(m as int) =~= a.take(n as int).take(m as int));
            assert(b.take(m as int) =~= b.take(n as int).take(m as int));
        }
        if agreeing_below(a, b, n) == n {
            assert(a.take(n as int) =~= a.take(m as int).push(a[n - 1]));
            assert(b.take(n as int) =~= b.take(m as int).push(b[n - 1]));
        }
    }
}

/// Two signatures of one length agree in every slot exactly when they are the same: the
/// distance between them is 0 for identical signatures, and for no others.
pub proof fn lemma_full_agreement_is_identity(a: Seq<u64>, b: Seq<u64>)
    requires
        a.len() == b.len(),
    ensures
        mismatch_count(a, b) == 0 <==> a == b,
        matching_count(a, b) == a.len() <==> a == b,
{
    lemma_agreeing_below_all(a, b, a.len());
    lemma_agreeing_below_bounded(a, b, a.len());
    assert(a.take(a.len() as int) =~= a);
    assert(b.take(b.len() as int) =~= b);
}

/// A signature is at distance 0 from itself, and is similar to itself under every threshold
/// that asks for no more slots than it has.
pub proof fn lemma_identical_signatures_match(a: Seq<u64>, min_matches: nat)
    ensures
        matching_count(a, a) == a.len(),
        mismatch_count(a, a) == 0,
        min_matches <= a.len() ==> is_similar(a, a, min_matches),
{
    lemma_full_agreement_is_identity(a, a);
}

/// Counts the slots at which two signatures of one length differ: the estimated distance
/// between them, in slots.
pub fn mismatching_positions(a: &[u64], b: &[u64]) -> (count: usize)
    requires
        a@.len() == b@.len(),
    ensures
        count == mismatch_count(a@, b@),
        count <= a@.len(),
{
    a.len() - matching_positions(a, b)
}

/// Counts the slots at which two signatures of one length hold the same value: the estimated
/// similarity between them, in slots.
pub fn matching_positions(a: &[u64], b: &[u64]) -> (count: usize)
    requires
        a@.len() == b@.len(),
    ensures
        count == matching_count(a@, b@),
        count <= a@.len(),
{
    let n: usize = a.len();
    let mut count: usize = 0;
    let mut i: usize = 0;
    while i < n
        invariant
            n == a@.len(),
            n == b@.len(),
            i <= n,
            count == agreeing_below(a@, b@, i as nat),
            count <= i,
        decreases n - i,
    {
        if a[i] == b[i] {
            count = count + 1;
        }
        i = i + 1;
    }
    count
}

} // verus!
