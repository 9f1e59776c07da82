//! The cluster engine: every read joins the first cluster that accepts it, or founds one.

use crate::config::Config;
use crate::report::{sort_rows, summary_order, summary_table, table_bytes, SummaryRow};
use crate::similarity::{is_similar, matching_positions};
use crate::sketch::{read_signature, sketch_read};
use vstd::prelude::*;

verus! {

/// A cluster: its number in creation order, the signature of the read that founded it, and how
/// many reads it holds.
pub struct Cluster {
    pub id: usize,
    pub signature: Vec<u64>,
    pub members: usize,
}

/// A cluster as a mathematical value.
pub ghost struct ClusterView {
    pub id: nat,
    pub signature: Seq<u64>,
    pub members: nat,
}

impl View for Cluster {
    type V = ClusterView;

    open spec fn view(&self) -> ClusterView {
        ClusterView { id: self.id as nat, signature: self.signature@, members: self.members as nat }
    }
}

/// What became of a read.
#[derive(Clone, Copy, Debug, PartialEq, Eq, Structural)]
pub enum Assignment {
    /// The read is too short for one window and was passed over.
    Skipped,
    /// The read joined the cluster of this number.
    Joined { cluster_id: usize },
    /// The read founded the cluster of this number.
    Created { cluster_id: usize },
}

/// Whether a cluster takes a read of this signature.
pub open spec fn accepts(cluster: ClusterView, signature: Seq<u64>, min_matches: nat) -> bool {
    is_similar(signature, cluster.signature, min_matches)
}

/// Whether cluster `i` accepts the signature and no cluster before it does.
pub open spec fn is_first_fit(
    clusters: Seq<ClusterView>,
    signature: Seq<u64>,
    min_matches: nat,
    i: int,
) -> bool {
    &&& 0 <= i < clusters.len()
    &&& accepts(clusters[i], signature, min_matches)
    &&& forall|j: int| 0 <= j < i ==> !accepts(#[trigger] clusters[j], signature, min_matches)
}

/// The index of the first cluster, in creation order, that accepts the signature.
pub open spec fn first_fit(clusters: Seq<ClusterView>, signature: Seq<u64>, min_matches: nat) -> Option<int> {
    if exists|i: int| is_first_fit(clusters, signature, min_matches, i) {
        Some(choose|i: int| is_first_fit(clusters, signature, min_matches, i))
    } else {
        None
    }
}

/// The clusters after a read of this signature has been assigned: the first cluster that
/// accepts it has one member more, or a new cluster founded by the read stands at the end.
pub open spec fn assign_spec(clusters: Seq<ClusterView>, signature: Seq<u64>, min_matches: nat) -> Seq<ClusterView> {
    match first_fit(clusters, signature, min_matches) {
        Some(i) => clusters.update(
            i,
            ClusterView { id: clusters[i].id, signature: clusters[i].signature, members: clusters[i].members + 1 },
        ),
        None => clusters.push(ClusterView { id: clusters.len() + 1, signature, members: 1 }),
    }
}

/// What is reported of a read of this signature.
pub open spec fn outcome_spec(clusters: Seq<ClusterView>, signature: Seq<u64>, min_matches: nat) -> Assignment {
    match first_fit(clusters, signature, min_matches) {
        Some(i) => Assignment::Joined { cluster_id: (i + 1) as usize },
        None => Assignment::Created { cluster_id: (clusters.len() + 1) as usize },
    }
}

/// The clusters after one more read: a read too short for one window changes nothing, any other
/// is sketched and assigned by its signature.
pub open spec fn step_spec(clusters: Seq<ClusterView>, seq: Seq<u8>, cfg: Config) -> Seq<ClusterView> {
    if cfg.admits(seq.len()) {
        assign_spec(clusters, read_signature(seq, cfg), cfg.min_matches as nat)
    } else {
        clusters
    }
}

/// What is reported of one more read.
pub open spec fn step_outcome(clusters: Seq<ClusterView>, seq: Seq<u8>, cfg: Config) -> Assignment {
    if cfg.admits(seq.len()) {
        outcome_spec(clusters, read_signature(seq, cfg), cfg.min_matches as nat)
    } else {
        Assignment::Skipped
    }
}

/// The lines of the summary table, one for each cluster, in creation order.
pub open spec fn rows_of(clusters: Seq<ClusterView>) -> Seq<SummaryRow> {
    Seq::new(
        clusters.len(),
        |i: int| SummaryRow { cluster_id: clusters[i].id as usize, members: clusters[i].members as usize },
    )
}

/// The number of reads that a run of clusters holds.
pub open spec fn total_members(clusters: Seq<ClusterView>) -> nat
    decreases clusters.len(),
{
    if clusters.len() == 0 {
        0
    } else {
        total_members(clusters.drop_last()) + clusters.last().members
    }
}

/// Clusters as the engine keeps them: numbered from 1 in creation order, none empty, every
/// signature of `sketch_size` slots.
pub open spec fn orderly(clusters: Seq<ClusterView>, sketch_size: nat) -> bool {
    forall|i: int|
        0 <= i < clusters.len() ==> {
            &&& (#[trigger] clusters[i]).id == i + 1
            &&& clusters[i].members >= 1
            &&& clusters[i].signature.len() == sketch_size
        }
}

/// At most one cluster is the first fit.
pub proof fn lemma_first_fit_unique(
    clusters: Seq<ClusterView>,
    signature: Seq<u64>,
    min_matches: nat,
    i: int,
)
    requires
        is_first_fit(clusters, signature, min_matches, i),
    ensures
        first_fit(clusters, signature, min_matches) == Some(i),
{
    let chosen = choose|k: int| is_first_fit(clusters, signature, min_matches, k);
    if chosen < i {
        assert(!accepts(clusters[chosen], signature, min_matches));
    } else if i < chosen {
        assert(!accepts(clusters[i], signature, min_matches));
    }
}

/// Clusters made later never take a read from an earlier cluster that accepts it: the first
/// fit among some clusters stays the first fit when more clusters follow them.
pub proof fn lemma_first_fit_ignores_later_clusters(
    clusters: Seq<ClusterView>,
    later: Seq<ClusterView>,
    signature: Seq<u64>,
    min_matches: nat,
    i: int,
)
    requires
        is_first_fit(clusters, signature, min_matches, i),
    ensures
        first_fit(clusters, signature, min_matches) == Some(i),
        first_fit(clusters + later, signature, min_matches) == Some(i),
{
    lemma_first_fit_unique(clusters, signature, min_matches, i);
    let all = clusters + later;
    assert(all[i] == clusters[i]);
    assert forall|j: int| 0 <= j < i implies !accepts(#[trigger] all[j], signature, min_matches) by {
        assert(all[j] == clusters[j]);
    }
    lemma_first_fit_unique(all, signature, min_matches, i);
}

/// Where a first fit is named, it is one; where none is named, no cluster accepts.
pub proof fn lemma_first_fit_found(clusters: Seq<ClusterView>, signature: Seq<u64>, min_matches: nat)
    ensures
        match first_fit(clusters, signature, min_matches) {
            Some(i) => is_first_fit(clusters, signature, min_matches, i),
            None => forall|j: int|
                0 <= j < clusters.len() ==> !accepts(#[trigger] clusters[j], signature, min_matches),
        },
{
    if first_fit(clusters, signature, min_matches) is None {
        assert forall|j: int| 0 <= j < clusters.len() implies !accepts(
            #[trigger] clusters[j],
            signature,
            min_matches,
        ) by {
            if accepts(clusters[j], signature, min_matches) {
                lemma_least_fit(clusters, signature, min_matches, j);
            }
        }
    }
}

/// Where some cluster accepts, one of them is the first.
proof fn lemma_least_fit(clusters: Seq<ClusterView>, signature: Seq<u64>, min_matches: nat, j: int)
    requires
        0 <= j < clusters.len(),
        accepts(clusters[j], signature, min_matches),
    ensures
        exists|i: int| is_first_fit(clusters, signature, min_matches, i),
    decreases j,
{
    if forall|k: int| 0 <= k < j ==> !accepts(#[trigger] clusters[k], signature, min_matches) {
        assert(is_first_fit(clusters, signature, min_matches, j));
    } else {
        let k = choose|k: int| 0 <= k < j && accepts(#[trigger] clusters[k], signature, min_matches);
        lemma_least_fit(clusters, signature, min_matches, k);
    }
}

/// Assigning a read leaves every cluster that was there in its place, with its number and its
/// representative; at most its size grows, by one. No cluster goes away.
pub proof fn lemma_assign_keeps_clusters(
    clusters: Seq<ClusterView>,
    signature: Seq<u64>,
    min_matches: nat,
    j: int,
)
    requires
        0 <= j < clusters.len(),
    ensures
        clusters.len() <= assign_spec(clusters, signature, min_matches).len() <= clusters.len() + 1,
        assign_spec(clusters, signature, min_matches)[j].id == clusters[j].id,
        assign_spec(clusters, signature, min_matches)[j].signature == clusters[j].signature,
        clusters[j].members <= assign_spec(clusters, signature, min_matches)[j].members
            <= clusters[j].members + 1,
{
    lemma_first_fit_found(clusters, signature, min_matches);
}

/// The same of one more read, whether it is sketched or passed over.
pub proof fn lemma_step_keeps_clusters(clusters: Seq<ClusterView>, seq: Seq<u8>, cfg: Config, j: int)
    requires
        0 <= j < clusters.len(),
    ensures
        clusters.len() <= step_spec(clusters, seq, cfg).len() <= clusters.len() + 1,
        step_spec(clusters, seq, cfg)[j].id == clusters[j].id,
        step_spec(clusters, seq, cfg)[j].signature == clusters[j].signature,
        clusters[j].members <= step_spec(clusters, seq, cfg)[j].members <= clusters[j].members + 1,
{
    if cfg.admits(seq.len()) {
        lemma_assign_keeps_clusters(clusters, read_signature(seq, cfg), cfg.min_matches as nat, j);
    }
}

/// A new cluster adds its members to the total.
pub proof fn lemma_total_members_push(clusters: Seq<ClusterView>, cluster: ClusterView)
    ensures
        total_members(clusters.push(cluster)) == total_members(clusters) + cluster.members,
{
    assert(clusters.push(cluster).drop_last() =~= clusters);
}

/// Changing one cluster changes the total by as much as its members change.
pub proof fn lemma_total_members_update(clusters: Seq<ClusterView>, i: int, cluster: ClusterView)
    requires
        0 <= i < clusters.len(),
    ensures
        total_members(clusters.update(i, cluster)) + clusters[i].members == total_members(clusters)
            + cluster.members,
    decreases clusters.len(),
{
    let changed = clusters.update(i, cluster);
    if i == clusters.len() - 1 {
        assert(changed.drop_last() =~= clusters.drop_last());
    } else {
        lemma_total_members_update(clusters.drop_last(), i, cluster);
        assert(changed.drop_last() =~= clusters.drop_last().update(i, cluster));
    }
}

/// No cluster holds more reads than all clusters together, and clusters that are not empty
/// are no more than their reads.
pub proof fn lemma_total_members_bounds(clusters: Seq<ClusterView>, sketch_size: nat)
    requires
        orderly(clusters, sketch_size),
    ensures
        clusters.len() <= total_members(clusters),
        forall|i: int| 0 <= i < clusters.len() ==> (#[trigger] clusters[i]).members <= total_members(clusters),
    decreases clusters.len(),
{
    if clusters.len() > 0 {
        let earlier = clusters.drop_last();
        assert forall|i: int| 0 <= i < earlier.len() implies {
            &&& (#[trigger] earlier[i]).id == i + 1
            &&& earlier[i].members >= 1
            &&& earlier[i].signature.len() == sketch_size
        } by {
            assert(earlier[i] == clusters[i]);
        }
        lemma_total_members_bounds(earlier, sketch_size);
        assert forall|i: int| 0 <= i < clusters.len() implies (#[trigger] clusters[i]).members
            <= total_members(clusters) by {
            if i < earlier.len() {
                assert(earlier[i] == clusters[i]);
            }
        }
    }
}

/// The state of one clustering run: the settings and the clusters made so far.
pub struct ClusterEngine {
    cfg: Config,
    clusters: Vec<Cluster>,
    assigned: usize,
}

impl View for ClusterEngine {
    type V = Seq<ClusterView>;

    closed spec fn view(&self) -> Seq<ClusterView> {
        Seq::new(self.clusters@.len(), |i: int| self.clusters@[i]@)
    }
}

impl ClusterEngine {
    /// The settings of the run.
    pub closed spec fn config(&self) -> Config {
        self.cfg
    }

    /// The number of reads assigned so far.
    pub closed spec fn assigned_reads(&self) -> nat {
        self.assigned as nat
    }

    /// The engine's invariant: well-formed settings, orderly clusters, and every assigned read
    /// counted in exactly one of them.
    pub closed spec fn wf(&self) -> bool {
        &&& self.cfg.well_formed()
        &&& orderly(self@, self.cfg.sketch_size as nat)
        &&& total_members(self@) == self.assigned
    }

    /// What the invariant says, for callers.
    pub proof fn lemma_wf(&self)
        requires
            self.wf(),
        ensures
            self.config().well_formed(),
            orderly(self@, self.config().sketch_size as nat),
            total_members(self@) == self.assigned_reads(),
            self@.len() <= self.assigned_reads(),
            self.assigned_reads() <= usize::MAX,
    {
        lemma_total_members_bounds(self@, self.cfg.sketch_size as nat);
    }

    /// An engine without clusters.
    pub fn new(cfg: Config) -> (engine: Self)
        requires
            cfg.well_formed(),
        ensures
            engine.wf(),
            engine.config() == cfg,
            engine@ == Seq::<ClusterView>::empty(),
            engine.assigned_reads() == 0,
    {
        let engine = ClusterEngine { cfg, clusters: Vec::new(), assigned: 0 };
        assert(engine@ =~= Seq::<ClusterView>::empty());
        engine
    }

    /// The number of clusters made so far.
    pub fn cluster_count(&self) -> (count: usize)
        ensures
            count == self@.len(),
    {
        self.clusters.len()
    }

    /// The number of reads assigned so far.
    pub fn assigned(&self) -> (count: usize)
        ensures
            count == self.assigned_reads(),
    {
        self.assigned
    }

    /// The settings of the run.
    pub fn settings(&self) -> (cfg: &Config)
        ensures
            *cfg == self.config(),
    {
        &self.cfg
    }

    /// The clusters made so far, in creation order.
    pub fn clusters(&self) -> (clusters: &Vec<Cluster>)
        ensures
            clusters@.len() == self@.len(),
            forall|i: int| 0 <= i < clusters@.len() ==> (#[trigger] clusters@[i])@ == self@[i],
    {
        &self.clusters
    }

    /// The lines of the summary table: larger clusters first, clusters of one size in creation
    /// order.
    pub fn summary_rows(&self) -> (rows: Vec<SummaryRow>)
        ensures
            rows@ == summary_order(rows_of(self@)),
            rows@.len() == self@.len(),
    {
        let n: usize = self.clusters.len();
        let mut rows: Vec<SummaryRow> = Vec::new();
        let mut i: usize = 0;
        while i < n
            invariant
                n == self.clusters@.len(),
                i <= n,
                rows@ == rows_of(self@).take(i as int),
            decreases n - i,
        {
            rows.push(SummaryRow { cluster_id: self.clusters[i].id, members: self.clusters[i].members });
            assert(rows@ =~= rows_of(self@).take(i + 1));
            i = i + 1;
        }
        assert(rows_of(self@).take(n as int) =~= rows_of(self@));
        sort_rows(rows.as_slice())
    }

    /// The summary table: a header, then one line for each cluster, larger clusters first.
    pub fn summary(&self) -> (table: Vec<u8>)
        ensures
            table@ == table_bytes(summary_order(rows_of(self@))),
    {
        let rows = self.summary_rows();
        summary_table(rows.as_slice())
    }

    /// Takes one read. A read too short for one window of k-mers is passed over and changes
    /// nothing; any other is sketched and assigned by its signature.
    pub fn process_read(&mut self, seq: &[u8]) -> (outcome: Assignment)
        requires
            old(self).wf(),
            old(self).assigned_reads() < usize::MAX,
        ensures
            final(self).wf(),
            final(self).config() == old(self).config(),
            final(self)@ == step_spec(old(self)@, seq@, old(self).config()),
            outcome == step_outcome(old(self)@, seq@, old(self).config()),
            !old(self).config().admits(seq@.len()) ==> outcome == Assignment::Skipped && final(self)@
                == old(self)@ && final(self).assigned_reads() == old(self).assigned_reads(),
            old(self).config().admits(seq@.len()) ==> final(self).assigned_reads() == old(
                self,
            ).assigned_reads() + 1,
    {
        if seq.len() < self.cfg.min_read_length() {
            return Assignment::Skipped;
        }
        let signature = sketch_read(seq, &self.cfg);
        self.assign(signature)
    }

    /// Assigns a read by its signature. The clusters are tried in creation order; the first
    /// that accepts the signature gets one member more. Where none accepts, the read founds a
    /// new cluster, with the next number and this signature as its representative.
    pub fn assign(&mut self, signature: Vec<u64>) -> (outcome: Assignment)
        requires
            old(self).wf(),
            signature@.len() == old(self).config().sketch_size,
            old(self).assigned_reads() < usize::MAX,
        ensures
            final(self).wf(),
            final(self).config() == old(self).config(),
            final(self).assigned_reads() == old(self).assigned_reads() + 1,
            final(self)@ == assign_spec(old(self)@, signature@, old(self).config().min_matches as nat),
            outcome == outcome_spec(old(self)@, signature@, old(self).config().min_matches as nat),
    {
        let ghost before = self@;
        let ghost min = self.cfg.min_matches as nat;
        let ghost size = self.cfg.sketch_size as nat;
        let n: usize = self.clusters.len();
        let mut i: usize = 0;
        while i < n
            invariant
                n == self.clusters@.len(),
                i <= n,
                self@ == before,
                *self == *old(self),
                orderly(before, size),
                signature@.len() == size,
                min == self.cfg.min_matches,
                size == self.cfg.sketch_size,
                self.cfg.well_formed(),
                total_members(before) == self.assigned,
                self.assigned < usize::MAX,
                forall|j: int| 0 <= j < i ==> !accepts(#[trigger] before[j], signature@, min),
            decreases n - i,
        {
            assert(before[i as int] == self.clusters@[i as int]@);
            let shared = matching_positions(signature.as_slice(), self.clusters[i].signature.as_slice());
            if shared >= self.cfg.min_matches {
                proof {
                    lemma_total_members_bounds(before, size);
                    lemma_first_fit_unique(before, signature@, min, i as int);
                    lemma_total_members_update(
                        before,
                        i as int,
                        ClusterView {
                            id: before[i as int].id,
                            signature: before[i as int].signature,
                            members: before[i as int].members + 1,
                        },
                    );
                }
                self.clusters[i].members = self.clusters[i].members + 1;
                self.assigned = self.assigned + 1;
                assert(self@ =~= assign_spec(before, signature@, min));
                return Assignment::Joined { cluster_id: i + 1 };
            }
            i = i + 1;
        }
        proof {
            lemma_total_members_bounds(before, size);
            assert(!exists|k: int| is_first_fit(before, signature@, min, k));
            lemma_total_members_push(
                before,
                ClusterView { id: before.len() + 1, signature: signature@, members: 1 },
            );
        }
        self.clusters.push(Cluster { id: n + 1, signature, members: 1 });
        self.assigned = self.assigned + 1;
        assert(self@ =~= assign_spec(before, signature@, min));
        Assignment::Created { cluster_id: n + 1 }
    }
}

} // verus!
