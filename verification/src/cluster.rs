//! Clustering a list of reads in one pass, and what holds of every such run.

use crate::config::Config;
use crate::engine::{
    lemma_first_fit_found, lemma_step_keeps_clusters, rows_of, step_outcome, step_spec, Assignment,
    ClusterEngine, ClusterView,
};
use crate::report::{
    file_name_bytes, record_bytes, representative_file_name, representative_record, summary_order,
    table_bytes,
};
use crate::sketch::read_signature;
use vstd::prelude::*;

verus! {

/// A read: its identifier and its bases.
pub struct Read {
    pub id: Vec<u8>,
    pub seq: Vec<u8>,
}

/// The file that keeps a cluster's founding read.
pub struct RepresentativeFile {
    pub name: Vec<u8>,
    pub contents: Vec<u8>,
}

/// A file as a mathematical value.
pub ghost struct FileView {
    pub name: Seq<u8>,
    pub contents: Seq<u8>,
}

impl View for RepresentativeFile {
    type V = FileView;

    open spec fn view(&self) -> FileView {
        FileView { name: self.name@, contents: self.contents@ }
    }
}

/// What a run over a list of reads gives.
pub struct ClusterReport {
    /// What became of each read, in the order of the reads.
    pub assignments: Vec<Assignment>,
    /// One file for each cluster, in creation order.
    pub representatives: Vec<RepresentativeFile>,
    /// The summary table.
    pub summary: Vec<u8>,
}

/// The bases of each read.
pub open spec fn sequences_of(reads: Seq<Read>) -> Seq<Seq<u8>> {
    Seq::new(reads.len(), |i: int| reads[i].seq@)
}

/// The clusters after these reads, taken in order from no clusters.
pub open spec fn run_spec(seqs: Seq<Seq<u8>>, cfg: Config) -> Seq<ClusterView>
    decreases seqs.len(),
{
    if seqs.len() == 0 {
        Seq::empty()
    } else {
        step_spec(run_spec(seqs.drop_last(), cfg), seqs.last(), cfg)
    }
}

/// What is reported of each of these reads: of read `k`, what the clusters made by the reads
/// before it make of it.
pub open spec fn assignments_spec(seqs: Seq<Seq<u8>>, cfg: Config) -> Seq<Assignment> {
    Seq::new(seqs.len(), |k: int| step_outcome(run_spec(seqs.take(k), cfg), seqs[k], cfg))
}

/// The positions of the reads that founded a cluster, in order: entry `j` is the founder of
/// cluster `j + 1`.
pub open spec fn founders_spec(seqs: Seq<Seq<u8>>, cfg: Config) -> Seq<int>
    decreases seqs.len(),
{
    if seqs.len() == 0 {
        Seq::empty()
    } else if step_outcome(run_spec(seqs.drop_last(), cfg), seqs.last(), cfg) is Created {
        founders_spec(seqs.drop_last(), cfg).push(seqs.len() - 1)
    } else {
        founders_spec(seqs.drop_last(), cfg)
    }
}

/// The files of the clusters' founders, in creation order: the file of cluster `j + 1` is named
/// by that number and holds the read that founded the cluster.
pub open spec fn representatives_spec(reads: Seq<Read>, cfg: Config) -> Seq<FileView> {
    let founders = founders_spec(sequences_of(reads), cfg);
    Seq::new(
        founders.len(),
        |j: int|
            FileView {
                name: file_name_bytes((j + 1) as nat),
                contents: record_bytes(reads[founders[j]].id@, reads[founders[j]].seq@),
            },
    )
}

/// The summary table of a run: one line for each cluster, larger clusters first, clusters of
/// one size in creation order.
pub open spec fn summary_spec(seqs: Seq<Seq<u8>>, cfg: Config) -> Seq<u8> {
    table_bytes(summary_order(rows_of(run_spec(seqs, cfg))))
}

/// The reads that are long enough to be sketched, in their order.
pub open spec fn admitted(seqs: Seq<Seq<u8>>, cfg: Config) -> Seq<Seq<u8>>
    decreases seqs.len(),
{
    if seqs.len() == 0 {
        Seq::empty()
    } else if cfg.admits(seqs.last().len()) {
        admitted(seqs.drop_last(), cfg).push(seqs.last())
    } else {
        admitted(seqs.drop_last(), cfg)
    }
}

/// Clusters a list of reads in one pass, in their order. Each read that is long enough joins
/// the first cluster whose founder it resembles closely enough, or founds a cluster. The
/// report holds what became of each read, the file of each cluster's founder, and the table of
/// the clusters by size.
pub fn cluster(reads: &[Read], cfg: &Config) -> (report: ClusterReport)
    requires
        cfg.well_formed(),
    ensures
        report.assignments@ == assignments_spec(sequences_of(reads@), *cfg),
        report.representatives@.map_values(|file: RepresentativeFile| file@) == representatives_spec(
            reads@,
            *cfg,
        ),
        report.summary@ == summary_spec(sequences_of(reads@), *cfg),
{
    let ghost seqs = sequences_of(reads@);
    let mut engine = ClusterEngine::new(*cfg);
    let mut assignments: Vec<Assignment> = Vec::new();
    let mut representatives: Vec<RepresentativeFile> = Vec::new();
    let n: usize = reads.len();
    let mut i: usize = 0;
    assert(seqs.take(0) =~= Seq::<Seq<u8>>::empty());
    while i < n
        invariant
            n == reads@.len(),
            i <= n,
            seqs == sequences_of(reads@),
            engine.wf(),
            engine.config() == *cfg,
            engine.assigned_reads() <= i,
            engine@ == run_spec(seqs.take(i as int), *cfg),
            assignments@.len() == i,
            forall|k: int|
                0 <= k < i ==> #[trigger] assignments@[k] == step_outcome(
                    run_spec(seqs.take(k), *cfg),
                    seqs[k],
                    *cfg,
                ),
            representatives@.len() == engine@.len(),
            representatives@.len() == founders_spec(seqs.take(i as int), *cfg).len(),
            forall|j: int|
                0 <= j < representatives@.len() ==> 0 <= #[trigger] founders_spec(
                    seqs.take(i as int),
                    *cfg,
                )[j] < i,
            forall|j: int|
                #![trigger representatives@[j]]
                0 <= j < representatives@.len() ==> {
                    &&& representatives@[j].name@ == file_name_bytes((j + 1) as nat)
                    &&& representatives@[j].contents@ == record_bytes(
                        reads@[founders_spec(seqs.take(i as int), *cfg)[j]].id@,
                        reads@[founders_spec(seqs.take(i as int), *cfg)[j]].seq@,
                    )
                },
        decreases n - i,
    {
        let ghost earlier = seqs.take(i as int);
        let ghost before = engine@;
        proof {
            engine.lemma_wf();
            assert(seqs.take(i + 1).drop_last() =~= earlier);
            assert(seqs.take(i + 1).last() == seqs[i as int]);
            assert(seqs[i as int] == reads@[i as int].seq@);
        }
        let ghost kept = representatives@;
        let outcome = engine.process_read(reads[i].seq.as_slice());
        match outcome {
            Assignment::Created { cluster_id } => {
                let name = representative_file_name(cluster_id);
                let contents = representative_record(reads[i].id.as_slice(), reads[i].seq.as_slice());
                representatives.push(RepresentativeFile { name, contents });
            },
            _ => {},
        }
        assignments.push(outcome);
        proof {
            let founders = founders_spec(earlier, *cfg);
            let grown = founders_spec(seqs.take(i + 1), *cfg);
            assert forall|j: int| 0 <= j < representatives@.len() implies 0 <= #[trigger] grown[j] < i
                + 1 by {
                if j < kept.len() {
                    assert(grown[j] == founders[j]);
                } else {
                    assert(grown[j] == i);
                }
            }
            assert forall|j: int| 0 <= j < representatives@.len() implies {
                &&& (#[trigger] representatives@[j]).name@ == file_name_bytes((j + 1) as nat)
                &&& representatives@[j].contents@ == record_bytes(
                    reads@[grown[j]].id@,
                    reads@[grown[j]].seq@,
                )
            } by {
                if j < kept.len() {
                    assert(representatives@[j] == kept[j]);
                    assert(grown[j] == founders[j]);
                } else {
                    assert(grown[j] == i);
                }
            }
        }
        i = i + 1;
    }
    assert(seqs.take(n as int) =~= seqs);
    assert(assignments@ =~= assignments_spec(seqs, *cfg));
    assert(representatives@.map_values(|file: RepresentativeFile| file@) =~= representatives_spec(
        reads@,
        *cfg,
    ));
    let summary = engine.summary();
    ClusterReport { assignments, representatives, summary }
}

/// What becomes of a read depends on the reads before it alone: the reads that follow change
/// nothing of it.
pub proof fn lemma_assignments_of_prefix(seqs: Seq<Seq<u8>>, cfg: Config, n: int)
    requires
        0 <= n <= seqs.len(),
    ensures
        assignments_spec(seqs.take(n), cfg) == assignments_spec(seqs, cfg).take(n),
{
    assert forall|k: int| 0 <= k < n implies assignments_spec(seqs.take(n), cfg)[k]
        == assignments_spec(seqs, cfg)[k] by {
        assert(seqs.take(n).take(k) =~= seqs.take(k));
    }
    assert(assignments_spec(seqs.take(n), cfg) =~= assignments_spec(seqs, cfg).take(n));
}

/// A cluster's representative is fixed when the cluster is made: a cluster that stands after
/// the first `n` reads stands after all of them, in the same place, with the same number and
/// the same representative, and has lost no member.
pub proof fn lemma_run_keeps_representatives(seqs: Seq<Seq<u8>>, cfg: Config, n: int, j: int)
    requires
        0 <= n <= seqs.len(),
        0 <= j < run_spec(seqs.take(n), cfg).len(),
    ensures
        j < run_spec(seqs, cfg).len(),
        run_spec(seqs, cfg)[j].id == run_spec(seqs.take(n), cfg)[j].id,
        run_spec(seqs, cfg)[j].signature == run_spec(seqs.take(n), cfg)[j].signature,
        run_spec(seqs, cfg)[j].members >= run_spec(seqs.take(n), cfg)[j].members,
    decreases seqs.len(),
{
    if n == seqs.len() {
        assert(seqs.take(n) =~= seqs);
    } else {
        assert(seqs.drop_last().take(n) =~= seqs.take(n));
        lemma_run_keeps_representatives(seqs.drop_last(), cfg, n, j);
        lemma_step_keeps_clusters(run_spec(seqs.drop_last(), cfg), seqs.last(), cfg, j);
    }
}

/// Reads too short for one window leave no trace: the clusters are those of the run without
/// them.
pub proof fn lemma_short_reads_leave_no_trace(seqs: Seq<Seq<u8>>, cfg: Config)
    ensures
        run_spec(seqs, cfg) == run_spec(admitted(seqs, cfg), cfg),
    decreases seqs.len(),
{
    if seqs.len() > 0 {
        lemma_short_reads_leave_no_trace(seqs.drop_last(), cfg);
        if cfg.admits(seqs.last().len()) {
            let kept = admitted(seqs.drop_last(), cfg);
            assert(kept.push(seqs.last()).drop_last() =~= kept);
        }
    }
}

/// Every cluster has one founder: the founders are as many as the clusters, they stand in
/// the order of the reads, and each is a read that was reported as founding a cluster.
pub proof fn lemma_founders_found_clusters(seqs: Seq<Seq<u8>>, cfg: Config)
    ensures
        founders_spec(seqs, cfg).len() == run_spec(seqs, cfg).len(),
        forall|j: int|
            0 <= j < founders_spec(seqs, cfg).len() ==> {
                &&& 0 <= (#[trigger] founders_spec(seqs, cfg)[j]) < seqs.len()
                &&& assignments_spec(seqs, cfg)[founders_spec(seqs, cfg)[j]] is Created
            },
        forall|j: int, k: int|
            0 <= j < k < founders_spec(seqs, cfg).len() ==> (#[trigger] founders_spec(seqs, cfg)[j])
                < (#[trigger] founders_spec(seqs, cfg)[k]),
    decreases seqs.len(),
{
    if seqs.len() > 0 {
        let earlier = seqs.drop_last();
        let before = run_spec(earlier, cfg);
        lemma_founders_found_clusters(earlier, cfg);
        lemma_assignments_of_prefix(seqs, cfg, seqs.len() - 1);
        assert(seqs.take(seqs.len() - 1) =~= earlier);
        if cfg.admits(seqs.last().len()) {
            lemma_first_fit_found(before, read_signature(seqs.last(), cfg), cfg.min_matches as nat);
        }
        assert forall|j: int| 0 <= j < founders_spec(seqs, cfg).len() implies {
            &&& 0 <= (#[trigger] founders_spec(seqs, cfg)[j]) < seqs.len()
            &&& assignments_spec(seqs, cfg)[founders_spec(seqs, cfg)[j]] is Created
        } by {
            if j < founders_spec(earlier, cfg).len() {
                let f = founders_spec(earlier, cfg)[j];
                assert(founders_spec(seqs, cfg)[j] == f);
                assert(assignments_spec(earlier, cfg)[f] == assignments_spec(seqs, cfg).take(
                    seqs.len() - 1,
                )[f]);
            }
        }
        assert forall|j: int, k: int| 0 <= j < k < founders_spec(seqs, cfg).len() implies (
        #[trigger] founders_spec(seqs, cfg)[j]) < (#[trigger] founders_spec(seqs, cfg)[k]) by {
            if k < founders_spec(earlier, cfg).len() {
                assert(founders_spec(seqs, cfg)[j] == founders_spec(earlier, cfg)[j]);
                assert(founders_spec(seqs, cfg)[k] == founders_spec(earlier, cfg)[k]);
            } else {
                assert(founders_spec(seqs, cfg)[j] == founders_spec(earlier, cfg)[j]);
            }
        }
    }
}

} // verus!
