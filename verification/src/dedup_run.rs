//! A deduplication run: what becomes of each crash file.

use crate::crash_clusters;
use crate::crash_clusters::{
    add_observed_crash_to_clusters, ClusterView, CrashClusters, Observation, UniqueCopy,
};
use crate::crash_replay::{ObservedCrash, ObservedCrashView};
use crate::dedup_report;
use crate::dedup_report::{CrashFileResult, DedupReport, FileResultView};
use crate::file_path;
use crate::file_path::{relative_string, FilePath, FilePathView};
use vstd::prelude::*;

verus! {

/// What came of the attempt to replay a crash file.
#[derive(Debug)]
pub enum ReplayOutcome {
    /// The file could not be read as an input.
    Unreadable { error: String },
    /// The input could not be replayed.
    ReplayFailed { error: String },
    /// The replay did not crash the service.
    NotReproduced,
    /// The replay crashed the service, but the size of the file is not known.
    SizeUnknown { error: String },
    /// The replay crashed the service.
    Reproduced { size: u64, crash: ObservedCrash },
}

/// An outcome, with its text as sequences.
pub enum OutcomeView {
    Unreadable { error: Seq<char> },
    ReplayFailed { error: Seq<char> },
    NotReproduced,
    SizeUnknown { error: Seq<char> },
    Reproduced { size: u64, crash: ObservedCrashView },
}

impl View for ReplayOutcome {
    type V = OutcomeView;

    open spec fn view(&self) -> OutcomeView {
        match *self {
            ReplayOutcome::Unreadable { error } => OutcomeView::Unreadable { error: error@ },
            ReplayOutcome::ReplayFailed { error } => OutcomeView::ReplayFailed { error: error@ },
            ReplayOutcome::NotReproduced => OutcomeView::NotReproduced,
            ReplayOutcome::SizeUnknown { error } => OutcomeView::SizeUnknown { error: error@ },
            ReplayOutcome::Reproduced { size, crash } => OutcomeView::Reproduced {
                size,
                crash: crash@,
            },
        }
    }
}

/// A crash file and what came of it.
pub struct FileOutcome {
    pub file: FilePathView,
    pub outcome: OutcomeView,
}

/// What a run has found so far: its clusters by their keys, and the files that
/// are in none.
pub struct RunState {
    pub clusters: Map<Seq<char>, ClusterView>,
    pub non_reproducible: Seq<FileResultView>,
    pub skipped: Seq<FileResultView>,
}

impl RunState {
    /// Nothing has been found yet.
    pub open spec fn empty() -> RunState {
        RunState {
            clusters: Map::empty(),
            non_reproducible: Seq::empty(),
            skipped: Seq::empty(),
        }
    }

    /// The file at `path` is skipped for `reason`.
    pub open spec fn skip(self, path: Seq<char>, reason: Seq<char>) -> RunState {
        RunState { skipped: self.skipped.push(FileResultView { path, reason }), ..self }
    }

    /// One more file, below `directory`, has been dealt with.
    pub open spec fn record(self, directory: FilePathView, next: FileOutcome) -> RunState {
        let path = next.file.relative_to(directory);
        match next.outcome {
            OutcomeView::Unreadable { error } => self.skip(
                path,
                "Could not read crash input: "@ + error,
            ),
            OutcomeView::ReplayFailed { error } => self.skip(
                path,
                "Could not replay crash input: "@ + error,
            ),
            OutcomeView::SizeUnknown { error } => self.skip(
                path,
                "Could not read crash input metadata: "@ + error,
            ),
            OutcomeView::NotReproduced => RunState {
                non_reproducible: self.non_reproducible.push(
                    FileResultView { path, reason: "Replay did not reproduce a crash"@ },
                ),
                ..self
            },
            OutcomeView::Reproduced { size, crash } => RunState {
                clusters: crash_clusters::add_observation(
                    self.clusters,
                    Observation { file: next.file, path, size, crash },
                ),
                ..self
            },
        }
    }
}

/// A deduplication run.
#[derive(Debug)]
pub struct DedupRun {
    clusters: CrashClusters,
    non_reproducible: Vec<CrashFileResult>,
    skipped: Vec<CrashFileResult>,
    processed: usize,
}

/// A run: its clusters in the order of their keys, the files that are in none,
/// and the number of files dealt with.
pub struct RunView {
    pub clusters: Seq<ClusterView>,
    pub non_reproducible: Seq<FileResultView>,
    pub skipped: Seq<FileResultView>,
    pub processed: nat,
}

impl RunView {
    /// What the run has found.
    pub open spec fn state(self) -> RunState {
        RunState {
            clusters: crash_clusters::by_key(self.clusters),
            non_reproducible: self.non_reproducible,
            skipped: self.skipped,
        }
    }

    /// The clusters are valid, and every file that was dealt with is a member
    /// of one of them, not reproducible or skipped.
    pub open spec fn valid(self) -> bool {
        &&& crash_clusters::valid_clusters(self.clusters)
        &&& self.processed == crash_clusters::total_members(self.clusters)
            + self.non_reproducible.len() + self.skipped.len()
    }
}

impl View for DedupRun {
    type V = RunView;

    closed spec fn view(&self) -> RunView {
        RunView {
            clusters: self.clusters@,
            non_reproducible: dedup_report::result_views(self.non_reproducible@),
            skipped: dedup_report::result_views(self.skipped@),
            processed: self.processed as nat,
        }
    }
}

fn add_result(results: &mut Vec<CrashFileResult>, path: String, reason: String)
    ensures
        dedup_report::result_views(final(results)@) == dedup_report::result_views(
            old(results)@,
        ).push(FileResultView { path: path@, reason: reason@ }),
{
    results.push(CrashFileResult { path, reason });
    assert(dedup_report::result_views(results@) =~= dedup_report::result_views(
        old(results)@,
    ).push(FileResultView { path: path@, reason: reason@ }));
}

fn reason(text: &str, error: &str) -> (result: String)
    ensures
        result@ == text@ + error@,
{
    let mut result = text.to_owned();
    result.append(error);
    result
}

impl DedupRun {
    #[verifier::type_invariant]
    closed spec fn well_formed(self) -> bool {
        self@.valid()
    }

    /// A run that has dealt with no file.
    pub fn new() -> (run: DedupRun)
        ensures
            run@.valid(),
            run@.processed == 0,
            run@.clusters.len() == 0,
            run@.state() == RunState::empty(),
    {
        let clusters = CrashClusters::new();
        let non_reproducible: Vec<CrashFileResult> = Vec::new();
        let skipped: Vec<CrashFileResult> = Vec::new();
        assert(crash_clusters::by_key(clusters@) =~= Map::empty());
        assert(dedup_report::result_views(non_reproducible@) =~= Seq::empty());
        assert(dedup_report::result_views(skipped@) =~= Seq::empty());
        DedupRun { clusters, non_reproducible, skipped, processed: 0 }
    }

    /// The number of files dealt with.
    pub fn processed(&self) -> (count: usize)
        ensures
            count == self@.processed,
            self@.valid(),
    {
        proof {
            use_type_invariant(self);
        }
        self.processed
    }

    /// The clusters so far.
    pub fn clusters(&self) -> (clusters: &CrashClusters)
        ensures
            clusters@ == self@.clusters,
    {
        &self.clusters
    }

    /// The files whose crash was not reproduced.
    pub fn non_reproducible(&self) -> (results: &Vec<CrashFileResult>)
        ensures
            dedup_report::result_views(results@) == self@.non_reproducible,
    {
        &self.non_reproducible
    }

    /// The files that were skipped.
    pub fn skipped(&self) -> (results: &Vec<CrashFileResult>)
        ensures
            dedup_report::result_views(results@) == self@.skipped,
    {
        &self.skipped
    }

    /// Deals with one more crash file.
    pub fn record(
        &mut self,
        crash_directory: &FilePath,
        crash_file: &FilePath,
        outcome: ReplayOutcome,
    )
        requires
            old(self)@.processed < usize::MAX,
        ensures
            final(self)@.valid(),
            final(self)@.state() == old(self)@.state().record(
                crash_directory@,
                FileOutcome { file: crash_file@, outcome: outcome@ },
            ),
            final(self)@.processed == old(self)@.processed + 1,
    {
        proof {
            use_type_invariant(&*self);
        }
        let path = relative_string(crash_directory, crash_file);
        let mut run = DedupRun::new();
        std::mem::swap(&mut run, self);
        let DedupRun { mut clusters, mut non_reproducible, mut skipped, processed } = run;
        match outcome {
            ReplayOutcome::Unreadable { error } => {
                let reason = reason("Could not read crash input: ", &error);
                add_result(&mut skipped, path, reason);
            },
            ReplayOutcome::ReplayFailed { error } => {
                let reason = reason("Could not replay crash input: ", &error);
                add_result(&mut skipped, path, reason);
            },
            ReplayOutcome::SizeUnknown { error } => {
                let reason = reason("Could not read crash input metadata: ", &error);
                add_result(&mut skipped, path, reason);
            },
            ReplayOutcome::NotReproduced => {
                let reason = "Replay did not reproduce a crash".to_owned();
                add_result(&mut non_reproducible, path, reason);
            },
            ReplayOutcome::Reproduced { size, crash } => {
                add_observed_crash_to_clusters(&mut clusters, crash_file, path, size, crash);
            },
        }
        *self = DedupRun { clusters, non_reproducible, skipped, processed: processed + 1 };
    }

    /// The copy that is to be made of the representative of the cluster at
    /// `index`.
    pub fn unique_copy(&self, index: usize) -> (copy: UniqueCopy)
        requires
            index < self@.clusters.len(),
        ensures
            copy.source@ == self@.clusters[index as int].representative_source,
            copy.file_name@ == self@.clusters[index as int].representative_source.unique_name(
                index as nat,
            ),
            file_path::slash_free(copy.file_name@),
    {
        self.clusters.unique_copy(index)
    }

    /// Names the representative of the cluster at `index` by the copy that has
    /// been made of it.
    pub fn name_unique_representative(&mut self, index: usize)
        requires
            index < old(self)@.clusters.len(),
        ensures
            final(self)@ == (RunView {
                clusters: old(self)@.clusters.update(
                    index as int,
                    old(self)@.clusters[index as int].named_by_copy(index as nat),
                ),
                ..old(self)@
            }),
            final(self)@.valid(),
    {
        proof {
            use_type_invariant(&*self);
        }
        let mut run = DedupRun::new();
        std::mem::swap(&mut run, self);
        let DedupRun { mut clusters, non_reproducible, skipped, processed } = run;
        clusters.name_unique_representative(index);
        *self = DedupRun { clusters, non_reproducible, skipped, processed };
    }

    /// The report of the run, which was over `total_files` files.
    pub fn finish(self, total_files: usize) -> (report: DedupReport)
        ensures
            crash_clusters::cluster_views(report.clusters@) == self@.clusters,
            dedup_report::result_views(report.non_reproducible@) == self@.non_reproducible,
            dedup_report::result_views(report.skipped@) == self@.skipped,
            report.summary.total_files == total_files,
            report.summary.unique_clusters == self@.clusters.len(),
            report.summary.reproduced == crash_clusters::total_members(self@.clusters),
            report.summary.non_reproducible == self@.non_reproducible.len(),
            report.summary.skipped == self@.skipped.len(),
            report.summary.reproduced + report.summary.non_reproducible + report.summary.skipped
                == self@.processed,
    {
        proof {
            use_type_invariant(&self);
        }
        DedupReport::new(total_files, self.clusters, self.non_reproducible, self.skipped)
    }
}

/// The view of an outcome is of the same kind, and keeps each of its parts as
/// it is.
pub proof fn law_views_of_outcomes_keep_every_part(outcome: ReplayOutcome)
    ensures
        outcome is NotReproduced <==> outcome@ is NotReproduced,
        outcome matches ReplayOutcome::Unreadable { error } ==> outcome@ == (
        OutcomeView::Unreadable { error: error@ }),
        outcome matches ReplayOutcome::ReplayFailed { error } ==> outcome@ == (
        OutcomeView::ReplayFailed { error: error@ }),
        outcome matches ReplayOutcome::SizeUnknown { error } ==> outcome@ == (
        OutcomeView::SizeUnknown { error: error@ }),
        outcome matches ReplayOutcome::Reproduced { size, crash } ==> outcome@ == (
        OutcomeView::Reproduced { size, crash: crash@ }),
{
}

} // verus!
