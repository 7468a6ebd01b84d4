//! The report of a deduplication run, and what is logged about it.

use crate::crash_clusters;
use crate::crash_clusters::{ClusterView, CrashCluster, CrashClusters};
use crate::file_path::FilePath;
use crate::text;
use crate::text::decimal_text;
use vstd::prelude::*;

verus! {

/// A line of progress is logged after this many crash files.
pub const DEDUP_PROGRESS_INTERVAL: usize = 100;

/// A crash file that is in no cluster, and why.
#[derive(Debug)]
pub struct CrashFileResult {
    pub path: String,
    pub reason: String,
}

/// A crash file and a reason, as sequences.
pub struct FileResultView {
    pub path: Seq<char>,
    pub reason: Seq<char>,
}

impl View for CrashFileResult {
    type V = FileResultView;

    open spec fn view(&self) -> FileResultView {
        FileResultView { path: self.path@, reason: self.reason@ }
    }
}

/// The views of a list of results.
pub open spec fn result_views(results: Seq<CrashFileResult>) -> Seq<FileResultView> {
    results.map_values(|result: CrashFileResult| result@)
}

/// The numbers of a run.
#[derive(Clone, Copy, Debug, PartialEq, Eq)]
pub struct DedupSummary {
    pub total_files: usize,
    pub reproduced: usize,
    pub unique_clusters: usize,
    pub non_reproducible: usize,
    pub skipped: usize,
}

/// What a run found.
#[derive(Debug)]
pub struct DedupReport {
    pub summary: DedupSummary,
    pub clusters: Vec<CrashCluster>,
    pub non_reproducible: Vec<CrashFileResult>,
    pub skipped: Vec<CrashFileResult>,
}

impl DedupReport {
    /// The report of a run over `total_files` files. It lists the clusters in
    /// the order of their keys.
    pub fn new(
        total_files: usize,
        clusters: CrashClusters,
        non_reproducible: Vec<CrashFileResult>,
        skipped: Vec<CrashFileResult>,
    ) -> (report: DedupReport)
        requires
            crash_clusters::total_members(clusters@) <= usize::MAX,
        ensures
            report.summary == (DedupSummary {
                total_files,
                reproduced: crash_clusters::total_members(clusters@) as usize,
                unique_clusters: clusters@.len() as usize,
                non_reproducible: non_reproducible@.len() as usize,
                skipped: skipped@.len() as usize,
            }),
            clusters@.len() <= usize::MAX,
            crash_clusters::cluster_views(report.clusters@) == clusters@,
            crash_clusters::valid_clusters(clusters@),
            report.non_reproducible == non_reproducible,
            report.skipped == skipped,
    {
        let ghost views = clusters@;
        let clusters = clusters.into_values();
        let mut reproduced: usize = 0;
        let mut i: usize = 0;
        while i < clusters.len()
            invariant
                i <= clusters@.len(),
                views == crash_clusters::cluster_views(clusters@),
                crash_clusters::total_members(views) <= usize::MAX,
                reproduced == crash_clusters::total_members(views.take(i as int)),
            decreases clusters@.len() - i,
        {
            proof {
                assert(views.take(i + 1).drop_last() =~= views.take(i as int));
                lemma_total_members_take(views, i + 1);
            }
            reproduced = reproduced + clusters[i].member_count;
            i = i + 1;
        }
        assert(views.take(views.len() as int) =~= views);
        let unique_clusters = clusters.len();
        DedupReport {
            summary: DedupSummary {
                total_files,
                reproduced,
                unique_clusters,
                non_reproducible: non_reproducible.len(),
                skipped: skipped.len(),
            },
            clusters,
            non_reproducible,
            skipped,
        }
    }
}

proof fn lemma_total_members_take(clusters: Seq<ClusterView>, k: int)
    requires
        0 <= k <= clusters.len(),
    ensures
        crash_clusters::total_members(clusters.take(k)) <= crash_clusters::total_members(clusters),
    decreases clusters.len(),
{
    if k == clusters.len() {
        assert(clusters.take(k) =~= clusters);
    } else {
        lemma_total_members_take(clusters.drop_last(), k);
        assert(clusters.drop_last().take(k) =~= clusters.take(k));
    }
}

/// Whether a line of progress is due: after every full interval, but not after
/// the last file.
pub fn should_log_progress(processed: usize, total: usize) -> (due: bool)
    ensures
        due == (processed < total && processed % DEDUP_PROGRESS_INTERVAL == 0),
{
    processed < total && processed % DEDUP_PROGRESS_INTERVAL == 0
}

/// The line of progress.
pub open spec fn progress_line(
    processed: usize,
    total: usize,
    unique_clusters: usize,
    non_reproducible: usize,
    skipped: usize,
) -> Seq<char> {
    "Dedup progress: "@ + text::decimal(processed as nat) + "/"@ + text::decimal(total as nat)
        + " crash files processed, "@ + text::decimal(unique_clusters as nat)
        + " unique clusters, "@ + text::decimal(non_reproducible as nat)
        + " non-reproducible, "@ + text::decimal(skipped as nat) + " skipped"@
}

/// The line of progress to log, if one is due.
pub fn log_progress(
    processed: usize,
    total: usize,
    unique_clusters: usize,
    non_reproducible: usize,
    skipped: usize,
) -> (line: Option<String>)
    ensures
        line is Some <==> processed < total && processed % DEDUP_PROGRESS_INTERVAL == 0,
        line matches Some(text) ==> text@ == progress_line(
            processed,
            total,
            unique_clusters,
            non_reproducible,
            skipped,
        ),
{
    if should_log_progress(processed, total) {
        let mut line = "Dedup progress: ".to_owned();
        line.append(&decimal_text(processed as u64));
        line.append("/");
        line.append(&decimal_text(total as u64));
        line.append(" crash files processed, ");
        line.append(&decimal_text(unique_clusters as u64));
        line.append(" unique clusters, ");
        line.append(&decimal_text(non_reproducible as u64));
        line.append(" non-reproducible, ");
        line.append(&decimal_text(skipped as u64));
        line.append(" skipped");
        Some(line)
    } else {
        None
    }
}

/// The line that closes a run.
pub open spec fn summary_line(summary: DedupSummary, output: Seq<char>) -> Seq<char> {
    "Dedup processed "@ + text::decimal(summary.total_files as nat) + " crash files: "@
        + text::decimal(summary.reproduced as nat) + " reproduced, "@ + text::decimal(
        summary.unique_clusters as nat,
    ) + " unique clusters, "@ + text::decimal(summary.non_reproducible as nat)
        + " non-reproducible, "@ + text::decimal(summary.skipped as nat) + " skipped. Output: "@
        + output
}

/// The line to log at the end of a run.
pub fn log_summary(summary: &DedupSummary, output_directory: &FilePath) -> (line: String)
    ensures
        line@ == summary_line(*summary, output_directory@.text),
{
    let mut line = "Dedup processed ".to_owned();
    line.append(&decimal_text(summary.total_files as u64));
    line.append(" crash files: ");
    line.append(&decimal_text(summary.reproduced as u64));
    line.append(" reproduced, ");
    line.append(&decimal_text(summary.unique_clusters as u64));
    line.append(" unique clusters, ");
    line.append(&decimal_text(summary.non_reproducible as u64));
    line.append(" non-reproducible, ");
    line.append(&decimal_text(summary.skipped as u64));
    line.append(" skipped. Output: ");
    line.append(output_directory.text());
    line
}

/// The pieces of text `pieces`, one behind the other.
pub open spec fn concatenated(pieces: Seq<Seq<char>>) -> Seq<char>
    decreases pieces.len(),
{
    if pieces.len() == 0 {
        Seq::empty()
    } else {
        concatenated(pieces.drop_last()) + pieces.last()
    }
}

/// `line` is made of the first `n` of the pieces.
spec fn made_of(line: Seq<char>, pieces: Seq<Seq<char>>, n: int) -> bool {
    0 <= n <= pieces.len() && line == concatenated(pieces.take(n))
}

proof fn lemma_next_piece(line: Seq<char>, pieces: Seq<Seq<char>>, n: int)
    requires
        made_of(line, pieces, n),
        n < pieces.len(),
    ensures
        made_of(line + pieces[n], pieces, n + 1),
{
    assert(pieces.take(n + 1).drop_last() =~= pieces.take(n));
}

/// The line of progress gives the five numbers in order, each as its numeral
/// and each with its word.
pub proof fn law_progress_lines_give_the_five_numbers(
    processed: usize,
    total: usize,
    unique_clusters: usize,
    non_reproducible: usize,
    skipped: usize,
)
    ensures
        progress_line(processed, total, unique_clusters, non_reproducible, skipped) == concatenated(
            seq![
                "Dedup progress: "@,
                text::decimal(processed as nat),
                "/"@,
                text::decimal(total as nat),
                " crash files processed, "@,
                text::decimal(unique_clusters as nat),
                " unique clusters, "@,
                text::decimal(non_reproducible as nat),
                " non-reproducible, "@,
                text::decimal(skipped as nat),
                " skipped"@,
            ],
        ),
        DEDUP_PROGRESS_INTERVAL == 100,
{
    let pieces = seq![
        "Dedup progress: "@,
        text::decimal(processed as nat),
        "/"@,
        text::decimal(total as nat),
        " crash files processed, "@,
        text::decimal(unique_clusters as nat),
        " unique clusters, "@,
        text::decimal(non_reproducible as nat),
        " non-reproducible, "@,
        text::decimal(skipped as nat),
        " skipped"@,
    ];
    let line = Seq::<char>::empty();
    assert(pieces.take(0) =~= Seq::<Seq<char>>::empty());
    assert(made_of(line, pieces, 0));
    lemma_next_piece(line, pieces, 0);
    let line = "Dedup progress: "@;
    assert(Seq::<char>::empty() + line =~= line);
    lemma_next_piece(line, pieces, 1);
    let line = line + pieces[1];
    lemma_next_piece(line, pieces, 2);
    let line = line + pieces[2];
    lemma_next_piece(line, pieces, 3);
    let line = line + pieces[3];
    lemma_next_piece(line, pieces, 4);
    let line = line + pieces[4];
    lemma_next_piece(line, pieces, 5);
    let line = line + pieces[5];
    lemma_next_piece(line, pieces, 6);
    let line = line + pieces[6];
    lemma_next_piece(line, pieces, 7);
    let line = line + pieces[7];
    lemma_next_piece(line, pieces, 8);
    let line = line + pieces[8];
    lemma_next_piece(line, pieces, 9);
    let line = line + pieces[9];
    lemma_next_piece(line, pieces, 10);
    let line = line + pieces[10];
    assert(pieces.take(11) =~= pieces);
}

/// The line that closes a run gives the five numbers of the summary in order,
/// each as its numeral and each with its word, and then the output directory.
pub proof fn law_summary_lines_give_the_five_numbers(summary: DedupSummary, output: Seq<char>)
    ensures
        summary_line(summary, output) == concatenated(
            seq![
                "Dedup processed "@,
                text::decimal(summary.total_files as nat),
                " crash files: "@,
                text::decimal(summary.reproduced as nat),
                " reproduced, "@,
                text::decimal(summary.unique_clusters as nat),
                " unique clusters, "@,
                text::decimal(summary.non_reproducible as nat),
                " non-reproducible, "@,
                text::decimal(summary.skipped as nat),
                " skipped. Output: "@,
                output,
            ],
        ),
{
    let pieces = seq![
        "Dedup processed "@,
        text::decimal(summary.total_files as nat),
        " crash files: "@,
        text::decimal(summary.reproduced as nat),
        " reproduced, "@,
        text::decimal(summary.unique_clusters as nat),
        " unique clusters, "@,
        text::decimal(summary.non_reproducible as nat),
        " non-reproducible, "@,
        text::decimal(summary.skipped as nat),
        " skipped. Output: "@,
        output,
    ];
    let line = Seq::<char>::empty();
    assert(pieces.take(0) =~= Seq::<Seq<char>>::empty());
    assert(made_of(line, pieces, 0));
    lemma_next_piece(line, pieces, 0);
    let line = "Dedup processed "@;
    assert(Seq::<char>::empty() + line =~= line);
    lemma_next_piece(line, pieces, 1);
    let line = line + pieces[1];
    lemma_next_piece(line, pieces, 2);
    let line = line + pieces[2];
    lemma_next_piece(line, pieces, 3);
    let line = line + pieces[3];
    lemma_next_piece(line, pieces, 4);
    let line = line + pieces[4];
    lemma_next_piece(line, pieces, 5);
    let line = line + pieces[5];
    lemma_next_piece(line, pieces, 6);
    let line = line + pieces[6];
    lemma_next_piece(line, pieces, 7);
    let line = line + pieces[7];
    lemma_next_piece(line, pieces, 8);
    let line = line + pieces[8];
    lemma_next_piece(line, pieces, 9);
    let line = line + pieces[9];
    lemma_next_piece(line, pieces, 10);
    let line = line + pieces[10];
    lemma_next_piece(line, pieces, 11);
    let line = line + pieces[11];
    assert(pieces.take(12) =~= pieces);
}

/// The views of a list of results are those of its results, in order, with
/// their paths and reasons as they are.
pub proof fn law_views_of_results_keep_every_part(results: Seq<CrashFileResult>)
    ensures
        result_views(results).len() == results.len(),
        forall|i: int|
            0 <= i < results.len() ==> (#[trigger] result_views(results)[i]).path
                == results[i].path@ && result_views(results)[i].reason == results[i].reason@,
{
}

} // verus!
