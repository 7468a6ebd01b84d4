//! Whether a directory may take the output of a run, and what is removed there.

use crate::crash_clusters;
use crate::file_path::{FilePath, FilePathView};
use vstd::prelude::*;

verus! {

/// Why a run cannot start.
#[derive(Debug)]
pub enum DirectoryError {
    CrashDirectoryMissing { crash: String },
    CrashPathNotDirectory { crash: String },
    OutputInsideCrashDirectory { output: String, crash: String },
    OutputNotDirectory { output: String },
    OutputNotEmpty { output: String },
}

/// Why a run cannot start, with the paths as sequences.
pub enum DirectoryErrorView {
    CrashDirectoryMissing { crash: Seq<char> },
    CrashPathNotDirectory { crash: Seq<char> },
    OutputInsideCrashDirectory { output: Seq<char>, crash: Seq<char> },
    OutputNotDirectory { output: Seq<char> },
    OutputNotEmpty { output: Seq<char> },
}

impl View for DirectoryError {
    type V = DirectoryErrorView;

    open spec fn view(&self) -> DirectoryErrorView {
        match *self {
            DirectoryError::CrashDirectoryMissing { crash } => {
                DirectoryErrorView::CrashDirectoryMissing { crash: crash@ }
            },
            DirectoryError::CrashPathNotDirectory { crash } => {
                DirectoryErrorView::CrashPathNotDirectory { crash: crash@ }
            },
            DirectoryError::OutputInsideCrashDirectory { output, crash } => {
                DirectoryErrorView::OutputInsideCrashDirectory { output: output@, crash: crash@ }
            },
            DirectoryError::OutputNotDirectory { output } => {
                DirectoryErrorView::OutputNotDirectory { output: output@ }
            },
            DirectoryError::OutputNotEmpty { output } => {
                DirectoryErrorView::OutputNotEmpty { output: output@ }
            },
        }
    }
}

impl DirectoryErrorView {
    /// The message for the user.
    pub open spec fn message(self) -> Seq<char> {
        match self {
            DirectoryErrorView::CrashDirectoryMissing { crash } => {
                "Crash directory "@ + crash + " does not exist"@
            },
            DirectoryErrorView::CrashPathNotDirectory { crash } => {
                "Crash path "@ + crash + " is not a directory"@
            },
            DirectoryErrorView::OutputInsideCrashDirectory { output, crash } => {
                "Output directory "@ + output + " must not be inside or equal to crash directory "@
                    + crash + " because crash collection is recursive"@
            },
            DirectoryErrorView::OutputNotDirectory { output } => {
                "Output path "@ + output + " exists but is not a directory"@
            },
            DirectoryErrorView::OutputNotEmpty { output } => {
                "Output directory "@ + output
                    + " already exists and is not empty; use --force to overwrite previous dedup output"@
            },
        }
    }
}

fn around(before: &str, path: &str, after: &str) -> (text: String)
    ensures
        text@ == before@ + path@ + after@,
{
    let mut text = before.to_owned();
    text.append(path);
    text.append(after);
    text
}

impl DirectoryError {
    /// The message for the user.
    pub fn to_string(&self) -> (message: String)
        ensures
            message@ == self@.message(),
    {
        match self {
            DirectoryError::CrashDirectoryMissing { crash } => {
                around("Crash directory ", crash, " does not exist")
            },
            DirectoryError::CrashPathNotDirectory { crash } => {
                around("Crash path ", crash, " is not a directory")
            },
            DirectoryError::OutputInsideCrashDirectory { output, crash } => {
                let mut message = around(
                    "Output directory ",
                    output,
                    " must not be inside or equal to crash directory ",
                );
                message.append(crash);
                message.append(" because crash collection is recursive");
                message
            },
            DirectoryError::OutputNotDirectory { output } => {
                around("Output path ", output, " exists but is not a directory")
            },
            DirectoryError::OutputNotEmpty { output } => {
                around(
                    "Output directory ",
                    output,
                    " already exists and is not empty; use --force to overwrite previous dedup output",
                )
            },
        }
    }
}

/// Accepts a crash path that exists and is a directory.
pub fn ensure_crash_directory(crash_directory: &FilePath, exists: bool, is_dir: bool) -> (result:
    Result<(), DirectoryError>)
    ensures
        result is Ok <==> exists && is_dir,
        result matches Err(error) ==> error@ == (if !exists {
            DirectoryErrorView::CrashDirectoryMissing { crash: crash_directory@.text }
        } else {
            DirectoryErrorView::CrashPathNotDirectory { crash: crash_directory@.text }
        }),
{
    if !exists {
        return Err(
            DirectoryError::CrashDirectoryMissing { crash: crash_directory.text().to_owned() },
        );
    }
    if !is_dir {
        return Err(
            DirectoryError::CrashPathNotDirectory { crash: crash_directory.text().to_owned() },
        );
    }
    Ok(())
}

/// What is known of the entries of a directory.
#[derive(Clone, Copy, Debug, PartialEq, Eq, Structural)]
pub enum Listing {
    Unread,
    Empty,
    NotEmpty,
}

/// What stands at the output path.
#[derive(Clone, Copy, Debug, PartialEq, Eq, Structural)]
pub enum OutputEntry {
    Missing,
    NotDirectory,
    Directory(Listing),
}

impl OutputEntry {
    /// What stands at a path that exists or not and is a directory or not.
    /// The directory has not been read.
    pub fn observe(exists: bool, is_dir: bool) -> (entry: OutputEntry)
        ensures
            entry == (if !exists {
                OutputEntry::Missing
            } else if !is_dir {
                OutputEntry::NotDirectory
            } else {
                OutputEntry::Directory(Listing::Unread)
            }),
    {
        if !exists {
            OutputEntry::Missing
        } else if !is_dir {
            OutputEntry::NotDirectory
        } else {
            OutputEntry::Directory(Listing::Unread)
        }
    }

    /// A directory that has been read, and has no entries or some.
    pub fn listed(is_empty: bool) -> (entry: OutputEntry)
        ensures
            entry == OutputEntry::Directory(
                if is_empty {
                    Listing::Empty
                } else {
                    Listing::NotEmpty
                },
            ),
    {
        if is_empty {
            OutputEntry::Directory(Listing::Empty)
        } else {
            OutputEntry::Directory(Listing::NotEmpty)
        }
    }
}

/// What is to be done about the output path next.
#[derive(Debug)]
pub enum Preparation {
    /// The run cannot start.
    Refuse(DirectoryError),
    /// Whether the directory has entries has to be found out first.
    ReadListing,
    /// The directory is to be created where it is missing, and these entries of
    /// it are to be removed.
    Create { remove: Vec<String> },
}

/// What is to be done next, with its text as sequences.
pub enum PreparationView {
    Refuse(DirectoryErrorView),
    ReadListing,
    Create { remove: Seq<Seq<char>> },
}

impl View for Preparation {
    type V = PreparationView;

    open spec fn view(&self) -> PreparationView {
        match *self {
            Preparation::Refuse(error) => PreparationView::Refuse(error@),
            Preparation::ReadListing => PreparationView::ReadListing,
            Preparation::Create { remove } => PreparationView::Create {
                remove: crash_clusters::texts(remove@),
            },
        }
    }
}

/// The entries that a run writes into the output directory.
pub open spec fn dedup_outputs() -> Seq<Seq<char>> {
    seq!["clusters.json"@, "unique"@]
}

/// What is to be done about the output path: it must not lie in the crash
/// directory; it must be free, or a directory; and without `force` that
/// directory must be empty. With `force`, earlier output is removed.
pub open spec fn preparation(
    crash: FilePathView,
    output: FilePathView,
    entry: OutputEntry,
    force: bool,
) -> PreparationView {
    if output.starts_with(crash) {
        PreparationView::Refuse(
            DirectoryErrorView::OutputInsideCrashDirectory {
                output: output.text,
                crash: crash.text,
            },
        )
    } else if entry is NotDirectory {
        PreparationView::Refuse(DirectoryErrorView::OutputNotDirectory { output: output.text })
    } else if force {
        PreparationView::Create { remove: dedup_outputs() }
    } else if entry == OutputEntry::Directory(Listing::Unread) {
        PreparationView::ReadListing
    } else if entry == OutputEntry::Directory(Listing::NotEmpty) {
        PreparationView::Refuse(DirectoryErrorView::OutputNotEmpty { output: output.text })
    } else {
        PreparationView::Create { remove: Seq::empty() }
    }
}

/// What is to be done about the output path. Both paths are absolute.
pub fn prepare_output_directory(
    crash_directory: &FilePath,
    output_directory: &FilePath,
    entry: OutputEntry,
    force: bool,
) -> (next: Preparation)
    ensures
        next@ == preparation(crash_directory@, output_directory@, entry, force),
{
    if output_directory.starts_with(crash_directory) {
        return Preparation::Refuse(
            DirectoryError::OutputInsideCrashDirectory {
                output: output_directory.text().to_owned(),
                crash: crash_directory.text().to_owned(),
            },
        );
    }
    match entry {
        OutputEntry::NotDirectory => {
            return Preparation::Refuse(
                DirectoryError::OutputNotDirectory { output: output_directory.text().to_owned() },
            );
        },
        OutputEntry::Directory(listing) => {
            if !force {
                match listing {
                    Listing::Unread => {
                        return Preparation::ReadListing;
                    },
                    Listing::NotEmpty => {
                        return Preparation::Refuse(
                            DirectoryError::OutputNotEmpty {
                                output: output_directory.text().to_owned(),
                            },
                        );
                    },
                    Listing::Empty => {},
                }
            }
        },
        OutputEntry::Missing => {},
    }
    let mut remove: Vec<String> = Vec::new();
    if force {
        remove.push("clusters.json".to_owned());
        remove.push("unique".to_owned());
        assert(crash_clusters::texts(remove@) =~= dedup_outputs());
    } else {
        assert(crash_clusters::texts(remove@) =~= Seq::empty());
    }
    Preparation::Create { remove }
}

/// How an entry is removed.
#[derive(Clone, Copy, Debug, PartialEq, Eq, Structural)]
pub enum Removal {
    /// There is nothing to remove.
    Nothing,
    /// A single file.
    File,
    /// A directory with all that is in it.
    Tree,
}

/// How an entry is removed, if it exists.
pub fn remove_if_exists(is_dir: bool, exists: bool) -> (removal: Removal)
    ensures
        removal == (if is_dir {
            Removal::Tree
        } else if exists {
            Removal::File
        } else {
            Removal::Nothing
        }),
{
    if is_dir {
        Removal::Tree
    } else if exists {
        Removal::File
    } else {
        Removal::Nothing
    }
}

/// A run never writes into the directory that it collects crashes from.
pub proof fn law_output_stays_out_of_crashes(
    crash: FilePathView,
    output: FilePathView,
    entry: OutputEntry,
    force: bool,
)
    ensures
        output.starts_with(crash) ==> preparation(crash, output, entry, force) is Refuse,
        crash.parts == output.parts ==> preparation(crash, output, entry, force) is Refuse,
{
    assert(output.parts.take(output.parts.len() as int) =~= output.parts);
}

/// Without `force` nothing is removed, and a directory with entries is refused.
pub proof fn law_no_removal_without_force(
    crash: FilePathView,
    output: FilePathView,
    entry: OutputEntry,
)
    ensures
        preparation(crash, output, entry, false) matches PreparationView::Create { remove }
            ==> remove.len() == 0 && entry != OutputEntry::Directory(Listing::NotEmpty),
        entry == OutputEntry::Directory(Listing::NotEmpty) ==> preparation(
            crash,
            output,
            entry,
            false,
        ) is Refuse,
{
}

/// With `force` nothing but the output of an earlier run is removed, whatever
/// else the directory holds.
pub proof fn law_force_removes_earlier_output_only(
    crash: FilePathView,
    output: FilePathView,
    entry: OutputEntry,
)
    ensures
        preparation(crash, output, entry, true) matches PreparationView::Create { remove }
            ==> remove == dedup_outputs(),
        preparation(crash, output, entry, true) is Refuse <==> output.starts_with(crash)
            || entry is NotDirectory,
{
}

/// Once the listing is read, the answer is final.
pub proof fn law_listing_settles_the_matter(
    crash: FilePathView,
    output: FilePathView,
    listing: Listing,
    force: bool,
)
    requires
        listing != Listing::Unread,
    ensures
        !(preparation(crash, output, OutputEntry::Directory(listing), force) is ReadListing),
{
}

/// An output path in the crash directory is refused with both paths, whatever
/// stands there and whatever is forced; any other path at which something
/// stands that is no directory is refused with that path.
pub proof fn law_refusals_name_the_paths(
    crash: FilePathView,
    output: FilePathView,
    entry: OutputEntry,
    force: bool,
)
    ensures
        output.starts_with(crash) <==> preparation(crash, output, entry, force)
            == PreparationView::Refuse(
            DirectoryErrorView::OutputInsideCrashDirectory {
                output: output.text,
                crash: crash.text,
            },
        ),
        !output.starts_with(crash) ==> preparation(crash, output, OutputEntry::NotDirectory, force)
            == PreparationView::Refuse(
            DirectoryErrorView::OutputNotDirectory { output: output.text },
        ),
        !output.starts_with(crash) ==> preparation(
            crash,
            output,
            OutputEntry::Directory(Listing::NotEmpty),
            false,
        ) == PreparationView::Refuse(DirectoryErrorView::OutputNotEmpty { output: output.text }),
{
}

/// Outside the crash directory, a free path and an empty directory are taken
/// without `force` and without removing anything; and `force` takes every
/// directory.
pub proof fn law_free_paths_and_empty_directories_are_taken(
    crash: FilePathView,
    output: FilePathView,
    listing: Listing,
)
    requires
        !output.starts_with(crash),
    ensures
        preparation(crash, output, OutputEntry::Missing, false) == (PreparationView::Create {
            remove: Seq::empty(),
        }),
        preparation(crash, output, OutputEntry::Directory(Listing::Empty), false) == (
        PreparationView::Create { remove: Seq::empty() }),
        preparation(crash, output, OutputEntry::Directory(Listing::Unread), false)
            is ReadListing,
        preparation(crash, output, OutputEntry::Missing, true) is Create,
        preparation(crash, output, OutputEntry::Directory(listing), true) is Create,
{
}

/// With `force` the report and the copies of an earlier run are removed, each
/// once, and nothing else.
pub proof fn law_force_removes_the_report_and_the_copies(
    crash: FilePathView,
    output: FilePathView,
    entry: OutputEntry,
    name: Seq<char>,
)
    ensures
        preparation(crash, output, entry, true) matches PreparationView::Create { remove } ==> {
            &&& remove.len() == 2
            &&& remove.contains(name) <==> name == "clusters.json"@ || name == "unique"@
        },
{
    let outputs = dedup_outputs();
    assert(outputs[0] == "clusters.json"@);
    assert(outputs[1] == "unique"@);
    if name == "clusters.json"@ {
        assert(outputs.contains(name));
    }
    if name == "unique"@ {
        assert(outputs.contains(name));
    }
}

/// A message says what is wrong with words that are the same for all paths, and
/// holds each path in full at its place.
pub proof fn law_messages_hold_the_paths(crash: Seq<char>, output: Seq<char>)
    ensures
        is_around(
            (DirectoryErrorView::CrashDirectoryMissing { crash }).message(),
            "Crash directory "@,
            crash,
            " does not exist"@,
        ),
        is_around(
            (DirectoryErrorView::CrashPathNotDirectory { crash }).message(),
            "Crash path "@,
            crash,
            " is not a directory"@,
        ),
        is_around(
            (DirectoryErrorView::OutputInsideCrashDirectory { output, crash }).message(),
            "Output directory "@,
            output,
            " must not be inside or equal to crash directory "@ + crash
                + " because crash collection is recursive"@,
        ),
        is_around(
            (DirectoryErrorView::OutputNotDirectory { output }).message(),
            "Output path "@,
            output,
            " exists but is not a directory"@,
        ),
        is_around(
            (DirectoryErrorView::OutputNotEmpty { output }).message(),
            "Output directory "@,
            output,
            " already exists and is not empty; use --force to overwrite previous dedup output"@,
        ),
{
    let inside = (DirectoryErrorView::OutputInsideCrashDirectory { output, crash }).message();
    let before = "Output directory "@;
    let between = " must not be inside or equal to crash directory "@;
    let after = " because crash collection is recursive"@;
    assert(inside == before + output + between + crash + after);
    assert(inside =~= before + output + (between + crash + after));
    lemma_around("Crash directory "@, crash, " does not exist"@);
    lemma_around("Crash path "@, crash, " is not a directory"@);
    lemma_around(before, output, between + crash + after);
    lemma_around("Output path "@, output, " exists but is not a directory"@);
    lemma_around(
        before,
        output,
        " already exists and is not empty; use --force to overwrite previous dedup output"@,
    );
}

/// `message` is `path` with `before` in front of it and `after` behind it.
pub open spec fn is_around(
    message: Seq<char>,
    before: Seq<char>,
    path: Seq<char>,
    after: Seq<char>,
) -> bool {
    &&& message.len() == before.len() + path.len() + after.len()
    &&& message.take(before.len() as int) == before
    &&& message.subrange(before.len() as int, (before.len() + path.len()) as int) == path
    &&& message.skip((before.len() + path.len()) as int) == after
}

proof fn lemma_around(before: Seq<char>, path: Seq<char>, after: Seq<char>)
    ensures
        is_around(before + path + after, before, path, after),
{
    let message = before + path + after;
    let m = before.len() as int;
    let n = m + path.len();
    assert(message.take(m) =~= before);
    assert(message.subrange(m, n) =~= path);
    assert(message.skip(n) =~= after);
}

/// The view of what is to be done is of the same kind, and keeps the paths and
/// names as they are.
pub proof fn law_views_of_preparations_keep_every_part(next: Preparation)
    ensures
        next is ReadListing <==> next@ is ReadListing,
        next matches Preparation::Create { remove } ==> next@ is Create && next@->remove.len()
            == remove@.len() && forall|i: int|
            0 <= i < remove@.len() ==> #[trigger] next@->remove[i] == remove@[i]@,
        next matches Preparation::Refuse(error) ==> next@ == PreparationView::Refuse(error@),
{
}

/// The view of a refusal is of the same kind, and keeps the paths as they are.
pub proof fn law_views_of_refusals_keep_every_path(error: DirectoryError)
    ensures
        error matches DirectoryError::CrashDirectoryMissing { crash } ==> error@ == (
        DirectoryErrorView::CrashDirectoryMissing { crash: crash@ }),
        error matches DirectoryError::CrashPathNotDirectory { crash } ==> error@ == (
        DirectoryErrorView::CrashPathNotDirectory { crash: crash@ }),
        error matches DirectoryError::OutputInsideCrashDirectory { output, crash } ==> error@ == (
        DirectoryErrorView::OutputInsideCrashDirectory { output: output@, crash: crash@ }),
        error matches DirectoryError::OutputNotDirectory { output } ==> error@ == (
        DirectoryErrorView::OutputNotDirectory { output: output@ }),
        error matches DirectoryError::OutputNotEmpty { output } ==> error@ == (
        DirectoryErrorView::OutputNotEmpty { output: output@ }),
{
}

} // verus!
