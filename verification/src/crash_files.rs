//! Which of the entries of a crash directory are crash inputs, and in which
//! order they are worked through.

use crate::file_path;
use crate::file_path::{is_crash_input_file, relate_paths, FilePath, FilePathView, PathPartView};
use crate::order::Relation;
use vstd::prelude::*;

verus! {

/// An entry below the crash directory.
#[derive(Debug)]
pub struct WalkEntry {
    pub path: FilePath,
    /// Whether the entry is a regular file.
    pub is_file: bool,
}

/// The entry is a crash input.
pub open spec fn is_listed(entry: WalkEntry) -> bool {
    entry.is_file && entry.path@.is_crash_input()
}

/// The paths of the crash inputs among `entries`, in the order of the walk.
pub open spec fn listed(entries: Seq<WalkEntry>) -> Seq<FilePathView> {
    entries.filter(|entry: WalkEntry| is_listed(entry)).map_values(|entry: WalkEntry| entry.path@)
}

/// `sorted` with `path` put in behind every path that is not greater.
pub open spec fn sorted_insert(sorted: Seq<FilePathView>, path: FilePathView) -> Seq<FilePathView>
    decreases sorted.len(),
{
    if sorted.len() == 0 || !file_path::path_less(path, sorted.last()) {
        sorted.push(path)
    } else {
        sorted_insert(sorted.drop_last(), path).push(sorted.last())
    }
}

/// `paths`, sorted; equal ones keep their order.
pub open spec fn sorted_paths(paths: Seq<FilePathView>) -> Seq<FilePathView>
    decreases paths.len(),
{
    if paths.len() == 0 {
        paths
    } else {
        sorted_insert(sorted_paths(paths.drop_last()), paths.last())
    }
}

/// No path stands before a smaller one.
pub open spec fn ascending(paths: Seq<FilePathView>) -> bool {
    forall|i: int, j: int|
        0 <= i < j < paths.len() ==> !file_path::path_less(#[trigger] paths[j], #[trigger] paths[i])
}

/// Every path stands before a greater one.
pub open spec fn strictly_ascending(paths: Seq<FilePathView>) -> bool {
    forall|i: int, j: int|
        0 <= i < j < paths.len() ==> file_path::path_less(#[trigger] paths[i], #[trigger] paths[j])
}

/// No two paths have the same components.
pub open spec fn all_different(paths: Seq<FilePathView>) -> bool {
    forall|i: int, j: int|
        0 <= i < j < paths.len() ==> (#[trigger] paths[i]).parts != (#[trigger] paths[j]).parts
}

/// The paths of `entries`, in the order of the walk.
pub open spec fn paths_of(entries: Seq<WalkEntry>) -> Seq<FilePathView> {
    entries.map_values(|entry: WalkEntry| entry.path@)
}

proof fn lemma_insert_at(sorted: Seq<FilePathView>, path: FilePathView, k: int)
    requires
        0 <= k <= sorted.len(),
        forall|i: int| 0 <= i < k ==> !file_path::path_less(path, #[trigger] sorted[i]),
        forall|i: int| k <= i < sorted.len() ==> file_path::path_less(path, #[trigger] sorted[i]),
    ensures
        sorted_insert(sorted, path) == sorted.insert(k, path),
    decreases sorted.len(),
{
    if k == sorted.len() {
        assert(sorted.insert(k, path) =~= sorted.push(path));
    } else {
        lemma_insert_at(sorted.drop_last(), path, k);
        assert(sorted.drop_last().insert(k, path).push(sorted.last()) =~= sorted.insert(k, path));
    }
}

proof fn lemma_less_than_later(a: FilePathView, b: FilePathView, c: FilePathView)
    requires
        file_path::path_less(a, b),
        !file_path::path_less(c, b),
    ensures
        file_path::path_less(a, c),
{
    file_path::lemma_path_less_total(b, c);
    if file_path::path_less(b, c) {
        file_path::lemma_path_less_transitive(a, b, c);
    }
}

proof fn lemma_insert_keeps_ascending(sorted: Seq<FilePathView>, path: FilePathView)
    requires
        ascending(sorted),
    ensures
        ascending(sorted_insert(sorted, path)),
        forall|i: int|
            0 <= i < sorted_insert(sorted, path).len() ==> sorted.contains(
                #[trigger] sorted_insert(sorted, path)[i],
            ) || sorted_insert(sorted, path)[i] == path,
    decreases sorted.len(),
{
    let result = sorted_insert(sorted, path);
    if sorted.len() == 0 {
    } else if !file_path::path_less(path, sorted.last()) {
        assert forall|i: int, j: int| 0 <= i < j < result.len() implies !file_path::path_less(
            #[trigger] result[j],
            #[trigger] result[i],
        ) by {
            if j == sorted.len() && i < sorted.len() - 1 && file_path::path_less(path, sorted[i]) {
                lemma_less_than_later(path, sorted[i], sorted.last());
            }
        }
        assert forall|i: int| 0 <= i < result.len() implies sorted.contains(#[trigger] result[i])
            || result[i] == path by {
            if i < sorted.len() {
                assert(result[i] == sorted[i]);
            }
        }
    } else {
        let front = sorted.drop_last();
        let inner = sorted_insert(front, path);
        lemma_insert_keeps_ascending(front, path);
        assert forall|i: int| 0 <= i < inner.len() implies !file_path::path_less(
            sorted.last(),
            #[trigger] inner[i],
        ) by {
            if inner[i] == path {
                file_path::lemma_path_less_asymmetric(path, sorted.last());
            } else {
                let k = choose|k: int| 0 <= k < front.len() && front[k] == inner[i];
                assert(sorted[k] == inner[i]);
            }
        }
        assert forall|i: int| 0 <= i < result.len() implies sorted.contains(#[trigger] result[i])
            || result[i] == path by {
            if i < inner.len() && result[i] != path {
                let k = choose|k: int| 0 <= k < front.len() && front[k] == inner[i];
                assert(sorted[k] == result[i]);
            } else if i == inner.len() {
                assert(result[i] == sorted[sorted.len() - 1]);
            }
        }
    }
}

/// The listing is in ascending order.
pub proof fn law_listing_is_ascending(paths: Seq<FilePathView>)
    ensures
        ascending(sorted_paths(paths)),
    decreases paths.len(),
{
    if paths.len() > 0 {
        law_listing_is_ascending(paths.drop_last());
        lemma_insert_keeps_ascending(sorted_paths(paths.drop_last()), paths.last());
    }
}

proof fn lemma_insert_multiset(sorted: Seq<FilePathView>, path: FilePathView)
    ensures
        sorted_insert(sorted, path).to_multiset() == sorted.to_multiset().insert(path),
    decreases sorted.len(),
{
    broadcast use vstd::seq_lib::group_to_multiset_ensures;

    if sorted.len() == 0 || !file_path::path_less(path, sorted.last()) {
    } else {
        lemma_insert_multiset(sorted.drop_last(), path);
        assert(sorted =~= sorted.drop_last().push(sorted.last()));
        assert(sorted_insert(sorted, path).to_multiset() =~= sorted.to_multiset().insert(path));
    }
}

/// Sorting loses no path and makes none up.
pub proof fn law_listing_is_a_permutation(paths: Seq<FilePathView>)
    ensures
        sorted_paths(paths).to_multiset() == paths.to_multiset(),
    decreases paths.len(),
{
    broadcast use vstd::seq_lib::group_to_multiset_ensures;

    if paths.len() > 0 {
        law_listing_is_a_permutation(paths.drop_last());
        lemma_insert_multiset(sorted_paths(paths.drop_last()), paths.last());
        assert(paths =~= paths.drop_last().push(paths.last()));
    }
}

proof fn lemma_insert_keeps_different(sorted: Seq<FilePathView>, path: FilePathView)
    requires
        all_different(sorted),
        forall|i: int| 0 <= i < sorted.len() ==> (#[trigger] sorted[i]).parts != path.parts,
    ensures
        all_different(sorted_insert(sorted, path)),
    decreases sorted.len(),
{
    if sorted.len() > 0 && file_path::path_less(path, sorted.last()) {
        let front = sorted.drop_last();
        let inner = sorted_insert(front, path);
        lemma_insert_keeps_different(front, path);
        lemma_insert_multiset(front, path);
        front.to_multiset_ensures();
        inner.to_multiset_ensures();
        assert forall|i: int| 0 <= i < inner.len() implies (#[trigger] inner[i]).parts
            != sorted.last().parts by {
            assert(inner.contains(inner[i]));
            assert(inner.to_multiset().count(inner[i]) > 0);
            if inner[i] != path {
                assert(front.to_multiset().count(inner[i]) > 0);
                assert(front.contains(inner[i]));
                let k = choose|k: int| 0 <= k < front.len() && front[k] == inner[i];
                assert(sorted[k] == inner[i]);
            }
        }
    }
}

proof fn lemma_sorting_keeps_different(paths: Seq<FilePathView>)
    requires
        all_different(paths),
    ensures
        all_different(sorted_paths(paths)),
    decreases paths.len(),
{
    if paths.len() > 0 {
        let front = paths.drop_last();
        let sorted = sorted_paths(front);
        lemma_sorting_keeps_different(front);
        law_listing_is_a_permutation(front);
        front.to_multiset_ensures();
        sorted.to_multiset_ensures();
        assert forall|i: int| 0 <= i < sorted.len() implies (#[trigger] sorted[i]).parts
            != paths.last().parts by {
            assert(sorted.contains(sorted[i]));
            assert(front.to_multiset().count(sorted[i]) > 0);
            let k = choose|k: int| 0 <= k < front.len() && front[k] == sorted[i];
            assert(paths[k] == sorted[i]);
        }
        lemma_insert_keeps_different(sorted, paths.last());
    }
}

proof fn lemma_listed_among(entries: Seq<WalkEntry>)
    ensures
        forall|i: int|
            0 <= i < listed(entries).len() ==> paths_of(entries).contains(
                #[trigger] listed(entries)[i],
            ),
        all_different(paths_of(entries)) ==> all_different(listed(entries)),
    decreases entries.len(),
{
    reveal(Seq::filter);
    if entries.len() > 0 {
        let front = entries.drop_last();
        let last = entries.last();
        lemma_listed_among(front);
        assert(paths_of(front) =~= paths_of(entries).drop_last());
        assert(paths_of(entries).last() == last.path@);
        if is_listed(last) {
            assert(listed(entries) =~= listed(front).push(last.path@));
        } else {
            assert(listed(entries) =~= listed(front));
        }
        assert forall|i: int| 0 <= i < listed(entries).len() implies paths_of(entries).contains(
            #[trigger] listed(entries)[i],
        ) by {
            if i < listed(front).len() {
                assert(paths_of(front).contains(listed(front)[i]));
                let k = choose|k: int|
                    0 <= k < paths_of(front).len() && paths_of(front)[k] == listed(front)[i];
                assert(paths_of(entries)[k] == listed(entries)[i]);
            } else {
                assert(paths_of(entries)[entries.len() - 1] == listed(entries)[i]);
            }
        }
        if all_different(paths_of(entries)) {
            assert forall|i: int, j: int| 0 <= i < j < listed(entries).len() implies (
            #[trigger] listed(entries)[i]).parts != (#[trigger] listed(entries)[j]).parts by {
                if j == listed(front).len() {
                    assert(paths_of(front).contains(listed(front)[i]));
                    let k = choose|k: int|
                        0 <= k < paths_of(front).len() && paths_of(front)[k] == listed(front)[i];
                    assert(paths_of(entries)[k] == listed(entries)[i]);
                    assert(paths_of(entries)[entries.len() - 1] == listed(entries)[j]);
                }
            }
        }
    }
}

/// Where no two entries have the same components, the listing ascends strictly,
/// so nothing is listed twice.
pub proof fn law_different_entries_are_listed_once(entries: Seq<WalkEntry>)
    requires
        all_different(paths_of(entries)),
    ensures
        strictly_ascending(sorted_paths(listed(entries))),
        sorted_paths(listed(entries)).no_duplicates(),
{
    let sorted = sorted_paths(listed(entries));
    lemma_listed_among(entries);
    lemma_sorting_keeps_different(listed(entries));
    law_listing_is_ascending(listed(entries));
    assert forall|i: int, j: int| 0 <= i < j < sorted.len() implies file_path::path_less(
        #[trigger] sorted[i],
        #[trigger] sorted[j],
    ) by {
        file_path::lemma_path_less_total(sorted[i], sorted[j]);
    }
}

/// The paths with the components `parts`.
pub open spec fn same_parts(paths: Seq<FilePathView>, parts: Seq<PathPartView>) -> Seq<
    FilePathView,
> {
    paths.filter(|path: FilePathView| path.parts == parts)
}

proof fn lemma_insert_same_parts(
    sorted: Seq<FilePathView>,
    path: FilePathView,
    parts: Seq<PathPartView>,
)
    ensures
        same_parts(sorted_insert(sorted, path), parts) == (if path.parts == parts {
            same_parts(sorted, parts).push(path)
        } else {
            same_parts(sorted, parts)
        }),
    decreases sorted.len(),
{
    reveal(Seq::filter);
    if sorted.len() == 0 || !file_path::path_less(path, sorted.last()) {
        assert(sorted.push(path).drop_last() =~= sorted);
    } else {
        file_path::lemma_path_less_asymmetric(path, sorted.last());
        lemma_insert_same_parts(sorted.drop_last(), path, parts);
        let inner = sorted_insert(sorted.drop_last(), path);
        assert(inner.push(sorted.last()).drop_last() =~= inner);
    }
}

/// Paths with the same components keep the order of the walk.
pub proof fn law_listing_is_stable(paths: Seq<FilePathView>, parts: Seq<PathPartView>)
    ensures
        same_parts(sorted_paths(paths), parts) == same_parts(paths, parts),
    decreases paths.len(),
{
    reveal(Seq::filter);
    if paths.len() > 0 {
        law_listing_is_stable(paths.drop_last(), parts);
        lemma_insert_same_parts(sorted_paths(paths.drop_last()), paths.last(), parts);
    }
}

/// Some entry with the path `path` is a crash input.
pub open spec fn is_listed_path(entries: Seq<WalkEntry>, path: FilePathView) -> bool {
    exists|i: int|
        0 <= i < entries.len() && is_listed(#[trigger] entries[i]) && entries[i].path@ == path
}

/// The listing holds the paths of the crash inputs, and no others: no
/// directories, no hidden files and no metadata.
pub proof fn law_listing_holds_the_crash_inputs(entries: Seq<WalkEntry>, path: FilePathView)
    ensures
        sorted_paths(listed(entries)).contains(path) <==> is_listed_path(entries, path),
{
    law_listing_is_a_permutation(listed(entries));
    listed(entries).to_multiset_ensures();
    sorted_paths(listed(entries)).to_multiset_ensures();
    assert(listed(entries).contains(path) <==> listed(entries).to_multiset().count(path) > 0);
    assert(sorted_paths(listed(entries)).contains(path) <==> sorted_paths(
        listed(entries),
    ).to_multiset().count(path) > 0);
    let keep = |entry: WalkEntry| is_listed(entry);
    let kept = entries.filter(keep);
    if is_listed_path(entries, path) {
        let i = choose|i: int|
            0 <= i < entries.len() && is_listed(#[trigger] entries[i]) && entries[i].path@ == path;
        entries.lemma_filter_contains(keep, i);
        let k = choose|k: int| 0 <= k < kept.len() && kept[k] == entries[i];
        assert(listed(entries)[k] == path);
    }
    if listed(entries).contains(path) {
        let k = choose|k: int| 0 <= k < listed(entries).len() && listed(entries)[k] == path;
        entries.lemma_filter_pred(keep, k);
        assert(kept.contains(kept[k]));
        entries.lemma_filter_contains_rev(keep, kept[k]);
        let i = choose|i: int| 0 <= i < entries.len() && entries[i] == kept[k];
        assert(is_listed(entries[i]));
    }
}

/// The crash inputs among `entries`, sorted by path.
pub fn select_crash_files(entries: Vec<WalkEntry>) -> (files: Vec<FilePath>)
    ensures
        files@.map_values(|file: FilePath| file@) == sorted_paths(listed(entries@)),
        ascending(files@.map_values(|file: FilePath| file@)),
        all_different(paths_of(entries@)) ==> strictly_ascending(
            files@.map_values(|file: FilePath| file@),
        ),
{
    let ghost view = |file: FilePath| file@;
    let mut files: Vec<FilePath> = Vec::new();
    assert(files@.map_values(view) =~= sorted_paths(listed(entries@.take(0))));
    let mut i: usize = 0;
    while i < entries.len()
        invariant
            i <= entries@.len(),
            view == (|file: FilePath| file@),
            files@.map_values(view) == sorted_paths(listed(entries@.take(i as int))),
        decreases entries@.len() - i,
    {
        let entry = &entries[i];
        let ghost before = entries@.take(i as int);
        let ghost after = entries@.take(i + 1);
        proof {
            assert(after.drop_last() =~= before);
            assert(after.last() == *entry);
            reveal(Seq::filter);
        }
        if entry.is_file && is_crash_input_file(&entry.path) {
            let ghost old_files = files@;
            let ghost sorted = files@.map_values(view);
            proof {
                law_listing_is_ascending(listed(before));
                assert(listed(after).drop_last() =~= listed(before));
                assert(listed(after).last() == entry.path@);
            }
            let mut low: usize = 0;
            let mut high: usize = files.len();
            while low < high
                invariant
                    low <= high <= files@.len(),
                    files@ == old_files,
                    view == (|file: FilePath| file@),
                    sorted == files@.map_values(view),
                    ascending(sorted),
                    forall|k: int|
                        0 <= k < low ==> !file_path::path_less(entry.path@, #[trigger] sorted[k]),
                    forall|k: int|
                        high <= k < files@.len() ==> file_path::path_less(
                            entry.path@,
                            #[trigger] sorted[k],
                        ),
                decreases high - low,
            {
                let middle = low + (high - low) / 2;
                match relate_paths(&entry.path, &files[middle]) {
                    Relation::Less => {
                        assert forall|k: int| middle <= k < files@.len() implies
                            file_path::path_less(entry.path@, #[trigger] sorted[k]) by {
                            if k > middle {
                                lemma_less_than_later(
                                    entry.path@,
                                    sorted[middle as int],
                                    sorted[k],
                                );
                            }
                        }
                        high = middle;
                    },
                    _ => {
                        assert forall|k: int| 0 <= k <= middle implies !file_path::path_less(
                            entry.path@,
                            #[trigger] sorted[k],
                        ) by {
                            if k < middle && file_path::path_less(entry.path@, sorted[k]) {
                                lemma_less_than_later(
                                    entry.path@,
                                    sorted[k],
                                    sorted[middle as int],
                                );
                            }
                        }
                        low = middle + 1;
                    },
                }
            }
            files.insert(low, entry.path.clone());
            proof {
                lemma_insert_at(sorted, entry.path@, low as int);
                assert(files@.map_values(view) =~= sorted.insert(low as int, entry.path@));
            }
        } else {
            assert(listed(after) =~= listed(before));
        }
        i = i + 1;
    }
    assert(entries@.take(entries@.len() as int) =~= entries@);
    proof {
        law_listing_is_ascending(listed(entries@));
        if all_different(paths_of(entries@)) {
            law_different_entries_are_listed_once(entries@);
        }
    }
    files
}

/// An entry is listed exactly where it is a regular file whose name is that of
/// a crash input, whatever else was walked; entries are judged one by one, and
/// none is lost or added.
pub proof fn law_entries_are_listed_one_by_one(
    a: Seq<WalkEntry>,
    b: Seq<WalkEntry>,
    entry: WalkEntry,
)
    ensures
        listed(a + b) == listed(a) + listed(b),
        entry.is_file && entry.path@.is_crash_input() ==> listed(seq![entry]) == seq![entry.path@],
        !entry.is_file || !entry.path@.is_crash_input() ==> listed(seq![entry]).len() == 0,
        listed(Seq::<WalkEntry>::empty()).len() == 0,
    decreases b.len(),
{
    reveal(Seq::filter);
    reveal_with_fuel(Seq::filter, 2);
    assert(seq![entry].drop_last() =~= Seq::<WalkEntry>::empty());
    assert(seq![entry].last() == entry);
    assert(listed(Seq::<WalkEntry>::empty()) =~= Seq::<FilePathView>::empty());
    if is_listed(entry) {
        assert(listed(seq![entry]) =~= seq![entry.path@]);
    } else {
        assert(listed(seq![entry]) =~= Seq::<FilePathView>::empty());
    }
    if b.len() == 0 {
        assert(a + b =~= a);
        assert(listed(a) + listed(b) =~= listed(a));
    } else {
        law_entries_are_listed_one_by_one(a, b.drop_last(), entry);
        assert((a + b).drop_last() =~= a + b.drop_last());
        assert((a + b).last() == b.last());
        let front = listed(b.drop_last());
        if is_listed(b.last()) {
            assert(listed(b) =~= front.push(b.last().path@));
            assert(listed(a + b) =~= listed(a + b.drop_last()).push(b.last().path@));
            assert(listed(a) + listed(b) =~= (listed(a) + front).push(b.last().path@));
        } else {
            assert(listed(b) =~= front);
            assert(listed(a + b) =~= listed(a + b.drop_last()));
        }
    }
}

} // verus!
