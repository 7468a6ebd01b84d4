//! What holds of clusters and runs as a whole.

use crate::crash_clusters;
use crate::crash_clusters::{ClusterView, Observation};
use crate::crash_replay::ObservedCrashView;
use crate::dedup_run::{FileOutcome, OutcomeView, RunState, RunView};
use crate::file_path::FilePathView;
use crate::text;
use vstd::prelude::*;

verus! {

/// The clusters of a series of observations.
pub open spec fn clusters_of(observations: Seq<Observation>) -> Map<Seq<char>, ClusterView>
    decreases observations.len(),
{
    if observations.len() == 0 {
        Map::empty()
    } else {
        crash_clusters::add_observation(
            clusters_of(observations.drop_last()),
            observations.last(),
        )
    }
}

/// The key of the cluster that an observation belongs to.
pub open spec fn key_of(observation: Observation) -> Seq<char> {
    observation.crash.identity.cluster_key()
}

/// The observations with the key `key`, in their order.
pub open spec fn with_key(observations: Seq<Observation>, key: Seq<char>) -> Seq<Observation> {
    observations.filter(|observation: Observation| key_of(observation) == key)
}

/// The cluster that a series of observations with one key makes.
pub open spec fn cluster_from(observations: Seq<Observation>) -> ClusterView
    recommends
        observations.len() > 0,
    decreases observations.len(),
{
    if observations.len() <= 1 {
        ClusterView::of_one(observations[0])
    } else {
        cluster_from(observations.drop_last()).absorb(observations.last())
    }
}

/// There is a cluster for a key exactly where a crash with that key was
/// observed, and what is in it depends on those crashes alone.
pub proof fn law_clusters_are_independent(observations: Seq<Observation>, key: Seq<char>)
    ensures
        clusters_of(observations).contains_key(key) <==> with_key(observations, key).len() > 0,
        with_key(observations, key).len() > 0 ==> clusters_of(observations)[key] == cluster_from(
            with_key(observations, key),
        ),
    decreases observations.len(),
{
    reveal(Seq::filter);
    if observations.len() > 0 {
        let front = observations.drop_last();
        let last = observations.last();
        law_clusters_are_independent(front, key);
        if key_of(last) == key {
            assert(with_key(observations, key) == with_key(front, key).push(last));
            assert(with_key(observations, key).drop_last() =~= with_key(front, key));
        }
    }
}

/// All observations have the key `key`.
pub open spec fn all_with_key(observations: Seq<Observation>, key: Seq<char>) -> bool {
    forall|i: int|
        0 <= i < observations.len() ==> key_of(#[trigger] observations[i]) == key
}

/// A cluster has the key of its crashes; it lists every one of them, in the
/// order in which they were observed; and its identity is that of the first.
pub proof fn law_cluster_lists_its_crashes(observations: Seq<Observation>, key: Seq<char>)
    requires
        observations.len() > 0,
        all_with_key(observations, key),
    ensures
        cluster_from(observations).key == key,
        cluster_from(observations).members == observations.map_values(
            |observation: Observation| observation.path,
        ),
        cluster_from(observations).member_count == observations.len(),
        cluster_from(observations).identity == crash_clusters::written(
            observations[0].crash.identity,
        ),
        cluster_from(observations).valid(),
    decreases observations.len(),
{
    let path = |observation: Observation| observation.path;
    law_oracle_ids_are_those_observed(observations);
    if observations.len() == 1 {
        assert(key_of(observations[0]) == key);
        assert(observations.map_values(path) =~= seq![observations[0].path]);
    } else {
        let front = observations.drop_last();
        assert forall|i: int| 0 <= i < front.len() implies key_of(#[trigger] front[i]) == key by {
            assert(key_of(observations[i]) == key);
        }
        law_cluster_lists_its_crashes(front, key);
        assert(observations.map_values(path) =~= front.map_values(path).push(
            observations.last().path,
        ));
    }
}

/// `i` is the first of the smallest observations.
pub open spec fn is_first_smallest(observations: Seq<Observation>, i: int) -> bool {
    &&& 0 <= i < observations.len()
    &&& forall|j: int|
        0 <= j < observations.len() ==> observations[i].size <= (#[trigger] observations[j]).size
    &&& forall|j: int| 0 <= j < i ==> observations[i].size < (#[trigger] observations[j]).size
}

/// The cluster is represented by `observation`.
pub open spec fn represents(cluster: ClusterView, observation: Observation) -> bool {
    &&& cluster.representative_source == observation.file
    &&& cluster.representative == observation.path
    &&& cluster.representative_size == observation.size
    &&& cluster.representative_crashing_request_index == observation.crash.crashing_request_index
}

/// The smallest input represents its cluster; of equally small ones, the first.
pub proof fn law_smallest_input_represents_the_cluster(observations: Seq<Observation>) -> (i: int)
    requires
        observations.len() > 0,
    ensures
        is_first_smallest(observations, i),
        represents(cluster_from(observations), observations[i]),
    decreases observations.len(),
{
    if observations.len() == 1 {
        0
    } else {
        let front = observations.drop_last();
        let last = observations.len() - 1;
        let k = law_smallest_input_represents_the_cluster(front);
        assert(front[k] == observations[k]);
        let i = if observations[last].size < observations[k].size {
            last
        } else {
            k
        };
        assert forall|j: int| 0 <= j < observations.len() implies observations[i].size <= (
        #[trigger] observations[j]).size by {
            if j < last {
                assert(front[j] == observations[j]);
            }
        }
        assert forall|j: int| 0 <= j < i implies observations[i].size < (
        #[trigger] observations[j]).size by {
            assert(front[j] == observations[j]);
        }
        i
    }
}

/// The observation names the crash `id`.
pub open spec fn names(observation: Observation, id: Seq<char>) -> bool {
    crash_clusters::oracle_name(observation.crash.oracle_crash_id) == Some(id)
}

/// Some observation names the crash `id`.
pub open spec fn is_named(observations: Seq<Observation>, id: Seq<char>) -> bool {
    exists|i: int| 0 <= i < observations.len() && names(#[trigger] observations[i], id)
}

proof fn lemma_with_oracle_id(cluster: ClusterView, id: Option<Seq<char>>)
    requires
        crash_clusters::strictly_ascending(cluster.oracle_crash_ids),
        cluster.oracle_mixed == (cluster.oracle_crash_ids.len() > 1),
    ensures
        crash_clusters::strictly_ascending(cluster.with_oracle_id(id).oracle_crash_ids),
        cluster.with_oracle_id(id).oracle_mixed == (cluster.with_oracle_id(
            id,
        ).oracle_crash_ids.len() > 1),
        forall|x: Seq<char>| #[trigger]
            cluster.with_oracle_id(id).oracle_crash_ids.contains(x)
                <==> cluster.oracle_crash_ids.contains(x) || crash_clusters::oracle_name(id)
                == Some(x),
{
    if let Some(name) = crash_clusters::oracle_name(id) {
        if !cluster.oracle_crash_ids.contains(name) {
            crash_clusters::lemma_text_insert(cluster.oracle_crash_ids, name);
        }
    }
}

/// A cluster lists, sorted and each once, exactly the names that its crashes
/// were given (white space around them and blank ones aside), and it is mixed
/// where there is more than one.
pub proof fn law_oracle_ids_are_those_observed(observations: Seq<Observation>)
    requires
        observations.len() > 0,
    ensures
        crash_clusters::strictly_ascending(cluster_from(observations).oracle_crash_ids),
        forall|id: Seq<char>| #[trigger]
            cluster_from(observations).oracle_crash_ids.contains(id) <==> is_named(
                observations,
                id,
            ),
        cluster_from(observations).oracle_mixed == (cluster_from(
            observations,
        ).oracle_crash_ids.len() > 1),
    decreases observations.len(),
{
    let cluster = cluster_from(observations);
    let last = observations.last();
    if observations.len() == 1 {
        let bare = ClusterView {
            key: key_of(last),
            representative_source: last.file,
            representative_size: last.size,
            representative: last.path,
            members: seq![last.path],
            member_count: 1,
            oracle_crash_ids: Seq::empty(),
            oracle_mixed: false,
            representative_crashing_request_index: last.crash.crashing_request_index,
            identity: crash_clusters::written(last.crash.identity),
        };
        lemma_with_oracle_id(bare, last.crash.oracle_crash_id);
        assert forall|id: Seq<char>| #[trigger]
            cluster.oracle_crash_ids.contains(id) <==> is_named(observations, id) by {
            if names(observations[0], id) {
                assert(is_named(observations, id));
            }
        }
    } else {
        let front = observations.drop_last();
        law_oracle_ids_are_those_observed(front);
        let before = cluster_from(front);
        let grown = ClusterView {
            members: before.members.push(last.path),
            member_count: before.members.len() + 1,
            ..before
        };
        lemma_with_oracle_id(grown, last.crash.oracle_crash_id);
        assert forall|id: Seq<char>| #[trigger]
            cluster.oracle_crash_ids.contains(id) <==> is_named(observations, id) by {
            assert(before.oracle_crash_ids.contains(id) <==> is_named(front, id));
            if is_named(front, id) {
                let i = choose|i: int| 0 <= i < front.len() && names(#[trigger] front[i], id);
                assert(names(observations[i], id));
            }
            if names(last, id) {
                assert(names(observations[observations.len() - 1], id));
            }
            if is_named(observations, id) {
                let i = choose|i: int|
                    0 <= i < observations.len() && names(#[trigger] observations[i], id);
                if i < front.len() {
                    assert(names(front[i], id));
                }
            }
        }
    }
}

/// A cluster is mixed exactly where two of its crashes were given different
/// names.
pub proof fn law_mixed_means_two_names(observations: Seq<Observation>)
    requires
        observations.len() > 0,
    ensures
        cluster_from(observations).oracle_mixed <==> exists|a: Seq<char>, b: Seq<char>|
            a != b && #[trigger] is_named(observations, a) && #[trigger] is_named(observations, b),
{
    law_oracle_ids_are_those_observed(observations);
    let ids = cluster_from(observations).oracle_crash_ids;
    if ids.len() > 1 {
        assert(text::text_less(ids[0], ids[1]));
        text::lemma_text_less_asymmetric(ids[0], ids[1]);
        assert(ids.contains(ids[0]));
        assert(ids.contains(ids[1]));
    }
    if exists|a: Seq<char>, b: Seq<char>|
        a != b && #[trigger] is_named(observations, a) && #[trigger] is_named(observations, b) {
        let (a, b) = choose|a: Seq<char>, b: Seq<char>|
            a != b && #[trigger] is_named(observations, a) && #[trigger] is_named(observations, b);
        assert(ids.contains(a));
        assert(ids.contains(b));
    }
}

/// Every observed crash is a member of the cluster with its key.
pub proof fn law_every_crash_is_in_its_cluster(observations: Seq<Observation>, i: int)
    requires
        0 <= i < observations.len(),
    ensures
        clusters_of(observations).contains_key(key_of(observations[i])),
        clusters_of(observations)[key_of(observations[i])].members.contains(observations[i].path),
{
    let key = key_of(observations[i]);
    let pred = |observation: Observation| key_of(observation) == key;
    let mine = with_key(observations, key);
    observations.lemma_filter_contains(pred, i);
    assert(mine.contains(observations[i]));
    let k = choose|k: int| 0 <= k < mine.len() && mine[k] == observations[i];
    lemma_with_key(observations, key);
    law_clusters_are_independent(observations, key);
    law_cluster_lists_its_crashes(mine, key);
    let paths = mine.map_values(|observation: Observation| observation.path);
    assert(paths[k] == observations[i].path);
}

proof fn lemma_with_key(observations: Seq<Observation>, key: Seq<char>)
    ensures
        all_with_key(with_key(observations, key), key),
    decreases observations.len(),
{
    reveal(Seq::filter);
    if observations.len() > 0 {
        lemma_with_key(observations.drop_last(), key);
    }
}

/// The observation without the name that a benchmark service gave the crash.
pub open spec fn without_name(observation: Observation) -> Observation {
    Observation {
        crash: ObservedCrashView { oracle_crash_id: None, ..observation.crash },
        ..observation
    }
}

/// The observations without those names.
pub open spec fn without_names(observations: Seq<Observation>) -> Seq<Observation> {
    observations.map_values(|observation: Observation| without_name(observation))
}

/// The cluster without what it says about those names.
pub open spec fn unnamed(cluster: ClusterView) -> ClusterView {
    ClusterView { oracle_crash_ids: Seq::empty(), oracle_mixed: false, ..cluster }
}

/// The names that a benchmark service gives crashes serve evaluation only: apart
/// from the lists of those names, the clusters are the same without them.
pub proof fn law_oracle_ids_do_not_steer_clustering(
    observations: Seq<Observation>,
    key: Seq<char>,
)
    ensures
        clusters_of(observations).contains_key(key) <==> clusters_of(
            without_names(observations),
        ).contains_key(key),
        clusters_of(observations).contains_key(key) ==> unnamed(clusters_of(observations)[key])
            == unnamed(clusters_of(without_names(observations))[key]),
    decreases observations.len(),
{
    if observations.len() > 0 {
        let front = observations.drop_last();
        let last = observations.last();
        law_oracle_ids_do_not_steer_clustering(front, key);
        law_oracle_ids_do_not_steer_clustering(front, key_of(last));
        let plain = without_names(observations);
        assert(plain.drop_last() =~= without_names(front));
        assert(plain.last() == without_name(last));
        assert(key_of(plain.last()) == key_of(last));
    }
}

proof fn lemma_filtered_multiset(observations: Seq<Observation>, key: Seq<char>)
    ensures
        with_key(observations, key).to_multiset() == observations.to_multiset().filter(
            |observation: Observation| key_of(observation) == key,
        ),
    decreases observations.len(),
{
    broadcast use vstd::seq_lib::group_to_multiset_ensures;

    reveal(Seq::filter);
    let pred = |observation: Observation| key_of(observation) == key;
    if observations.len() > 0 {
        let front = observations.drop_last();
        let last = observations.last();
        lemma_filtered_multiset(front, key);
        assert(observations =~= front.push(last));
    }
    assert(with_key(observations, key).to_multiset() =~= observations.to_multiset().filter(pred));
}

proof fn lemma_same_items(a: Seq<Observation>, b: Seq<Observation>)
    requires
        a.to_multiset() == b.to_multiset(),
    ensures
        a.len() == b.len(),
        forall|x: Observation| #[trigger] a.contains(x) <==> b.contains(x),
{
    a.to_multiset_ensures();
    b.to_multiset_ensures();
    assert forall|x: Observation| #[trigger] a.contains(x) <==> b.contains(x) by {
        assert(a.contains(x) <==> a.to_multiset().count(x) > 0);
        assert(b.contains(x) <==> b.to_multiset().count(x) > 0);
    }
}

/// The order in which crashes were observed decides neither which clusters
/// there are, nor how many members each has, which names it lists, whether it
/// is mixed, or how small its representative is.
pub proof fn law_order_of_crashes_matters_little(
    a: Seq<Observation>,
    b: Seq<Observation>,
    key: Seq<char>,
)
    requires
        a.to_multiset() == b.to_multiset(),
    ensures
        clusters_of(a).contains_key(key) <==> clusters_of(b).contains_key(key),
        clusters_of(a).contains_key(key) ==> {
            let x = clusters_of(a)[key];
            let y = clusters_of(b)[key];
            &&& x.key == y.key
            &&& x.member_count == y.member_count
            &&& x.oracle_crash_ids == y.oracle_crash_ids
            &&& x.oracle_mixed == y.oracle_mixed
            &&& x.representative_size == y.representative_size
        },
{
    let mine = with_key(a, key);
    let theirs = with_key(b, key);
    lemma_filtered_multiset(a, key);
    lemma_filtered_multiset(b, key);
    lemma_same_items(mine, theirs);
    law_clusters_are_independent(a, key);
    law_clusters_are_independent(b, key);
    if mine.len() > 0 {
        lemma_with_key(a, key);
        lemma_with_key(b, key);
        law_cluster_lists_its_crashes(mine, key);
        law_cluster_lists_its_crashes(theirs, key);
        law_oracle_ids_are_those_observed(mine);
        law_oracle_ids_are_those_observed(theirs);
        assert forall|id: Seq<char>| is_named(mine, id) <==> is_named(theirs, id) by {
            if is_named(mine, id) {
                let i = choose|i: int| 0 <= i < mine.len() && names(#[trigger] mine[i], id);
                assert(mine.contains(mine[i]));
                let j = choose|j: int| 0 <= j < theirs.len() && theirs[j] == mine[i];
                assert(names(theirs[j], id));
            }
            if is_named(theirs, id) {
                let i = choose|i: int| 0 <= i < theirs.len() && names(#[trigger] theirs[i], id);
                assert(theirs.contains(theirs[i]));
                assert(mine.contains(theirs[i]));
                let j = choose|j: int| 0 <= j < mine.len() && mine[j] == theirs[i];
                assert(names(mine[j], id));
            }
        }
        crash_clusters::lemma_ascending_determined(
            cluster_from(mine).oracle_crash_ids,
            cluster_from(theirs).oracle_crash_ids,
        );
        let i = law_smallest_input_represents_the_cluster(mine);
        let j = law_smallest_input_represents_the_cluster(theirs);
        assert(mine.contains(mine[i]));
        assert(theirs.contains(theirs[j]));
        assert(mine.contains(theirs[j]));
        let k = choose|k: int| 0 <= k < theirs.len() && theirs[k] == mine[i];
        let m = choose|m: int| 0 <= m < mine.len() && mine[m] == theirs[j];
        assert(theirs[j].size <= theirs[k].size);
        assert(mine[i].size <= mine[m].size);
    }
}

/// What a run finds in a series of crash files below `directory`.
pub open spec fn run_of(directory: FilePathView, files: Seq<FileOutcome>) -> RunState
    decreases files.len(),
{
    if files.len() == 0 {
        RunState::empty()
    } else {
        run_of(directory, files.drop_last()).record(directory, files.last())
    }
}

/// The observations that a series of crash files gave.
pub open spec fn observations_of(directory: FilePathView, files: Seq<FileOutcome>) -> Seq<
    Observation,
>
    decreases files.len(),
{
    if files.len() == 0 {
        Seq::empty()
    } else {
        let front = observations_of(directory, files.drop_last());
        let last = files.last();
        match last.outcome {
            OutcomeView::Reproduced { size, crash } => front.push(
                Observation {
                    file: last.file,
                    path: last.file.relative_to(directory),
                    size,
                    crash,
                },
            ),
            _ => front,
        }
    }
}

/// A run clusters exactly the crashes that it reproduced, and every file is
/// accounted for once: reproduced, not reproducible or skipped.
pub proof fn law_every_file_is_accounted_for(directory: FilePathView, files: Seq<FileOutcome>)
    ensures
        run_of(directory, files).clusters == clusters_of(observations_of(directory, files)),
        observations_of(directory, files).len() + run_of(directory, files).non_reproducible.len()
            + run_of(directory, files).skipped.len() == files.len(),
    decreases files.len(),
{
    if files.len() > 0 {
        law_every_file_is_accounted_for(directory, files.drop_last());
        let all = observations_of(directory, files);
        if files.last().outcome is Reproduced {
            assert(all.drop_last() =~= observations_of(directory, files.drop_last()));
        }
    }
}

proof fn lemma_split_at_underscore(a: Seq<char>, b: Seq<char>, x: Seq<char>, y: Seq<char>)
    requires
        forall|i: int| 0 <= i < a.len() ==> #[trigger] a[i] != '_',
        forall|i: int| 0 <= i < b.len() ==> #[trigger] b[i] != '_',
        a + seq!['_'] + x == b + seq!['_'] + y,
    ensures
        a == b,
{
    let s = a + seq!['_'] + x;
    let t = b + seq!['_'] + y;
    assert(s[a.len() as int] == '_');
    assert(t[b.len() as int] == '_');
    if a.len() < b.len() {
        assert(t[a.len() as int] == b[a.len() as int]);
    }
    if b.len() < a.len() {
        assert(s[b.len() as int] == a[b.len() as int]);
    }
    assert(a =~= s.take(a.len() as int));
    assert(b =~= t.take(b.len() as int));
}

/// Copies of representatives never share a file name, whatever the inputs are
/// called.
pub proof fn law_unique_names_differ(a: FilePathView, i: nat, b: FilePathView, j: nat)
    requires
        i != j,
    ensures
        a.unique_name(i) != b.unique_name(j),
{
    let x = text::zero_padded(text::decimal(i));
    let y = text::zero_padded(text::decimal(j));
    let u = match a.file_name() {
        Some(name) => name,
        None => "crash"@,
    };
    let v = match b.file_name() {
        Some(name) => name,
        None => "crash"@,
    };
    reveal_strlit("_");
    assert("_"@ =~= seq!['_']);
    text::lemma_padded_digits(i);
    text::lemma_padded_digits(j);
    if a.unique_name(i) == b.unique_name(j) {
        lemma_split_at_underscore(x, y, u, v);
        text::lemma_padded_injective(i, j);
    }
}

/// Up to an index of six digits, the file names of copies ascend with the
/// index, whatever the inputs are called.
pub proof fn law_unique_names_ascend(a: FilePathView, i: nat, b: FilePathView, j: nat)
    requires
        i < j <= 999_999,
    ensures
        text::text_less(a.unique_name(i), b.unique_name(j)),
{
    let x = text::zero_padded(text::decimal(i));
    let y = text::zero_padded(text::decimal(j));
    let u = "_"@ + match a.file_name() {
        Some(name) => name,
        None => "crash"@,
    };
    let v = "_"@ + match b.file_name() {
        Some(name) => name,
        None => "crash"@,
    };
    text::lemma_padded_ascend(i, j, u, v);
    assert(x + u =~= a.unique_name(i));
    assert(y + v =~= b.unique_name(j));
}

/// No two clusters of a report name the same copy as their representative.
pub proof fn law_unique_paths_differ(clusters: Seq<ClusterView>, i: int, j: int)
    requires
        0 <= i < clusters.len(),
        0 <= j < clusters.len(),
        i != j,
    ensures
        crash_clusters::with_copies(clusters)[i].representative != crash_clusters::with_copies(
            clusters,
        )[j].representative,
{
    let a = clusters[i].representative_source;
    let b = clusters[j].representative_source;
    let p = crash_clusters::unique_path(clusters[i], i as nat);
    let q = crash_clusters::unique_path(clusters[j], j as nat);
    if p == q {
        let x = text::zero_padded(text::decimal(i as nat));
        let y = text::zero_padded(text::decimal(j as nat));
        let u = text::forward_slashed(
            match a.file_name() {
                Some(name) => name,
                None => "crash"@,
            },
        );
        let v = text::forward_slashed(
            match b.file_name() {
                Some(name) => name,
                None => "crash"@,
            },
        );
        reveal_strlit("_");
        text::lemma_padded_digits(i as nat);
        text::lemma_padded_digits(j as nat);
        let start = "unique/"@.len() as int;
        assert(p.skip(start) =~= x + seq!['_'] + u);
        assert(q.skip(start) =~= y + seq!['_'] + v);
        lemma_split_at_underscore(x, y, u, v);
        text::lemma_padded_injective(i as nat, j as nat);
    }
}

/// The name that counts is the given one without the white space around it; a
/// blank one, or none, counts for nothing. Gives what was taken off.
pub proof fn law_names_count_without_white_space_around_them(raw: Seq<char>) -> (off: (
    Seq<char>,
    Seq<char>,
))
    ensures
        crash_clusters::oracle_name(None) is None,
        crash_clusters::oracle_name(Some(raw)) is None <==> text::is_blank(raw),
        text::is_blank(off.0),
        text::is_blank(off.1),
        crash_clusters::oracle_name(Some(raw)) matches Some(name) ==> {
            &&& raw == off.0 + name + off.1
            &&& name.len() > 0
            &&& !text::white_space(name[0])
            &&& !text::white_space(name[name.len() - 1])
        },
{
    text::law_trimming_leaves_no_white_space_at_the_ends(raw)
}

/// Recording a name adds that name, if it counts and is new, and changes
/// nothing else; the list stays sorted, and mixed means more than one.
pub proof fn law_recording_a_name_changes_the_names_alone(
    cluster: ClusterView,
    id: Option<Seq<char>>,
)
    requires
        crash_clusters::strictly_ascending(cluster.oracle_crash_ids),
        cluster.oracle_mixed == (cluster.oracle_crash_ids.len() > 1),
    ensures
        unnamed(cluster.with_oracle_id(id)) == unnamed(cluster),
        crash_clusters::strictly_ascending(cluster.with_oracle_id(id).oracle_crash_ids),
        cluster.with_oracle_id(id).oracle_mixed == (cluster.with_oracle_id(
            id,
        ).oracle_crash_ids.len() > 1),
        forall|x: Seq<char>| #[trigger]
            cluster.with_oracle_id(id).oracle_crash_ids.contains(x)
                <==> cluster.oracle_crash_ids.contains(x) || crash_clusters::oracle_name(id)
                == Some(x),
        cluster.with_oracle_id(id).with_oracle_id(id) == cluster.with_oracle_id(id),
{
    lemma_with_oracle_id(cluster, id);
    if let Some(name) = crash_clusters::oracle_name(id) {
        assert(cluster.with_oracle_id(id).oracle_crash_ids.contains(name));
    }
}

/// A cluster that takes a crash in keeps its key and its identity, and lists
/// the crash behind its other members. A smaller input takes over as the
/// representative; any other leaves the representative as it is.
pub proof fn law_smaller_inputs_take_over(cluster: ClusterView, observation: Observation)
    ensures
        cluster.absorb(observation).key == cluster.key,
        cluster.absorb(observation).identity == cluster.identity,
        cluster.absorb(observation).members.len() == cluster.members.len() + 1,
        cluster.absorb(observation).members.drop_last() == cluster.members,
        cluster.absorb(observation).members.last() == observation.path,
        cluster.absorb(observation).member_count == cluster.members.len() + 1,
        observation.size < cluster.representative_size ==> represents(
            cluster.absorb(observation),
            observation,
        ),
        observation.size >= cluster.representative_size ==> {
            let grown = cluster.absorb(observation);
            &&& grown.representative_source == cluster.representative_source
            &&& grown.representative == cluster.representative
            &&& grown.representative_size == cluster.representative_size
            &&& grown.representative_crashing_request_index
                == cluster.representative_crashing_request_index
        },
        cluster.absorb(observation).oracle_crash_ids == cluster.with_oracle_id(
            observation.crash.oracle_crash_id,
        ).oracle_crash_ids,
        cluster.absorb(observation).oracle_mixed == cluster.with_oracle_id(
            observation.crash.oracle_crash_id,
        ).oracle_mixed,
{
    assert(cluster.members.push(observation.path).drop_last() =~= cluster.members);
}

/// A crash goes into the cluster with its key and into no other: every other
/// cluster stays as it was.
pub proof fn law_a_crash_changes_one_cluster(
    clusters: Map<Seq<char>, ClusterView>,
    observation: Observation,
    other: Seq<char>,
)
    ensures
        crash_clusters::add_observation(clusters, observation).contains_key(key_of(observation)),
        crash_clusters::add_observation(clusters, observation)[key_of(
            observation,
        )].members.last() == observation.path,
        other != key_of(observation) ==> (crash_clusters::add_observation(
            clusters,
            observation,
        ).contains_key(other) <==> clusters.contains_key(other)),
        other != key_of(observation) && clusters.contains_key(other)
            ==> crash_clusters::add_observation(clusters, observation)[other] == clusters[other],
        clusters.contains_key(key_of(observation)) ==> crash_clusters::add_observation(
            clusters,
            observation,
        )[key_of(observation)] == clusters[key_of(observation)].absorb(observation),
        !clusters.contains_key(key_of(observation)) ==> crash_clusters::add_observation(
            clusters,
            observation,
        )[key_of(observation)] == cluster_from(seq![observation]),
{
    if clusters.contains_key(key_of(observation)) {
        law_smaller_inputs_take_over(clusters[key_of(observation)], observation);
    }
}

/// The file name of a copy is its index, in six digits or more, an underscore,
/// and the file name of the input, if that has one. Gives the place of the
/// underscore.
pub proof fn law_unique_names_are_the_index_and_the_file_name(path: FilePathView, index: nat) -> (at:
    int)
    ensures
        6 <= at < path.unique_name(index).len(),
        path.unique_name(index)[at] == '_',
        text::numeral_value(path.unique_name(index).take(at)) == index,
        forall|i: int| 0 <= i < at ==> '0' <= #[trigger] path.unique_name(index)[i] <= '9',
        at > 6 ==> path.unique_name(index)[0] != '0',
        path.file_name() matches Some(name) ==> path.unique_name(index).skip(at + 1) == name,
        path.file_name() is None ==> path.unique_name(index).skip(at + 1) == "crash"@,
{
    reveal_strlit("_");
    let numeral = text::zero_padded(text::decimal(index));
    let at = numeral.len() as int;
    let name = path.unique_name(index);
    text::law_padded_numerals_write_their_numbers(index);
    assert(name.take(at) =~= numeral);
    assert forall|i: int| 0 <= i < at implies '0' <= #[trigger] name[i] <= '9' by {
        assert(name[i] == numeral[i]);
    }
    assert(name[0] == numeral[0]);
    if path.file_name() is Some {
        assert(name.skip(at + 1) =~= path.file_name()->0);
    } else {
        assert(name.skip(at + 1) =~= "crash"@);
    }
    at
}

/// Each file that a run deals with adds one entry to one of its lists, and
/// leaves the others as they were: a crash that was reproduced goes into the
/// clusters, a file whose crash was not reproduced is listed as such, and every
/// other one is skipped.
pub proof fn law_each_file_lands_in_one_list(
    run: RunState,
    directory: FilePathView,
    next: FileOutcome,
)
    ensures
        !(next.outcome is Reproduced) ==> run.record(directory, next).clusters == run.clusters,
        !(next.outcome is NotReproduced) ==> run.record(directory, next).non_reproducible
            == run.non_reproducible,
        next.outcome is Reproduced || next.outcome is NotReproduced ==> run.record(
            directory,
            next,
        ).skipped == run.skipped,
        next.outcome matches OutcomeView::Reproduced { size, crash } ==> run.record(
            directory,
            next,
        ).clusters == crash_clusters::add_observation(
            run.clusters,
            Observation { file: next.file, path: next.file.relative_to(directory), size, crash },
        ),
        next.outcome is NotReproduced ==> {
            let list = run.record(directory, next).non_reproducible;
            &&& list.len() == run.non_reproducible.len() + 1
            &&& list.drop_last() == run.non_reproducible
            &&& list.last().path == next.file.relative_to(directory)
            &&& list.last().reason == "Replay did not reproduce a crash"@
        },
        next.outcome is Unreadable || next.outcome is ReplayFailed || next.outcome is SizeUnknown
            ==> {
            let list = run.record(directory, next).skipped;
            &&& list.len() == run.skipped.len() + 1
            &&& list.drop_last() == run.skipped
            &&& list.last().path == next.file.relative_to(directory)
        },
{
    let after = run.record(directory, next);
    if next.outcome is NotReproduced {
        assert(after.non_reproducible.drop_last() =~= run.non_reproducible);
    }
    if next.outcome is Unreadable || next.outcome is ReplayFailed || next.outcome is SizeUnknown {
        assert(after.skipped.drop_last() =~= run.skipped);
    }
}

/// The reason why a file was skipped says what could not be done, and ends in
/// the whole error.
pub proof fn law_reasons_end_in_the_error(
    run: RunState,
    directory: FilePathView,
    file: FilePathView,
    error: Seq<char>,
)
    ensures
        ({
            let reason = run.record(
                directory,
                FileOutcome { file, outcome: OutcomeView::Unreadable { error } },
            ).skipped.last().reason;
            let n = "Could not read crash input: "@.len() as int;
            reason.take(n) == "Could not read crash input: "@ && reason.skip(n) == error
        }),
        ({
            let reason = run.record(
                directory,
                FileOutcome { file, outcome: OutcomeView::ReplayFailed { error } },
            ).skipped.last().reason;
            let n = "Could not replay crash input: "@.len() as int;
            reason.take(n) == "Could not replay crash input: "@ && reason.skip(n) == error
        }),
        ({
            let reason = run.record(
                directory,
                FileOutcome { file, outcome: OutcomeView::SizeUnknown { error } },
            ).skipped.last().reason;
            let n = "Could not read crash input metadata: "@.len() as int;
            reason.take(n) == "Could not read crash input metadata: "@ && reason.skip(n) == error
        }),
{
    let read = "Could not read crash input: "@;
    let replay = "Could not replay crash input: "@;
    let size = "Could not read crash input metadata: "@;
    assert((read + error).take(read.len() as int) =~= read);
    assert((read + error).skip(read.len() as int) =~= error);
    assert((replay + error).take(replay.len() as int) =~= replay);
    assert((replay + error).skip(replay.len() as int) =~= error);
    assert((size + error).take(size.len() as int) =~= size);
    assert((size + error).skip(size.len() as int) =~= error);
}

/// What a run has found is what its lists hold.
pub proof fn law_the_state_of_a_run_is_what_its_lists_hold(run: RunView, key: Seq<char>)
    requires
        run.valid(),
    ensures
        run.state().non_reproducible == run.non_reproducible,
        run.state().skipped == run.skipped,
        run.state().clusters.contains_key(key) <==> exists|i: int|
            0 <= i < run.clusters.len() && (#[trigger] run.clusters[i]).key == key,
        forall|i: int|
            0 <= i < run.clusters.len() && (#[trigger] run.clusters[i]).key == key
                ==> run.state().clusters[key] == run.clusters[i],
        run.processed == crash_clusters::total_members(run.clusters) + run.non_reproducible.len()
            + run.skipped.len(),
        RunState::empty().clusters.dom() == Set::<Seq<char>>::empty(),
        RunState::empty().non_reproducible.len() == 0,
        RunState::empty().skipped.len() == 0,
{
    crash_clusters::law_keys_find_their_clusters(run.clusters, key);
    assert(RunState::empty().clusters.dom() =~= Set::<Seq<char>>::empty());
}

} // verus!
