//! Clusters of crashes with the same key, each with one representative input.

use crate::crash_identity;
use crate::crash_identity::{CrashIdentity, CrashIdentityView};
use crate::crash_replay::{ObservedCrash, ObservedCrashView};
use crate::file_path;
use crate::file_path::{unique_file_name, FilePath, FilePathView};
use crate::order::Relation;
use crate::text;
use crate::text::{forward_slashes, relate_text, trim};
use vstd::prelude::*;

verus! {

/// A crash identity as it is written in a report.
#[derive(Debug)]
pub struct SerializableCrashIdentity {
    pub exit_kind: String,
    pub crash_kind: String,
    pub http_status: Option<u16>,
    pub validation_error_discriminant: Option<String>,
    pub endpoint: Option<String>,
    pub response_class: String,
}

/// A written crash identity, with its text as sequences.
pub struct WrittenIdentityView {
    pub exit_kind: Seq<char>,
    pub crash_kind: Seq<char>,
    pub http_status: Option<u16>,
    pub validation_error_discriminant: Option<Seq<char>>,
    pub endpoint: Option<Seq<char>>,
    pub response_class: Seq<char>,
}

impl View for SerializableCrashIdentity {
    type V = WrittenIdentityView;

    open spec fn view(&self) -> WrittenIdentityView {
        WrittenIdentityView {
            exit_kind: self.exit_kind@,
            crash_kind: self.crash_kind@,
            http_status: self.http_status,
            validation_error_discriminant: crash_identity::text_option(
                self.validation_error_discriminant,
            ),
            endpoint: crash_identity::text_option(self.endpoint),
            response_class: self.response_class@,
        }
    }
}

/// How `identity` is written in a report.
pub open spec fn written(identity: CrashIdentityView) -> WrittenIdentityView {
    WrittenIdentityView {
        exit_kind: identity.exit_kind.label(),
        crash_kind: identity.crash_kind.label(),
        http_status: identity.http_status,
        validation_error_discriminant: identity.validation_error_discriminant,
        endpoint: identity.endpoint,
        response_class: identity.response_class.label(),
    }
}

impl SerializableCrashIdentity {
    /// The identity as it is written in a report.
    pub fn from(identity: &CrashIdentity) -> (result: SerializableCrashIdentity)
        ensures
            result@ == written(identity@),
            result.http_status == identity.http_status,
            crash_identity::text_option(result.validation_error_discriminant)
                == crash_identity::text_option(identity.validation_error_discriminant),
            crash_identity::text_option(result.endpoint) == crash_identity::text_option(
                identity.endpoint,
            ),
            result.exit_kind@ == identity.exit_kind.label(),
            result.crash_kind@ == identity.crash_kind@.label(),
            result.response_class@ == identity.response_class.label(),
    {
        SerializableCrashIdentity {
            exit_kind: identity.exit_kind.to_string(),
            crash_kind: identity.crash_kind.to_string(),
            http_status: identity.http_status,
            validation_error_discriminant: identity.validation_error_discriminant.clone(),
            endpoint: identity.endpoint.clone(),
            response_class: identity.response_class.to_string(),
        }
    }
}

/// The crashes with one key.
#[derive(Debug)]
pub struct CrashCluster {
    pub key: String,
    /// The input that stands for the cluster.
    pub representative_source: FilePath,
    pub representative_size: u64,
    /// The path under which the report names that input.
    pub representative: String,
    pub members: Vec<String>,
    pub member_count: usize,
    /// The names that a benchmark service gave the crashes, sorted.
    pub oracle_crash_ids: Vec<String>,
    /// Whether there is more than one of them.
    pub oracle_mixed: bool,
    pub representative_crashing_request_index: usize,
    pub identity: SerializableCrashIdentity,
}

/// A cluster, with its text as sequences.
pub struct ClusterView {
    pub key: Seq<char>,
    pub representative_source: FilePathView,
    pub representative_size: u64,
    pub representative: Seq<char>,
    pub members: Seq<Seq<char>>,
    pub member_count: nat,
    pub oracle_crash_ids: Seq<Seq<char>>,
    pub oracle_mixed: bool,
    pub representative_crashing_request_index: usize,
    pub identity: WrittenIdentityView,
}

/// The texts of a vector.
pub open spec fn texts(strings: Seq<String>) -> Seq<Seq<char>> {
    strings.map_values(|string: String| string@)
}

impl View for CrashCluster {
    type V = ClusterView;

    open spec fn view(&self) -> ClusterView {
        ClusterView {
            key: self.key@,
            representative_source: self.representative_source@,
            representative_size: self.representative_size,
            representative: self.representative@,
            members: texts(self.members@),
            member_count: self.member_count as nat,
            oracle_crash_ids: texts(self.oracle_crash_ids@),
            oracle_mixed: self.oracle_mixed,
            representative_crashing_request_index: self.representative_crashing_request_index,
            identity: self.identity@,
        }
    }
}

/// A crash input that reproduced its crash: the file, its path below the crash
/// directory, its size in bytes, and what was observed.
pub struct Observation {
    pub file: FilePathView,
    pub path: Seq<char>,
    pub size: u64,
    pub crash: ObservedCrashView,
}

/// Each text comes before those behind it.
pub open spec fn strictly_ascending(sorted: Seq<Seq<char>>) -> bool {
    forall|i: int, j: int|
        0 <= i < j < sorted.len() ==> text::text_less(#[trigger] sorted[i], #[trigger] sorted[j])
}

/// `sorted` with `id` put in at its place.
pub open spec fn text_insert(sorted: Seq<Seq<char>>, id: Seq<char>) -> Seq<Seq<char>>
    decreases sorted.len(),
{
    if sorted.len() == 0 || text::text_less(sorted.last(), id) {
        sorted.push(id)
    } else {
        text_insert(sorted.drop_last(), id).push(sorted.last())
    }
}

/// The name in `id` that counts: without white space around it, and not empty.
pub open spec fn oracle_name(id: Option<Seq<char>>) -> Option<Seq<char>> {
    match id {
        Some(raw) => if text::trimmed(raw).len() > 0 {
            Some(text::trimmed(raw))
        } else {
            None
        },
        None => None,
    }
}

impl ClusterView {
    /// The counts and the list of names are in order.
    pub open spec fn valid(self) -> bool {
        &&& self.members.len() > 0
        &&& self.member_count == self.members.len()
        &&& strictly_ascending(self.oracle_crash_ids)
        &&& self.oracle_mixed == (self.oracle_crash_ids.len() > 1)
    }

    /// The cluster with one more oracle name recorded, if `id` holds one.
    pub open spec fn with_oracle_id(self, id: Option<Seq<char>>) -> ClusterView {
        match oracle_name(id) {
            Some(name) => {
                let ids = if self.oracle_crash_ids.contains(name) {
                    self.oracle_crash_ids
                } else {
                    text_insert(self.oracle_crash_ids, name)
                };
                ClusterView { oracle_crash_ids: ids, oracle_mixed: ids.len() > 1, ..self }
            },
            None => self,
        }
    }

    /// The cluster of one observation.
    pub open spec fn of_one(observation: Observation) -> ClusterView {
        (ClusterView {
            key: observation.crash.identity.cluster_key(),
            representative_source: observation.file,
            representative_size: observation.size,
            representative: observation.path,
            members: seq![observation.path],
            member_count: 1,
            oracle_crash_ids: Seq::empty(),
            oracle_mixed: false,
            representative_crashing_request_index: observation.crash.crashing_request_index,
            identity: written(observation.crash.identity),
        }).with_oracle_id(observation.crash.oracle_crash_id)
    }

    /// The cluster with one more observation: it becomes a member, and the
    /// representative if it is smaller than that was.
    pub open spec fn absorb(self, observation: Observation) -> ClusterView {
        let grown = (ClusterView {
            members: self.members.push(observation.path),
            member_count: self.members.len() + 1,
            ..self
        }).with_oracle_id(observation.crash.oracle_crash_id);
        if observation.size < self.representative_size {
            ClusterView {
                representative_source: observation.file,
                representative_size: observation.size,
                representative: observation.path,
                representative_crashing_request_index: observation.crash.crashing_request_index,
                ..grown
            }
        } else {
            grown
        }
    }
}

proof fn lemma_text_insert_at(sorted: Seq<Seq<char>>, id: Seq<char>, k: int)
    requires
        0 <= k <= sorted.len(),
        forall|i: int| 0 <= i < k ==> text::text_less(#[trigger] sorted[i], id),
        forall|i: int| k <= i < sorted.len() ==> text::text_less(id, #[trigger] sorted[i]),
    ensures
        text_insert(sorted, id) == sorted.insert(k, id),
    decreases sorted.len(),
{
    if k == sorted.len() {
        assert(sorted.insert(k, id) =~= sorted.push(id));
    } else {
        text::lemma_text_less_asymmetric(id, sorted.last());
        lemma_text_insert_at(sorted.drop_last(), id, k);
        assert(sorted.drop_last().insert(k, id).push(sorted.last()) =~= sorted.insert(k, id));
    }
}

/// Where a new text belongs among sorted ones.
pub open spec fn is_place(sorted: Seq<Seq<char>>, id: Seq<char>, k: int) -> bool {
    &&& 0 <= k <= sorted.len()
    &&& forall|i: int| 0 <= i < k ==> text::text_less(#[trigger] sorted[i], id)
    &&& forall|i: int| k <= i < sorted.len() ==> text::text_less(id, #[trigger] sorted[i])
}

proof fn lemma_insert_keeps_ascending(sorted: Seq<Seq<char>>, id: Seq<char>, k: int)
    requires
        strictly_ascending(sorted),
        is_place(sorted, id, k),
    ensures
        strictly_ascending(sorted.insert(k, id)),
{
    let result = sorted.insert(k, id);
    assert forall|i: int, j: int| 0 <= i < j < result.len() implies text::text_less(
        #[trigger] result[i],
        #[trigger] result[j],
    ) by {
        let a = if i < k {
            i
        } else {
            i - 1
        };
        let b = if j < k {
            j
        } else {
            j - 1
        };
        assert(i != k ==> result[i] == sorted[a]);
        assert(j != k ==> result[j] == sorted[b]);
    }
}

proof fn lemma_place_exists(sorted: Seq<Seq<char>>, id: Seq<char>) -> (k: int)
    requires
        strictly_ascending(sorted),
        !sorted.contains(id),
    ensures
        is_place(sorted, id, k),
    decreases sorted.len(),
{
    if sorted.len() == 0 {
        0
    } else {
        let last = sorted.last();
        assert(last == sorted[sorted.len() - 1]);
        text::lemma_text_less_total(last, id);
        if text::text_less(last, id) {
            assert forall|i: int| 0 <= i < sorted.len() implies text::text_less(
                #[trigger] sorted[i],
                id,
            ) by {
                if i < sorted.len() - 1 {
                    text::lemma_text_less_transitive(sorted[i], last, id);
                }
            }
            sorted.len() as int
        } else {
            let front = sorted.drop_last();
            assert(!front.contains(id)) by {
                if front.contains(id) {
                    let i = choose|i: int| 0 <= i < front.len() && front[i] == id;
                    assert(sorted[i] == id);
                }
            }
            let k = lemma_place_exists(front, id);
            assert forall|i: int| 0 <= i < k implies text::text_less(#[trigger] sorted[i], id) by {
                assert(sorted[i] == front[i]);
            }
            assert forall|i: int| k <= i < sorted.len() implies text::text_less(
                id,
                #[trigger] sorted[i],
            ) by {
                if i < front.len() {
                    assert(sorted[i] == front[i]);
                }
            }
            k
        }
    }
}

/// Putting a new name in keeps the list sorted, and adds that name alone.
pub proof fn lemma_text_insert(sorted: Seq<Seq<char>>, id: Seq<char>)
    requires
        strictly_ascending(sorted),
        !sorted.contains(id),
    ensures
        strictly_ascending(text_insert(sorted, id)),
        text_insert(sorted, id).len() == sorted.len() + 1,
        forall|x: Seq<char>| #[trigger]
            text_insert(sorted, id).contains(x) <==> sorted.contains(x) || x == id,
{
    let k = lemma_place_exists(sorted, id);
    lemma_text_insert_at(sorted, id, k);
    lemma_insert_keeps_ascending(sorted, id, k);
    let longer = sorted.insert(k, id);
    assert forall|x: Seq<char>| #[trigger] longer.contains(x) <==> sorted.contains(x) || x == id by {
        if longer.contains(x) {
            let i = choose|i: int| 0 <= i < longer.len() && longer[i] == x;
            if i < k {
                assert(sorted[i] == x);
            } else if i > k {
                assert(sorted[i - 1] == x);
            }
        }
        if sorted.contains(x) {
            let i = choose|i: int| 0 <= i < sorted.len() && sorted[i] == x;
            if i < k {
                assert(longer[i] == x);
            } else {
                assert(longer[i + 1] == x);
            }
        }
        if x == id {
            assert(longer[k] == x);
        }
    }
}

/// Sorted lists with the same texts are equal.
pub proof fn lemma_ascending_determined(a: Seq<Seq<char>>, b: Seq<Seq<char>>)
    requires
        strictly_ascending(a),
        strictly_ascending(b),
        forall|x: Seq<char>| #[trigger] a.contains(x) <==> b.contains(x),
    ensures
        a == b,
    decreases a.len(),
{
    if a.len() == 0 {
        if b.len() > 0 {
            assert(b.contains(b[0]));
            assert(a.contains(b[0]));
        }
        assert(a =~= b);
    } else if b.len() == 0 {
        assert(a.contains(a[0]));
    } else {
        let x = a.last();
        let y = b.last();
        assert(a[a.len() - 1] == x && b[b.len() - 1] == y);
        assert(a.contains(x) && b.contains(y));
        assert(a.contains(y) && b.contains(x));
        let i = choose|i: int| 0 <= i < b.len() && b[i] == x;
        let j = choose|j: int| 0 <= j < a.len() && a[j] == y;
        if x != y {
            assert(text::text_less(b[i], b[b.len() - 1]));
            assert(text::text_less(a[j], a[a.len() - 1]));
            text::lemma_text_less_asymmetric(x, y);
        }
        let front = a.drop_last();
        let other = b.drop_last();
        assert forall|z: Seq<char>| #[trigger] front.contains(z) <==> other.contains(z) by {
            if front.contains(z) {
                let k = choose|k: int| 0 <= k < front.len() && front[k] == z;
                assert(a[k] == z);
                assert(text::text_less(a[k], a[a.len() - 1]));
                text::lemma_text_less_asymmetric(z, x);
                assert(a.contains(z));
                let m = choose|m: int| 0 <= m < b.len() && b[m] == z;
                assert(other[m] == z);
            }
            if other.contains(z) {
                let k = choose|k: int| 0 <= k < other.len() && other[k] == z;
                assert(b[k] == z);
                assert(text::text_less(b[k], b[b.len() - 1]));
                text::lemma_text_less_asymmetric(z, y);
                assert(b.contains(z));
                assert(a.contains(z));
                let m = choose|m: int| 0 <= m < a.len() && a[m] == z;
                assert(front[m] == z);
            }
        }
        lemma_ascending_determined(front, other);
        assert(a =~= front.push(x));
        assert(b =~= other.push(y));
    }
}

/// Records the name that a benchmark service gave a crash, unless it is
/// absent, blank or known.
pub fn record_oracle_crash_id(cluster: &mut CrashCluster, oracle_crash_id: Option<&str>)
    requires
        strictly_ascending(old(cluster)@.oracle_crash_ids),
    ensures
        final(cluster)@ == old(cluster)@.with_oracle_id(
            match oracle_crash_id {
                Some(id) => Some(id@),
                None => None,
            },
        ),
        strictly_ascending(final(cluster)@.oracle_crash_ids),
{
    let name = match oracle_crash_id {
        Some(id) => trim(id),
        None => {
            return ;
        },
    };
    if name.as_str().is_empty() {
        return ;
    }
    let ghost ids = cluster@.oracle_crash_ids;
    let mut k: usize = 0;
    let mut known = false;
    while k < cluster.oracle_crash_ids.len()
        invariant_except_break
            !known,
        invariant
            *cluster == *old(cluster),
            ids == cluster@.oracle_crash_ids,
            strictly_ascending(ids),
            k <= ids.len(),
            forall|i: int| 0 <= i < k ==> text::text_less(#[trigger] ids[i], name@),
        ensures
            known ==> ids.contains(name@),
            !known ==> is_place(ids, name@, k as int),
        decreases ids.len() - k,
    {
        match relate_text(&cluster.oracle_crash_ids[k], &name) {
            Relation::Less => {},
            Relation::Equal => {
                assert(ids[k as int] == name@);
                known = true;
                break;
            },
            Relation::Greater => {
                proof {
                    text::lemma_text_less_total(ids[k as int], name@);
                    assert forall|i: int| k <= i < ids.len() implies text::text_less(
                        name@,
                        #[trigger] ids[i],
                    ) by {
                        if i > k {
                            text::lemma_text_less_transitive(name@, ids[k as int], ids[i]);
                        }
                    }
                }
                break;
            },
        }
        k = k + 1;
    }
    if !known {
        proof {
            lemma_text_insert_at(ids, name@, k as int);
            lemma_insert_keeps_ascending(ids, name@, k as int);
            if ids.contains(name@) {
                let i = choose|i: int| 0 <= i < ids.len() && ids[i] == name@;
                text::lemma_text_less_total(name@, name@);
            }
        }
        cluster.oracle_crash_ids.insert(k, name);
        assert(cluster@.oracle_crash_ids =~= ids.insert(k as int, name@));
    }
    cluster.oracle_mixed = cluster.oracle_crash_ids.len() > 1;
}

/// The clusters of a run, one for each key, in the order of their keys.
#[derive(Debug)]
pub struct CrashClusters {
    entries: Vec<CrashCluster>,
}

/// The keys of clusters.
pub open spec fn keys_of(clusters: Seq<ClusterView>) -> Seq<Seq<char>> {
    clusters.map_values(|cluster: ClusterView| cluster.key)
}

/// Every cluster is valid, and the keys ascend.
pub open spec fn valid_clusters(clusters: Seq<ClusterView>) -> bool {
    &&& strictly_ascending(keys_of(clusters))
    &&& forall|i: int| 0 <= i < clusters.len() ==> (#[trigger] clusters[i]).valid()
}

/// The cluster at `i` has the key `key`.
pub open spec fn has_key_at(clusters: Seq<ClusterView>, key: Seq<char>, i: int) -> bool {
    0 <= i < clusters.len() && clusters[i].key == key
}

/// The clusters by their keys.
pub open spec fn by_key(clusters: Seq<ClusterView>) -> Map<Seq<char>, ClusterView> {
    Map::new(
        |key: Seq<char>| exists|i: int| has_key_at(clusters, key, i),
        |key: Seq<char>| clusters[choose|i: int| has_key_at(clusters, key, i)],
    )
}

/// The number of members of all clusters together.
pub open spec fn total_members(clusters: Seq<ClusterView>) -> nat
    decreases clusters.len(),
{
    if clusters.len() == 0 {
        0
    } else {
        total_members(clusters.drop_last()) + clusters.last().member_count
    }
}

/// The clusters after one more observation: it joins the cluster with its key,
/// or starts one.
pub open spec fn add_observation(
    clusters: Map<Seq<char>, ClusterView>,
    observation: Observation,
) -> Map<Seq<char>, ClusterView> {
    let key = observation.crash.identity.cluster_key();
    clusters.insert(
        key,
        if clusters.contains_key(key) {
            clusters[key].absorb(observation)
        } else {
            ClusterView::of_one(observation)
        },
    )
}

proof fn lemma_by_key_at(clusters: Seq<ClusterView>, i: int)
    requires
        strictly_ascending(keys_of(clusters)),
        0 <= i < clusters.len(),
    ensures
        by_key(clusters).contains_key(clusters[i].key),
        by_key(clusters)[clusters[i].key] == clusters[i],
{
    let key = clusters[i].key;
    assert(has_key_at(clusters, key, i));
    let j = choose|j: int| has_key_at(clusters, key, j);
    assert(keys_of(clusters)[i] == key);
    assert(keys_of(clusters)[j] == key);
    text::lemma_text_less_total(key, key);
}

proof fn lemma_total_members_update(clusters: Seq<ClusterView>, i: int, cluster: ClusterView)
    requires
        0 <= i < clusters.len(),
    ensures
        total_members(clusters.update(i, cluster)) + clusters[i].member_count == total_members(
            clusters,
        ) + cluster.member_count,
    decreases clusters.len(),
{
    let updated = clusters.update(i, cluster);
    if i == clusters.len() - 1 {
        assert(updated.drop_last() =~= clusters.drop_last());
    } else {
        assert(updated.drop_last() =~= clusters.drop_last().update(i, cluster));
        lemma_total_members_update(clusters.drop_last(), i, cluster);
    }
}

proof fn lemma_total_members_insert(clusters: Seq<ClusterView>, i: int, cluster: ClusterView)
    requires
        0 <= i <= clusters.len(),
    ensures
        total_members(clusters.insert(i, cluster)) == total_members(clusters)
            + cluster.member_count,
    decreases clusters.len(),
{
    let longer = clusters.insert(i, cluster);
    if i == clusters.len() {
        assert(longer.drop_last() =~= clusters);
    } else {
        assert(longer.drop_last() =~= clusters.drop_last().insert(i, cluster));
        assert(longer.last() == clusters.last());
        lemma_total_members_insert(clusters.drop_last(), i, cluster);
    }
}

proof fn lemma_update_by_key(clusters: Seq<ClusterView>, i: int, cluster: ClusterView)
    requires
        strictly_ascending(keys_of(clusters)),
        0 <= i < clusters.len(),
        cluster.key == clusters[i].key,
    ensures
        strictly_ascending(keys_of(clusters.update(i, cluster))),
        by_key(clusters.update(i, cluster)) == by_key(clusters).insert(cluster.key, cluster),
{
    let updated = clusters.update(i, cluster);
    assert(keys_of(updated) =~= keys_of(clusters));
    let left = by_key(updated);
    let right = by_key(clusters).insert(cluster.key, cluster);
    assert forall|key: Seq<char>| left.contains_key(key) <==> right.contains_key(key) by {
        if left.contains_key(key) {
            let j = choose|j: int| has_key_at(updated, key, j);
            assert(has_key_at(clusters, key, j));
        }
        if right.contains_key(key) {
            if key == cluster.key {
                assert(has_key_at(updated, key, i));
            } else {
                let j = choose|j: int| has_key_at(clusters, key, j);
                assert(has_key_at(updated, key, j));
            }
        }
    }
    assert forall|key: Seq<char>| left.contains_key(key) implies left[key] == right[key] by {
        let j = choose|j: int| has_key_at(updated, key, j);
        lemma_by_key_at(updated, j);
        lemma_by_key_at(clusters, j);
        lemma_by_key_at(updated, i);
    }
    assert(left =~= right);
}

proof fn lemma_insert_by_key(clusters: Seq<ClusterView>, i: int, cluster: ClusterView)
    requires
        strictly_ascending(keys_of(clusters)),
        is_place(keys_of(clusters), cluster.key, i),
    ensures
        strictly_ascending(keys_of(clusters.insert(i, cluster))),
        by_key(clusters.insert(i, cluster)) == by_key(clusters).insert(cluster.key, cluster),
{
    let longer = clusters.insert(i, cluster);
    assert(keys_of(longer) =~= keys_of(clusters).insert(i, cluster.key));
    lemma_insert_keeps_ascending(keys_of(clusters), cluster.key, i);
    let left = by_key(longer);
    let right = by_key(clusters).insert(cluster.key, cluster);
    assert forall|key: Seq<char>| left.contains_key(key) <==> right.contains_key(key) by {
        if left.contains_key(key) {
            let j = choose|j: int| has_key_at(longer, key, j);
            if j < i {
                assert(has_key_at(clusters, key, j));
            } else if j > i {
                assert(has_key_at(clusters, key, j - 1));
            }
        }
        if right.contains_key(key) {
            if key == cluster.key {
                assert(has_key_at(longer, key, i));
            } else {
                let j = choose|j: int| has_key_at(clusters, key, j);
                if j < i {
                    assert(has_key_at(longer, key, j));
                } else {
                    assert(has_key_at(longer, key, j + 1));
                }
            }
        }
    }
    assert forall|key: Seq<char>| left.contains_key(key) implies left[key] == right[key] by {
        let j = choose|j: int| has_key_at(longer, key, j);
        lemma_by_key_at(longer, j);
        lemma_by_key_at(longer, i);
        if j < i {
            lemma_by_key_at(clusters, j);
        } else if j > i {
            lemma_by_key_at(clusters, j - 1);
        }
        if j != i && key == cluster.key {
            assert(keys_of(longer)[j] == key && keys_of(longer)[i] == key);
            text::lemma_text_less_total(key, key);
        }
    }
    assert(left =~= right);
}

proof fn lemma_absent_key(clusters: Seq<ClusterView>, key: Seq<char>, i: int)
    requires
        is_place(keys_of(clusters), key, i),
    ensures
        !by_key(clusters).contains_key(key),
{
    if by_key(clusters).contains_key(key) {
        let j = choose|j: int| has_key_at(clusters, key, j);
        assert(keys_of(clusters)[j] == key);
        text::lemma_text_less_total(key, key);
    }
}

/// Clusters with the same keys and contents are the same list: the order in
/// which they were found does not show.
pub proof fn law_order_is_determined(a: Seq<ClusterView>, b: Seq<ClusterView>)
    requires
        valid_clusters(a),
        valid_clusters(b),
        by_key(a) == by_key(b),
    ensures
        a == b,
    decreases a.len(),
{
    if a.len() == 0 {
        if b.len() > 0 {
            lemma_by_key_at(b, 0);
            assert(by_key(a).contains_key(b[0].key));
            let i = choose|i: int| has_key_at(a, b[0].key, i);
        }
        assert(a =~= b);
    } else if b.len() == 0 {
        lemma_by_key_at(a, 0);
        assert(by_key(b).contains_key(a[0].key));
        let i = choose|i: int| has_key_at(b, a[0].key, i);
    } else {
        let key = a.last().key;
        let other = b.last().key;
        lemma_by_key_at(a, a.len() - 1);
        lemma_by_key_at(b, b.len() - 1);
        assert(by_key(b).contains_key(key));
        assert(by_key(a).contains_key(other));
        let i = choose|i: int| has_key_at(b, key, i);
        let j = choose|j: int| has_key_at(a, other, j);
        assert(keys_of(b)[i] == key && keys_of(b)[b.len() - 1] == other);
        assert(keys_of(a)[j] == other && keys_of(a)[a.len() - 1] == key);
        if key != other {
            assert(i < b.len() - 1);
            assert(j < a.len() - 1);
            text::lemma_text_less_asymmetric(key, other);
        }
        assert(a.last() == b.last());
        lemma_drop_last_by_key(a);
        lemma_drop_last_by_key(b);
        law_order_is_determined(a.drop_last(), b.drop_last());
        assert(a =~= a.drop_last().push(a.last()));
        assert(b =~= b.drop_last().push(b.last()));
    }
}

proof fn lemma_drop_last_by_key(clusters: Seq<ClusterView>)
    requires
        valid_clusters(clusters),
        clusters.len() > 0,
    ensures
        valid_clusters(clusters.drop_last()),
        by_key(clusters.drop_last()) == by_key(clusters).remove(clusters.last().key),
{
    let shorter = clusters.drop_last();
    let last = clusters.last().key;
    assert forall|i: int, j: int| 0 <= i < j < shorter.len() implies text::text_less(
        #[trigger] keys_of(shorter)[i],
        #[trigger] keys_of(shorter)[j],
    ) by {
        assert(keys_of(shorter)[i] == keys_of(clusters)[i]);
        assert(keys_of(shorter)[j] == keys_of(clusters)[j]);
    }
    let left = by_key(shorter);
    let right = by_key(clusters).remove(last);
    assert forall|key: Seq<char>| left.contains_key(key) <==> right.contains_key(key) by {
        if left.contains_key(key) {
            let j = choose|j: int| has_key_at(shorter, key, j);
            assert(has_key_at(clusters, key, j));
            assert(keys_of(clusters)[j] == key && keys_of(clusters)[clusters.len() - 1] == last);
            text::lemma_text_less_asymmetric(key, last);
        }
        if right.contains_key(key) {
            let j = choose|j: int| has_key_at(clusters, key, j);
            assert(has_key_at(shorter, key, j));
        }
    }
    assert forall|key: Seq<char>| left.contains_key(key) implies left[key] == right[key] by {
        let j = choose|j: int| has_key_at(shorter, key, j);
        lemma_by_key_at(shorter, j);
        lemma_by_key_at(clusters, j);
    }
    assert(left =~= right);
}

impl View for CrashClusters {
    type V = Seq<ClusterView>;

    closed spec fn view(&self) -> Seq<ClusterView> {
        self.entries@.map_values(|cluster: CrashCluster| cluster@)
    }
}

/// The views of a list of clusters.
pub open spec fn cluster_views(clusters: Seq<CrashCluster>) -> Seq<ClusterView> {
    clusters.map_values(|cluster: CrashCluster| cluster@)
}

impl CrashClusters {
    #[verifier::type_invariant]
    closed spec fn keys_ascend(self) -> bool {
        valid_clusters(cluster_views(self.entries@))
    }

    /// No clusters.
    pub fn new() -> (clusters: CrashClusters)
        ensures
            clusters@ == Seq::<ClusterView>::empty(),
            valid_clusters(clusters@),
    {
        let entries: Vec<CrashCluster> = Vec::new();
        assert(cluster_views(entries@) =~= Seq::<ClusterView>::empty());
        CrashClusters { entries }
    }

    /// The number of clusters.
    pub fn len(&self) -> (count: usize)
        ensures
            count == self@.len(),
    {
        self.entries.len()
    }

    /// The clusters, in the order of their keys.
    pub fn values(&self) -> (clusters: &Vec<CrashCluster>)
        ensures
            cluster_views(clusters@) == self@,
            valid_clusters(self@),
    {
        proof {
            use_type_invariant(self);
        }
        &self.entries
    }

    /// The clusters, in the order of their keys.
    pub fn into_values(self) -> (clusters: Vec<CrashCluster>)
        ensures
            cluster_views(clusters@) == self@,
            valid_clusters(self@),
    {
        proof {
            use_type_invariant(&self);
        }
        self.entries
    }
}

/// A representative to be copied: the input, and the file name of the copy.
#[derive(Debug)]
pub struct UniqueCopy {
    pub source: FilePath,
    pub file_name: String,
}

/// The path, below the output directory, of the copy of the representative of
/// the cluster at `index`.
pub open spec fn unique_path(cluster: ClusterView, index: nat) -> Seq<char> {
    "unique/"@ + text::forward_slashed(cluster.representative_source.unique_name(index))
}

impl ClusterView {
    /// The cluster, which stands at `index`, with its representative named by
    /// its copy.
    pub open spec fn named_by_copy(self, index: nat) -> ClusterView {
        ClusterView { representative: unique_path(self, index), ..self }
    }
}

/// The clusters, the first `count` of them with their representatives named by
/// their copies.
pub open spec fn with_copies_up_to(clusters: Seq<ClusterView>, count: int) -> Seq<ClusterView> {
    Seq::new(
        clusters.len(),
        |i: int|
            if i < count {
                clusters[i].named_by_copy(i as nat)
            } else {
                clusters[i]
            },
    )
}

/// The clusters, each with its representative named by its copy.
pub open spec fn with_copies(clusters: Seq<ClusterView>) -> Seq<ClusterView> {
    with_copies_up_to(clusters, clusters.len() as int)
}

/// Representatives are named one after the other, in the order of the clusters:
/// where the copy at `index` fails, the clusters before it have been named by
/// their copies, and it and the later ones are as they were.
pub proof fn law_copies_are_named_in_turn(clusters: Seq<ClusterView>, index: int)
    requires
        0 <= index < clusters.len(),
    ensures
        with_copies_up_to(clusters, 0) == clusters,
        with_copies_up_to(clusters, index + 1) == with_copies_up_to(clusters, index).update(
            index,
            with_copies_up_to(clusters, index)[index].named_by_copy(index as nat),
        ),
        forall|i: int|
            index <= i < clusters.len() ==> #[trigger] with_copies_up_to(clusters, index)[i]
                == clusters[i],
{
    assert(with_copies_up_to(clusters, 0) =~= clusters);
    assert(with_copies_up_to(clusters, index + 1) =~= with_copies_up_to(clusters, index).update(
        index,
        with_copies_up_to(clusters, index)[index].named_by_copy(index as nat),
    ));
}

impl CrashClusters {
    /// The copy that is to be made of the representative of the cluster at
    /// `index`.
    pub fn unique_copy(&self, index: usize) -> (copy: UniqueCopy)
        requires
            index < self@.len(),
        ensures
            copy.source@ == self@[index as int].representative_source,
            copy.file_name@ == self@[index as int].representative_source.unique_name(index as nat),
            file_path::slash_free(copy.file_name@),
    {
        let source = self.entries[index].representative_source.clone();
        let file_name = unique_file_name(index, &source);
        UniqueCopy { source, file_name }
    }

    /// Names the representative of the cluster at `index` by the copy that has
    /// been made of it.
    pub fn name_unique_representative(&mut self, index: usize)
        requires
            index < old(self)@.len(),
        ensures
            final(self)@ == old(self)@.update(
                index as int,
                old(self)@[index as int].named_by_copy(index as nat),
            ),
            valid_clusters(final(self)@),
            total_members(final(self)@) == total_members(old(self)@),
    {
        proof {
            use_type_invariant(&*self);
        }
        let ghost before = self@;
        let ghost named = before[index as int].named_by_copy(index as nat);
        let mut entries: Vec<CrashCluster> = Vec::new();
        assert(cluster_views(entries@) =~= Seq::<ClusterView>::empty());
        std::mem::swap(&mut entries, &mut self.entries);
        assert(cluster_views(entries@) == before);
        let mut representative = "unique/".to_owned();
        representative.append(
            &forward_slashes(&unique_file_name(index, &entries[index].representative_source)),
        );
        let cluster = &mut entries[index];
        cluster.representative = representative;
        proof {
            assert(cluster_views(entries@) =~= before.update(index as int, named));
            assert(before[index as int].valid());
            lemma_update_by_key(before, index as int, named);
            lemma_total_members_update(before, index as int, named);
        }
        self.entries = entries;
    }
}

fn find(entries: &Vec<CrashCluster>, key: &str) -> (place: Result<usize, usize>)
    requires
        strictly_ascending(keys_of(cluster_views(entries@))),
    ensures
        match place {
            Ok(i) => i < entries@.len() && entries@[i as int]@.key == key@,
            Err(i) => is_place(keys_of(cluster_views(entries@)), key@, i as int),
        },
{
    let ghost keys = keys_of(cluster_views(entries@));
    let mut low: usize = 0;
    let mut high: usize = entries.len();
    while low < high
        invariant
            low <= high <= entries@.len(),
            keys == keys_of(cluster_views(entries@)),
            keys.len() == entries@.len(),
            strictly_ascending(keys),
            forall|i: int| 0 <= i < low ==> text::text_less(#[trigger] keys[i], key@),
            forall|i: int| high <= i < keys.len() ==> text::text_less(key@, #[trigger] keys[i]),
        decreases high - low,
    {
        let middle = low + (high - low) / 2;
        assert(keys[middle as int] == entries@[middle as int]@.key);
        match relate_text(&entries[middle].key, key) {
            Relation::Equal => {
                return Ok(middle);
            },
            Relation::Less => {
                assert forall|i: int| 0 <= i <= middle implies text::text_less(
                    #[trigger] keys[i],
                    key@,
                ) by {
                    if i < middle {
                        text::lemma_text_less_transitive(keys[i], keys[middle as int], key@);
                    }
                }
                low = middle + 1;
            },
            Relation::Greater => {
                proof {
                    text::lemma_text_less_total(keys[middle as int], key@);
                }
                assert forall|i: int| middle <= i < keys.len() implies text::text_less(
                    key@,
                    #[trigger] keys[i],
                ) by {
                    if i > middle {
                        text::lemma_text_less_transitive(key@, keys[middle as int], keys[i]);
                    }
                }
                high = middle;
            },
        }
    }
    Err(low)
}

fn absorb(
    cluster: &mut CrashCluster,
    source_file: &FilePath,
    source_path: String,
    source_size: u64,
    observed_crash: &ObservedCrash,
)
    requires
        old(cluster)@.valid(),
    ensures
        final(cluster)@ == old(cluster)@.absorb(
            Observation {
                file: source_file@,
                path: source_path@,
                size: source_size,
                crash: observed_crash@,
            },
        ),
        final(cluster)@.valid(),
{
    cluster.members.push(source_path.clone());
    cluster.member_count = cluster.members.len();
    assert(cluster@.members =~= old(cluster)@.members.push(source_path@));
    match &observed_crash.oracle_crash_id {
        Some(id) => record_oracle_crash_id(cluster, Some(id.as_str())),
        None => record_oracle_crash_id(cluster, None),
    }
    if source_size < cluster.representative_size {
        cluster.representative_source = source_file.clone();
        cluster.representative_size = source_size;
        cluster.representative = source_path;
        cluster.representative_crashing_request_index = observed_crash.crashing_request_index;
    }
}

/// Puts an observed crash into the cluster with its key, or into a new one.
pub fn add_observed_crash_to_clusters(
    clusters: &mut CrashClusters,
    source_file: &FilePath,
    source_path: String,
    source_size: u64,
    observed_crash: ObservedCrash,
)
    ensures
        valid_clusters(final(clusters)@),
        by_key(final(clusters)@) == add_observation(
            by_key(old(clusters)@),
            Observation {
                file: source_file@,
                path: source_path@,
                size: source_size,
                crash: observed_crash@,
            },
        ),
        total_members(final(clusters)@) == total_members(old(clusters)@) + 1,
{
    proof {
        use_type_invariant(&*clusters);
    }
    let ghost before = clusters@;
    let ghost observation = Observation {
        file: source_file@,
        path: source_path@,
        size: source_size,
        crash: observed_crash@,
    };
    let key = observed_crash.identity.cluster_key();
    let mut entries: Vec<CrashCluster> = Vec::new();
    assert(cluster_views(entries@) =~= Seq::<ClusterView>::empty());
    std::mem::swap(&mut entries, &mut clusters.entries);
    assert(cluster_views(entries@) == before);
    match find(&entries, &key) {
        Ok(i) => {
            assert(before[i as int].valid());
            absorb(&mut entries[i], source_file, source_path, source_size, &observed_crash);
            let ghost cluster = entries@[i as int]@;
            proof {
                assert(cluster_views(entries@) =~= before.update(i as int, cluster));
                lemma_by_key_at(before, i as int);
                lemma_update_by_key(before, i as int, cluster);
                lemma_total_members_update(before, i as int, cluster);
            }
        },
        Err(i) => {
            let mut members: Vec<String> = Vec::new();
            members.push(source_path.clone());
            let mut cluster = CrashCluster {
                key,
                representative_source: source_file.clone(),
                representative_size: source_size,
                representative: source_path,
                members,
                member_count: 1,
                oracle_crash_ids: Vec::new(),
                oracle_mixed: false,
                representative_crashing_request_index: observed_crash.crashing_request_index,
                identity: SerializableCrashIdentity::from(&observed_crash.identity),
            };
            assert(cluster@.members =~= seq![source_path@]);
            assert(cluster@.oracle_crash_ids =~= Seq::<Seq<char>>::empty());
            match &observed_crash.oracle_crash_id {
                Some(id) => record_oracle_crash_id(&mut cluster, Some(id.as_str())),
                None => record_oracle_crash_id(&mut cluster, None),
            }
            let ghost added = cluster@;
            entries.insert(i, cluster);
            proof {
                assert(cluster_views(entries@) =~= before.insert(i as int, added));
                lemma_absent_key(before, added.key, i as int);
                lemma_insert_by_key(before, i as int, added);
                lemma_total_members_insert(before, i as int, added);
            }
        },
    }
    clusters.entries = entries;
}

/// Clusters are found by their keys: a key finds a cluster exactly where one
/// has it, and finds that one.
pub proof fn law_keys_find_their_clusters(clusters: Seq<ClusterView>, key: Seq<char>)
    requires
        valid_clusters(clusters),
    ensures
        by_key(clusters).contains_key(key) <==> exists|i: int|
            0 <= i < clusters.len() && (#[trigger] clusters[i]).key == key,
        forall|i: int|
            0 <= i < clusters.len() && (#[trigger] clusters[i]).key == key ==> by_key(
                clusters,
            )[key] == clusters[i],
{
    if by_key(clusters).contains_key(key) {
        let i = choose|i: int| has_key_at(clusters, key, i);
        assert(clusters[i].key == key);
    }
    if exists|i: int| 0 <= i < clusters.len() && (#[trigger] clusters[i]).key == key {
        let i = choose|i: int| 0 <= i < clusters.len() && (#[trigger] clusters[i]).key == key;
        assert(has_key_at(clusters, key, i));
    }
    assert forall|i: int| 0 <= i < clusters.len() && (#[trigger] clusters[i]).key == key implies
        by_key(clusters)[key] == clusters[i] by {
        lemma_by_key_at(clusters, i);
    }
}

/// No two clusters have the same key, and they stand in the order of their
/// keys; each has members, and counts them all.
pub proof fn law_valid_clusters_stand_in_the_order_of_their_keys(
    clusters: Seq<ClusterView>,
    i: int,
    j: int,
)
    requires
        valid_clusters(clusters),
        0 <= i < j < clusters.len(),
    ensures
        text::text_less(clusters[i].key, clusters[j].key),
        clusters[i].key != clusters[j].key,
        clusters[i].member_count == clusters[i].members.len() > 0,
{
    assert(keys_of(clusters)[i] == clusters[i].key);
    assert(keys_of(clusters)[j] == clusters[j].key);
    text::lemma_text_less_asymmetric(clusters[i].key, clusters[j].key);
    assert(clusters[i].valid());
}

/// The members of two lists of clusters add up, and a single cluster counts
/// for as many members as it lists.
pub proof fn law_members_add_up(a: Seq<ClusterView>, b: Seq<ClusterView>, cluster: ClusterView)
    ensures
        total_members(a + b) == total_members(a) + total_members(b),
        total_members(seq![cluster]) == cluster.member_count,
        total_members(Seq::<ClusterView>::empty()) == 0,
    decreases b.len(),
{
    assert(seq![cluster].drop_last() =~= Seq::<ClusterView>::empty());
    assert(total_members(Seq::<ClusterView>::empty()) == 0);
    if b.len() == 0 {
        assert(a + b =~= a);
    } else {
        law_members_add_up(a, b.drop_last(), cluster);
        assert((a + b).drop_last() =~= a + b.drop_last());
    }
}

/// A copy changes the name of the representative, and nothing else; the new
/// name leads into the directory of copies, to the file name of the copy.
pub proof fn law_copies_change_the_representative_alone(cluster: ClusterView, index: nat)
    ensures
        (ClusterView {
            representative: cluster.representative,
            ..cluster.named_by_copy(index)
        }) == cluster,
        cluster.named_by_copy(index).representative.len() == "unique/"@.len()
            + cluster.representative_source.unique_name(index).len(),
        cluster.named_by_copy(index).representative.take("unique/"@.len() as int) == "unique/"@,
        forall|i: int|
            0 <= i < cluster.representative_source.unique_name(index).len()
                ==> #[trigger] cluster.named_by_copy(index).representative["unique/"@.len() + i] == (
            if cluster.representative_source.unique_name(index)[i] == '\\' {
                '/'
            } else {
                cluster.representative_source.unique_name(index)[i]
            }),
{
    assert(cluster.named_by_copy(index).representative.take("unique/"@.len() as int)
        =~= "unique/"@);
}

/// The view of a cluster keeps each of its parts as it is.
pub proof fn law_views_of_clusters_keep_every_part(cluster: CrashCluster)
    ensures
        cluster@.key == cluster.key@,
        cluster@.representative_source == cluster.representative_source@,
        cluster@.representative_size == cluster.representative_size,
        cluster@.representative == cluster.representative@,
        cluster@.representative_crashing_request_index
            == cluster.representative_crashing_request_index,
        cluster@.member_count == cluster.member_count,
        cluster@.oracle_mixed == cluster.oracle_mixed,
        cluster@.members.len() == cluster.members@.len(),
        forall|i: int|
            0 <= i < cluster.members@.len() ==> #[trigger] cluster@.members[i]
                == cluster.members@[i]@,
        cluster@.oracle_crash_ids.len() == cluster.oracle_crash_ids@.len(),
        forall|i: int|
            0 <= i < cluster.oracle_crash_ids@.len() ==> #[trigger] cluster@.oracle_crash_ids[i]
                == cluster.oracle_crash_ids@[i]@,
        cluster@.identity.exit_kind == cluster.identity.exit_kind@,
        cluster@.identity.crash_kind == cluster.identity.crash_kind@,
        cluster@.identity.http_status == cluster.identity.http_status,
        cluster@.identity.response_class == cluster.identity.response_class@,
        cluster.identity.validation_error_discriminant matches Some(name)
            ==> cluster@.identity.validation_error_discriminant == Some(name@),
        cluster.identity.validation_error_discriminant is None
            ==> cluster@.identity.validation_error_discriminant is None,
        cluster.identity.endpoint matches Some(endpoint) ==> cluster@.identity.endpoint == Some(
            endpoint@,
        ),
        cluster.identity.endpoint is None ==> cluster@.identity.endpoint is None,
{
}

/// The views of a list of clusters are those of its clusters, in order.
pub proof fn law_views_of_lists_keep_every_cluster(clusters: Seq<CrashCluster>)
    ensures
        cluster_views(clusters).len() == clusters.len(),
        forall|i: int|
            0 <= i < clusters.len() ==> #[trigger] cluster_views(clusters)[i] == clusters[i]@,
{
}

} // verus!
