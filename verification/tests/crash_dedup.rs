use crash_dedup::crash_clusters::{
    add_observed_crash_to_clusters, record_oracle_crash_id, CrashClusters,
    SerializableCrashIdentity,
};
use crash_dedup::crash_identity::{CrashIdentity, CrashKind, ObservedExitKind, ResponseClass};
use crash_dedup::crash_replay::ObservedCrash;
use crash_dedup::dedup_report::{
    log_progress, log_summary, should_log_progress, CrashFileResult, DedupReport, DedupSummary,
};
use crash_dedup::dedup_run::{DedupRun, ReplayOutcome};
use crash_dedup::file_path::{FilePath, PathPart};
use std::path::{Component, Path};

fn file_path(path: &str) -> FilePath {
    let mut components = Path::new(path).components();
    let mut parts = Vec::new();
    let mut rests = vec![components.as_path().to_string_lossy().into_owned()];
    while let Some(component) = components.next() {
        parts.push(match component {
            Component::Prefix(prefix) => {
                PathPart::Prefix(prefix.as_os_str().as_encoded_bytes().to_vec())
            }
            Component::RootDir => PathPart::RootDir,
            Component::CurDir => PathPart::CurDir,
            Component::ParentDir => PathPart::ParentDir,
            Component::Normal(name) => PathPart::Normal(name.as_encoded_bytes().to_vec()),
        });
        rests.push(components.as_path().to_string_lossy().into_owned());
    }
    FilePath::new(path.to_string(), parts, rests).unwrap()
}

fn observed_crash(endpoint: &str) -> ObservedCrash {
    observed_crash_with_index(endpoint, 0)
}

fn observed_crash_with_oracle(endpoint: &str, oracle_crash_id: &str) -> ObservedCrash {
    ObservedCrash {
        oracle_crash_id: Some(oracle_crash_id.to_string()),
        ..observed_crash_with_index(endpoint, 0)
    }
}

fn observed_crash_with_index(endpoint: &str, crashing_request_index: usize) -> ObservedCrash {
    ObservedCrash {
        identity: CrashIdentity {
            exit_kind: ObservedExitKind::Crash,
            crash_kind: CrashKind::Http5xx,
            http_status: Some(500),
            validation_error_discriminant: None,
            endpoint: Some(endpoint.to_string()),
            response_class: ResponseClass::Json,
        },
        crashing_request_index,
        oracle_crash_id: None,
    }
}

#[test]
fn add_observed_crash_groups_by_cluster_key() {
    let mut clusters = CrashClusters::new();
    let first = observed_crash_with_oracle("GET /items", "BUG-001");
    let duplicate = observed_crash_with_oracle("GET /items", "BUG-002");

    add_observed_crash_to_clusters(
        &mut clusters,
        &file_path("first"),
        String::from("first"),
        10,
        first,
    );
    add_observed_crash_to_clusters(
        &mut clusters,
        &file_path("second"),
        String::from("second"),
        10,
        duplicate,
    );

    assert_eq!(clusters.len(), 1);
    let cluster = clusters.values().iter().next().unwrap();
    assert_eq!(cluster.representative, "first");
    assert_eq!(cluster.member_count, 2);
    assert_eq!(cluster.members, vec!["first", "second"]);
    assert_eq!(cluster.oracle_crash_ids, vec!["BUG-001", "BUG-002"]);
    assert!(cluster.oracle_mixed);
}

#[test]
fn add_observed_crash_prefers_smaller_representative() {
    let mut clusters = CrashClusters::new();
    let first = observed_crash_with_index("GET /items", 2);
    let smaller = observed_crash_with_index("GET /items", 1);

    add_observed_crash_to_clusters(
        &mut clusters,
        &file_path("larger"),
        String::from("larger"),
        100,
        first,
    );
    add_observed_crash_to_clusters(
        &mut clusters,
        &file_path("smaller"),
        String::from("smaller"),
        10,
        smaller,
    );

    let cluster = clusters.values().iter().next().unwrap();
    assert_eq!(cluster.representative, "smaller");
    assert_eq!(cluster.representative_source, file_path("smaller"));
    assert_eq!(cluster.representative_size, 10);
    assert_eq!(cluster.representative_crashing_request_index, 1);
    assert_eq!(cluster.members, vec!["larger", "smaller"]);
}

#[test]
fn add_observed_crash_splits_distinct_cluster_keys() {
    let mut clusters = CrashClusters::new();

    add_observed_crash_to_clusters(
        &mut clusters,
        &file_path("first"),
        String::from("first"),
        10,
        observed_crash("GET /items"),
    );
    add_observed_crash_to_clusters(
        &mut clusters,
        &file_path("second"),
        String::from("second"),
        10,
        observed_crash("POST /items"),
    );

    assert_eq!(clusters.len(), 2);
}

fn add(clusters: &mut CrashClusters, path: &str, size: u64, crash: ObservedCrash) {
    add_observed_crash_to_clusters(clusters, &file_path(path), path.to_string(), size, crash);
}

#[test]
fn clusters_are_kept_in_the_order_of_their_keys() {
    let mut clusters = CrashClusters::new();
    for endpoint in ["b", "\u{10000}", "", "a|", "ab", "a", "\u{ffff}", "b"] {
        add(&mut clusters, endpoint, 1, observed_crash(endpoint));
    }
    let keys: Vec<&str> = clusters.values().iter().map(|c| c.key.as_str()).collect();
    let mut sorted = keys.clone();
    sorted.sort();
    sorted.dedup();
    assert_eq!(keys, sorted);
    assert_eq!(clusters.len(), 7);
}

#[test]
fn of_equally_small_inputs_the_first_represents_the_cluster() {
    let mut clusters = CrashClusters::new();
    for (path, size) in [("a", 7), ("b", 3), ("c", 5), ("d", 3), ("e", 9)] {
        add(&mut clusters, path, size, observed_crash("GET /items"));
    }
    let cluster = &clusters.values()[0];
    assert_eq!(cluster.representative, "b");
    assert_eq!(cluster.representative_size, 3);
    assert_eq!(cluster.member_count, 5);
}

#[test]
fn oracle_ids_are_trimmed_sorted_and_listed_once() {
    let mut clusters = CrashClusters::new();
    for id in ["  BUG-2 ", "\u{2003}", "", "BUG-1", "BUG-2", "BUG-10\n"] {
        add(&mut clusters, id, 1, observed_crash_with_oracle("GET /items", id));
    }
    add(&mut clusters, "none", 1, observed_crash("GET /items"));
    let cluster = &clusters.values()[0];
    assert_eq!(cluster.oracle_crash_ids, vec!["BUG-1", "BUG-10", "BUG-2"]);
    assert!(cluster.oracle_mixed);
    assert_eq!(cluster.member_count, 7);
}

#[test]
fn one_oracle_id_is_not_mixed() {
    let mut clusters = CrashClusters::new();
    add(&mut clusters, "a", 1, observed_crash_with_oracle("GET /items", "BUG-1"));
    add(&mut clusters, "b", 1, observed_crash_with_oracle("GET /items", "BUG-1 "));
    let cluster = &clusters.values()[0];
    assert_eq!(cluster.oracle_crash_ids, vec!["BUG-1"]);
    assert!(!cluster.oracle_mixed);
}

#[test]
fn oracle_ids_do_not_steer_clustering() {
    let mut named = CrashClusters::new();
    let mut plain = CrashClusters::new();
    for (path, size, endpoint, id) in [
        ("a", 4, "GET /x", "one"),
        ("b", 2, "GET /y", "one"),
        ("c", 3, "GET /x", "two"),
    ] {
        add(&mut named, path, size, observed_crash_with_oracle(endpoint, id));
        add(&mut plain, path, size, observed_crash(endpoint));
    }
    assert_eq!(named.len(), plain.len());
    for (a, b) in named.values().iter().zip(plain.values().iter()) {
        assert_eq!(a.key, b.key);
        assert_eq!(a.members, b.members);
        assert_eq!(a.representative, b.representative);
        assert_eq!(a.representative_size, b.representative_size);
        assert!(b.oracle_crash_ids.is_empty());
    }
}

#[test]
fn recording_an_oracle_id_twice_changes_nothing() {
    let mut clusters = CrashClusters::new();
    add(&mut clusters, "a", 1, observed_crash("GET /items"));
    let mut cluster = clusters.into_values().remove(0);
    record_oracle_crash_id(&mut cluster, None);
    record_oracle_crash_id(&mut cluster, Some(" \t"));
    assert!(cluster.oracle_crash_ids.is_empty());
    record_oracle_crash_id(&mut cluster, Some("BUG-9"));
    record_oracle_crash_id(&mut cluster, Some("BUG-9"));
    assert_eq!(cluster.oracle_crash_ids, vec!["BUG-9"]);
    assert!(!cluster.oracle_mixed);
}

#[test]
fn identities_are_written_with_their_labels() {
    let identity = observed_crash("GET /items").identity;
    let written = SerializableCrashIdentity::from(&identity);
    assert_eq!(written.exit_kind, "Crash");
    assert_eq!(written.crash_kind, "http_5xx");
    assert_eq!(written.http_status, Some(500));
    assert_eq!(written.validation_error_discriminant, None);
    assert_eq!(written.endpoint.as_deref(), Some("GET /items"));
    assert_eq!(written.response_class, "Json");
}

#[test]
fn unique_representatives_are_named_by_their_copies() {
    let mut clusters = CrashClusters::new();
    add_observed_crash_to_clusters(
        &mut clusters,
        &file_path("/crashes/same-name"),
        String::from("same-name"),
        5,
        observed_crash("GET /items"),
    );
    add_observed_crash_to_clusters(
        &mut clusters,
        &file_path("/crashes/nested/same-name"),
        String::from("nested/same-name"),
        6,
        observed_crash("POST /items"),
    );

    let first = clusters.unique_copy(0);
    assert_eq!(first.source, file_path("/crashes/same-name"));
    assert_eq!(first.file_name, "000000_same-name");
    clusters.name_unique_representative(0);
    let second = clusters.unique_copy(1);
    assert_eq!(second.source, file_path("/crashes/nested/same-name"));
    assert_eq!(second.file_name, "000001_same-name");
    clusters.name_unique_representative(1);

    assert_eq!(
        representatives(&clusters),
        vec!["unique/000000_same-name", "unique/000001_same-name"]
    );
}

fn representatives(clusters: &CrashClusters) -> Vec<&str> {
    clusters
        .values()
        .iter()
        .map(|cluster| cluster.representative.as_str())
        .collect()
}

#[test]
fn clusters_keep_their_representatives_until_their_copies_are_made() {
    let mut clusters = CrashClusters::new();
    for (path, endpoint) in [("a", "GET /a"), ("b", "GET /b"), ("c", "GET /c")] {
        add(&mut clusters, path, 1, observed_crash(endpoint));
    }
    let copy = clusters.unique_copy(0);
    assert_eq!(copy.file_name, "000000_a");
    assert_eq!(representatives(&clusters), vec!["a", "b", "c"]);
    clusters.name_unique_representative(0);
    assert_eq!(representatives(&clusters), vec!["unique/000000_a", "b", "c"]);
    clusters.name_unique_representative(1);
    assert_eq!(
        representatives(&clusters),
        vec!["unique/000000_a", "unique/000001_b", "c"]
    );
    assert_eq!(clusters.values()[1].members, vec!["b"]);
    assert_eq!(clusters.unique_copy(1).file_name, "000001_b");
}

#[test]
fn backslashes_show_as_slashes_in_representatives_only() {
    let mut clusters = CrashClusters::new();
    let source = FilePath::new(
        "a\\b".to_string(),
        vec![PathPart::Normal(b"a\\b".to_vec())],
        vec!["a\\b".to_string(), String::new()],
    )
    .unwrap();
    add_observed_crash_to_clusters(
        &mut clusters,
        &source,
        String::from("a/b"),
        1,
        observed_crash("GET /items"),
    );
    assert_eq!(clusters.unique_copy(0).file_name, "000000_a\\b");
    clusters.name_unique_representative(0);
    assert_eq!(clusters.values()[0].representative, "unique/000000_a/b");
}

#[test]
fn a_run_accounts_for_every_file() {
    let directory = file_path("crashes");
    let mut run = DedupRun::new();
    let outcomes = vec![
        ("crashes/a", ReplayOutcome::Unreadable { error: "bad input".into() }),
        ("crashes/b", ReplayOutcome::ReplayFailed { error: "no host".into() }),
        ("crashes/nested/c", ReplayOutcome::NotReproduced),
        ("crashes/d", ReplayOutcome::SizeUnknown { error: "gone".into() }),
        ("crashes/e", ReplayOutcome::Reproduced { size: 9, crash: observed_crash("GET /x") }),
        ("crashes/f", ReplayOutcome::Reproduced { size: 8, crash: observed_crash("GET /x") }),
        ("crashes/g", ReplayOutcome::Reproduced { size: 7, crash: observed_crash("GET /y") }),
    ];
    let total = outcomes.len();
    for (path, outcome) in outcomes {
        run.record(&directory, &file_path(path), outcome);
    }
    assert_eq!(run.processed(), total);
    assert_eq!(run.clusters().len(), 2);
    assert_eq!(run.non_reproducible().len(), 1);
    assert_eq!(run.skipped().len(), 3);
    for index in 0..run.clusters().len() {
        assert_eq!(run.unique_copy(index).file_name, ["000000_f", "000001_g"][index]);
        run.name_unique_representative(index);
    }
    let report = run.finish(total);

    assert_eq!(
        report.summary,
        DedupSummary {
            total_files: 7,
            reproduced: 3,
            unique_clusters: 2,
            non_reproducible: 1,
            skipped: 3,
        }
    );
    assert_eq!(report.clusters[0].members, vec!["e", "f"]);
    assert_eq!(report.clusters[0].representative, "unique/000000_f");
    assert_eq!(report.clusters[1].members, vec!["g"]);
    assert_eq!(report.non_reproducible[0].path, "nested/c");
    assert_eq!(
        report.non_reproducible[0].reason,
        "Replay did not reproduce a crash"
    );
    let skipped: Vec<(&str, &str)> = report
        .skipped
        .iter()
        .map(|result| (result.path.as_str(), result.reason.as_str()))
        .collect();
    assert_eq!(
        skipped,
        vec![
            ("a", "Could not read crash input: bad input"),
            ("b", "Could not replay crash input: no host"),
            ("d", "Could not read crash input metadata: gone"),
        ]
    );
}

#[test]
fn a_report_counts_members_clusters_and_results() {
    let mut clusters = CrashClusters::new();
    add(&mut clusters, "a", 1, observed_crash("GET /x"));
    add(&mut clusters, "b", 1, observed_crash("GET /x"));
    add(&mut clusters, "c", 1, observed_crash("GET /y"));
    let skipped = vec![CrashFileResult {
        path: "d".to_string(),
        reason: "r".to_string(),
    }];
    let report = DedupReport::new(9, clusters, Vec::new(), skipped);
    assert_eq!(
        report.summary,
        DedupSummary {
            total_files: 9,
            reproduced: 3,
            unique_clusters: 2,
            non_reproducible: 0,
            skipped: 1,
        }
    );
    assert_eq!(report.skipped[0].path, "d");
    assert!(report.clusters[0].key < report.clusters[1].key);
}

#[test]
fn progress_is_logged_after_each_full_interval_but_the_last() {
    assert!(should_log_progress(100, 101));
    assert!(should_log_progress(0, 1));
    assert!(!should_log_progress(100, 100));
    assert!(!should_log_progress(150, 1000));
    assert_eq!(
        log_progress(200, 1234, 5, 6, 7).unwrap(),
        "Dedup progress: 200/1234 crash files processed, 5 unique clusters, 6 non-reproducible, 7 skipped"
    );
    assert_eq!(log_progress(201, 1234, 5, 6, 7), None);
    assert_eq!(log_progress(1300, 1300, 5, 6, 7), None);
}

#[test]
fn the_summary_line_names_the_output() {
    let summary = DedupSummary {
        total_files: 10,
        reproduced: 6,
        unique_clusters: 2,
        non_reproducible: 3,
        skipped: 1,
    };
    assert_eq!(
        log_summary(&summary, &file_path("/out/dedup")),
        "Dedup processed 10 crash files: 6 reproduced, 2 unique clusters, 3 non-reproducible, 1 skipped. Output: /out/dedup"
    );
}

#[test]
fn the_order_of_crashes_matters_little() {
    let crashes = [
        ("a", 5, "GET /x", "two"),
        ("b", 3, "GET /y", "one"),
        ("c", 4, "GET /x", "one"),
        ("d", 4, "GET /x", "two"),
    ];
    let mut forth = CrashClusters::new();
    for (path, size, endpoint, id) in crashes.iter() {
        add(&mut forth, path, *size, observed_crash_with_oracle(endpoint, id));
    }
    let mut back = CrashClusters::new();
    for (path, size, endpoint, id) in crashes.iter().rev() {
        add(&mut back, path, *size, observed_crash_with_oracle(endpoint, id));
    }
    assert_eq!(forth.len(), 2);
    assert_eq!(back.len(), 2);
    for (a, b) in forth.values().iter().zip(back.values().iter()) {
        assert_eq!(a.key, b.key);
        assert_eq!(a.member_count, b.member_count);
        assert_eq!(a.oracle_crash_ids, b.oracle_crash_ids);
        assert_eq!(a.oracle_mixed, b.oracle_mixed);
        assert_eq!(a.representative_size, b.representative_size);
    }
    assert_eq!(forth.values()[0].representative, "c");
    assert_eq!(back.values()[0].representative, "d");
}
