use crash_dedup::crash_files::{select_crash_files, WalkEntry};
use crash_dedup::file_path::{
    is_crash_input_file, relate_paths, relative_string, unique_file_name, FilePath, PathPart,
};
use crash_dedup::order::Relation;
use crash_dedup::output_directory::{
    ensure_crash_directory, prepare_output_directory, remove_if_exists, DirectoryError, Listing,
    OutputEntry, Preparation, Removal,
};
use std::path::{Component, Path};

fn file_path(path: &str) -> FilePath {
    let mut components = Path::new(path).components();
    let mut parts = Vec::new();
    let mut rests = vec![components.as_path().to_string_lossy().into_owned()];
    while let Some(component) = components.next() {
        parts.push(match component {
            Component::Prefix(prefix) => {
                PathPart::Prefix(prefix.as_os_str().as_encoded_bytes().to_vec())
            }
            Component::RootDir => PathPart::RootDir,
            Component::CurDir => PathPart::CurDir,
            Component::ParentDir => PathPart::ParentDir,
            Component::Normal(name) => PathPart::Normal(name.as_encoded_bytes().to_vec()),
        });
        rests.push(components.as_path().to_string_lossy().into_owned());
    }
    FilePath::new(path.to_string(), parts, rests).unwrap()
}

const PATHS: [&str; 60] = [
    "", ".", "..", "/", "a", "a/", "a//b", "a/b", "a/./b", "./a", "../a", "/a", "/a/b", "/a/b/c",
    "a/b/..", "a.b", "a-b", "a/b.metadata", "a/.b", "\u{e9}/x", "b", "ab/c",
    "a/.", "a/./", "//", "/.", "./.", "/a/b//",
    "a/./././b", "a/././", "...", "a/.../b", "..a/b", "a./b", "a/b.", "/..", "/../a", "./../a",
    "a/../b", "a/b/.", "a//", "///a", "/./a", "/././", "/./a/./", "./a/.", "././.", "a\\b/c",
    "a/.\\b", "a\\./b", "\\", "a\\", "a\\/.", "/\\", "/\\.", "a/\\/b", "\u{e9}", "./\u{fffd}",
    "../..", "a b/ c",
];

#[test]
fn paths_need_a_rest_for_each_number_of_parts() {
    assert!(FilePath::new(String::new(), Vec::new(), Vec::new()).is_none());
    assert!(FilePath::new(String::new(), Vec::new(), vec![String::new()]).is_some());
    assert!(FilePath::new("/".into(), vec![PathPart::RootDir], vec![String::new()]).is_none());
}

#[test]
fn nothing_may_be_left_after_the_last_part() {
    let rests = |last: &str| vec!["/".to_string(), last.to_string()];
    assert!(FilePath::new("/".into(), vec![PathPart::RootDir], rests("")).is_some());
    assert!(FilePath::new("/".into(), vec![PathPart::RootDir], rests("a")).is_none());
    assert!(FilePath::new(String::new(), Vec::new(), vec!["a".to_string()]).is_none());
}

#[test]
fn names_are_not_empty_and_hold_no_separator() {
    let named = |name: &str| {
        FilePath::new(
            name.to_string(),
            vec![PathPart::Normal(name.as_bytes().to_vec())],
            vec![name.to_string(), String::new()],
        )
    };
    assert_eq!(named("a").unwrap().file_name().as_deref(), Some("a"));
    assert!(named("a\\b").is_some());
    assert!(named("").is_none());
    assert!(named("/").is_none());
    assert!(named("a/b").is_none());
    assert!(named("../a").is_none());
    assert!(FilePath::new(
        "a/b".to_string(),
        vec![PathPart::Normal(b"a".to_vec()), PathPart::Normal(b"/b".to_vec())],
        vec!["a/b".to_string(), "b".to_string(), String::new()],
    )
    .is_none());
}

#[test]
fn rests_are_written_out_of_the_parts() {
    let made = |text: &str, rests: [&str; 3]| {
        FilePath::new(
            text.to_string(),
            vec![PathPart::Normal(b"a".to_vec()), PathPart::Normal(b"b".to_vec())],
            rests.iter().map(|rest| rest.to_string()).collect(),
        )
        .is_some()
    };
    assert!(made("a/b", ["a/b", "b", ""]));
    assert!(made("a//b", ["a//b", "b", ""]));
    assert!(made("a/./b/.", ["a/./b", "b", ""]));
    assert!(made("a\\b", ["a\\b", "b", ""]));
    // Neither rest has to do with the components.
    assert!(!made("x/y", ["x/y", "y", ""]));
    assert!(!made("a/b", ["a/b", "c", ""]));
    assert!(!made("a/b", ["a/b", "", ""]));
    // The components run into each other, or something stands between them.
    assert!(!made("ab", ["ab", "b", ""]));
    assert!(!made("a/x/b", ["a/x/b", "b", ""]));
    assert!(!made("a/../b", ["a/../b", "b", ""]));
    assert!(!made("a./b", ["a./b", "b", ""]));
    assert!(!made("a/.b", ["a/.b", "b", ""]));
    // The rests hold what stands behind the last component.
    assert!(!made("a/b/", ["a/b/", "b/", ""]));
    // The text is another path.
    assert!(!made("a/b/c", ["a/b", "b", ""]));
    assert!(!made("x/a/b", ["a/b", "b", ""]));
    assert!(!made("a/b.", ["a/b", "b", ""]));
}

#[test]
fn roots_and_dots_are_written_as_such() {
    let made = |part: PathPart, text: &str| {
        FilePath::new(text.to_string(), vec![part], vec![text.to_string(), String::new()]).is_some()
    };
    assert!(made(PathPart::RootDir, "/"));
    assert!(made(PathPart::RootDir, "\\"));
    assert!(!made(PathPart::RootDir, "//"));
    assert!(!made(PathPart::RootDir, "a"));
    assert!(made(PathPart::CurDir, "."));
    assert!(!made(PathPart::CurDir, ".."));
    assert!(!made(PathPart::CurDir, ""));
    assert!(made(PathPart::ParentDir, ".."));
    assert!(!made(PathPart::ParentDir, "."));
    assert!(made(PathPart::Normal(vec![0xff]), "\u{fffd}"));
    assert!(!made(PathPart::Normal(vec![0xff]), ""));
    // A prefix implies a root that is not written.
    assert!(FilePath::new(
        "\\\\host\\share".to_string(),
        vec![PathPart::Prefix(b"host share".to_vec()), PathPart::RootDir],
        vec!["\\\\host\\share".to_string(), String::new(), String::new()],
    )
    .is_some());
    assert!(FilePath::new("/".to_string(), Vec::new(), vec![String::new()]).is_none());
}

#[test]
fn nothing_is_left_of_a_path_below_itself() {
    for path in PATHS.iter() {
        assert_eq!(relative_string(&file_path(path), &file_path(path)), "");
    }
    assert_eq!(relative_string(&file_path("a//b/"), &file_path("a/./b")), "");
}

#[test]
fn a_file_name_is_left_of_a_file_below_its_directory() {
    assert_eq!(relative_string(&file_path("/a/./b"), &file_path("/a//b/./c\\d/.")), "c/d");
    assert_eq!(relative_string(&file_path("/"), &file_path("/a")), "a");
    assert_eq!(relative_string(&file_path(""), &file_path("a/")), "a");
}

#[test]
fn paths_are_ordered_as_the_platform_orders_them() {
    for a in PATHS.iter() {
        for b in PATHS.iter() {
            let expected = match Path::new(a).cmp(Path::new(b)) {
                std::cmp::Ordering::Less => Relation::Less,
                std::cmp::Ordering::Equal => Relation::Equal,
                std::cmp::Ordering::Greater => Relation::Greater,
            };
            assert_eq!(relate_paths(&file_path(a), &file_path(b)), expected);
        }
    }
}

#[test]
fn paths_start_and_continue_as_the_platform_says() {
    for a in PATHS.iter() {
        assert_eq!(
            file_path(a).file_name().as_deref(),
            Path::new(a).file_name().and_then(|name| name.to_str())
        );
        for b in PATHS.iter() {
            let (path, base) = (Path::new(a), Path::new(b));
            assert_eq!(file_path(a).starts_with(&file_path(b)), path.starts_with(base));
            let expected = path
                .strip_prefix(base)
                .unwrap_or(path)
                .to_string_lossy()
                .replace('\\', "/");
            assert_eq!(relative_string(&file_path(b), &file_path(a)), expected);
        }
    }
    assert_eq!(relative_string(&file_path("/a"), &file_path("/a/b//c")), "b//c");
    assert_eq!(relative_string(&file_path("/x"), &file_path("/a/b\\c")), "/a/b/c");
}

#[test]
fn hidden_files_and_metadata_are_no_crash_inputs() {
    assert!(is_crash_input_file(&file_path("crashes/crash-a")));
    assert!(is_crash_input_file(&file_path("crashes/.hidden/crash-a")));
    assert!(is_crash_input_file(&file_path("metadata")));
    assert!(!is_crash_input_file(&file_path("crash-b.metadata")));
    assert!(!is_crash_input_file(&file_path(".hidden")));
    assert!(!is_crash_input_file(&file_path(".metadata")));
    assert!(!is_crash_input_file(&file_path("crashes/..")));
    assert!(!is_crash_input_file(&file_path("/")));
    let undecodable = FilePath::new(
        "\u{fffd}".to_string(),
        vec![PathPart::Normal(vec![0xff])],
        vec!["\u{fffd}".to_string(), String::new()],
    )
    .unwrap();
    assert!(!is_crash_input_file(&undecodable));
    assert_eq!(unique_file_name(3, &undecodable), "000003_crash");
}

#[test]
fn unique_names_carry_a_padded_index() {
    let path = file_path("/crashes/same-name");
    assert_eq!(unique_file_name(0, &path), "000000_same-name");
    assert_eq!(unique_file_name(42, &path), "000042_same-name");
    assert_eq!(unique_file_name(999_999, &path), "999999_same-name");
    assert_eq!(unique_file_name(1_234_567, &path), "1234567_same-name");
    assert_eq!(unique_file_name(7, &file_path("/")), "000007_crash");
}

#[test]
fn unique_names_differ_where_indices_do() {
    let plain = file_path("x");
    let tricky = file_path("0_x");
    let mut names = Vec::new();
    for index in [0, 1, 10, 100_000, 1_000_000, 10_000_000] {
        names.push(unique_file_name(index, &plain));
        names.push(unique_file_name(index + 1_000_000_000, &tricky));
    }
    for i in 0..names.len() {
        for j in 0..i {
            assert_ne!(names[i], names[j]);
        }
    }
}

#[test]
fn unique_names_ascend_with_the_index() {
    let late = file_path("zzz");
    let early = file_path("!");
    let indices = [0, 1, 2, 9, 10, 11, 99, 100, 9_999, 10_000, 123_456, 999_998, 999_999];
    for i in 0..indices.len() {
        for j in i + 1..indices.len() {
            assert!(unique_file_name(indices[i], &late) < unique_file_name(indices[j], &early));
        }
    }
    assert!(unique_file_name(1_000_000, &early) < unique_file_name(999_999, &late));
}

#[test]
fn unique_names_hold_no_separator() {
    for path in PATHS.iter() {
        assert!(!unique_file_name(12, &file_path(path)).contains('/'));
    }
}

fn entry(path: &str, is_file: bool) -> WalkEntry {
    WalkEntry {
        path: file_path(path),
        is_file,
    }
}

#[test]
fn crash_files_leave_out_metadata_hidden_files_and_directories() {
    let files = select_crash_files(vec![
        entry("crashes/crash-b.metadata", true),
        entry("crashes/nested", false),
        entry("crashes/crash-a", true),
        entry("crashes/.hidden", true),
    ]);
    assert_eq!(files, vec![file_path("crashes/crash-a")]);
}

#[test]
fn crash_files_are_sorted_by_component() {
    let walked = [
        "t/z-crash", "t/nested/a-crash", "t/nested-b/c", "t/a", "t/nested/a", "t/\u{e9}", "t/Z",
    ];
    let mut expected: Vec<&Path> = walked.iter().map(|path| Path::new(*path)).collect();
    expected.sort();
    let files = select_crash_files(walked.iter().map(|path| entry(path, true)).collect());
    let texts: Vec<&Path> = files.iter().map(|file| Path::new(file.text())).collect();
    assert_eq!(texts, expected);
    assert!(select_crash_files(Vec::new()).is_empty());
}

#[test]
fn different_paths_are_listed_once_each() {
    let walked = ["t/c", "t/a/b", "t/b", "t/a", "t/a.b"];
    let files = select_crash_files(walked.iter().map(|path| entry(path, true)).collect());
    assert_eq!(files.len(), walked.len());
    for i in 1..files.len() {
        assert_eq!(relate_paths(&files[i - 1], &files[i]), Relation::Less);
    }
}

#[test]
fn equal_paths_keep_the_order_of_the_walk() {
    let files = select_crash_files(vec![
        entry("t/b", true),
        entry("t//a", true),
        entry("t/a", true),
        entry("t/./a", true),
    ]);
    let texts: Vec<&str> = files.iter().map(|file| file.text()).collect();
    assert_eq!(texts, vec!["t//a", "t/a", "t/./a", "t/b"]);
}

#[test]
fn a_crash_path_must_be_a_directory() {
    let crash = file_path("/tmp/crashes");
    assert!(ensure_crash_directory(&crash, true, true).is_ok());
    assert_eq!(
        ensure_crash_directory(&crash, false, false).unwrap_err().to_string(),
        "Crash directory /tmp/crashes does not exist"
    );
    assert_eq!(
        ensure_crash_directory(&crash, true, false).unwrap_err().to_string(),
        "Crash path /tmp/crashes is not a directory"
    );
}

#[test]
fn the_output_path_is_observed_before_it_is_read() {
    assert_eq!(OutputEntry::observe(false, false), OutputEntry::Missing);
    assert_eq!(OutputEntry::observe(false, true), OutputEntry::Missing);
    assert_eq!(OutputEntry::observe(true, false), OutputEntry::NotDirectory);
    assert_eq!(
        OutputEntry::observe(true, true),
        OutputEntry::Directory(Listing::Unread)
    );
    assert_eq!(OutputEntry::listed(true), OutputEntry::Directory(Listing::Empty));
    assert_eq!(OutputEntry::listed(false), OutputEntry::Directory(Listing::NotEmpty));
}

fn refusal(next: Preparation) -> DirectoryError {
    match next {
        Preparation::Refuse(error) => error,
        other => panic!("{other:?}"),
    }
}

fn removed(next: Preparation) -> Vec<String> {
    match next {
        Preparation::Create { remove } => remove,
        other => panic!("{other:?}"),
    }
}

#[test]
fn unsafe_outputs_are_refused() {
    let crash = file_path("/tmp/crashes");
    let output = file_path("/tmp/dedup");

    for entry in [OutputEntry::Missing, OutputEntry::Directory(Listing::Empty)] {
        for force in [false, true] {
            let nested = file_path("/tmp/crashes/dedup");
            let error = refusal(prepare_output_directory(&crash, &nested, entry, force));
            assert_eq!(
                error.to_string(),
                "Output directory /tmp/crashes/dedup must not be inside or equal to crash directory /tmp/crashes because crash collection is recursive"
            );
            let error = refusal(prepare_output_directory(&crash, &crash, entry, force));
            assert!(matches!(error, DirectoryError::OutputInsideCrashDirectory { .. }));
        }
    }

    let full = OutputEntry::Directory(Listing::NotEmpty);
    let error = refusal(prepare_output_directory(&crash, &output, full, false));
    assert_eq!(
        error.to_string(),
        "Output directory /tmp/dedup already exists and is not empty; use --force to overwrite previous dedup output"
    );
    for force in [false, true] {
        let error = refusal(prepare_output_directory(
            &crash,
            &output,
            OutputEntry::NotDirectory,
            force,
        ));
        assert_eq!(
            error.to_string(),
            "Output path /tmp/dedup exists but is not a directory"
        );
    }
}

#[test]
fn a_neighbour_of_the_crash_directory_is_accepted() {
    let crash = file_path("/tmp/crashes");
    let output = file_path("/tmp/crashes-dedup");
    let next = prepare_output_directory(&crash, &output, OutputEntry::Missing, false);
    assert!(removed(next).is_empty());
}

#[test]
fn force_removes_earlier_output_without_a_look_at_the_listing() {
    let crash = file_path("/tmp/crashes");
    let output = file_path("/tmp/dedup");
    for listing in [Listing::Unread, Listing::Empty, Listing::NotEmpty] {
        let entry = OutputEntry::Directory(listing);
        let next = prepare_output_directory(&crash, &output, entry, true);
        assert_eq!(removed(next), vec!["clusters.json", "unique"]);
    }
    let unread = OutputEntry::Directory(Listing::Unread);
    let next = prepare_output_directory(&crash, &output, unread, false);
    assert!(matches!(next, Preparation::ReadListing));
    let empty = OutputEntry::Directory(Listing::Empty);
    let next = prepare_output_directory(&crash, &output, empty, false);
    assert!(removed(next).is_empty());
}

#[test]
fn entries_are_removed_by_what_they_are() {
    assert_eq!(remove_if_exists(true, true), Removal::Tree);
    assert_eq!(remove_if_exists(false, true), Removal::File);
    assert_eq!(remove_if_exists(false, false), Removal::Nothing);
}
