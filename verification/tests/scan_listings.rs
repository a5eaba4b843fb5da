use std::collections::HashSet;
use std::path::Path;
use tinypng_cli::config::RunConfig;
use tinypng_cli::error::ShrinkError;
use tinypng_cli::scan::{
    scan_paths, scan_with_skips, split_entries, FileTask, FoundFile, PathListing, ScanEntry,
    SkipReason,
};

fn dir_listing(dir: &str, files: &[(&str, u64)]) -> PathListing {
    PathListing {
        path: dir.to_string(),
        exists: true,
        files: files
            .iter()
            .map(|(name, size)| FoundFile {
                path: format!("{dir}/{name}"),
                size: *size,
            })
            .collect(),
        error: None,
    }
}

fn names(tasks: &[FileTask]) -> HashSet<String> {
    tasks
        .iter()
        .map(|t| {
            Path::new(&t.path)
                .file_name()
                .unwrap()
                .to_str()
                .unwrap()
                .to_string()
        })
        .collect()
}

fn is_uuid_v4(u: &str) -> bool {
    let cs: Vec<char> = u.chars().collect();
    cs.len() == 36
        && cs.iter().enumerate().all(|(i, c)| {
            if i == 8 || i == 13 || i == 18 || i == 23 {
                *c == '-'
            } else {
                c.is_ascii_digit() || ('a'..='f').contains(c)
            }
        })
        && cs[14] == '4'
        && "89ab".contains(cs[19])
}

#[test]
fn scan_filters_by_min_size() {
    let listing = dir_listing("/tmp/x", &[("tiny.png", 100), ("big.png", 20_000)]);
    let cfg = RunConfig {
        min_size: 10 * 1024,
        ..RunConfig::default()
    };
    let tasks = scan_paths(&[listing], &cfg).unwrap();
    let n = names(&tasks);
    assert!(n.contains("big.png"));
    assert!(!n.contains("tiny.png"));
}

#[test]
fn scan_filters_by_extension() {
    let listing = dir_listing("/tmp/x", &[("a.png", 20_000), ("b.gif", 20_000)]);
    let cfg = RunConfig::default();
    let tasks = scan_paths(&[listing], &cfg).unwrap();
    let n = names(&tasks);
    assert!(n.contains("a.png"));
    assert!(!n.contains("b.gif"));
}

#[test]
fn scan_skips_compressed_prefix() {
    let listing = dir_listing(
        "/tmp/x",
        &[("compressed_foo.png", 20_000), ("foo.png", 20_000)],
    );
    let cfg = RunConfig::default();
    let tasks = scan_paths(&[listing], &cfg).unwrap();
    let n = names(&tasks);
    assert!(n.contains("foo.png"));
    assert!(!n.contains("compressed_foo.png"));
}

#[test]
fn scan_recurses_subdirectories() {
    let listing = dir_listing("/tmp/x", &[("sub/nested.png", 20_000)]);
    let cfg = RunConfig::default();
    let tasks = scan_paths(&[listing], &cfg).unwrap();
    assert_eq!(tasks.len(), 1);
    assert!(tasks[0].path.ends_with("sub/nested.png"));
}

#[test]
fn scan_accepts_file_path_directly() {
    let file = "/tmp/x/a.png".to_string();
    let listing = PathListing {
        path: file.clone(),
        exists: true,
        files: vec![FoundFile {
            path: file.clone(),
            size: 20_000,
        }],
        error: None,
    };
    let cfg = RunConfig::default();
    let tasks = scan_paths(&[listing], &cfg).unwrap();
    assert_eq!(tasks.len(), 1);
    assert_eq!(tasks[0].path, file);
}

#[test]
fn scan_nonexistent_path_errors() {
    let cfg = RunConfig::default();
    let listing = PathListing {
        path: "/definitely/does/not/exist".to_string(),
        exists: false,
        files: vec![],
        error: None,
    };
    let err = scan_paths(&[listing], &cfg).unwrap_err();
    assert_eq!(err.code(), "bad_argument");
    assert_eq!(
        err.to_string(),
        "argument error: path does not exist: /definitely/does/not/exist"
    );
}

#[test]
fn scan_stops_at_the_first_failure() {
    let cfg = RunConfig::default();
    let good = dir_listing("/a", &[("a.png", 20_000)]);
    let broken = PathListing {
        path: "/b".to_string(),
        exists: true,
        files: vec![],
        error: Some(ShrinkError::PermissionDenied("/b/locked".into())),
    };
    let missing = PathListing {
        path: "/c".to_string(),
        exists: false,
        files: vec![],
        error: None,
    };
    let err = scan_paths(&[good.clone(), broken.clone(), missing.clone()], &cfg).unwrap_err();
    assert_eq!(err.code(), "permission_denied");
    let err = scan_paths(&[good, missing, broken], &cfg).unwrap_err();
    assert_eq!(err.to_string(), "argument error: path does not exist: /c");
}

#[test]
fn scan_reports_skip_reasons_in_order() {
    let cfg = RunConfig::default();
    let listing = dir_listing(
        "/d",
        &[
            ("A.PNG", 20_000),
            ("small.jpg", 10),
            ("compressed_x.webp", 20_000),
            ("notes.txt", 20_000),
            ("noext", 20_000),
        ],
    );
    let entries = scan_with_skips(&[listing], &cfg).unwrap();
    assert_eq!(entries.len(), 5);
    match &entries[0] {
        ScanEntry::Task(t) => {
            assert_eq!(t.path, "/d/A.PNG");
            assert_eq!(t.original_size, 20_000);
            assert!(is_uuid_v4(&t.uuid), "{}", t.uuid);
        }
        other => panic!("unexpected {other:?}"),
    }
    let reasons: Vec<Option<SkipReason>> = entries
        .iter()
        .map(|e| match e {
            ScanEntry::Task(_) => None,
            ScanEntry::Skipped { reason, .. } => Some(*reason),
        })
        .collect();
    assert_eq!(
        reasons,
        vec![
            None,
            Some(SkipReason::BelowMinSize),
            Some(SkipReason::AlreadyCompressed),
            Some(SkipReason::UnsupportedExtension),
            Some(SkipReason::UnsupportedExtension),
        ]
    );

    let (tasks, skipped) = split_entries(entries);
    assert_eq!(tasks.len(), 1);
    assert_eq!(skipped.len(), 4);
    assert_eq!(skipped[0].0, "/d/small.jpg");
    assert_eq!(skipped[0].2, 10);
}

#[test]
fn compressed_prefix_kept_when_not_skipping() {
    let cfg = RunConfig {
        skip_compressed: false,
        ..RunConfig::default()
    };
    let listing = dir_listing("/e", &[("compressed_foo.png", 20_000)]);
    let tasks = scan_paths(&[listing], &cfg).unwrap();
    assert_eq!(tasks.len(), 1);
}

#[test]
fn each_task_gets_its_own_uuid() {
    let cfg = RunConfig::default();
    let listing = dir_listing("/f", &[("a.png", 20_000), ("b.png", 20_000)]);
    let tasks = scan_paths(&[listing], &cfg).unwrap();
    assert_eq!(tasks.len(), 2);
    assert!(is_uuid_v4(&tasks[0].uuid));
    assert!(is_uuid_v4(&tasks[1].uuid));
    assert_ne!(tasks[0].uuid, tasks[1].uuid);
}
