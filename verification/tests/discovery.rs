use safe_clean::FileItem;
use safe_clean::classify::{is_artifact_dir_name, is_safe_temp_file};
use safe_clean::discovery::{
    DevArtifactFinder, DirAnalyzer, LargeFileFinder, analyze_temp_entries, inventory_totals,
    temp_candidates,
};
use safe_clean::snapshot::FsEntry;

fn entry(path: &str, depth: usize, size: u64, is_dir: bool) -> FsEntry {
    FsEntry { path: path.to_string(), depth, size, is_dir }
}

/// A walk of a small tree: two files and two directories directly under the
/// root, one directory holding nested content.
fn sample_snapshot() -> Vec<FsEntry> {
    vec![
        entry("root", 0, 0, true),
        entry("root/report.txt", 1, 100, false),
        entry("root/photos", 1, 0, true),
        entry("root/photos/a.jpg", 2, 4000, false),
        entry("root/photos/raw", 2, 0, true),
        entry("root/photos/raw/b.raw", 3, 9000, false),
        entry("root/empty", 1, 0, true),
        entry("root/notes.md", 1, 350, false),
    ]
}

#[test]
fn analyze_directory_reports_exact_file_sizes() {
    let items = DirAnalyzer::new().analyze_directory(&sample_snapshot(), true);
    let report = items.iter().find(|it| it.path == "root/report.txt").unwrap();
    assert_eq!(report.size, 100);
    assert_eq!(report.item_count, None);
    assert!(!report.is_dir);
    let notes = items.iter().find(|it| it.path == "root/notes.md").unwrap();
    assert_eq!(notes.size, 350);
}

#[test]
fn analyze_directory_measures_subtrees() {
    let items = DirAnalyzer::new().analyze_directory(&sample_snapshot(), true);
    assert_eq!(items.len(), 4);
    let photos = items.iter().find(|it| it.path == "root/photos").unwrap();
    assert_eq!(photos.size, 13000);
    assert_eq!(photos.item_count, Some(3));
    assert!(photos.is_dir);
    let empty = items.iter().find(|it| it.path == "root/empty").unwrap();
    assert_eq!(empty.size, 0);
    assert_eq!(empty.item_count, Some(0));
}

#[test]
fn inventories_are_sorted_largest_first() {
    let snapshot = sample_snapshot();
    let listed = DirAnalyzer::new().analyze_directory(&snapshot, true);
    assert!(listed.windows(2).all(|w| w[0].size >= w[1].size));
    assert_eq!(listed[0].path, "root/photos");
    let large = LargeFileFinder::new().find_large_files(&snapshot, 0);
    assert!(large.windows(2).all(|w| w[0].size >= w[1].size));
}

#[test]
fn analyze_directory_without_descent_is_empty() {
    let items = DirAnalyzer::new().analyze_directory(&sample_snapshot(), false);
    assert!(items.is_empty());
    // A root that does not exist yields an empty snapshot, so an empty
    // inventory rather than an error.
    let items = DirAnalyzer::new().analyze_directory(&Vec::new(), true);
    assert!(items.is_empty());
}

#[test]
fn find_large_files_respects_threshold_inclusively() {
    let large = LargeFileFinder::new().find_large_files(&sample_snapshot(), 4000);
    let paths: Vec<&str> = large.iter().map(|it| it.path.as_str()).collect();
    assert_eq!(paths, vec!["root/photos/raw/b.raw", "root/photos/a.jpg"]);
    assert!(large.iter().all(|it| it.size >= 4000 && !it.is_dir));
    let none = LargeFileFinder::new().find_large_files(&sample_snapshot(), 9001);
    assert!(none.is_empty());
}

#[test]
fn find_artifacts_reports_every_match_independently() {
    // A node_modules nested inside another: both are reported, each with
    // its own measurement, and a near-miss name is not.
    let snapshot = vec![
        entry("proj", 0, 0, true),
        entry("proj/node_modules", 1, 0, true),
        entry("proj/node_modules/pkg", 2, 0, true),
        entry("proj/node_modules/pkg/node_modules", 3, 0, true),
        entry("proj/node_modules/pkg/node_modules/x.js", 4, 70, false),
        entry("proj/node_modules/pkg/index.js", 3, 30, false),
        entry("proj/node_modules_backup", 1, 0, true),
        entry("proj/node_modules_backup/y.js", 2, 500, false),
        entry("proj/src", 1, 0, true),
        entry("proj/src/main.c", 2, 20, false),
    ];
    let found = DevArtifactFinder::new().find_artifacts(&snapshot);
    let paths: Vec<&str> = found.iter().map(|it| it.path.as_str()).collect();
    assert_eq!(paths, vec!["proj/node_modules", "proj/node_modules/pkg/node_modules"]);
    assert_eq!(found[0].size, 100);
    assert_eq!(found[0].item_count, Some(4));
    assert_eq!(found[1].size, 70);
    assert_eq!(found[1].item_count, Some(1));
}

#[test]
fn artifact_names_match_exactly() {
    for name in ["node_modules", ".venv", "venv", "__pycache__", ".tox", "target", "build", "dist"]
    {
        assert!(is_artifact_dir_name(name));
    }
    assert!(!is_artifact_dir_name("node_modules_backup"));
    assert!(!is_artifact_dir_name("node_module"));
    assert!(!is_artifact_dir_name("Target"));
    assert!(!is_artifact_dir_name(""));
}

#[test]
fn temp_name_patterns() {
    for name in ["tmp123", "temporary", "a.tmp", "b.temp", "c.cache", ".#lock", "backup~"] {
        assert!(is_safe_temp_file(name), "{name}");
    }
    assert!(!is_safe_temp_file("document.txt"));
    assert!(!is_safe_temp_file("Tmpfile"));
    assert!(!is_safe_temp_file("cache"));
}

#[test]
fn temp_analysis_sums_only_matching_files() {
    let snapshot = vec![
        entry("/tmp", 0, 0, true),
        entry("/tmp/tmpabc", 1, 40, false),
        entry("/tmp/work", 1, 0, true),
        entry("/tmp/work/data.cache", 2, 60, false),
        entry("/tmp/work/keep.txt", 2, 999, false),
        entry("/tmp/session.tmp", 1, 5, false),
    ];
    assert_eq!(analyze_temp_entries(&snapshot), Some((105, 3)));
    let candidates = temp_candidates(&snapshot);
    let paths: Vec<&str> = candidates.iter().map(|it| it.path.as_str()).collect();
    assert_eq!(paths, vec!["/tmp/tmpabc", "/tmp/work/data.cache", "/tmp/session.tmp"]);
}

#[test]
fn temp_analysis_omits_locations_without_matches() {
    let snapshot = vec![
        entry("/var/tmp", 0, 0, true),
        entry("/var/tmp/keep.txt", 1, 10, false),
    ];
    assert_eq!(analyze_temp_entries(&snapshot), None);
}

#[test]
fn totals_sum_sizes_and_counts() {
    let items = vec![
        FileItem { path: "a".to_string(), size: 100, item_count: Some(3), is_dir: true },
        FileItem { path: "b".to_string(), size: 50, item_count: None, is_dir: false },
        FileItem { path: "c".to_string(), size: 7, item_count: Some(2), is_dir: true },
    ];
    assert_eq!(inventory_totals(&items), (157, 5));
}
