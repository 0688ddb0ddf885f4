use safe_clean::FileItem;
use safe_clean::gate::{check_removal, GateDecision};
use safe_clean::removal::{AttemptOutcome, RemovalExecutor};
use safe_clean::text::{basename, path_has_parent};

fn candidate(path: &str, size: u64) -> FileItem {
    FileItem { path: path.to_string(), size, item_count: Some(1), is_dir: true }
}

#[test]
fn basename_takes_the_final_component() {
    assert_eq!(basename("a/b/node_modules"), "node_modules");
    assert_eq!(basename("node_modules"), "node_modules");
    assert_eq!(basename("/srv/build/"), "build");
    assert_eq!(basename("/"), "");
    assert_eq!(basename(""), "");
}

#[test]
fn parent_detection() {
    assert!(path_has_parent("/srv/build"));
    assert!(path_has_parent("build"));
    assert!(!path_has_parent("/"));
    assert!(!path_has_parent("///"));
    assert!(!path_has_parent(""));
}

#[test]
fn gate_approves_a_vetted_artifact() {
    assert_eq!(check_removal("/work/proj/node_modules", true, true), GateDecision::Approve);
    assert_eq!(check_removal("/work/proj/.venv", true, true), GateDecision::Approve);
}

#[test]
fn gate_treats_vanished_candidates_as_satisfied() {
    assert_eq!(check_removal("/work/proj/target", false, false), GateDecision::AlreadyGone);
}

#[test]
fn gate_refuses_non_directories() {
    assert_eq!(check_removal("/work/proj/build", true, false), GateDecision::NotADirectory);
}

#[test]
fn gate_rechecks_the_name_at_removal_time() {
    // The discovery snapshot said "node_modules", but the path was renamed
    // before removal ran: the safety check re-derives the basename and refuses.
    let discovered = candidate("/work/proj/node_modules", 1000);
    assert!(discovered.is_dir);
    let renamed_path = "/work/proj/node_modules_backup";
    assert_eq!(check_removal(renamed_path, true, true), GateDecision::NotAllowlisted);
}

#[test]
fn gate_never_touches_a_filesystem_root() {
    assert_ne!(check_removal("/", true, true), GateDecision::Approve);
    assert_ne!(check_removal("///", true, true), GateDecision::Approve);
    assert_ne!(check_removal("", true, true), GateDecision::Approve);
}

#[test]
fn dry_run_issues_no_removal_actions() {
    let candidates = vec![
        candidate("/p/node_modules", 10),
        candidate("/p/target", 20),
        candidate("/p/dist", 30),
    ];
    let executor = RemovalExecutor::new(candidates, true);
    assert!(executor.next_candidate().is_none());
    assert!(executor.is_complete());
    let report = executor.report();
    assert_eq!(report.attempted, 0);
    assert_eq!(report.removed, 0);
    assert_eq!(report.freed, 0);
}

#[test]
fn one_vanished_candidate_never_stops_the_batch() {
    // Three artifact directories; the second was deleted externally between
    // discovery and removal. The batch reports two removals and one skip,
    // and still attempts the third.
    let candidates = vec![
        candidate("/p/a/node_modules", 100),
        candidate("/p/b/target", 200),
        candidate("/p/c/__pycache__", 50),
    ];
    let mut executor = RemovalExecutor::new(candidates, false);
    let mut probed_missing = vec![false, true, false].into_iter();
    while let Some(item) = executor.next_candidate() {
        let missing = probed_missing.next().unwrap();
        match check_removal(&item.path, !missing, true) {
            GateDecision::Approve => executor.record(AttemptOutcome::Removed),
            GateDecision::AlreadyGone => executor.record(AttemptOutcome::Skipped),
            _ => executor.record(AttemptOutcome::Failed),
        }
    }
    let report = executor.report();
    assert_eq!(report.attempted, 3);
    assert_eq!(report.removed, 2);
    assert_eq!(report.skipped, 1);
    assert_eq!(report.failed, 0);
    assert_eq!(report.freed, 150);
}

#[test]
fn rejected_candidates_count_as_failures_not_aborts() {
    let candidates = vec![candidate("/p/renamed_dir", 10), candidate("/p/build", 20)];
    let mut executor = RemovalExecutor::new(candidates, false);
    while let Some(item) = executor.next_candidate() {
        match check_removal(&item.path, true, true) {
            GateDecision::Approve => executor.record(AttemptOutcome::Removed),
            GateDecision::AlreadyGone => executor.record(AttemptOutcome::Skipped),
            _ => executor.record(AttemptOutcome::Failed),
        }
    }
    let report = executor.report();
    assert_eq!(report.attempted, 2);
    assert_eq!(report.removed, 1);
    assert_eq!(report.failed, 1);
    assert_eq!(report.freed, 20);
}
