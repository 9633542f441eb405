use meta_workspace::batch::{BatchItemResult, BatchRun, CommandOutcome};
use meta_workspace::project::{
    filter_projects_by_tag, find_meta_dir, load_projects_extended, manifest_file_names,
    AncestorProbe, ProjectInfo,
};
use meta_workspace::snapshot::{
    create_snapshot_record, finish_project_restore, plan_project_restore, restore_report,
    sanitize_snapshot_name, snapshot_file_name, snapshot_index, snapshot_name_collides,
    GitRestoreOutcome, ProjectRestoreResult, RestorePlan, RestoreStatus, SnapshotProbe,
};
use meta_workspace::workspace::{summarize_workspace, RepoProbe};

fn project(name: &str, tags: &[&str]) -> ProjectInfo {
    ProjectInfo {
        name: name.to_owned(),
        path: name.to_owned(),
        repo: format!("git@example.com:{name}.git"),
        tags: tags.iter().map(|t| t.to_string()).collect(),
    }
}

fn probe(name: &str, has_git: bool, branch: &str, commit: &str, dirty: bool) -> SnapshotProbe {
    SnapshotProbe {
        name: name.to_owned(),
        path: name.to_owned(),
        has_git,
        branch: Some(branch.to_owned()),
        commit: Some(commit.to_owned()),
        status: Some(if dirty { " M file".to_owned() } else { String::new() }),
    }
}

#[test]
fn sanitize_replaces_unsafe_characters() {
    assert_eq!(sanitize_snapshot_name("a/b c\\d"), "a_b_c_d");
    assert_eq!(snapshot_file_name("pre release"), "pre_release.json");
}

#[test]
fn sanitized_collisions_are_detected() {
    let existing = vec!["pre release".to_owned(), "other".to_owned()];
    assert!(snapshot_name_collides("pre/release", &existing));
    assert!(!snapshot_name_collides("pre release", &existing));
    assert!(!snapshot_name_collides("fresh", &existing));
}

#[test]
fn snapshot_records_only_projects_with_working_copies() {
    let probes = vec![
        probe("a", true, "main", "c1", false),
        probe("b", false, "main", "c2", false),
        probe("c", true, "dev", "c3", true),
    ];
    let rec = create_snapshot_record("nightly", Some(&"daily".to_owned()), "/ws", &probes);
    assert_eq!(rec.name, "nightly");
    assert_eq!(rec.meta_dir, "/ws");
    assert_eq!(rec.description.as_deref(), Some("daily"));
    assert_eq!(rec.projects.len(), 2);
    assert_eq!(rec.projects[0].name, "a");
    assert_eq!(rec.projects[0].branch, "main");
    assert_eq!(rec.projects[0].commit, "c1");
    assert!(!rec.projects[0].is_dirty);
    assert_eq!(rec.projects[1].name, "c");
    assert!(rec.projects[1].is_dirty);
    let index = snapshot_index(&vec![rec]);
    assert_eq!(index.len(), 1);
    assert_eq!(index[0].name, "nightly");
    assert_eq!(index[0].projects_count, 2);
}

#[test]
fn snapshot_records_unknown_on_failed_probes() {
    let probes = vec![SnapshotProbe {
        name: "a".to_owned(),
        path: "a".to_owned(),
        has_git: true,
        branch: None,
        commit: None,
        status: None,
    }];
    let rec = create_snapshot_record("s", None, "/ws", &probes);
    assert_eq!(rec.projects[0].branch, "unknown");
    assert_eq!(rec.projects[0].commit, "unknown");
    assert!(!rec.projects[0].is_dirty);
}

#[test]
fn restore_plan_decisions() {
    assert_eq!(plan_project_restore(false, false, false), RestorePlan::FailPathMissing);
    assert_eq!(plan_project_restore(false, true, true), RestorePlan::FailPathMissing);
    assert_eq!(plan_project_restore(true, true, false), RestorePlan::FailDirty);
    assert_eq!(plan_project_restore(true, true, true), RestorePlan::Proceed { stash: true });
    assert_eq!(plan_project_restore(true, false, false), RestorePlan::Proceed { stash: false });
    assert_eq!(plan_project_restore(true, false, true), RestorePlan::Proceed { stash: false });
}

#[test]
fn restore_records_failures_and_continues() {
    let outcomes = vec![
        finish_project_restore(
            &"a".to_owned(),
            &plan_project_restore(true, false, false),
            &Some(GitRestoreOutcome::Restored),
        ),
        finish_project_restore(&"b".to_owned(), &plan_project_restore(false, false, false), &None),
        finish_project_restore(&"c".to_owned(), &plan_project_restore(true, true, false), &None),
        finish_project_restore(
            &"d".to_owned(),
            &plan_project_restore(true, false, false),
            &Some(GitRestoreOutcome::CheckoutFailed("no branch".to_owned())),
        ),
    ];
    let report = restore_report(&outcomes);
    assert_eq!(report.status, RestoreStatus::Partial);
    assert_eq!(report.restored, vec!["a".to_string()]);
    assert_eq!(report.restored_count, 1);
    assert_eq!(report.failed_count, 3);
    assert_eq!(report.failed[0], ("b".to_string(), "Path does not exist".to_string()));
    assert_eq!(
        report.failed[1],
        ("c".to_string(), "Has uncommitted changes (use force=true to override)".to_string())
    );
    assert_eq!(report.failed[2], ("d".to_string(), "Failed to checkout: no branch".to_string()));
}

#[test]
fn snapshot_round_trip_on_untouched_workspace_succeeds() {
    let probes = vec![
        probe("a", true, "main", "c1", false),
        probe("b", true, "dev", "c2", false),
    ];
    let rec = create_snapshot_record("pre", None, "/ws", &probes);
    // an untouched workspace: every path exists, every tree is clean, and
    // checking out the recorded branch and commit succeeds
    let mut outcomes: Vec<ProjectRestoreResult> = Vec::new();
    for p in &rec.projects {
        let plan = plan_project_restore(true, false, false);
        assert_eq!(plan, RestorePlan::Proceed { stash: false });
        outcomes.push(finish_project_restore(&p.name, &plan, &Some(GitRestoreOutcome::Restored)));
    }
    let report = restore_report(&outcomes);
    assert_eq!(report.status, RestoreStatus::Success);
    assert_eq!(report.restored, vec!["a".to_string(), "b".to_string()]);
    assert_eq!(report.failed_count, 0);
    // the recorded targets are exactly the pre-snapshot branch and commit
    assert_eq!(rec.projects[0].branch, "main");
    assert_eq!(rec.projects[0].commit, "c1");
    assert_eq!(rec.projects[1].branch, "dev");
    assert_eq!(rec.projects[1].commit, "c2");
}

#[test]
fn atomic_batch_fails_fast_and_rolls_back() {
    let projects = vec![project("p1", &[]), project("p2", &[]), project("p3", &[])];
    let mut run = BatchRun::new("make test".to_owned(), &projects, None, true);
    let (name, _path) = run.next_project().unwrap();
    assert_eq!(name, "p1");
    run.record(CommandOutcome::Finished {
        success: true,
        stdout: "ok\n".to_owned(),
        stderr: String::new(),
    });
    let (name, _path) = run.next_project().unwrap();
    assert_eq!(name, "p2");
    run.record(CommandOutcome::Finished {
        success: false,
        stdout: String::new(),
        stderr: "boom\n".to_owned(),
    });
    // fail-fast: p3 is never offered
    assert!(run.next_project().is_none());
    assert!(run.needs_rollback());
    let rollback = restore_report(&Vec::new());
    let report = run.finish(Some(rollback));
    assert!(report.has_failure);
    assert!(report.rolled_back);
    assert_eq!(report.results.len(), 2);
    assert!(report.results.iter().all(|r| !matches!(
        r,
        BatchItemResult::Ran { project, .. } if project == "p3"
    )));
}

#[test]
fn non_atomic_batch_runs_everything() {
    let projects = vec![project("p1", &[]), project("p2", &[]), project("p3", &[])];
    let mut run = BatchRun::new("make test".to_owned(), &projects, None, false);
    let mut seen = Vec::new();
    while let Some((name, _path)) = run.next_project() {
        let success = name != "p2";
        seen.push(name);
        run.record(CommandOutcome::Finished {
            success,
            stdout: String::new(),
            stderr: String::new(),
        });
    }
    assert_eq!(seen, vec!["p1".to_string(), "p2".to_string(), "p3".to_string()]);
    assert!(run.needs_rollback() == false);
    let report = run.finish(None);
    assert!(report.has_failure);
    assert!(!report.rolled_back);
    assert_eq!(report.results.len(), 3);
}

#[test]
fn batch_records_missing_paths_and_launch_failures() {
    let projects = vec![project("p1", &[]), project("p2", &[])];
    let mut run = BatchRun::new("true".to_owned(), &projects, None, false);
    run.record(CommandOutcome::MissingPath);
    run.record(CommandOutcome::LaunchFailed { error: "sh not found".to_owned() });
    let report = run.finish(None);
    assert!(matches!(
        &report.results[0],
        BatchItemResult::Failed { project, error }
            if project == "p1" && error == "Path does not exist"
    ));
    assert!(matches!(
        &report.results[1],
        BatchItemResult::Failed { project, error }
            if project == "p2" && error == "sh not found"
    ));
}

#[test]
fn batch_filters_by_tag_up_front() {
    let projects = vec![
        project("p1", &["backend"]),
        project("p2", &["frontend"]),
        project("p3", &["backend"]),
    ];
    let tag = "backend".to_string();
    let run = BatchRun::new("true".to_owned(), &projects, Some(&tag), false);
    assert_eq!(run.projects.len(), 2);
    assert_eq!(run.projects[0].name, "p1");
    assert_eq!(run.projects[1].name, "p3");
}

#[test]
fn workspace_summary_counts_and_histograms() {
    let probes = vec![
        RepoProbe {
            tags: vec!["backend".to_owned(), "rust".to_owned()],
            dirty: Some(true),
            branch: Some("main".to_owned()),
            ahead_behind: Some((2, 0)),
        },
        RepoProbe {
            tags: vec!["backend".to_owned()],
            dirty: Some(false),
            branch: Some("main".to_owned()),
            ahead_behind: Some((0, 1)),
        },
        RepoProbe {
            tags: Vec::new(),
            dirty: None,
            branch: Some("dev".to_owned()),
            ahead_behind: None,
        },
    ];
    let summary = summarize_workspace(&probes);
    assert_eq!(summary.total_projects, 3);
    assert_eq!(summary.dirty_projects, 1);
    assert_eq!(summary.clean_projects, 2);
    assert_eq!(summary.ahead_of_remote, 1);
    assert_eq!(summary.behind_remote, 1);
    let branch = |k: &str| {
        summary.projects_by_branch.iter().find(|e| e.0 == k).map(|e| e.1)
    };
    assert_eq!(branch("main"), Some(2));
    assert_eq!(branch("dev"), Some(1));
    assert_eq!(branch("gone"), None);
    let tag = |k: &str| summary.projects_by_tag.iter().find(|e| e.0 == k).map(|e| e.1);
    assert_eq!(tag("backend"), Some(2));
    assert_eq!(tag("rust"), Some(1));
}

#[test]
fn find_meta_dir_picks_the_nearest_ancestor() {
    let probes = vec![
        AncestorProbe { path: "/ws/sub".to_owned(), has_manifest: false },
        AncestorProbe { path: "/ws".to_owned(), has_manifest: true },
        AncestorProbe { path: "/".to_owned(), has_manifest: true },
    ];
    assert_eq!(find_meta_dir(&probes), Some("/ws".to_owned()));
    let none = vec![AncestorProbe { path: "/x".to_owned(), has_manifest: false }];
    assert_eq!(find_meta_dir(&none), None);
    assert_eq!(find_meta_dir(&Vec::new()), None);
}

#[test]
fn manifest_names_and_extended_projects() {
    assert_eq!(manifest_file_names(), vec![".meta", ".meta.yaml", ".meta.yml"]);
    let projects = vec![project("a", &["x"])];
    let extended = load_projects_extended(&projects);
    assert_eq!(extended.len(), 1);
    assert_eq!(extended[0].name, "a");
    assert_eq!(extended[0].tags, vec!["x".to_string()]);
    assert!(extended[0].depends_on.is_empty());
    assert!(extended[0].provides.is_empty());
}

#[test]
fn tag_filter_keeps_declaration_order() {
    let projects = vec![project("a", &["x"]), project("b", &["y"]), project("c", &["x"])];
    let tag = "x".to_string();
    let kept = filter_projects_by_tag(&projects, Some(&tag));
    let names: Vec<_> = kept.iter().map(|p| p.name.clone()).collect();
    assert_eq!(names, vec!["a".to_string(), "c".to_string()]);
    let all = filter_projects_by_tag(&projects, None);
    assert_eq!(all.len(), 3);
}

#[test]
fn batch_snapshot_names_carry_the_prefix_and_a_timestamp() {
    let name = meta_workspace::batch::fresh_batch_snapshot_name();
    assert!(name.starts_with("atomic-batch-"));
    let suffix = &name["atomic-batch-".len()..];
    assert!(!suffix.is_empty());
    assert!(suffix.trim_start_matches('-').chars().all(|c| c.is_ascii_digit()));
}

#[test]
fn snapshot_creation_stamps_a_time() {
    let rec = create_snapshot_record("stamped", None, "/ws", &Vec::new());
    assert!(rec.created_at.contains('T'));
    assert!(rec.projects.is_empty());
}
