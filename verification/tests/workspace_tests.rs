use dif::branch::BranchStatus;
use dif::keybindings::{
    action_for_name, default_keybindings, entry, format_key_display, resolve_bindings,
    terminal_entry, WorkspaceAction,
};
use dif::status::GitChange;
use dif::ui::{DiffStat, IconName};
use dif::updater::{is_newer, parse_semver, update_from_release, ReleaseAsset, UpdateInfo};
use dif::branch::{branch_status_equal, checks_equal, CheckBucket, CiCheck, RepoCapabilities};
use dif::workspace::{
    apply_git_snapshot, apply_poll_results, derive_panel_action, next_poll_generation,
    next_poll_tick, poll_is_current, poll_plan, action_label, titlebar_action, ActionPhase,
    PanelAction, ProjectGitState, TitlebarAction, update_status_after_check, UpdateStatus,
};

fn status() -> BranchStatus {
    BranchStatus::default()
}

#[test]
fn pr_merged_returns_close_session() {
    let s = BranchStatus {
        pr_merged: true,
        ..status()
    };
    assert_eq!(derive_panel_action(false, 0, &s), PanelAction::CloseSession);
}

#[test]
fn pr_merged_overrides_all_other_state() {
    let s = BranchStatus {
        pr_merged: true,
        commits_ahead: 5,
        pr_url: Some("https://github.com/pr/1".into()),
        ..status()
    };
    // Even with changes and staged files, merged PR wins
    assert_eq!(derive_panel_action(true, 3, &s), PanelAction::CloseSession);
}

#[test]
fn commit_when_staged_changes_no_prior_commits() {
    let s = BranchStatus {
        commits_ahead: 0,
        ..status()
    };
    assert_eq!(derive_panel_action(true, 2, &s), PanelAction::Commit);
}

#[test]
fn amend_when_staged_changes_with_prior_commits() {
    let s = BranchStatus {
        commits_ahead: 1,
        ..status()
    };
    assert_eq!(derive_panel_action(true, 2, &s), PanelAction::Amend);
}

#[test]
fn amend_with_many_commits_ahead() {
    let s = BranchStatus {
        commits_ahead: 10,
        ..status()
    };
    assert_eq!(derive_panel_action(true, 1, &s), PanelAction::Amend);
}

#[test]
fn create_pr_when_clean_with_commits_and_no_pr() {
    let s = BranchStatus {
        commits_ahead: 3,
        pr_url: None,
        ..status()
    };
    assert_eq!(derive_panel_action(false, 0, &s), PanelAction::CreatePR);
}

#[test]
fn rebase_when_clean_with_open_pr() {
    let s = BranchStatus {
        pr_url: Some("https://github.com/pr/1".into()),
        pr_merged: false,
        ..status()
    };
    assert_eq!(derive_panel_action(false, 0, &s), PanelAction::Rebase);
}

#[test]
fn rebase_even_with_commits_ahead_and_pr() {
    let s = BranchStatus {
        commits_ahead: 2,
        pr_url: Some("https://github.com/pr/1".into()),
        pr_merged: false,
        ..status()
    };
    assert_eq!(derive_panel_action(false, 0, &s), PanelAction::Rebase);
}

#[test]
fn none_when_completely_clean() {
    assert_eq!(derive_panel_action(false, 0, &status()), PanelAction::NoAction);
}

#[test]
fn none_when_changes_but_nothing_staged() {
    let s = BranchStatus {
        commits_ahead: 0,
        ..status()
    };
    assert_eq!(derive_panel_action(true, 0, &s), PanelAction::NoAction);
}

#[test]
fn none_when_changes_unstaged_with_prior_commits() {
    let s = BranchStatus {
        commits_ahead: 3,
        ..status()
    };
    assert_eq!(derive_panel_action(true, 0, &s), PanelAction::NoAction);
}

fn make_change(path: &str) -> GitChange {
    GitChange {
        path: path.to_string(),
        status_code: " M".to_string(),
        sort_key: path.to_string(),
        additions: Some(1),
        deletions: Some(0),
    }
}

fn changes(paths: &[&str]) -> Vec<GitChange> {
    paths.iter().map(|p| make_change(p)).collect()
}

#[test]
fn apply_snapshot_auto_stages_new_files() {
    let mut runtime = ProjectGitState::new();

    let changed = apply_git_snapshot(&mut runtime, &Ok(changes(&["file_a.rs", "file_b.rs"])), 0);

    assert!(changed);
    assert!(runtime.staged_files.contains("file_a.rs"));
    assert!(runtime.staged_files.contains("file_b.rs"));
    assert_eq!(runtime.staged_files.len(), 2);
}

#[test]
fn apply_snapshot_does_not_re_stage_existing_files() {
    let mut runtime = ProjectGitState::new();

    // First snapshot: auto-stages both files
    apply_git_snapshot(&mut runtime, &Ok(changes(&["file_a.rs", "file_b.rs"])), 0);
    assert_eq!(runtime.staged_files.len(), 2);

    // Manually unstage one
    runtime.staged_files.remove("file_a.rs");
    assert_eq!(runtime.staged_files.len(), 1);

    // Second snapshot with same files: should NOT re-stage file_a.rs
    let changed = apply_git_snapshot(&mut runtime, &Ok(changes(&["file_a.rs", "file_b.rs"])), 0);
    assert!(!changed); // same changes, no error change
    assert!(!runtime.staged_files.contains("file_a.rs"));
    assert!(runtime.staged_files.contains("file_b.rs"));
}

#[test]
fn apply_snapshot_removes_staged_files_no_longer_present() {
    let mut runtime = ProjectGitState::new();

    apply_git_snapshot(&mut runtime, &Ok(changes(&["file_a.rs", "file_b.rs"])), 0);
    assert_eq!(runtime.staged_files.len(), 2);

    // New snapshot without file_b.rs
    apply_git_snapshot(&mut runtime, &Ok(changes(&["file_a.rs"])), 0);
    assert!(runtime.staged_files.contains("file_a.rs"));
    assert!(!runtime.staged_files.contains("file_b.rs"));
    assert_eq!(runtime.staged_files.len(), 1);
}

#[test]
fn apply_snapshot_returns_false_when_unchanged() {
    let mut runtime = ProjectGitState::new();

    assert!(apply_git_snapshot(&mut runtime, &Ok(changes(&["file.rs"])), 0));
    assert!(!apply_git_snapshot(&mut runtime, &Ok(changes(&["file.rs"])), 0));
}

#[test]
fn apply_snapshot_error_stores_error_message() {
    let mut runtime = ProjectGitState::new();

    let changed = apply_git_snapshot(&mut runtime, &Err("git status failed".to_string()), 0);
    assert!(changed);
    assert_eq!(
        runtime.git_snapshot.last_error,
        Some("git status failed".to_string())
    );
}

#[test]
fn apply_snapshot_error_returns_false_for_same_error() {
    let mut runtime = ProjectGitState::new();

    let err = Err("same error".to_string());
    assert!(apply_git_snapshot(&mut runtime, &err, 0));
    assert!(!apply_git_snapshot(&mut runtime, &err, 0));
}

#[test]
fn apply_snapshot_success_after_error_clears_error() {
    let mut runtime = ProjectGitState::new();

    apply_git_snapshot(&mut runtime, &Err("error".to_string()), 0);
    assert!(runtime.git_snapshot.last_error.is_some());

    let changed = apply_git_snapshot(&mut runtime, &Ok(vec![]), 0);
    assert!(changed); // error cleared counts as change
    assert!(runtime.git_snapshot.last_error.is_none());
}

#[test]
fn apply_snapshot_empty_to_empty_is_not_changed() {
    let mut runtime = ProjectGitState::new();
    // Default changes is [] and snapshot is Ok([]) → no change
    assert!(!apply_git_snapshot(&mut runtime, &Ok(vec![]), 0));
}

#[test]
fn apply_snapshot_detects_changed_counts() {
    let mut runtime = ProjectGitState::new();
    apply_git_snapshot(&mut runtime, &Ok(changes(&["a.rs"])), 0);
    let mut c = changes(&["a.rs"]);
    c[0].additions = Some(5);
    assert!(apply_git_snapshot(&mut runtime, &Ok(c), 0));
    assert_eq!(runtime.git_snapshot.changes[0].additions, Some(5));
}

#[test]
fn key_display_capitalises_parts() {
    assert_eq!(format_key_display("cmd-shift-b"), "Cmd + Shift + B");
    assert_eq!(format_key_display("escape"), "Escape");
    assert_eq!(format_key_display("cmd--"), "Cmd +  + ");
    assert_eq!(format_key_display(""), "");
    assert_eq!(format_key_display("\u{df}x"), "SSx");
}

#[test]
fn default_bindings_hold_the_known_entries() {
    let b = default_keybindings();
    assert_eq!(b.len(), 38);
    assert_eq!((b[0].key.as_str(), b[0].action.as_str()), ("cmd-q", "Quit"));
    assert!(b[0].context.is_none());
    let split = b.iter().find(|e| e.key == "cmd-d").unwrap();
    assert_eq!(split.action, "SplitTerminalRight");
    assert_eq!(split.context.as_deref(), Some("Terminal"));
    assert_eq!(entry("k", "A").context, None);
    assert_eq!(terminal_entry("k", "A").context.as_deref(), Some("Terminal"));
}

#[test]
fn versions_compare_numerically() {
    assert_eq!(parse_semver("v1.2.3"), Some((1, 2, 3)));
    assert_eq!(parse_semver("1.2.3.4"), Some((1, 2, 3)));
    assert_eq!(parse_semver("1.2"), None);
    assert_eq!(parse_semver("1.x.3"), None);
    assert!(is_newer("v1.10.0", "1.9.9"));
    assert!(is_newer("v2.0.0", "v1.99.99"));
    assert!(!is_newer("v1.2.3", "1.2.3"));
    assert!(!is_newer("garbage", "1.0.0"));
}

#[test]
fn release_selection() {
    let asset = |name: Option<&str>, url: Option<&str>| ReleaseAsset {
        name: name.map(|s| s.to_string()),
        browser_download_url: url.map(|s| s.to_string()),
    };
    assert_eq!(
        update_from_release(None, &None, "1.0.0").err().as_deref(),
        Some("Missing tag_name in release")
    );
    assert!(update_from_release(Some("v1.0.0".to_string()), &None, "1.0.0").unwrap().is_none());
    assert_eq!(
        update_from_release(Some("v1.1.0".to_string()), &None, "1.0.0").err().as_deref(),
        Some("No macOS asset found in release")
    );
    let assets = Some(vec![
        asset(Some("Dif-linux.tar.gz"), Some("https://l")),
        asset(Some("Dif-macos.zip"), Some("https://z")),
        asset(Some("Dif-macos.tar.gz"), Some("https://m")),
    ]);
    let info = update_from_release(Some("v1.1.0".to_string()), &assets, "1.0.0").unwrap().unwrap();
    assert_eq!(info.version, "v1.1.0");
    assert_eq!(info.download_url, "https://m");
    let assets = Some(vec![asset(Some("Dif-macos.tar.gz"), None)]);
    assert!(update_from_release(Some("v1.1.0".to_string()), &assets, "1.0.0").is_err());
}

#[test]
fn icons_and_diff_stats() {
    assert_eq!(IconName::GitPullRequest.path(), "icons/git_pull_request.svg");
    assert_eq!(IconName::X.path(), "icons/x.svg");
    let stat = DiffStat::new().additions(12).deletions(0);
    assert_eq!(stat.labels(), (Some("+12".to_string()), None));
    let stat = DiffStat::default().deletions(3);
    assert_eq!(stat.labels(), (None, Some("-3".to_string())));
}

fn check(name: &str, bucket: CheckBucket) -> CiCheck {
    CiCheck {
        name: name.to_string(),
        bucket,
        workflow: "ci".to_string(),
        link: None,
    }
}

#[test]
fn poll_plan_follows_the_tick() {
    let p = poll_plan(0);
    assert!(p.collect_branch_status && p.check_capabilities);
    let p = poll_plan(5);
    assert!(p.collect_branch_status && !p.check_capabilities);
    let p = poll_plan(7);
    assert!(!p.collect_branch_status && !p.check_capabilities);
    let p = poll_plan(150);
    assert!(p.collect_branch_status && p.check_capabilities);
    let p = poll_plan(300 + 1);
    assert!(!p.collect_branch_status && !p.check_capabilities);
}

#[test]
fn poll_counters_wrap_around() {
    assert_eq!(next_poll_tick(3), 4);
    assert_eq!(next_poll_tick(u32::MAX), 0);
    assert_eq!(next_poll_generation(9), 10);
    assert_eq!(next_poll_generation(u64::MAX), 0);
}

#[test]
fn stale_polls_stop() {
    let selected = Some("/tmp/repo".to_string());
    assert!(poll_is_current(4, 4, &selected, "/tmp/repo"));
    assert!(poll_is_current(4, 4, &Some("/tmp/repo/".to_string()), "/tmp/repo"));
    assert!(!poll_is_current(5, 4, &selected, "/tmp/repo"));
    assert!(!poll_is_current(4, 4, &selected, "/tmp/other"));
    assert!(!poll_is_current(4, 4, &None, "/tmp/repo"));
}

#[test]
fn poll_results_replace_what_changed() {
    let mut runtime = ProjectGitState::new();
    let first = BranchStatus {
        commits_ahead: 2,
        checks: vec![check("build", CheckBucket::Pending)],
        ..status()
    };
    let outcome = apply_poll_results(&mut runtime, Some(first), None);
    assert!(outcome.changed);
    assert!(outcome.close_checks_popover);
    assert_eq!(runtime.branch_status.commits_ahead, 2);

    // The same answer again changes nothing.
    let again = BranchStatus {
        commits_ahead: 2,
        checks: vec![check("build", CheckBucket::Pending)],
        ..status()
    };
    let outcome = apply_poll_results(&mut runtime, Some(again), None);
    assert!(!outcome.changed);
    assert!(!outcome.close_checks_popover);

    // A new commit count with the same checks keeps the popover open.
    let ahead = BranchStatus {
        commits_ahead: 3,
        checks: vec![check("build", CheckBucket::Pending)],
        ..status()
    };
    let outcome = apply_poll_results(&mut runtime, Some(ahead), None);
    assert!(outcome.changed);
    assert!(!outcome.close_checks_popover);

    let caps = RepoCapabilities {
        auto_merge_allowed: true,
        rebase_merge_allowed: true,
    };
    let outcome = apply_poll_results(&mut runtime, None, Some(caps));
    assert!(outcome.changed);
    assert_eq!(runtime.repo_capabilities, caps);
    let outcome = apply_poll_results(&mut runtime, None, None);
    assert!(!outcome.changed);
}

#[test]
fn branch_statuses_compare_field_by_field() {
    let a = BranchStatus {
        pr_url: Some("https://example.com/pr/1".to_string()),
        checks: vec![check("lint", CheckBucket::Pass)],
        ..status()
    };
    let b = BranchStatus {
        pr_url: Some("https://example.com/pr/1".to_string()),
        checks: vec![check("lint", CheckBucket::Pass)],
        ..status()
    };
    assert!(branch_status_equal(&a, &b));
    assert!(checks_equal(&a.checks, &b.checks));
    let c = BranchStatus {
        pr_url: Some("https://example.com/pr/1".to_string()),
        checks: vec![check("lint", CheckBucket::Fail)],
        ..status()
    };
    assert!(!branch_status_equal(&a, &c));
    assert!(!checks_equal(&a.checks, &c.checks));
}

fn caps(auto_merge_allowed: bool, rebase_merge_allowed: bool) -> RepoCapabilities {
    RepoCapabilities {
        auto_merge_allowed,
        rebase_merge_allowed,
    }
}

#[test]
fn titlebar_shows_running_and_failed_actions() {
    let s = status();
    assert_eq!(
        titlebar_action(PanelAction::Commit, &ActionPhase::Working("Committing...".to_string()), &s, caps(false, true)),
        TitlebarAction::Working("Committing...".to_string())
    );
    assert_eq!(
        titlebar_action(PanelAction::Commit, &ActionPhase::Error("boom".to_string()), &s, caps(false, true)),
        TitlebarAction::Error("boom".to_string())
    );
    assert_eq!(
        titlebar_action(PanelAction::NoAction, &ActionPhase::Idle, &s, caps(false, true)),
        TitlebarAction::Hidden
    );
    assert_eq!(
        titlebar_action(PanelAction::CreatePR, &ActionPhase::Idle, &s, caps(false, false)),
        TitlebarAction::Run(PanelAction::CreatePR)
    );
}

#[test]
fn titlebar_rebase_prefers_auto_merge() {
    let enabled = BranchStatus {
        auto_merge_enabled: true,
        ..status()
    };
    assert_eq!(
        titlebar_action(PanelAction::Rebase, &ActionPhase::Idle, &enabled, caps(false, false)),
        TitlebarAction::AutoMergeEnabled
    );
    let pending = BranchStatus {
        checks: vec![check("build", CheckBucket::Pending)],
        ..status()
    };
    assert_eq!(
        titlebar_action(PanelAction::Rebase, &ActionPhase::Idle, &pending, caps(true, true)),
        TitlebarAction::OfferAutoMerge
    );
    assert_eq!(
        titlebar_action(PanelAction::Rebase, &ActionPhase::Idle, &pending, caps(false, false)),
        TitlebarAction::Hidden
    );
    let passed = BranchStatus {
        checks: vec![check("build", CheckBucket::Pass), check("docs", CheckBucket::Skipping)],
        ..status()
    };
    assert_eq!(
        titlebar_action(PanelAction::Rebase, &ActionPhase::Idle, &passed, caps(true, true)),
        TitlebarAction::Run(PanelAction::Rebase)
    );
    // No checks at all do not count as passed.
    assert_eq!(
        titlebar_action(PanelAction::Rebase, &ActionPhase::Idle, &status(), caps(true, true)),
        TitlebarAction::OfferAutoMerge
    );
}

#[test]
fn action_labels() {
    assert_eq!(action_label(PanelAction::Commit), Some("Commit"));
    assert_eq!(action_label(PanelAction::Amend), Some("Amend"));
    assert_eq!(action_label(PanelAction::CreatePR), Some("Create PR"));
    assert_eq!(action_label(PanelAction::Rebase), Some("Rebase & Merge"));
    assert_eq!(action_label(PanelAction::CloseSession), Some("Close Session"));
    assert_eq!(action_label(PanelAction::NoAction), None);
}

#[test]
fn action_names_resolve() {
    assert_eq!(action_for_name("Quit"), Some(WorkspaceAction::Quit));
    assert_eq!(action_for_name("SelectSession7"), Some(WorkspaceAction::SelectSession7));
    assert_eq!(action_for_name("PrevTerminalTab"), Some(WorkspaceAction::PrevTerminalTab));
    assert_eq!(action_for_name("quit"), None);
    assert_eq!(action_for_name(""), None);
}

#[test]
fn every_default_binding_resolves() {
    let defaults = default_keybindings();
    let resolved = resolve_bindings(&defaults);
    assert_eq!(resolved.len(), defaults.len());
    assert_eq!(resolved[0].key, "cmd-q");
    assert_eq!(resolved[0].action, WorkspaceAction::Quit);
    assert_eq!(resolved[0].context, None);
    let last = resolved.last().unwrap();
    assert_eq!(last.action, WorkspaceAction::SplitTerminalDown);
    assert_eq!(last.context.as_deref(), Some("Terminal"));
}

#[test]
fn unknown_bindings_are_dropped() {
    let entries = vec![
        entry("cmd-x", "DoesNotExist"),
        terminal_entry("cmd-d", "SplitTerminalRight"),
    ];
    let resolved = resolve_bindings(&entries);
    assert_eq!(resolved.len(), 1);
    assert_eq!(resolved[0].key, "cmd-d");
    assert_eq!(resolved[0].action, WorkspaceAction::SplitTerminalRight);
}

#[test]
fn update_check_results_set_the_status() {
    let info = UpdateInfo {
        version: "v1.2.3".to_string(),
        download_url: "https://example.com/Dif-macos.tar.gz".to_string(),
    };
    match update_status_after_check(Ok(Some(info))) {
        UpdateStatus::Available { version, download_url } => {
            assert_eq!(version, "v1.2.3");
            assert_eq!(download_url, "https://example.com/Dif-macos.tar.gz");
        }
        other => panic!("expected an available update, got {:?}", other),
    }
    assert!(matches!(update_status_after_check(Ok(None)), UpdateStatus::Idle));
    assert!(matches!(
        update_status_after_check(Err("offline".to_string())),
        UpdateStatus::Idle
    ));
}
