use dif::branch::{
    branch_status_from, capabilities_from, check_from_rollup, commits_ahead_from,
    default_branch_from, diff_sources, needs_pr_lookup, parse_status_check_rollup,
    pr_data_from_fields, CheckBucket, PrViewFields, RepoCapabilities, RollupEntry,
};
use dif::diff::{build_display_rows, build_split_diff, DiffDisplayRow, SplitLineKind};
use dif::status::{
    apply_change_stats, change_lookup_path, parse_numstat_output, parse_status_entries,
    untracked_lookup_paths, GitChange, NumstatMap,
};

#[test]
fn parses_standard_status_rows() {
    let bytes = b" M src/main.rs\0A  src/lib.rs\0?? Cargo.lock\0";
    let changes = parse_status_entries(bytes);

    assert_eq!(changes.len(), 3);
    assert_eq!(changes[0].status_code, " M");
    assert_eq!(changes[0].path, "src/main.rs");
    assert_eq!(changes[2].status_code, "??");
    assert_eq!(changes[2].path, "Cargo.lock");
}

#[test]
fn parses_rename_rows() {
    let bytes = b"R  old.rs\0new.rs\0";
    let changes = parse_status_entries(bytes);

    assert_eq!(changes.len(), 1);
    assert_eq!(changes[0].path, "old.rs -> new.rs");
    assert_eq!(changes[0].sort_key, "new.rs");
}

#[test]
fn parses_numstat_output() {
    let mut map = NumstatMap::new();
    let bytes = b"10\t5\tsrc/main.rs\0-\t-\tbinary.png\0";
    parse_numstat_output(bytes, &mut map);

    assert_eq!(map.get("src/main.rs"), Some(&(Some(10), Some(5))));
    assert_eq!(map.get("binary.png"), Some(&(None, None)));
}

#[test]
fn split_diff_replace() {
    let old = "line one\nold line\nline three\n";
    let new = "line one\nnew line\nline three\n";
    let data = build_split_diff("file.rs", old, new).unwrap();

    assert_eq!(data.file_path, "file.rs");
    assert_eq!(data.lines.len(), 3);

    assert_eq!(data.lines[0].kind, SplitLineKind::Equal);
    assert_eq!(data.lines[0].old_text, "line one");
    assert_eq!(data.lines[0].new_text, "line one");

    assert_eq!(data.lines[1].kind, SplitLineKind::Replace);
    assert_eq!(data.lines[1].old_text, "old line");
    assert_eq!(data.lines[1].new_text, "new line");

    assert_eq!(data.lines[2].kind, SplitLineKind::Equal);
}

#[test]
fn split_diff_insert_delete() {
    let old = "context\nremoved\nend\n";
    let new = "context\nadded one\nadded two\nend\n";
    let data = build_split_diff("file.rs", old, new).unwrap();

    assert!(data.additions >= 2);
    assert!(data.deletions >= 1);

    let has_insert = data
        .lines
        .iter()
        .any(|l| l.kind == SplitLineKind::Insert || l.kind == SplitLineKind::Replace);
    assert!(has_insert);
}

#[test]
fn split_diff_new_file() {
    let data = build_split_diff("new.rs", "", "hello\nworld\n").unwrap();

    assert_eq!(data.lines.len(), 2);
    assert!(data.lines.iter().all(|l| l.kind == SplitLineKind::Insert));
    assert_eq!(data.additions, 2);
    assert_eq!(data.deletions, 0);
}

#[test]
fn split_diff_deleted_file() {
    let data = build_split_diff("gone.rs", "goodbye\nworld\n", "").unwrap();

    assert_eq!(data.lines.len(), 2);
    assert!(data.lines.iter().all(|l| l.kind == SplitLineKind::Delete));
    assert_eq!(data.additions, 0);
    assert_eq!(data.deletions, 2);
}

#[test]
fn parses_empty_status() {
    let changes = parse_status_entries(b"");
    assert_eq!(changes.len(), 0);
}

#[test]
fn parses_staged_and_unstaged_modifications() {
    let bytes = b"MM src/main.rs\0";
    let changes = parse_status_entries(bytes);
    assert_eq!(changes.len(), 1);
    assert_eq!(changes[0].status_code, "MM");
    assert_eq!(changes[0].path, "src/main.rs");
}

#[test]
fn parses_deleted_files() {
    let bytes = b" D removed.rs\0D  staged_delete.rs\0";
    let changes = parse_status_entries(bytes);
    assert_eq!(changes.len(), 2);
    assert_eq!(changes[0].status_code, " D");
    assert_eq!(changes[1].status_code, "D ");
}

#[test]
fn split_diff_identical_content() {
    let content = "same\ncontent\n";
    let data = build_split_diff("file.rs", content, content).unwrap();
    assert!(data.lines.iter().all(|l| l.kind == SplitLineKind::Equal));
    assert_eq!(data.additions, 0);
    assert_eq!(data.deletions, 0);
}

#[test]
fn split_diff_both_empty() {
    let data = build_split_diff("empty.rs", "", "").unwrap();
    assert_eq!(data.lines.len(), 0);
    assert_eq!(data.additions, 0);
    assert_eq!(data.deletions, 0);
}

#[test]
fn split_diff_large_content() {
    let old: String = (0..100).map(|i| format!("line {i}\n")).collect();
    let mut new = old.clone();
    new.push_str("extra line\n");
    let data = build_split_diff("large.rs", &old, &new).unwrap();
    assert!(data.additions >= 1);
}

#[test]
fn status_rows_skip_short_records_and_lowercase_keys() {
    let changes = parse_status_entries(b"M\0 M Src/Main.RS\0\0C  a\0");
    assert_eq!(changes.len(), 2);
    assert_eq!(changes[0].path, "Src/Main.RS");
    assert_eq!(changes[0].sort_key, "src/main.rs");
    assert_eq!(changes[0].additions, None);
    // a copy with no following field gets an empty new path
    assert_eq!(changes[1].status_code, "C ");
    assert_eq!(changes[1].path, "a -> ");
    assert_eq!(changes[1].sort_key, "");
}

#[test]
fn numstat_renames_and_merging() {
    let mut map = NumstatMap::new();
    // a rename line gives its counts to the new path, which follows the old one
    assert!(parse_numstat_output(b"1\t2\t\0old.rs\0new.rs\0 3\t4\tnew.rs \0", &mut map));
    assert_eq!(map.get("new.rs"), Some(&(Some(4), Some(6))));
    assert_eq!(map.get("old.rs"), None);
    assert_eq!(map.len(), 1);
    assert!(parse_numstat_output(b"-\t1\tnew.rs\0", &mut map));
    assert_eq!(map.get("new.rs"), Some(&(None, Some(7))));
    // a path field of spaces is trimmed away too, which also marks a rename
    assert!(parse_numstat_output(b"1\t2\t \0old\0renamed\0", &mut map));
    assert_eq!(map.get("renamed"), Some(&(Some(1), Some(2))));
    assert_eq!(map.get("old"), None);
}

#[test]
fn numstat_overflow_leaves_map_unchanged() {
    let mut map = NumstatMap::new();
    assert!(parse_numstat_output(b"4294967295\t0\ta\0", &mut map));
    assert!(!parse_numstat_output(b"1\t1\tb\0 1\t0\ta\0", &mut map));
    assert_eq!(map.get("a"), Some(&(Some(4294967295), Some(0))));
    assert_eq!(map.get("b"), None);
}

#[test]
fn change_stats_fill_counts_and_sort() {
    let changes = parse_status_entries(b" M b.rs\0?? A.txt\0R  old.rs\0new.rs\0");
    let untracked = untracked_lookup_paths(&changes);
    assert_eq!(untracked, vec![None, Some("A.txt".to_string()), None]);
    assert_eq!(change_lookup_path(&changes[2]), "new.rs");
    let mut map = NumstatMap::new();
    parse_numstat_output(b"2\t1\tb.rs\0 7\t0\tnew.rs\0", &mut map);
    let sorted = apply_change_stats(changes, &map, &vec![None, Some(12), None]);
    let paths: Vec<&str> = sorted.iter().map(|c| c.path.as_str()).collect();
    assert_eq!(paths, vec!["A.txt", "b.rs", "old.rs -> new.rs"]);
    assert_eq!((sorted[0].additions, sorted[0].deletions), (Some(12), Some(0)));
    assert_eq!((sorted[1].additions, sorted[1].deletions), (Some(2), Some(1)));
    assert_eq!((sorted[2].additions, sorted[2].deletions), (Some(7), Some(0)));
}

#[test]
fn sort_keeps_order_of_equal_keys() {
    let mk = |p: &str, k: &str| GitChange {
        path: p.to_string(),
        status_code: " M".to_string(),
        sort_key: k.to_string(),
        additions: None,
        deletions: None,
    };
    let changes = vec![mk("x", "b"), mk("y", "a"), mk("z", "b"), mk("w", "a")];
    let sorted = apply_change_stats(changes, &NumstatMap::new(), &vec![None, None, None, None]);
    let paths: Vec<&str> = sorted.iter().map(|c| c.path.as_str()).collect();
    assert_eq!(paths, vec!["y", "w", "x", "z"]);
}

#[test]
fn display_rows_fold_long_unchanged_runs() {
    let old: String = (0..20).map(|i| format!("l{i}\n")).collect();
    let new = old.replace("l10\n", "changed\n");
    let data = build_split_diff("f", &old, &new).unwrap();
    let rows = build_display_rows(&data.lines, &std::collections::HashSet::new());
    assert_eq!(rows[0], DiffDisplayRow::Collapsed { hidden_count: 7, start_index: 0 });
    assert_eq!(rows[1], DiffDisplayRow::Line(7));
    let mut expanded = std::collections::HashSet::new();
    expanded.insert(0);
    let rows = build_display_rows(&data.lines, &expanded);
    assert_eq!(rows[0], DiffDisplayRow::ExpandedHeader { hidden_count: 7, start_index: 0 });
    assert_eq!(rows[1], DiffDisplayRow::Line(0));
}

#[test]
fn rollup_entries_become_checks() {
    let run = |status: &str, conclusion: Option<&str>| RollupEntry {
        typename: Some("CheckRun".to_string()),
        name: Some("build".to_string()),
        status: Some(status.to_string()),
        conclusion: conclusion.map(|c| c.to_string()),
        workflow_name: Some("CI".to_string()),
        details_url: Some(String::new()),
        context: None,
        state: None,
        target_url: None,
    };
    assert_eq!(check_from_rollup(&run("COMPLETED", Some("SUCCESS"))).unwrap().bucket, CheckBucket::Pass);
    assert_eq!(check_from_rollup(&run("COMPLETED", Some("NEUTRAL"))).unwrap().bucket, CheckBucket::Pass);
    assert_eq!(check_from_rollup(&run("COMPLETED", Some("SKIPPED"))).unwrap().bucket, CheckBucket::Skipping);
    assert_eq!(check_from_rollup(&run("COMPLETED", Some("FAILURE"))).unwrap().bucket, CheckBucket::Fail);
    let pending = check_from_rollup(&run("IN_PROGRESS", None)).unwrap();
    assert_eq!(pending.bucket, CheckBucket::Pending);
    assert_eq!(pending.workflow, "CI");
    assert_eq!(pending.link, None);
    let status = RollupEntry {
        typename: Some("StatusContext".to_string()),
        name: None,
        status: None,
        conclusion: None,
        workflow_name: None,
        details_url: None,
        context: Some("ci/legacy".to_string()),
        state: Some("EXPECTED".to_string()),
        target_url: Some("https://ci".to_string()),
    };
    let c = check_from_rollup(&status).unwrap();
    assert_eq!((c.name.as_str(), c.bucket, c.workflow.as_str()), ("ci/legacy", CheckBucket::Pending, ""));
    assert_eq!(c.link.as_deref(), Some("https://ci"));
    let other = RollupEntry { typename: Some("Other".to_string()), ..status };
    assert!(check_from_rollup(&other).is_none());
    assert!(parse_status_check_rollup(&None).is_empty());
    assert_eq!(parse_status_check_rollup(&Some(vec![other, run("QUEUED", None)])).len(), 1);
}

#[test]
fn pr_view_fields_make_pr_data() {
    let f = PrViewFields {
        url: Some("https://github.com/o/r/pull/7".to_string()),
        state: Some("MERGED".to_string()),
        number: Some(7),
        auto_merge_request_is_null: false,
        status_check_rollup: None,
    };
    let d = pr_data_from_fields(&f).unwrap();
    assert!(d.merged);
    assert_eq!(d.number, Some(7));
    assert!(d.auto_merge_enabled);
    assert_eq!(d.state.as_deref(), Some("MERGED"));
    let g = PrViewFields { url: Some(String::new()), ..f };
    assert!(pr_data_from_fields(&g).is_none());
    let h = PrViewFields {
        url: Some("u".to_string()),
        state: None,
        number: Some((1u64 << 32) + 5),
        auto_merge_request_is_null: true,
        status_check_rollup: None,
    };
    let d = pr_data_from_fields(&h).unwrap();
    assert_eq!(d.number, Some(5));
    assert!(!d.merged);
    assert_eq!(d.state.as_deref(), Some(""));
    let s = branch_status_from(3, Some("feature".to_string()), Some(d));
    assert_eq!(s.pr_url.as_deref(), Some("u"));
    assert_eq!(s.commits_ahead, 3);
    let s = branch_status_from(0, None, None);
    assert!(s.pr_url.is_none() && !s.pr_merged && s.checks.is_empty());
}

#[test]
fn default_branch_and_commit_count() {
    assert_eq!(default_branch_from(Some("origin/dev".to_string())), "origin/dev");
    assert_eq!(default_branch_from(Some(String::new())), "origin/main");
    assert_eq!(default_branch_from(None), "origin/main");
    assert_eq!(commits_ahead_from(Some("12".to_string())), 12);
    assert_eq!(commits_ahead_from(Some("x".to_string())), 0);
    assert_eq!(commits_ahead_from(None), 0);
    assert!(!needs_pr_lookup(&Some("main".to_string()), "origin/main"));
    assert!(needs_pr_lookup(&Some("feature".to_string()), "origin/main"));
    assert!(!needs_pr_lookup(&Some("trunk".to_string()), "trunk"));
    assert!(needs_pr_lookup(&None, "origin/main"));
}

#[test]
fn repo_capabilities_defaults() {
    assert_eq!(
        capabilities_from(None),
        RepoCapabilities { auto_merge_allowed: false, rebase_merge_allowed: false }
    );
    assert_eq!(
        capabilities_from(Some((None, None))),
        RepoCapabilities { auto_merge_allowed: false, rebase_merge_allowed: true }
    );
    assert_eq!(
        capabilities_from(Some((Some(true), Some(false)))),
        RepoCapabilities { auto_merge_allowed: true, rebase_merge_allowed: false }
    );
}

#[test]
fn diff_sources_follow_renames_and_status() {
    let s = diff_sources("old.rs -> new.rs", "R ");
    assert_eq!((s.old_path.as_str(), s.new_path.as_str()), ("old.rs", "new.rs"));
    assert!(!s.old_is_empty && !s.new_is_empty);
    let s = diff_sources("a.rs", " ?? ");
    assert_eq!((s.old_path.as_str(), s.new_path.as_str()), ("a.rs", "a.rs"));
    assert!(s.old_is_empty);
    let s = diff_sources("a -> b -> c", " D");
    assert_eq!((s.old_path.as_str(), s.new_path.as_str()), ("a", "b -> c"));
    assert!(s.new_is_empty);
}

#[test]
fn diff_line_numbers_run_consecutively_and_counts_match_rows() {
    let old = "a\nb\nc\nd\ne\n";
    let new = "a\nB\nc\ne\nf\ng\n";
    let data = build_split_diff("f.txt", old, new).unwrap();
    let old_numbers: Vec<u32> = data.lines.iter().filter_map(|l| l.old_lineno).collect();
    let new_numbers: Vec<u32> = data.lines.iter().filter_map(|l| l.new_lineno).collect();
    assert_eq!(old_numbers, vec![1, 2, 3, 4, 5]);
    assert_eq!(new_numbers, vec![1, 2, 3, 4, 5, 6]);
    let added = data
        .lines
        .iter()
        .filter(|l| l.new_lineno.is_some() && l.kind != SplitLineKind::Equal)
        .count() as u32;
    let deleted = data
        .lines
        .iter()
        .filter(|l| l.old_lineno.is_some() && l.kind != SplitLineKind::Equal)
        .count() as u32;
    assert_eq!(data.additions, added);
    assert_eq!(data.deletions, deleted);
    assert_eq!((data.additions, data.deletions), (3, 2));
}

#[test]
fn numstat_rename_counts_go_to_the_new_path() {
    let mut map = NumstatMap::new();
    assert!(parse_numstat_output(b"3\t1\t\0old.rs\0new.rs\0", &mut map));
    assert_eq!(map.len(), 1);
    assert_eq!(map.get("new.rs"), Some(&(Some(3), Some(1))));
    assert_eq!(map.get("old.rs"), None);
}

#[test]
fn numstat_lines_are_trimmed() {
    let mut map = NumstatMap::new();
    assert!(parse_numstat_output(b"\n2\t0\tsrc/a.rs \0", &mut map));
    assert_eq!(map.get("src/a.rs"), Some(&(Some(2), Some(0))));
}
