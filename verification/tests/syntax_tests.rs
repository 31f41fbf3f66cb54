use dif::branch::RepoCapabilities;
use dif::config::expand_tilde_with;
use dif::diff::build_split_diff;
use dif::syntax::{highlight_input_lines, highlight_lines, path_extension};
use dif::workspace::{apply_git_snapshot, close_view_target, CloseTarget, ProjectGitState};

#[test]
fn extension_is_the_text_after_the_last_dot() {
    assert_eq!(path_extension("src/archive.tar.gz"), "gz");
    assert_eq!(path_extension("Makefile"), "Makefile");
    assert_eq!(path_extension("trailing."), "");
}

#[test]
fn highlighter_input_follows_str_lines() {
    assert_eq!(
        highlight_input_lines("a\r\nb\n\nc"),
        vec!["a\n".to_string(), "b\n".to_string(), "\n".to_string(), "c\n".to_string()]
    );
    assert!(highlight_input_lines("").is_empty());
    assert_eq!(highlight_input_lines("x\r"), vec!["x\r\n".to_string()]);
}

#[test]
fn highlighting_gives_one_run_list_per_line() {
    let content = "fn main() {}\nlet x = 1;\n";
    let runs = highlight_lines(content, "src/main.rs");
    assert_eq!(runs.len(), 2);
    for (line, line_runs) in content.lines().zip(&runs) {
        let total: usize = line_runs.iter().map(|r| r.len).sum();
        assert_eq!(total, line.len());
        assert!(line_runs.iter().all(|r| r.len > 0));
    }
    assert!(runs[0].len() > 1);
    assert!(highlight_lines("", "a.rs").is_empty());
}

#[test]
fn empty_lines_have_no_runs() {
    let runs = highlight_lines("a\n\nb", "notes.txt");
    assert_eq!(runs.len(), 3);
    assert!(runs[1].is_empty());
}

#[test]
fn split_diff_rows_carry_the_runs_of_their_lines() {
    let old = "fn a() {}\n";
    let new = "fn b() {}\nfn c() {}\n";
    let data = build_split_diff("lib.rs", old, new).unwrap();
    let old_runs = highlight_lines(old, "lib.rs");
    let new_runs = highlight_lines(new, "lib.rs");
    for line in &data.lines {
        match line.old_lineno {
            Some(n) => assert_eq!(line.old_syntax_runs, old_runs[n as usize - 1]),
            None => assert!(line.old_syntax_runs.is_empty()),
        }
        match line.new_lineno {
            Some(n) => assert_eq!(line.new_syntax_runs, new_runs[n as usize - 1]),
            None => assert!(line.new_syntax_runs.is_empty()),
        }
    }
    assert!(!data.lines[0].new_syntax_runs.is_empty());
}

#[test]
fn tilde_expands_to_the_home_directory() {
    assert_eq!(expand_tilde_with("~", Some("/home/me")), "/home/me");
    assert_eq!(expand_tilde_with("~/projects/test", Some("/home/me")), "/home/me/projects/test");
    assert_eq!(expand_tilde_with("~/projects", Some("/home/me/")), "/home/me/projects");
    assert_eq!(expand_tilde_with("/tmp/x", Some("/home/me")), "/tmp/x");
    assert_eq!(expand_tilde_with("~other/x", Some("/home/me")), "~other/x");
    assert_eq!(expand_tilde_with("~/x", None), "~/x");
}

#[test]
fn close_view_closes_help_then_settings_then_diff() {
    assert_eq!(close_view_target(true, true, true), CloseTarget::Help);
    assert_eq!(close_view_target(false, true, true), CloseTarget::Settings);
    assert_eq!(close_view_target(false, false, true), CloseTarget::Diff);
    assert_eq!(close_view_target(false, false, false), CloseTarget::PassOn);
}

#[test]
fn apply_snapshot_keeps_branch_status_and_capabilities() {
    let mut runtime = ProjectGitState::new();
    runtime.branch_status.commits_ahead = 4;
    runtime.repo_capabilities = RepoCapabilities { auto_merge_allowed: true, rebase_merge_allowed: true };
    assert!(!apply_git_snapshot(&mut runtime, &Ok(Vec::new()), 0));
    assert!(apply_git_snapshot(&mut runtime, &Err("boom".to_string()), 7));
    assert_eq!(runtime.git_snapshot.last_refresh, Some(7));
    assert_eq!(runtime.branch_status.commits_ahead, 4);
    assert!(runtime.repo_capabilities.auto_merge_allowed && runtime.repo_capabilities.rebase_merge_allowed);
}

#[test]
fn diff_lines_end_at_any_line_terminator() {
    let text = "a\rb\r\nc";
    let data = build_split_diff("f.txt", text, text).unwrap();
    let old: Vec<&str> = data.lines.iter().map(|l| l.old_text.as_str()).collect();
    assert_eq!(old, vec!["a\r", "b\r", "c"]);
    assert_eq!(data.additions, 0);
    assert_eq!(data.deletions, 0);
}
