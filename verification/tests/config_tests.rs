use dif::config::{
    enforces_conventional_commits, pick_initial_selection, pick_initial_session,
    add_project, init_commands, projects_from_raw, sessions_from_raw, remove_project, session_name, ProjectAddition, ProjectSettings, RawProjectSettings, RawSavedProject,
    RawSavedSession, SavedProject, SavedSession, DEFAULT_BOTTOM_PANEL_HEIGHT,
    DEFAULT_LEFT_SIDEBAR_WIDTH, DEFAULT_RIGHT_SIDEBAR_WIDTH, MAX_BOTTOM_PANEL_HEIGHT,
    MAX_SIDEBAR_WIDTH, MIN_BOTTOM_PANEL_HEIGHT, MIN_SIDEBAR_WIDTH,
};

#[test]
fn project_settings_defaults() {
    let settings = ProjectSettings::default();
    assert!(settings.workspace_init_commands.is_empty());
    assert!(!settings.enforce_conventional_commits);
}

#[test]
fn config_constants_are_reasonable() {
    assert!(MIN_SIDEBAR_WIDTH < DEFAULT_LEFT_SIDEBAR_WIDTH);
    assert!(DEFAULT_LEFT_SIDEBAR_WIDTH < MAX_SIDEBAR_WIDTH);
    assert!(MIN_SIDEBAR_WIDTH < DEFAULT_RIGHT_SIDEBAR_WIDTH);
    assert!(DEFAULT_RIGHT_SIDEBAR_WIDTH < MAX_SIDEBAR_WIDTH);
    assert!(MIN_BOTTOM_PANEL_HEIGHT < DEFAULT_BOTTOM_PANEL_HEIGHT);
    assert!(DEFAULT_BOTTOM_PANEL_HEIGHT < MAX_BOTTOM_PANEL_HEIGHT);
}

#[test]
fn from_repo_root_derives_display_name() {
    let project = SavedProject::from_repo_root("/home/user/my-project".to_string());
    assert_eq!(project.display_name, "my-project");
    assert_eq!(project.repo_root, "/home/user/my-project");
    assert!(project.last_known_valid);
    assert!(project.sessions.is_empty());
    assert_eq!(project.last_selected_session, None);
}

#[test]
fn from_repo_root_handles_root_path() {
    let project = SavedProject::from_repo_root("/".to_string());
    assert_eq!(project.display_name, "repo");
}

#[test]
fn next_session_id_empty() {
    let project = SavedProject::from_repo_root("/tmp/repo".to_string());
    assert_eq!(project.next_session_id(), "1");
}

#[test]
fn next_session_id_increments() {
    let mut project = SavedProject::from_repo_root("/tmp/repo".to_string());
    project.sessions = vec![
        SavedSession {
            id: "1".to_string(),
            name: "first".to_string(),
            worktree_path: None,
        },
        SavedSession {
            id: "3".to_string(),
            name: "third".to_string(),
            worktree_path: None,
        },
    ];
    assert_eq!(project.next_session_id(), "4");
}

#[test]
fn next_session_id_skips_non_numeric() {
    let mut project = SavedProject::from_repo_root("/tmp/repo".to_string());
    project.sessions = vec![
        SavedSession {
            id: "abc".to_string(),
            name: "alpha".to_string(),
            worktree_path: None,
        },
        SavedSession {
            id: "2".to_string(),
            name: "second".to_string(),
            worktree_path: None,
        },
    ];
    assert_eq!(project.next_session_id(), "3");
}

fn make_project(repo_root: &str, valid: bool) -> SavedProject {
    SavedProject {
        repo_root: repo_root.to_string(),
        display_name: repo_root.to_string(),
        last_known_valid: valid,
        sessions: vec![],
        last_selected_session: None,
        settings: ProjectSettings::default(),
    }
}

fn make_project_with_sessions(repo_root: &str, session_ids: &[&str]) -> SavedProject {
    let mut p = make_project(repo_root, true);
    p.sessions = session_ids
        .iter()
        .map(|id| SavedSession {
            id: id.to_string(),
            name: format!("Session {id}"),
            worktree_path: None,
        })
        .collect();
    p
}

#[test]
fn pick_initial_selection_returns_none_for_empty_config() {
    assert_eq!(pick_initial_selection(&vec![], &None), None);
}

#[test]
fn pick_initial_selection_returns_last_selected_if_valid() {
    let projects = vec![make_project("/repo/a", true), make_project("/repo/b", true)];
    assert_eq!(
        pick_initial_selection(&projects, &Some("/repo/b".to_string())),
        Some("/repo/b".to_string())
    );
}

#[test]
fn pick_initial_selection_skips_invalid_last_selected() {
    let projects = vec![
        make_project("/repo/a", true),
        make_project("/repo/b", false), // invalid
    ];
    // Falls back to first valid project
    assert_eq!(
        pick_initial_selection(&projects, &Some("/repo/b".to_string())),
        Some("/repo/a".to_string())
    );
}

#[test]
fn pick_initial_selection_falls_back_to_first_valid() {
    let projects = vec![make_project("/repo/a", false), make_project("/repo/b", true)];
    assert_eq!(
        pick_initial_selection(&projects, &None),
        Some("/repo/b".to_string())
    );
}

#[test]
fn pick_initial_selection_returns_none_if_all_invalid() {
    let projects = vec![make_project("/repo/a", false), make_project("/repo/b", false)];
    assert_eq!(pick_initial_selection(&projects, &None), None);
}

#[test]
fn pick_initial_session_returns_none_for_missing_repo() {
    let projects = vec![make_project_with_sessions("/repo/a", &["1", "2"])];
    assert_eq!(pick_initial_session(&projects, "/repo/missing"), None);
}

#[test]
fn pick_initial_session_returns_last_selected() {
    let mut project = make_project_with_sessions("/repo/a", &["1", "2", "3"]);
    project.last_selected_session = Some("2".to_string());
    let projects = vec![project];
    assert_eq!(
        pick_initial_session(&projects, "/repo/a"),
        Some("2".to_string())
    );
}

#[test]
fn pick_initial_session_falls_back_to_first() {
    let projects = vec![make_project_with_sessions("/repo/a", &["5", "10"])];
    assert_eq!(
        pick_initial_session(&projects, "/repo/a"),
        Some("5".to_string())
    );
}

#[test]
fn pick_initial_session_returns_none_for_no_sessions() {
    let projects = vec![make_project("/repo/a", true)];
    assert_eq!(pick_initial_session(&projects, "/repo/a"), None);
}

#[test]
fn pick_initial_session_skips_stale_last_selected() {
    let mut project = make_project_with_sessions("/repo/a", &["1", "2"]);
    project.last_selected_session = Some("deleted".to_string()); // stale
    let projects = vec![project];
    // Falls back to first session
    assert_eq!(
        pick_initial_session(&projects, "/repo/a"),
        Some("1".to_string())
    );
}

#[test]
fn paths_compare_by_components() {
    let projects = vec![make_project("/repo/a/", true)];
    assert_eq!(
        pick_initial_selection(&projects, &Some("/repo//a".to_string())),
        Some("/repo//a".to_string())
    );
}

#[test]
fn session_name_and_commit_convention() {
    let mut project = make_project_with_sessions("/repo/a", &["1", "2"]);
    project.settings.enforce_conventional_commits = true;
    let projects = vec![project, make_project("/repo/b", true)];
    assert_eq!(session_name(&projects, &Some("2".to_string()), "/repo/a"), "Session 2");
    assert_eq!(session_name(&projects, &Some("9".to_string()), "/repo/a"), "");
    assert_eq!(session_name(&projects, &None, "/repo/a"), "");
    assert_eq!(session_name(&projects, &Some("1".to_string()), "/repo/z"), "");
    assert!(enforces_conventional_commits(&projects, "/repo/a"));
    assert!(!enforces_conventional_commits(&projects, "/repo/b"));
    assert!(!enforces_conventional_commits(&projects, "/repo/z"));
}

#[test]
fn raw_projects_are_read_leniently() {
    let raws = vec![
        RawSavedProject {
            repo_root: Some("/tmp/one".to_string()),
            display_name: None,
            last_known_valid: None,
            sessions: vec![
                RawSavedSession { id: None, name: Some("bad session".to_string()), worktree_path: None },
                RawSavedSession { id: Some("1".to_string()), name: None, worktree_path: Some("/tmp/wt".to_string()) },
            ],
            last_selected_session: Some("1".to_string()),
            settings: Some(RawProjectSettings {
                workspace_init_commands: Some(vec!["npm install".to_string()]),
                enforce_conventional_commits: None,
                auto_merge: Some(true),
            }),
        },
        RawSavedProject {
            repo_root: None,
            display_name: Some("broken".to_string()),
            last_known_valid: Some(false),
            sessions: vec![],
            last_selected_session: None,
            settings: None,
        },
    ];
    let projects = projects_from_raw(&raws);
    assert_eq!(projects.len(), 1);
    let p = &projects[0];
    assert_eq!(p.display_name, "one");
    assert!(p.last_known_valid);
    assert_eq!(p.sessions.len(), 1);
    assert_eq!(p.sessions[0].name, "Session");
    assert_eq!(p.sessions[0].worktree_path.as_deref(), Some("/tmp/wt"));
    assert_eq!(p.settings.workspace_init_commands, vec!["npm install"]);
    assert!(!p.settings.enforce_conventional_commits);
}

#[test]
fn removing_a_project_reports_its_worktrees() {
    let mut project = make_project("/tmp/a", true);
    project.sessions = vec![
        SavedSession {
            id: "1".to_string(),
            name: "one".to_string(),
            worktree_path: Some("/tmp/wt1".to_string()),
        },
        SavedSession {
            id: "2".to_string(),
            name: "two".to_string(),
            worktree_path: None,
        },
        SavedSession {
            id: "3".to_string(),
            name: "three".to_string(),
            worktree_path: Some("/tmp/wt3".to_string()),
        },
    ];
    let mut projects = vec![make_project("/tmp/b", true), project, make_project("/tmp/c", false)];
    let removal = remove_project(&mut projects, "/tmp/a/", &Some("/tmp/a".to_string()));
    assert_eq!(removal.worktree_paths, vec!["/tmp/wt1".to_string(), "/tmp/wt3".to_string()]);
    assert!(removal.removed_selected);
    let roots: Vec<&str> = projects.iter().map(|p| p.repo_root.as_str()).collect();
    assert_eq!(roots, vec!["/tmp/b", "/tmp/c"]);

    let removal = remove_project(&mut projects, "/tmp/zzz", &Some("/tmp/b".to_string()));
    assert!(removal.worktree_paths.is_empty());
    assert!(!removal.removed_selected);
    assert_eq!(projects.len(), 2);
    let removal = remove_project(&mut projects, "/tmp/b", &None);
    assert!(!removal.removed_selected);
    assert_eq!(projects.len(), 1);
}

#[test]
fn adding_a_known_repository_activates_it() {
    let mut projects = vec![make_project_with_sessions("/tmp/a", &["2", "5"])];
    match add_project(&mut projects, "/tmp/a/".to_string()) {
        ProjectAddition::Existing { repo_root, session_id } => {
            assert_eq!(repo_root, "/tmp/a");
            assert_eq!(session_id, "2");
        }
        ProjectAddition::Added => panic!("expected the existing project"),
    }
    assert_eq!(projects.len(), 1);

    let mut no_sessions = vec![make_project("/tmp/b", true)];
    match add_project(&mut no_sessions, "/tmp/b".to_string()) {
        ProjectAddition::Existing { session_id, .. } => assert_eq!(session_id, "1"),
        ProjectAddition::Added => panic!("expected the existing project"),
    }
}

#[test]
fn adding_a_new_repository_appends_it() {
    let mut projects = vec![make_project("/tmp/a", true)];
    assert!(matches!(
        add_project(&mut projects, "/home/me/new-repo".to_string()),
        ProjectAddition::Added
    ));
    assert_eq!(projects.len(), 2);
    assert_eq!(projects[1].repo_root, "/home/me/new-repo");
    assert_eq!(projects[1].display_name, "new-repo");
    assert!(projects[1].last_known_valid);
}

#[test]
fn init_commands_of_a_project() {
    let mut project = make_project("/tmp/a", true);
    project.settings.workspace_init_commands = vec!["pnpm install".to_string(), "make".to_string()];
    let projects = vec![make_project("/tmp/b", true), project];
    assert_eq!(init_commands(&projects, "/tmp/a"), vec!["pnpm install", "make"]);
    assert!(init_commands(&projects, "/tmp/b").is_empty());
    assert!(init_commands(&projects, "/tmp/none").is_empty());
}

fn raw_project(repo_root: Option<&str>, display_name: &str, valid: bool, sessions: Vec<RawSavedSession>) -> RawSavedProject {
    RawSavedProject {
        repo_root: repo_root.map(|r| r.to_string()),
        display_name: Some(display_name.to_string()),
        last_known_valid: Some(valid),
        sessions,
        last_selected_session: None,
        settings: None,
    }
}

#[test]
fn skips_invalid_saved_projects() {
    let mut one = raw_project(
        Some("/tmp/one"),
        "one",
        true,
        vec![RawSavedSession {
            id: Some("1".to_string()),
            name: Some("Session 1".to_string()),
            worktree_path: Some("/tmp/worktree-1".to_string()),
        }],
    );
    one.last_selected_session = Some("1".to_string());
    let raws = vec![one, raw_project(None, "broken", false, vec![])];
    let projects = projects_from_raw(&raws);
    assert_eq!(projects.len(), 1);
    assert_eq!(projects[0].display_name, "one");
    assert_eq!(projects[0].sessions.len(), 1);
    assert_eq!(projects[0].sessions[0].name, "Session 1");
    assert_eq!(projects[0].sessions[0].worktree_path, Some("/tmp/worktree-1".to_string()));
}

#[test]
fn keeps_empty_sessions_for_old_config() {
    let raws = vec![raw_project(Some("/tmp/old-project"), "old-project", true, vec![])];
    let projects = projects_from_raw(&raws);
    assert_eq!(projects.len(), 1);
    assert_eq!(projects[0].sessions.len(), 0);
    assert_eq!(projects[0].last_selected_session, None);
}

#[test]
fn sessions_without_id_are_filtered_out() {
    let raws = vec![
        RawSavedSession {
            id: None,
            name: Some("bad session".to_string()),
            worktree_path: None,
        },
        RawSavedSession {
            id: Some("1".to_string()),
            name: Some("good session".to_string()),
            worktree_path: None,
        },
    ];
    let sessions = sessions_from_raw(&raws);
    assert_eq!(sessions.len(), 1);
    assert_eq!(sessions[0].name, "good session");
}

#[test]
fn session_name_defaults_to_session() {
    let raws = vec![RawSavedSession {
        id: Some("1".to_string()),
        name: None,
        worktree_path: None,
    }];
    let sessions = sessions_from_raw(&raws);
    assert_eq!(sessions[0].name, "Session");
}
