//! The saved workspace configuration: projects, their sessions and
//! settings, and the rules that pick what to show at start-up.
use vstd::prelude::*;
use crate::branch::opt_view;
use crate::status::string_is;
use crate::status::copy_chars;
use crate::text::{
    decimal, decimal_string, law_decimal_round_trip, parse_u64, parse_unsigned, str_chars,
    string_from_chars,
};

verus! {

/// The default width of the left sidebar, in pixels.
pub const DEFAULT_LEFT_SIDEBAR_WIDTH: u32 = 240;

/// The default width of the right sidebar, in pixels.
pub const DEFAULT_RIGHT_SIDEBAR_WIDTH: u32 = 320;

pub const MIN_SIDEBAR_WIDTH: u32 = 140;

pub const MAX_SIDEBAR_WIDTH: u32 = 600;

/// The default height of the bottom panel, in pixels.
pub const DEFAULT_BOTTOM_PANEL_HEIGHT: u32 = 250;

pub const MIN_BOTTOM_PANEL_HEIGHT: u32 = 100;

pub const MAX_BOTTOM_PANEL_HEIGHT: u32 = 600;

/// A saved session of a project.
#[derive(Debug)]
pub struct SavedSession {
    pub id: String,
    pub name: String,
    pub worktree_path: Option<String>,
}

/// The per-project settings.
#[derive(Debug)]
pub struct ProjectSettings {
    pub workspace_init_commands: Vec<String>,
    pub enforce_conventional_commits: bool,
}

impl Default for ProjectSettings {
    /// No init commands; conventional commits not enforced.
    fn default() -> (r: Self)
        ensures
            r.workspace_init_commands@.len() == 0,
            !r.enforce_conventional_commits,
    {
        ProjectSettings { workspace_init_commands: Vec::new(), enforce_conventional_commits: false }
    }
}

/// A saved project: a repository and its sessions.
#[derive(Debug)]
pub struct SavedProject {
    pub repo_root: String,
    pub display_name: String,
    pub last_known_valid: bool,
    pub sessions: Vec<SavedSession>,
    pub last_selected_session: Option<String>,
    pub settings: ProjectSettings,
}

// ---------------------------------------------------------------------------
// paths
// ---------------------------------------------------------------------------

/// What `Path::file_name` gives for a path: its last component, if it has
/// one that is a name.
pub uninterp spec fn path_file_name(path: Seq<char>) -> Option<Seq<char>>;

/// Calls `std::path::Path::file_name` on the path; the result (always valid
/// UTF-8 for a path given as a string) is named by `path_file_name`.
#[verifier::external_body]
fn file_name_of(path: &str) -> (r: Option<String>)
    ensures
        opt_view(r) == path_file_name(path@),
{
    std::path::Path::new(path).file_name().and_then(|n| n.to_str()).map(|n| n.to_string())
}

/// Whether `Path`'s equality holds between two paths (it compares their
/// components).
pub uninterp spec fn same_path(a: Seq<char>, b: Seq<char>) -> bool;

/// Compares two paths with `Path`'s `==`; the result is named by
/// `same_path`. Equal strings give equal components, so a path equals
/// itself.
#[verifier::external_body]
pub(crate) fn paths_equal(a: &str, b: &str) -> (r: bool)
    ensures
        r == same_path(a@, b@),
        a@ == b@ ==> r,
{
    std::path::Path::new(a) == std::path::Path::new(b)
}

/// What `Path::join` gives for a base path and a path to add to it.
pub uninterp spec fn path_joined(base: Seq<char>, rest: Seq<char>) -> Seq<char>;

/// Calls `std::path::Path::join`; the result (valid UTF-8, as both parts
/// are) is named by `path_joined`.
#[verifier::external_body]
fn join_path(base: &str, rest: &str) -> (r: String)
    ensures
        r@ == path_joined(base@, rest@),
{
    std::path::Path::new(base).join(rest).to_string_lossy().into_owned()
}

/// A path with a leading `~` standing for the home directory: `~` alone is
/// the home directory, `~/rest` is `rest` joined to it; any other path, or
/// any path when there is no home directory, stays as it is.
pub open spec fn tilde_expanded(raw: Seq<char>, home: Option<Seq<char>>) -> Seq<char> {
    match home {
        None => raw,
        Some(h) => if raw.len() == 1 && raw[0] == '~' {
            h
        } else if raw.len() >= 2 && raw[0] == '~' && raw[1] == '/' {
            path_joined(h, raw.subrange(2, raw.len() as int))
        } else {
            raw
        },
    }
}

/// Expands a leading `~` of `raw` to `home`, the home directory if there is
/// one.
pub fn expand_tilde_with(raw: &str, home: Option<&str>) -> (r: String)
    ensures
        r@ == tilde_expanded(raw@, match home {
            Some(h) => Some(h@),
            None => None,
        }),
{
    let chars = str_chars(raw);
    match home {
        None => string_from_chars(chars.as_slice()),
        Some(h) => {
            let n = chars.len();
            if n == 1 && chars[0] == '~' {
                string_from_chars(str_chars(h).as_slice())
            } else if n >= 2 && chars[0] == '~' && chars[1] == '/' {
                let rest = copy_chars(chars.as_slice(), 2, n);
                let rest_str = string_from_chars(rest.as_slice());
                join_path(h, rest_str.as_str())
            } else {
                string_from_chars(chars.as_slice())
            }
        },
    }
}

/// The name a project is shown by: its directory's name, or `repo` when
/// the path has no non-empty name.
pub open spec fn display_name_for(repo_root: Seq<char>) -> Seq<char> {
    match path_file_name(repo_root) {
        Some(n) => if n.len() > 0 {
            n
        } else {
            "repo"@
        },
        None => "repo"@,
    }
}

/// The largest session id that reads as a `u64` (zero when none does).
pub open spec fn max_session_id(ss: Seq<SavedSession>) -> nat
    decreases ss.len(),
{
    if ss.len() == 0 {
        0
    } else {
        let prev = max_session_id(ss.drop_last());
        match parse_unsigned(ss.last().id@, u64::MAX as nat) {
            Some(v) => if v > prev {
                v
            } else {
                prev
            },
            None => prev,
        }
    }
}

impl SavedProject {
    /// A new, valid project for `repo_root` with no sessions and default
    /// settings, named after its directory.
    pub fn from_repo_root(repo_root: String) -> (r: Self)
        ensures
            r.repo_root@ == repo_root@,
            r.display_name@ == display_name_for(repo_root@),
            r.last_known_valid,
            r.sessions@.len() == 0,
            r.last_selected_session is None,
            r.settings.workspace_init_commands@.len() == 0,
            !r.settings.enforce_conventional_commits,
    {
        let display_name = match file_name_of(repo_root.as_str()) {
            Some(n) => {
                if !n.as_str().is_empty() {
                    n
                } else {
                    "repo".to_owned()
                }
            },
            None => "repo".to_owned(),
        };
        SavedProject {
            repo_root,
            display_name,
            last_known_valid: true,
            sessions: Vec::new(),
            last_selected_session: None,
            settings: ProjectSettings::default(),
        }
    }

    /// The id for a new session: one more than the largest numeric id
    /// (ids that are not numbers are passed over).
    pub fn next_session_id(&self) -> (r: String)
        requires
            max_session_id(self.sessions@) < u64::MAX,
        ensures
            r@ == decimal(max_session_id(self.sessions@) + 1),
    {
        let mut max_id: u64 = 0;
        let mut i: usize = 0;
        assert(self.sessions@.subrange(0, 0) =~= Seq::<SavedSession>::empty());
        while i < self.sessions.len()
            invariant
                i <= self.sessions@.len(),
                max_id as nat == max_session_id(self.sessions@.subrange(0, i as int)),
            decreases self.sessions@.len() - i,
        {
            proof {
                assert(self.sessions@.subrange(0, i + 1).drop_last() =~= self.sessions@.subrange(
                    0,
                    i as int,
                ));
            }
            match parse_u64(self.sessions[i].id.as_str()) {
                Some(v) => {
                    if v > max_id {
                        max_id = v;
                    }
                },
                None => {},
            }
            i = i + 1;
        }
        assert(self.sessions@.subrange(0, i as int) =~= self.sessions@);
        decimal_string(max_id + 1)
    }
}

// ---------------------------------------------------------------------------
// start-up selection
// ---------------------------------------------------------------------------

/// The first project, from `i` on, whose root is `repo`.
pub open spec fn find_project(ps: Seq<SavedProject>, repo: Seq<char>, i: int) -> Option<int>
    decreases ps.len() - i,
{
    if i < 0 || i >= ps.len() {
        None
    } else if same_path(ps[i].repo_root@, repo) {
        Some(i)
    } else {
        find_project(ps, repo, i + 1)
    }
}

/// The first valid project, from `i` on.
pub open spec fn find_valid(ps: Seq<SavedProject>, i: int) -> Option<int>
    decreases ps.len() - i,
{
    if i < 0 || i >= ps.len() {
        None
    } else if ps[i].last_known_valid {
        Some(i)
    } else {
        find_valid(ps, i + 1)
    }
}

/// The first session, from `i` on, with id `id`.
pub open spec fn find_session(ss: Seq<SavedSession>, id: Seq<char>, i: int) -> Option<int>
    decreases ss.len() - i,
{
    if i < 0 || i >= ss.len() {
        None
    } else if ss[i].id@ == id {
        Some(i)
    } else {
        find_session(ss, id, i + 1)
    }
}

proof fn lemma_find_ranges(ps: Seq<SavedProject>, ss: Seq<SavedSession>, repo: Seq<char>, id: Seq<char>, i: int)
    ensures
        find_project(ps, repo, i) matches Some(k) ==> i <= k < ps.len() && k >= 0,
        find_valid(ps, i) matches Some(k) ==> i <= k < ps.len() && k >= 0 && ps[k].last_known_valid,
        find_session(ss, id, i) matches Some(k) ==> i <= k < ss.len() && k >= 0,
    decreases (if ps.len() > ss.len() {
        ps.len()
    } else {
        ss.len()
    }) - i,
{
    if i >= 0 && (i < ps.len() || i < ss.len()) {
        lemma_find_ranges(ps, ss, repo, id, i + 1);
    }
}

fn find_project_exec(ps: &Vec<SavedProject>, repo: &str) -> (r: Option<usize>)
    ensures
        match r {
            Some(i) => find_project(ps@, repo@, 0) == Some(i as int),
            None => find_project(ps@, repo@, 0) is None,
        },
{
    let mut i: usize = 0;
    while i < ps.len()
        invariant
            i <= ps@.len(),
            find_project(ps@, repo@, 0) == find_project(ps@, repo@, i as int),
        decreases ps@.len() - i,
    {
        if paths_equal(ps[i].repo_root.as_str(), repo) {
            return Some(i);
        }
        i = i + 1;
    }
    None
}

fn find_session_exec(ss: &Vec<SavedSession>, id: &String) -> (r: Option<usize>)
    ensures
        match r {
            Some(i) => find_session(ss@, id@, 0) == Some(i as int),
            None => find_session(ss@, id@, 0) is None,
        },
{
    let mut i: usize = 0;
    while i < ss.len()
        invariant
            i <= ss@.len(),
            find_session(ss@, id@, 0) == find_session(ss@, id@, i as int),
        decreases ss@.len() - i,
    {
        if ss[i].id == *id {
            return Some(i);
        }
        i = i + 1;
    }
    None
}

/// Whether some valid project has root `repo`.
pub open spec fn has_valid_project(ps: Seq<SavedProject>, repo: Seq<char>) -> bool {
    exists|i: int| 0 <= i < ps.len() && same_path(#[trigger] ps[i].repo_root@, repo) && ps[i].last_known_valid
}

/// The repository selected at start-up: the last selected one when a valid
/// project has it, else the first valid project's.
pub open spec fn initial_selection(ps: Seq<SavedProject>, last: Option<Seq<char>>) -> Option<Seq<char>> {
    match last {
        Some(l) => if has_valid_project(ps, l) {
            Some(l)
        } else {
            match find_valid(ps, 0) {
                Some(i) => Some(ps[i].repo_root@),
                None => None,
            }
        },
        None => match find_valid(ps, 0) {
            Some(i) => Some(ps[i].repo_root@),
            None => None,
        },
    }
}

fn has_valid_project_exec(projects: &Vec<SavedProject>, repo: &str) -> (r: bool)
    ensures
        r == has_valid_project(projects@, repo@),
{
    let mut i: usize = 0;
    while i < projects.len()
        invariant
            i <= projects@.len(),
            forall|j: int| 0 <= j < i ==> !(same_path(#[trigger] projects@[j].repo_root@, repo@)
                && projects@[j].last_known_valid),
        decreases projects@.len() - i,
    {
        if paths_equal(projects[i].repo_root.as_str(), repo) && projects[i].last_known_valid {
            assert(same_path(projects@[i as int].repo_root@, repo@));
            return true;
        }
        i = i + 1;
    }
    false
}

/// Picks the repository to select at start-up.
pub fn pick_initial_selection(projects: &Vec<SavedProject>, last_selected_repo: &Option<String>) -> (r: Option<String>)
    ensures
        opt_view(r) == initial_selection(projects@, opt_view(*last_selected_repo)),
{
    if let Some(last) = last_selected_repo {
        if has_valid_project_exec(projects, last.as_str()) {
            return Some(last.clone());
        }
    }
    let mut k: usize = 0;
    while k < projects.len()
        invariant
            k <= projects@.len(),
            find_valid(projects@, 0) == find_valid(projects@, k as int),
            match opt_view(*last_selected_repo) {
                Some(l) => !has_valid_project(projects@, l),
                None => true,
            },
        decreases projects@.len() - k,
    {
        if projects[k].last_known_valid {
            return Some(projects[k].repo_root.clone());
        }
        k = k + 1;
    }
    None
}

/// The session selected at start-up in the project with root `repo`: its
/// last selected session when it still exists, else its first session.
pub open spec fn initial_session(ps: Seq<SavedProject>, repo: Seq<char>) -> Option<Seq<char>> {
    match find_project(ps, repo, 0) {
        None => None,
        Some(i) => {
            let p = ps[i];
            match p.last_selected_session {
                Some(l) => if find_session(p.sessions@, l@, 0) is Some {
                    Some(l@)
                } else if p.sessions@.len() > 0 {
                    Some(p.sessions@[0].id@)
                } else {
                    None
                },
                None => if p.sessions@.len() > 0 {
                    Some(p.sessions@[0].id@)
                } else {
                    None
                },
            }
        },
    }
}

/// Picks the session to select in the project with root `repo`.
pub fn pick_initial_session(projects: &Vec<SavedProject>, repo: &str) -> (r: Option<String>)
    ensures
        opt_view(r) == initial_session(projects@, repo@),
{
    let i = match find_project_exec(projects, repo) {
        Some(i) => i,
        None => return None,
    };
    proof {
        lemma_find_ranges(projects@, Seq::empty(), repo@, Seq::empty(), 0);
    }
    let project = &projects[i];
    if let Some(last) = &project.last_selected_session {
        if find_session_exec(&project.sessions, last).is_some() {
            return Some(last.clone());
        }
    }
    if project.sessions.len() > 0 {
        Some(project.sessions[0].id.clone())
    } else {
        None
    }
}

/// The name of the selected session of the project with root `repo` (the
/// commit message); empty when either is not found.
pub open spec fn session_name_for(ps: Seq<SavedProject>, selected: Option<Seq<char>>, repo: Seq<char>) -> Seq<char> {
    let id = match selected {
        Some(s) => s,
        None => Seq::empty(),
    };
    match find_project(ps, repo, 0) {
        None => Seq::empty(),
        Some(i) => match find_session(ps[i].sessions@, id, 0) {
            None => Seq::empty(),
            Some(j) => ps[i].sessions@[j].name@,
        },
    }
}

/// Finds the name of the selected session of the project with root `repo`.
pub fn session_name(projects: &Vec<SavedProject>, selected_session: &Option<String>, repo: &str) -> (r: String)
    ensures
        r@ == session_name_for(projects@, opt_view(*selected_session), repo@),
{
    let id = match selected_session {
        Some(s) => s.clone(),
        None => String::new(),
    };
    let i = match find_project_exec(projects, repo) {
        Some(i) => i,
        None => return String::new(),
    };
    proof {
        lemma_find_ranges(projects@, projects@[i as int].sessions@, repo@, id@, 0);
    }
    match find_session_exec(&projects[i].sessions, &id) {
        Some(j) => projects[i].sessions[j].name.clone(),
        None => String::new(),
    }
}

/// Whether the project with root `repo` enforces conventional commit
/// messages (no when there is no such project).
pub fn enforces_conventional_commits(projects: &Vec<SavedProject>, repo: &str) -> (r: bool)
    ensures
        r == (match find_project(projects@, repo@, 0) {
            Some(i) => projects@[i].settings.enforce_conventional_commits,
            None => false,
        }),
{
    proof {
        lemma_find_ranges(projects@, Seq::empty(), repo@, Seq::empty(), 0);
    }
    match find_project_exec(projects, repo) {
        Some(i) => projects[i].settings.enforce_conventional_commits,
        None => false,
    }
}

/// Records, project by project, whether each repository is still valid.
pub fn apply_project_validity(projects: &mut Vec<SavedProject>, valid: &Vec<bool>)
    requires
        valid@.len() == old(projects)@.len(),
    ensures
        final(projects)@.len() == old(projects)@.len(),
        forall|i: int| 0 <= i < old(projects)@.len() ==> (#[trigger] final(projects)@[i]).last_known_valid
            == valid@[i] && final(projects)@[i].repo_root == old(projects)@[i].repo_root
            && final(projects)@[i].display_name == old(projects)@[i].display_name
            && final(projects)@[i].sessions == old(projects)@[i].sessions
            && final(projects)@[i].last_selected_session == old(projects)@[i].last_selected_session
            && final(projects)@[i].settings == old(projects)@[i].settings,
{
    let ghost orig = projects@;
    let total = projects.len();
    let mut rest: Vec<SavedProject> = Vec::new();
    std::mem::swap(&mut rest, projects);
    let mut i: usize = 0;
    while rest.len() > 0
        invariant
            i + rest@.len() == orig.len(),
            orig.len() == total,
            valid@.len() == orig.len(),
            projects@.len() == i,
            forall|k: int| 0 <= k < rest@.len() ==> #[trigger] rest@[k] == orig[i + k],
            forall|j: int| 0 <= j < i ==> (#[trigger] projects@[j]).last_known_valid == valid@[j]
                && projects@[j].repo_root == orig[j].repo_root
                && projects@[j].display_name == orig[j].display_name
                && projects@[j].sessions == orig[j].sessions
                && projects@[j].last_selected_session == orig[j].last_selected_session
                && projects@[j].settings == orig[j].settings,
        decreases rest@.len(),
    {
        let ghost old_rest = rest@;
        let mut p = rest.remove(0);
        assert(p == orig[i as int]) by {
            assert(old_rest[0] == orig[i + 0]);
        }
        p.last_known_valid = valid[i];
        projects.push(p);
        assert forall|k: int| 0 <= k < rest@.len() implies #[trigger] rest@[k] == orig[i + 1 + k] by {
            assert(rest@[k] == old_rest[k + 1]);
            assert(old_rest[k + 1] == orig[i + (k + 1)]);
        }
        i = i + 1;
    }
}

// ---------------------------------------------------------------------------
// lenient loading
// ---------------------------------------------------------------------------

/// A saved session as read from the configuration file, each field present
/// when the file has it.
#[derive(Debug)]
pub struct RawSavedSession {
    pub id: Option<String>,
    pub name: Option<String>,
    pub worktree_path: Option<String>,
}

/// Project settings as read from the configuration file.
#[derive(Debug)]
pub struct RawProjectSettings {
    pub workspace_init_commands: Option<Vec<String>>,
    pub enforce_conventional_commits: Option<bool>,
    pub auto_merge: Option<bool>,
}

/// A saved project as read from the configuration file.
#[derive(Debug)]
pub struct RawSavedProject {
    pub repo_root: Option<String>,
    pub display_name: Option<String>,
    pub last_known_valid: Option<bool>,
    pub sessions: Vec<RawSavedSession>,
    pub last_selected_session: Option<String>,
    pub settings: Option<RawProjectSettings>,
}

pub open spec fn strings_view(v: Seq<String>) -> Seq<Seq<char>> {
    v.map_values(|s: String| s@)
}

/// The sessions kept from a file: those with an id, named `Session` when
/// unnamed.
pub open spec fn kept_sessions(raws: Seq<RawSavedSession>) -> Seq<(Seq<char>, Seq<char>, Option<Seq<char>>)>
    decreases raws.len(),
{
    if raws.len() == 0 {
        Seq::empty()
    } else {
        let rest = kept_sessions(raws.drop_last());
        let r = raws.last();
        match r.id {
            Some(id) => rest.push(
                (
                    id@,
                    match r.name {
                        Some(n) => n@,
                        None => "Session"@,
                    },
                    opt_view(r.worktree_path),
                ),
            ),
            None => rest,
        }
    }
}

pub open spec fn session_view(s: SavedSession) -> (Seq<char>, Seq<char>, Option<Seq<char>>) {
    (s.id@, s.name@, opt_view(s.worktree_path))
}

/// The projects kept from a file: those with a repository root.
pub open spec fn kept_projects(raws: Seq<RawSavedProject>) -> Seq<RawSavedProject>
    decreases raws.len(),
{
    if raws.len() == 0 {
        Seq::empty()
    } else {
        let rest = kept_projects(raws.drop_last());
        if raws.last().repo_root is Some {
            rest.push(raws.last())
        } else {
            rest
        }
    }
}

/// A project made from its entry in the file: a missing name is taken from
/// the root's directory (`repo` if it has none), a missing validity counts
/// as valid, missing settings as defaults.
pub open spec fn project_from_raw(p: SavedProject, raw: RawSavedProject) -> bool {
    &&& raw.repo_root matches Some(root) && p.repo_root@ == root@
    &&& p.display_name@ == (match raw.display_name {
        Some(n) => n@,
        None => display_name_for(p.repo_root@),
    })
    &&& p.last_known_valid == (match raw.last_known_valid {
        Some(b) => b,
        None => true,
    })
    &&& p.sessions@.map_values(|s: SavedSession| session_view(s)) == kept_sessions(raw.sessions@)
    &&& opt_view(p.last_selected_session) == opt_view(raw.last_selected_session)
    &&& strings_view(p.settings.workspace_init_commands@) == (match raw.settings {
        Some(st) => match st.workspace_init_commands {
            Some(c) => strings_view(c@),
            None => Seq::empty(),
        },
        None => Seq::empty(),
    })
    &&& p.settings.enforce_conventional_commits == (match raw.settings {
        Some(st) => match st.enforce_conventional_commits {
            Some(b) => b,
            None => false,
        },
        None => false,
    })
}

fn clone_opt(o: &Option<String>) -> (r: Option<String>)
    ensures
        opt_view(r) == opt_view(*o),
{
    match o {
        Some(s) => Some(s.clone()),
        None => None,
    }
}

fn clone_strings(v: &Vec<String>) -> (r: Vec<String>)
    ensures
        strings_view(r@) == strings_view(v@),
{
    let mut out: Vec<String> = Vec::new();
    let mut i: usize = 0;
    while i < v.len()
        invariant
            i <= v@.len(),
            strings_view(out@) == strings_view(v@).subrange(0, i as int),
        decreases v@.len() - i,
    {
        let ghost before = strings_view(out@);
        out.push(v[i].clone());
        assert(strings_view(out@) =~= before.push(v@[i as int]@));
        assert(strings_view(v@).subrange(0, i + 1) =~= strings_view(v@).subrange(0, i as int).push(
            v@[i as int]@,
        ));
        i = i + 1;
    }
    assert(strings_view(v@).subrange(0, i as int) =~= strings_view(v@));
    out
}

/// The sessions of a project entry, leniently.
pub fn sessions_from_raw(raws: &Vec<RawSavedSession>) -> (r: Vec<SavedSession>)
    ensures
        r@.map_values(|s: SavedSession| session_view(s)) == kept_sessions(raws@),
{
    let mut out: Vec<SavedSession> = Vec::new();
    let mut i: usize = 0;
    assert(raws@.subrange(0, 0) =~= Seq::<RawSavedSession>::empty());
    while i < raws.len()
        invariant
            i <= raws@.len(),
            out@.map_values(|s: SavedSession| session_view(s)) == kept_sessions(raws@.subrange(0, i as int)),
        decreases raws@.len() - i,
    {
        let r = &raws[i];
        proof {
            assert(raws@.subrange(0, i + 1).drop_last() =~= raws@.subrange(0, i as int));
            assert(raws@.subrange(0, i + 1).last() == *r);
        }
        let ghost before = out@.map_values(|s: SavedSession| session_view(s));
        if let Some(id) = &r.id {
            proof {
                reveal_strlit("Session");
            }
            let name = match &r.name {
                Some(n) => n.clone(),
                None => "Session".to_owned(),
            };
            let session = SavedSession { id: id.clone(), name, worktree_path: clone_opt(&r.worktree_path) };
            out.push(session);
            proof {
                assert(out@.map_values(|s: SavedSession| session_view(s)) =~= before.push(
                    session_view(out@.last()),
                ));
            }
        }
        i = i + 1;
    }
    assert(raws@.subrange(0, i as int) =~= raws@);
    out
}

/// The project for one entry of the file, if it names a repository.
pub fn project_from_raw_entry(raw: &RawSavedProject) -> (r: Option<SavedProject>)
    ensures
        match r {
            Some(p) => project_from_raw(p, *raw),
            None => raw.repo_root is None,
        },
{
    let root = match &raw.repo_root {
        Some(root) => root.clone(),
        None => return None,
    };
    let display_name = match &raw.display_name {
        Some(n) => n.clone(),
        None => {
            let named = SavedProject::from_repo_root(root.clone());
            named.display_name
        },
    };
    let last_known_valid = match raw.last_known_valid {
        Some(b) => b,
        None => true,
    };
    let sessions = sessions_from_raw(&raw.sessions);
    let settings = match &raw.settings {
        Some(st) => ProjectSettings {
            workspace_init_commands: match &st.workspace_init_commands {
                Some(c) => clone_strings(c),
                None => {
                    let v: Vec<String> = Vec::new();
                    assert(strings_view(v@) =~= Seq::<Seq<char>>::empty());
                    v
                },
            },
            enforce_conventional_commits: match st.enforce_conventional_commits {
                Some(b) => b,
                None => false,
            },
        },
        None => ProjectSettings::default(),
    };
    proof {
        assert(strings_view(Seq::<String>::empty()) =~= Seq::<Seq<char>>::empty());
        assert(strings_view(settings.workspace_init_commands@) == (match raw.settings {
            Some(st) => match st.workspace_init_commands {
                Some(c) => strings_view(c@),
                None => Seq::empty(),
            },
            None => Seq::empty(),
        }));
    }
    Some(
        SavedProject {
            repo_root: root,
            display_name,
            last_known_valid,
            sessions,
            last_selected_session: clone_opt(&raw.last_selected_session),
            settings,
        },
    )
}

/// The projects of a configuration file, read leniently: entries without a
/// repository root are dropped, and missing fields take their defaults.
pub fn projects_from_raw(raws: &Vec<RawSavedProject>) -> (r: Vec<SavedProject>)
    ensures
        r@.len() == kept_projects(raws@).len(),
        forall|i: int| 0 <= i < r@.len() ==> project_from_raw(#[trigger] r@[i], kept_projects(raws@)[i]),
{
    let mut out: Vec<SavedProject> = Vec::new();
    let mut i: usize = 0;
    assert(raws@.subrange(0, 0) =~= Seq::<RawSavedProject>::empty());
    while i < raws.len()
        invariant
            i <= raws@.len(),
            out@.len() == kept_projects(raws@.subrange(0, i as int)).len(),
            forall|j: int| 0 <= j < out@.len() ==> project_from_raw(#[trigger] out@[j], kept_projects(
                raws@.subrange(0, i as int),
            )[j]),
        decreases raws@.len() - i,
    {
        proof {
            assert(raws@.subrange(0, i + 1).drop_last() =~= raws@.subrange(0, i as int));
            assert(raws@.subrange(0, i + 1).last() == raws@[i as int]);
        }
        let ghost before = kept_projects(raws@.subrange(0, i as int));
        match project_from_raw_entry(&raws[i]) {
            Some(p) => {
                out.push(p);
                proof {
                    let now = kept_projects(raws@.subrange(0, i + 1));
                    assert(now == before.push(raws@[i as int]));
                    assert forall|j: int| 0 <= j < out@.len() implies project_from_raw(
                        #[trigger] out@[j],
                        now[j],
                    ) by {
                        if j < before.len() {
                            assert(now[j] == before[j]);
                        }
                    }
                }
            },
            None => {},
        }
        i = i + 1;
    }
    assert(raws@.subrange(0, i as int) =~= raws@);
    out
}

// ---------------------------------------------------------------------------
// sessions' working directories and init commands
// ---------------------------------------------------------------------------

/// The worktree recorded for session `session_id` of the project with root
/// `repo`, if any (the caller still checks that it exists).
pub open spec fn session_worktree_of(ps: Seq<SavedProject>, repo: Seq<char>, session_id: Seq<char>) -> Option<Seq<char>> {
    match find_project(ps, repo, 0) {
        None => None,
        Some(i) => match find_session(ps[i].sessions@, session_id, 0) {
            None => None,
            Some(j) => opt_view(ps[i].sessions@[j].worktree_path),
        },
    }
}

/// Finds the worktree recorded for a session.
pub fn session_worktree(projects: &Vec<SavedProject>, repo: &str, session_id: &str) -> (r: Option<String>)
    ensures
        opt_view(r) == session_worktree_of(projects@, repo@, session_id@),
{
    let i = match find_project_exec(projects, repo) {
        Some(i) => i,
        None => return None,
    };
    let id = session_id.to_owned();
    proof {
        lemma_find_ranges(projects@, projects@[i as int].sessions@, repo@, id@, 0);
    }
    match find_session_exec(&projects[i].sessions, &id) {
        Some(j) => clone_opt(&projects[i].sessions[j].worktree_path),
        None => None,
    }
}

/// The init commands after saving `command` in the project's list: an
/// empty command removes the edited entry (when it exists); otherwise the
/// edited entry is replaced, or the command is added at the end.
pub open spec fn commands_after_save(cmds: Seq<Seq<char>>, command: Seq<char>, editing: Option<usize>) -> Seq<Seq<char>> {
    if command.len() == 0 {
        match editing {
            Some(i) => if i < cmds.len() {
                cmds.remove(i as int)
            } else {
                cmds
            },
            None => cmds,
        }
    } else {
        match editing {
            Some(i) => if i < cmds.len() {
                cmds.update(i as int, command)
            } else {
                cmds.push(command)
            },
            None => cmds.push(command),
        }
    }
}

/// Saves an edited or new init command of the project with root `repo`;
/// other projects, and everything else, are left as they were.
pub fn save_init_command(projects: &mut Vec<SavedProject>, repo: &str, command: String, editing_index: Option<usize>)
    ensures
        final(projects)@.len() == old(projects)@.len(),
        match find_project(old(projects)@, repo@, 0) {
            None => final(projects)@ == old(projects)@,
            Some(k) => {
                &&& forall|j: int| 0 <= j < old(projects)@.len() && j != k ==> #[trigger] final(projects)@[j] == old(projects)@[j]
                &&& strings_view(final(projects)@[k].settings.workspace_init_commands@) == commands_after_save(
                    strings_view(old(projects)@[k].settings.workspace_init_commands@),
                    command@,
                    editing_index,
                )
                &&& final(projects)@[k].repo_root == old(projects)@[k].repo_root
                &&& final(projects)@[k].sessions == old(projects)@[k].sessions
                &&& final(projects)@[k].settings.enforce_conventional_commits == old(projects)@[k].settings.enforce_conventional_commits
            },
        },
{
    let k = match find_project_exec(projects, repo) {
        Some(k) => k,
        None => return,
    };
    proof {
        lemma_find_ranges(old(projects)@, Seq::empty(), repo@, Seq::empty(), 0);
    }
    let ghost orig = projects@;
    let mut list: Vec<SavedProject> = Vec::new();
    std::mem::swap(&mut list, projects);
    let mut p = list.remove(k);
    let ghost before = strings_view(p.settings.workspace_init_commands@);
    let mut cmds: Vec<String> = Vec::new();
    std::mem::swap(&mut cmds, &mut p.settings.workspace_init_commands);
    if command.as_str().is_empty() {
        if let Some(i) = editing_index {
            if i < cmds.len() {
                cmds.remove(i);
                assert(strings_view(cmds@) =~= before.remove(i as int));
            }
        }
    } else {
        let ghost c = command@;
        match editing_index {
            Some(i) => {
                if i < cmds.len() {
                    cmds.set(i, command);
                    assert(strings_view(cmds@) =~= before.update(i as int, c));
                } else {
                    cmds.push(command);
                    assert(strings_view(cmds@) =~= before.push(c));
                }
            },
            None => {
                cmds.push(command);
                assert(strings_view(cmds@) =~= before.push(c));
            },
        }
    }
    p.settings.workspace_init_commands = cmds;
    list.insert(k, p);
    assert forall|j: int| 0 <= j < orig.len() && j != k implies #[trigger] list@[j] == orig[j] by {
        if j < k {
            assert(list@[j] == orig[j]);
        } else {
            assert(list@[j] == orig[j]);
        }
    }
    *projects = list;
}

/// Removes init command `index` of the project with root `repo`, when it
/// exists.
pub fn remove_init_command(projects: &mut Vec<SavedProject>, repo: &str, index: usize)
    ensures
        final(projects)@.len() == old(projects)@.len(),
        match find_project(old(projects)@, repo@, 0) {
            None => final(projects)@ == old(projects)@,
            Some(k) => {
                &&& forall|j: int| 0 <= j < old(projects)@.len() && j != k ==> #[trigger] final(projects)@[j] == old(projects)@[j]
                &&& strings_view(final(projects)@[k].settings.workspace_init_commands@) == (if index
                    < old(projects)@[k].settings.workspace_init_commands@.len() {
                    strings_view(old(projects)@[k].settings.workspace_init_commands@).remove(index as int)
                } else {
                    strings_view(old(projects)@[k].settings.workspace_init_commands@)
                })
                &&& final(projects)@[k].repo_root == old(projects)@[k].repo_root
                &&& final(projects)@[k].sessions == old(projects)@[k].sessions
            },
        },
{
    let k = match find_project_exec(projects, repo) {
        Some(k) => k,
        None => return,
    };
    proof {
        lemma_find_ranges(old(projects)@, Seq::empty(), repo@, Seq::empty(), 0);
    }
    let ghost orig = projects@;
    let mut list: Vec<SavedProject> = Vec::new();
    std::mem::swap(&mut list, projects);
    let mut p = list.remove(k);
    let ghost before = strings_view(p.settings.workspace_init_commands@);
    if index < p.settings.workspace_init_commands.len() {
        let mut cmds: Vec<String> = Vec::new();
        std::mem::swap(&mut cmds, &mut p.settings.workspace_init_commands);
        cmds.remove(index);
        assert(strings_view(cmds@) =~= before.remove(index as int));
        p.settings.workspace_init_commands = cmds;
    }
    list.insert(k, p);
    assert forall|j: int| 0 <= j < orig.len() && j != k implies #[trigger] list@[j] == orig[j] by {
        assert(list@[j] == orig[j]);
    }
    *projects = list;
}

// ---------------------------------------------------------------------------
// laws
// ---------------------------------------------------------------------------

proof fn lemma_max_session_id_bounds(ss: Seq<SavedSession>, i: int)
    requires
        0 <= i < ss.len(),
    ensures
        parse_unsigned(ss[i].id@, u64::MAX as nat) matches Some(v) ==> v <= max_session_id(ss),
    decreases ss.len(),
{
    if i < ss.len() - 1 {
        lemma_max_session_id_bounds(ss.drop_last(), i);
        assert(ss.drop_last()[i] == ss[i]);
    }
}

/// A new session id never repeats the id of a session the project already
/// has.
pub proof fn law_next_session_id_is_fresh(p: SavedProject)
    requires
        max_session_id(p.sessions@) < u64::MAX,
    ensures
        forall|i: int| 0 <= i < p.sessions@.len() ==> #[trigger] p.sessions@[i].id@ != decimal(
            max_session_id(p.sessions@) + 1,
        ),
{
    let m = max_session_id(p.sessions@);
    assert forall|i: int| 0 <= i < p.sessions@.len() implies #[trigger] p.sessions@[i].id@ != decimal(
        m + 1,
    ) by {
        lemma_max_session_id_bounds(p.sessions@, i);
        law_decimal_round_trip(m + 1, u64::MAX as nat);
    }
}

// ---------------------------------------------------------------------------
// init commands
// ---------------------------------------------------------------------------

/// The init commands of the project with root `repo`; none when there is
/// no such project.
pub fn init_commands(projects: &Vec<SavedProject>, repo: &str) -> (r: Vec<String>)
    ensures
        strings_view(r@) == (match find_project(projects@, repo@, 0) {
            Some(k) => strings_view(projects@[k].settings.workspace_init_commands@),
            None => Seq::empty(),
        }),
{
    let mut out: Vec<String> = Vec::new();
    match find_project_exec(projects, repo) {
        Some(k) => {
            proof {
                lemma_find_ranges(projects@, Seq::empty(), repo@, Seq::empty(), 0);
            }
            let cmds = &projects[k].settings.workspace_init_commands;
            let mut i: usize = 0;
            while i < cmds.len()
                invariant
                    i <= cmds@.len(),
                    out@ == cmds@.subrange(0, i as int),
                decreases cmds@.len() - i,
            {
                out.push(cmds[i].clone());
                i = i + 1;
                assert(out@ =~= cmds@.subrange(0, i as int));
            }
            assert(cmds@.subrange(0, cmds@.len() as int) =~= cmds@);
        },
        None => {
            assert(strings_view(out@) =~= Seq::<Seq<char>>::empty());
        },
    }
    out
}

// ---------------------------------------------------------------------------
// removing a project
// ---------------------------------------------------------------------------

/// The worktree paths of sessions, in order, for those that have one.
pub open spec fn session_worktrees(ss: Seq<SavedSession>) -> Seq<Seq<char>>
    decreases ss.len(),
{
    if ss.len() == 0 {
        Seq::empty()
    } else {
        let rest = session_worktrees(ss.drop_last());
        match ss.last().worktree_path {
            Some(w) => rest.push(w@),
            None => rest,
        }
    }
}

/// The projects that stay when the project with root `repo` is removed:
/// those with another root, in order.
pub open spec fn projects_without(ps: Seq<SavedProject>, repo: Seq<char>) -> Seq<SavedProject>
    decreases ps.len(),
{
    if ps.len() == 0 {
        Seq::empty()
    } else {
        let rest = projects_without(ps.drop_last(), repo);
        if same_path(ps.last().repo_root@, repo) {
            rest
        } else {
            rest.push(ps.last())
        }
    }
}

/// What removing a project leaves to do.
#[derive(Debug)]
pub struct ProjectRemoval {
    /// The worktrees of the project's sessions, to be removed from Git.
    pub worktree_paths: Vec<String>,
    /// The selected repository was the one removed: another is picked.
    pub removed_selected: bool,
}

/// Removes the project with root `repo_root` and tells which worktrees its
/// sessions had (those of the first project with that root) and whether it
/// was the selected one.
pub fn remove_project(projects: &mut Vec<SavedProject>, repo_root: &str, selected_repo: &Option<String>) -> (r: ProjectRemoval)
    ensures
        final(projects)@ == projects_without(old(projects)@, repo_root@),
        strings_view(r.worktree_paths@) == (match find_project(old(projects)@, repo_root@, 0) {
            Some(k) => session_worktrees(old(projects)@[k].sessions@),
            None => Seq::empty(),
        }),
        r.removed_selected == (match selected_repo {
            Some(s) => same_path(s@, repo_root@),
            None => false,
        }),
{
    let mut worktree_paths: Vec<String> = Vec::new();
    match find_project_exec(projects, repo_root) {
        Some(k) => {
            proof {
                lemma_find_ranges(projects@, Seq::empty(), repo_root@, Seq::empty(), 0);
            }
            let sessions = &projects[k].sessions;
            let mut i: usize = 0;
            while i < sessions.len()
                invariant
                    i <= sessions@.len(),
                    strings_view(worktree_paths@) == session_worktrees(sessions@.subrange(0, i as int)),
                decreases sessions@.len() - i,
            {
                proof {
                    assert(sessions@.subrange(0, i + 1).drop_last() =~= sessions@.subrange(0, i as int));
                    assert(sessions@.subrange(0, i + 1).last() == sessions@[i as int]);
                }
                match &sessions[i].worktree_path {
                    Some(w) => {
                        worktree_paths.push(w.clone());
                        assert(strings_view(worktree_paths@) =~= session_worktrees(
                            sessions@.subrange(0, i as int),
                        ).push(w@));
                    },
                    None => {},
                }
                i = i + 1;
            }
            assert(sessions@.subrange(0, sessions@.len() as int) =~= sessions@);
        },
        None => {},
    }
    let removed_selected = match selected_repo {
        Some(s) => paths_equal(s.as_str(), repo_root),
        None => false,
    };
    let ghost orig = projects@;
    let mut rest: Vec<SavedProject> = Vec::new();
    std::mem::swap(&mut rest, projects);
    let mut kept: Vec<SavedProject> = Vec::new();
    let mut n: usize = rest.len();
    let mut reversed: Vec<SavedProject> = Vec::new();
    while n > 0
        invariant
            n == rest@.len(),
            n <= orig.len(),
            rest@ == orig.subrange(0, n as int),
            reversed@.len() == orig.len() - n,
            forall|j: int| 0 <= j < reversed@.len() ==> #[trigger] reversed@[j] == orig[orig.len() - 1 - j],
        decreases n,
    {
        let p = rest.pop().unwrap();
        n = n - 1;
        reversed.push(p);
        assert(rest@ =~= orig.subrange(0, n as int));
    }
    let mut i: usize = reversed.len();
    while i > 0
        invariant
            i == reversed@.len(),
            i <= orig.len(),
            forall|j: int| 0 <= j < i ==> #[trigger] reversed@[j] == orig[orig.len() - 1 - j],
            kept@ == projects_without(orig.subrange(0, orig.len() - i), repo_root@),
        decreases i,
    {
        let p = reversed.pop().unwrap();
        i = i - 1;
        let ghost m = orig.len() - i;
        proof {
            assert(p == orig[m - 1]);
            assert(orig.subrange(0, m).drop_last() =~= orig.subrange(0, m - 1));
            assert(orig.subrange(0, m).last() == orig[m - 1]);
        }
        if !paths_equal(p.repo_root.as_str(), repo_root) {
            kept.push(p);
        }
    }
    assert(orig.subrange(0, orig.len() as int) =~= orig);
    *projects = kept;
    ProjectRemoval { worktree_paths, removed_selected }
}

// ---------------------------------------------------------------------------
// adding a project
// ---------------------------------------------------------------------------

/// What adding a repository did.
#[derive(Debug)]
pub enum ProjectAddition {
    /// A project already has that root: its session to activate (the
    /// initial one, else `1`).
    Existing { repo_root: String, session_id: String },
    /// A new project was added at the end.
    Added,
}

/// Adds a project for `repo_root`, unless one already has that root.
pub fn add_project(projects: &mut Vec<SavedProject>, repo_root: String) -> (r: ProjectAddition)
    ensures
        match find_project(old(projects)@, repo_root@, 0) {
            Some(k) => {
                &&& final(projects)@ == old(projects)@
                &&& r matches ProjectAddition::Existing { repo_root: root, session_id: sid }
                &&& root@ == old(projects)@[k].repo_root@
                &&& sid@ == (match initial_session(old(projects)@, old(projects)@[k].repo_root@) {
                    Some(s) => s,
                    None => "1"@,
                })
            },
            None => {
                &&& r is Added
                &&& final(projects)@.len() == old(projects)@.len() + 1
                &&& final(projects)@.subrange(0, old(projects)@.len() as int) == old(projects)@
                &&& final(projects)@.last().repo_root@ == repo_root@
                &&& final(projects)@.last().display_name@ == display_name_for(repo_root@)
                &&& final(projects)@.last().last_known_valid
                &&& final(projects)@.last().sessions@.len() == 0
                &&& final(projects)@.last().last_selected_session is None
                &&& final(projects)@.last().settings.workspace_init_commands@.len() == 0
                &&& !final(projects)@.last().settings.enforce_conventional_commits
            },
        },
{
    match find_project_exec(projects, repo_root.as_str()) {
        Some(k) => {
            proof {
                lemma_find_ranges(projects@, Seq::empty(), repo_root@, Seq::empty(), 0);
            }
            let existing = projects[k].repo_root.clone();
            let session_id = match pick_initial_session(projects, existing.as_str()) {
                Some(s) => s,
                None => "1".to_owned(),
            };
            ProjectAddition::Existing { repo_root: existing, session_id }
        },
        None => {
            let project = SavedProject::from_repo_root(repo_root);
            projects.push(project);
            assert(projects@.subrange(0, old(projects)@.len() as int) =~= old(projects)@);
            ProjectAddition::Added
        },
    }
}

} // verus!
