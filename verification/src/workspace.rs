//! The workspace's state rules: which changed files are staged as Git
//! snapshots arrive, which Git action the side panel offers, the key
//! bindings and how keys are shown, and the update check's decisions.
use vstd::prelude::*;
use crate::branch::{
    branch_status_equal, checks_equal, checks_view, opt_view, BranchStatus, CheckBucket, CiCheckView,
    RepoCapabilities,
};
use crate::config::{paths_equal, same_path};
use crate::status::{changes_equal, changes_view, duplicate_changes, string_is, GitChange, GitChangeView};
use crate::text::{char_to_uppercase, parse_u64, parse_unsigned, str_chars, string_from_chars, uppercase_of};
use crate::status::{char_views, copy_chars, split_chars, split_on};
use crate::terminal_input::str_is;

verus! {

// ---------------------------------------------------------------------------
// staged files
// ---------------------------------------------------------------------------

pub open spec fn path_views(v: Seq<String>) -> Seq<Seq<char>> {
    v.map_values(|s: String| s@)
}

/// Whether some path of `v` reads `p`.
pub open spec fn in_paths(v: Seq<String>, p: Seq<char>) -> bool {
    exists|i: int| 0 <= i < v.len() && #[trigger] v[i]@ == p
}

pub open spec fn unique_paths(v: Seq<String>) -> bool {
    forall|i: int, j: int| 0 <= i < j < v.len() ==> (#[trigger] v[i])@ != (#[trigger] v[j])@
}

proof fn lemma_paths_set_len(v: Seq<String>)
    requires
        unique_paths(v),
    ensures
        Set::new(|p: Seq<char>| in_paths(v, p)).len() == v.len(),
        Set::new(|p: Seq<char>| in_paths(v, p)).finite(),
{
    let pv = path_views(v);
    assert(pv.no_duplicates()) by {
        assert forall|i: int, j: int| 0 <= i < pv.len() && 0 <= j < pv.len() && i != j implies pv[i]
            != pv[j] by {
            if i < j {
                assert(v[i]@ != v[j]@);
            } else {
                assert(v[j]@ != v[i]@);
            }
        }
    }
    pv.unique_seq_to_set();
    assert forall|p: Seq<char>| #[trigger] pv.to_set().contains(p) == in_paths(v, p) by {
        if pv.contains(p) {
            let i = choose|i: int| 0 <= i < pv.len() && pv[i] == p;
            assert(v[i]@ == p);
        }
        if in_paths(v, p) {
            let i = choose|i: int| 0 <= i < v.len() && #[trigger] v[i]@ == p;
            assert(pv[i] == p);
        }
    }
    assert(pv.to_set() =~= Set::new(|p: Seq<char>| in_paths(v, p)));
    vstd::seq_lib::seq_to_set_is_finite(pv);
}

/// The set of paths staged for the next commit.
pub struct StagedFiles {
    paths: Vec<String>,
}

impl View for StagedFiles {
    type V = Set<Seq<char>>;

    closed spec fn view(&self) -> Set<Seq<char>> {
        Set::new(|p: Seq<char>| in_paths(self.paths@, p))
    }
}

impl StagedFiles {
    #[verifier::type_invariant]
    spec fn inv(self) -> bool {
        unique_paths(self.paths@)
    }

    /// No staged paths.
    pub fn new() -> (r: Self)
        ensures
            r@ == Set::<Seq<char>>::empty(),
    {
        let r = StagedFiles { paths: Vec::new() };
        assert(r@ =~= Set::<Seq<char>>::empty());
        r
    }

    fn index_of(&self, path: &str) -> (r: Option<usize>)
        ensures
            match r {
                Some(i) => i < self.paths@.len() && self.paths@[i as int]@ == path@,
                None => !in_paths(self.paths@, path@),
            },
    {
        let mut i: usize = 0;
        while i < self.paths.len()
            invariant
                i <= self.paths@.len(),
                forall|j: int| 0 <= j < i ==> (#[trigger] self.paths@[j])@ != path@,
            decreases self.paths@.len() - i,
        {
            if str_is(self.paths[i].as_str(), path) {
                return Some(i);
            }
            i = i + 1;
        }
        None
    }

    /// Whether `path` is staged.
    pub fn contains(&self, path: &str) -> (r: bool)
        ensures
            r == self@.contains(path@),
    {
        match self.index_of(path) {
            Some(i) => {
                assert(in_paths(self.paths@, path@));
                true
            },
            None => false,
        }
    }

    /// The number of staged paths.
    pub fn len(&self) -> (r: usize)
        ensures
            r == self@.len(),
    {
        proof {
            use_type_invariant(self);
            lemma_paths_set_len(self.paths@);
        }
        self.paths.len()
    }

    /// Stages `path`; reports whether it was not staged before.
    pub fn insert(&mut self, path: String) -> (r: bool)
        ensures
            final(self)@ == old(self)@.insert(path@),
            r == !old(self)@.contains(path@),
    {
        proof {
            use_type_invariant(&*self);
        }
        match self.index_of(path.as_str()) {
            Some(i) => {
                assert(in_paths(self.paths@, path@));
                assert(old(self)@.insert(path@) =~= old(self)@);
                return false;
            },
            None => {},
        }
        let ghost before = self.paths@;
        let mut paths: Vec<String> = Vec::new();
        std::mem::swap(&mut paths, &mut self.paths);
        let ghost p = path@;
        paths.push(path);
        proof {
            assert(paths@ == before.push(paths@.last()));
            assert forall|q: Seq<char>| in_paths(paths@, q) == (in_paths(before, q) || q == p) by {
                if in_paths(paths@, q) {
                    let i = choose|i: int| 0 <= i < paths@.len() && #[trigger] paths@[i]@ == q;
                    if i < before.len() {
                        assert(before[i]@ == q);
                    }
                }
                if in_paths(before, q) {
                    let i = choose|i: int| 0 <= i < before.len() && #[trigger] before[i]@ == q;
                    assert(paths@[i]@ == q);
                }
                if q == p {
                    assert(paths@[before.len() as int]@ == q);
                }
            }
            assert forall|i: int, j: int| 0 <= i < j < paths@.len() implies (#[trigger] paths@[i])@
                != (#[trigger] paths@[j])@ by {
                if j == before.len() {
                    assert(paths@[i] == before[i]);
                } else {
                    assert(paths@[i] == before[i] && paths@[j] == before[j]);
                }
            }
        }
        self.paths = paths;
        assert(self@ =~= old(self)@.insert(p));
        true
    }

    /// Unstages `path`; reports whether it was staged.
    pub fn remove(&mut self, path: &str) -> (r: bool)
        ensures
            final(self)@ == old(self)@.remove(path@),
            r == old(self)@.contains(path@),
    {
        proof {
            use_type_invariant(&*self);
        }
        let i = match self.index_of(path) {
            Some(i) => i,
            None => {
                assert(old(self)@.remove(path@) =~= old(self)@);
                return false;
            },
        };
        assert(in_paths(self.paths@, path@));
        let ghost before = self.paths@;
        let mut paths: Vec<String> = Vec::new();
        std::mem::swap(&mut paths, &mut self.paths);
        paths.remove(i);
        proof {
            assert(paths@ =~= before.remove(i as int));
            assert forall|q: Seq<char>| in_paths(paths@, q) == (in_paths(before, q) && q != path@) by {
                if in_paths(paths@, q) {
                    let j = choose|j: int| 0 <= j < paths@.len() && #[trigger] paths@[j]@ == q;
                    if j < i {
                        assert(before[j]@ == q);
                        assert(j < i);
                    } else {
                        assert(before[j + 1]@ == q);
                    }
                }
                if in_paths(before, q) && q != path@ {
                    let j = choose|j: int| 0 <= j < before.len() && #[trigger] before[j]@ == q;
                    assert(j != i);
                    if j < i {
                        assert(paths@[j]@ == q);
                    } else {
                        assert(paths@[j - 1]@ == q);
                    }
                }
            }
            assert forall|a: int, b: int| 0 <= a < b < paths@.len() implies (#[trigger] paths@[a])@
                != (#[trigger] paths@[b])@ by {
                let a0 = if a < i {
                    a
                } else {
                    a + 1
                };
                let b0 = if b < i {
                    b
                } else {
                    b + 1
                };
                assert(paths@[a] == before[a0] && paths@[b] == before[b0]);
            }
        }
        self.paths = paths;
        assert(self@ =~= old(self)@.remove(path@));
        true
    }

    /// Keeps only the staged paths that occur in `keep`.
    pub fn retain_in(&mut self, keep: &Vec<String>)
        ensures
            final(self)@ == old(self)@.intersect(Set::new(|p: Seq<char>| in_paths(keep@, p))),
    {
        proof {
            use_type_invariant(&*self);
        }
        let ghost before = self.paths@;
        let mut paths: Vec<String> = Vec::new();
        std::mem::swap(&mut paths, &mut self.paths);
        let mut kept: Vec<String> = Vec::new();
        let mut i: usize = 0;
        while i < paths.len()
            invariant
                before == paths@,
                unique_paths(before),
                i <= paths@.len(),
                unique_paths(kept@),
                forall|x: Seq<char>| #[trigger] in_paths(kept@, x) == (in_paths(
                    before.subrange(0, i as int),
                    x,
                ) && in_paths(keep@, x)),
            decreases paths@.len() - i,
        {
            let mut found = false;
            let mut k: usize = 0;
            while k < keep.len()
                invariant
                    k <= keep@.len(),
                    i < paths@.len(),
                    found == (exists|j: int| 0 <= j < k && (#[trigger] keep@[j])@ == paths@[i as int]@),
                decreases keep@.len() - k,
            {
                if keep[k] == paths[i] {
                    found = true;
                }
                k = k + 1;
            }
            let ghost x = paths@[i as int]@;
            assert(found == in_paths(keep@, x));
            let ghost kb = kept@;
            if found {
                let name = paths[i].clone();
                kept.push(name);
            }
            proof {
                let pre = before.subrange(0, i as int);
                let pre1 = before.subrange(0, i + 1);
                assert(!in_paths(pre, x)) by {
                    if in_paths(pre, x) {
                        let j = choose|j: int| 0 <= j < pre.len() && #[trigger] pre[j]@ == x;
                        assert(before[j]@ == before[i as int]@);
                    }
                }
                assert forall|y: Seq<char>| in_paths(pre1, y) == (in_paths(pre, y) || y == x) by {
                    if in_paths(pre1, y) {
                        let j = choose|j: int| 0 <= j < pre1.len() && #[trigger] pre1[j]@ == y;
                        if j < i {
                            assert(pre[j]@ == y);
                        }
                    }
                    if in_paths(pre, y) {
                        let j = choose|j: int| 0 <= j < pre.len() && #[trigger] pre[j]@ == y;
                        assert(pre1[j]@ == y);
                    }
                    if y == x {
                        assert(pre1[i as int]@ == y);
                    }
                }
                assert forall|y: Seq<char>| in_paths(kept@, y) == (in_paths(kb, y) || (found && y == x)) by {
                    if in_paths(kept@, y) {
                        let j = choose|j: int| 0 <= j < kept@.len() && #[trigger] kept@[j]@ == y;
                        if j < kb.len() {
                            assert(kb[j]@ == y);
                        }
                    }
                    if in_paths(kb, y) {
                        let j = choose|j: int| 0 <= j < kb.len() && #[trigger] kb[j]@ == y;
                        assert(kept@[j]@ == y);
                    }
                    if found && y == x {
                        assert(kept@[kb.len() as int]@ == y);
                    }
                }
                assert forall|y: Seq<char>| #[trigger] in_paths(kept@, y) == (in_paths(pre1, y)
                    && in_paths(keep@, y)) by {
                    assert(in_paths(kb, y) == (in_paths(pre, y) && in_paths(keep@, y)));
                    assert(in_paths(pre1, y) == (in_paths(pre, y) || y == x));
                }
                if found {
                    assert(!in_paths(kb, x));
                    assert forall|a: int, b: int| 0 <= a < b < kept@.len() implies (#[trigger] kept@[a])@
                        != (#[trigger] kept@[b])@ by {
                        if b == kb.len() {
                            assert(kept@[a] == kb[a]);
                            assert(in_paths(kb, kb[a]@));
                        } else {
                            assert(kept@[a] == kb[a] && kept@[b] == kb[b]);
                        }
                    }
                }
            }
            i = i + 1;
        }
        proof {
            assert(before.subrange(0, i as int) =~= before);
        }
        self.paths = kept;
        assert(self@ =~= old(self)@.intersect(Set::new(|p: Seq<char>| in_paths(keep@, p))));
    }
}

// ---------------------------------------------------------------------------
// Git snapshots
// ---------------------------------------------------------------------------

/// The last Git status read for a project.
#[derive(Debug)]
pub struct GitSnapshot {
    pub changes: Vec<GitChange>,
    pub last_error: Option<String>,
    /// When the last read, successful or not, was taken in: a time stamp
    /// that the caller supplies.
    pub last_refresh: Option<u64>,
}

/// The Git state the workspace keeps for a project.
pub struct ProjectGitState {
    pub git_snapshot: GitSnapshot,
    pub staged_files: StagedFiles,
    pub branch_status: BranchStatus,
    pub repo_capabilities: RepoCapabilities,
}

pub open spec fn change_paths(cs: Seq<GitChangeView>) -> Set<Seq<char>> {
    Set::new(|p: Seq<char>| exists|i: int| 0 <= i < cs.len() && (#[trigger] cs[i]).path == p)
}

/// The staged paths after a new list of changes arrives: staged paths that
/// are still changed, and every path new to the list.
pub open spec fn staged_after(
    staged: Set<Seq<char>>,
    old_cs: Seq<GitChangeView>,
    new_cs: Seq<GitChangeView>,
) -> Set<Seq<char>> {
    staged.intersect(change_paths(new_cs)).union(change_paths(new_cs).difference(change_paths(old_cs)))
}

/// Whether a new list of changes changes what is shown: the list differs, or
/// an error was shown.
pub open spec fn snapshot_changed(old_cs: Seq<GitChangeView>, had_error: bool, new_cs: Seq<GitChangeView>) -> bool {
    old_cs != new_cs || had_error
}

impl ProjectGitState {
    /// No changes, no error, nothing staged.
    pub fn new() -> (r: Self)
        ensures
            r.git_snapshot.changes@.len() == 0,
            r.git_snapshot.last_error is None,
            r.git_snapshot.last_refresh is None,
            r.staged_files@ == Set::<Seq<char>>::empty(),
            r.branch_status.is_blank_except(0, None),
            r.repo_capabilities == (RepoCapabilities { auto_merge_allowed: false, rebase_merge_allowed: false }),
    {
        ProjectGitState {
            git_snapshot: GitSnapshot { changes: Vec::new(), last_error: None, last_refresh: None },
            staged_files: StagedFiles::new(),
            branch_status: BranchStatus::default(),
            repo_capabilities: RepoCapabilities::default(),
        }
    }
}

/// Takes in a new Git status read: on success, new files (paths not in the
/// previous list) are staged, staged paths no longer changed are dropped,
/// and the list replaces the previous one and clears the error; on failure
/// the error is kept. Either way the read's time, `now`, becomes the last
/// refresh. The answer is whether anything shown changed: the list or the
/// error.
pub fn apply_git_snapshot(
    runtime: &mut ProjectGitState,
    snapshot: &Result<Vec<GitChange>, String>,
    now: u64,
) -> (r: bool)
    ensures
        match snapshot {
            Ok(changes) => {
                let old_cs = changes_view(old(runtime).git_snapshot.changes@);
                let new_cs = changes_view(changes@);
                &&& r == snapshot_changed(old_cs, old(runtime).git_snapshot.last_error is Some, new_cs)
                &&& changes_view(final(runtime).git_snapshot.changes@) == new_cs
                &&& final(runtime).git_snapshot.last_error is None
                &&& final(runtime).staged_files@ == staged_after(old(runtime).staged_files@, old_cs, new_cs)
            },
            Err(e) => {
                &&& r == (opt_view(old(runtime).git_snapshot.last_error) != Some(e@))
                &&& opt_view(final(runtime).git_snapshot.last_error) == Some(e@)
                &&& changes_view(final(runtime).git_snapshot.changes@) == changes_view(
                    old(runtime).git_snapshot.changes@,
                )
                &&& final(runtime).staged_files@ == old(runtime).staged_files@
            },
        },
        final(runtime).branch_status == old(runtime).branch_status,
        final(runtime).repo_capabilities == old(runtime).repo_capabilities,
        final(runtime).git_snapshot.last_refresh == Some(now),
{
    runtime.git_snapshot.last_refresh = Some(now);
    match snapshot {
        Ok(changes) => {
            let ghost old_cs = changes_view(runtime.git_snapshot.changes@);
            let ghost new_cs = changes_view(changes@);
            let ghost staged0 = runtime.staged_files@;
            let changed = !changes_equal(&runtime.git_snapshot.changes, changes)
                || runtime.git_snapshot.last_error.is_some();
            let mut i: usize = 0;
            while i < changes.len()
                invariant
                    i <= changes@.len(),
                    old_cs == changes_view(runtime.git_snapshot.changes@),
                    new_cs == changes_view(changes@),
                    runtime.branch_status == old(runtime).branch_status,
                    runtime.repo_capabilities == old(runtime).repo_capabilities,
                    runtime.git_snapshot.last_refresh == Some(now),
                    runtime.staged_files@ == staged0.union(
                        Set::new(
                            |p: Seq<char>|
                                exists|j: int|
                                    0 <= j < i && (#[trigger] new_cs[j]).path == p
                                        && !change_paths(old_cs).contains(p),
                        ),
                    ),
                decreases changes@.len() - i,
            {
                let mut seen = false;
                let mut k: usize = 0;
                while k < runtime.git_snapshot.changes.len()
                    invariant
                        k <= runtime.git_snapshot.changes@.len(),
                        i < changes@.len(),
                        old_cs == changes_view(runtime.git_snapshot.changes@),
                        seen == (exists|j: int| 0 <= j < k && #[trigger] old_cs[j].path == changes@[i as int].path@),
                    decreases runtime.git_snapshot.changes@.len() - k,
                {
                    proof {
                        assert(old_cs[k as int].path == runtime.git_snapshot.changes@[k as int].path@);
                    }
                    if runtime.git_snapshot.changes[k].path == changes[i].path {
                        seen = true;
                    }
                    k = k + 1;
                }
                let ghost p = changes@[i as int].path@;
                proof {
                    assert(new_cs[i as int].path == p);
                    if change_paths(old_cs).contains(p) {
                        let j = choose|j: int| 0 <= j < old_cs.len() && (#[trigger] old_cs[j]).path == p;
                        assert(old_cs[j].path == p);
                    }
                    assert(seen == change_paths(old_cs).contains(p));
                }
                let ghost before = runtime.staged_files@;
                if !seen {
                    let _ = runtime.staged_files.insert(changes[i].path.clone());
                }
                proof {
                    let s_old = Set::new(
                        |q: Seq<char>|
                            exists|j: int|
                                0 <= j < i && (#[trigger] new_cs[j]).path == q && !change_paths(
                                    old_cs,
                                ).contains(q),
                    );
                    let s_new = Set::new(
                        |q: Seq<char>|
                            exists|j: int|
                                0 <= j < i + 1 && (#[trigger] new_cs[j]).path == q
                                    && !change_paths(old_cs).contains(q),
                    );
                    assert forall|q: Seq<char>| s_new.contains(q) == (s_old.contains(q) || (!seen
                        && q == p)) by {
                        if s_new.contains(q) {
                            let j = choose|j: int|
                                0 <= j < i + 1 && (#[trigger] new_cs[j]).path == q
                                    && !change_paths(old_cs).contains(q);
                            if j < i {
                                assert(s_old.contains(q));
                            }
                        }
                        if s_old.contains(q) {
                            let j = choose|j: int|
                                0 <= j < i && (#[trigger] new_cs[j]).path == q && !change_paths(
                                    old_cs,
                                ).contains(q);
                            assert(new_cs[j].path == q);
                        }
                    }
                    assert(runtime.staged_files@ =~= staged0.union(s_new));
                }
                i = i + 1;
            }
            let mut current: Vec<String> = Vec::new();
            let mut j: usize = 0;
            while j < changes.len()
                invariant
                    j <= changes@.len(),
                    new_cs == changes_view(changes@),
                    path_views(current@) == Seq::new(j as nat, |x: int| new_cs[x].path),
                decreases changes@.len() - j,
            {
                let ghost cb = path_views(current@);
                current.push(changes[j].path.clone());
                proof {
                    assert(new_cs[j as int].path == changes@[j as int].path@);
                    assert(path_views(current@) =~= cb.push(changes@[j as int].path@));
                    assert(path_views(current@) =~= Seq::new((j + 1) as nat, |x: int| new_cs[x].path));
                }
                j = j + 1;
            }
            let ghost staged1 = runtime.staged_files@;
            runtime.staged_files.retain_in(&current);
            proof {
                let cp = Set::new(|p: Seq<char>| in_paths(current@, p));
                assert forall|q: Seq<char>| cp.contains(q) == change_paths(new_cs).contains(q) by {
                    if in_paths(current@, q) {
                        let x = choose|x: int| 0 <= x < current@.len() && #[trigger] current@[x]@ == q;
                        assert(path_views(current@)[x] == q);
                        assert(new_cs[x].path == q);
                    }
                    if change_paths(new_cs).contains(q) {
                        let x = choose|x: int| 0 <= x < new_cs.len() && (#[trigger] new_cs[x]).path == q;
                        assert(path_views(current@)[x] == q);
                        assert(current@[x]@ == q);
                    }
                }
                let added = Set::new(
                    |q: Seq<char>|
                        exists|x: int|
                            0 <= x < changes@.len() && (#[trigger] new_cs[x]).path == q
                                && !change_paths(old_cs).contains(q),
                );
                assert forall|q: Seq<char>| added.contains(q) == change_paths(new_cs).difference(
                    change_paths(old_cs),
                ).contains(q) by {
                    if added.contains(q) {
                        let x = choose|x: int|
                            0 <= x < changes@.len() && (#[trigger] new_cs[x]).path == q
                                && !change_paths(old_cs).contains(q);
                        assert(new_cs[x].path == q);
                    }
                    if change_paths(new_cs).difference(change_paths(old_cs)).contains(q) {
                        let x = choose|x: int| 0 <= x < new_cs.len() && (#[trigger] new_cs[x]).path == q;
                        assert(new_cs[x].path == q);
                    }
                }
                assert(added =~= change_paths(new_cs).difference(change_paths(old_cs)));
                assert(cp =~= change_paths(new_cs));
                assert(staged1 == staged0.union(added));
                assert(runtime.staged_files@ =~= staged0.intersect(change_paths(new_cs)).union(
                    change_paths(new_cs).difference(change_paths(old_cs)),
                ));
            }
            runtime.git_snapshot.changes = duplicate_changes(changes);
            runtime.git_snapshot.last_error = None;
            changed
        },
        Err(error) => {
            let changed = match &runtime.git_snapshot.last_error {
                Some(e) => !(*e == *error),
                None => true,
            };
            runtime.git_snapshot.last_error = Some(error.clone());
            changed
        },
    }
}

// ---------------------------------------------------------------------------
// the side panel's action
// ---------------------------------------------------------------------------

/// The Git action the side panel offers.
#[derive(Clone, Copy, Debug, PartialEq, Eq, Structural)]
pub enum PanelAction {
    Commit,
    Amend,
    CreatePR,
    Rebase,
    CloseSession,
    /// Nothing to offer.
    NoAction,
}

/// The action for the branch's state: a merged pull request closes the
/// session; staged changes are committed (amended onto commits already
/// ahead); a clean branch ahead without a pull request opens one; a clean
/// branch with an open pull request is rebased; otherwise nothing.
pub open spec fn panel_action_for(has_changes: bool, staged_count: nat, commits_ahead: nat, has_pr: bool, pr_merged: bool) -> PanelAction {
    if pr_merged {
        PanelAction::CloseSession
    } else if has_changes && staged_count > 0 && commits_ahead == 0 {
        PanelAction::Commit
    } else if has_changes && staged_count > 0 && commits_ahead > 0 {
        PanelAction::Amend
    } else if !has_changes && commits_ahead > 0 && !has_pr {
        PanelAction::CreatePR
    } else if !has_changes && has_pr && !pr_merged {
        PanelAction::Rebase
    } else {
        PanelAction::NoAction
    }
}

/// Decides the side panel's action.
pub fn derive_panel_action(has_changes: bool, staged_count: usize, status: &BranchStatus) -> (r: PanelAction)
    ensures
        r == panel_action_for(
            has_changes,
            staged_count as nat,
            status.commits_ahead as nat,
            status.pr_url is Some,
            status.pr_merged,
        ),
{
    if status.pr_merged {
        return PanelAction::CloseSession;
    }
    if has_changes && staged_count > 0 && status.commits_ahead == 0 {
        return PanelAction::Commit;
    }
    if has_changes && staged_count > 0 && status.commits_ahead > 0 {
        return PanelAction::Amend;
    }
    if !has_changes && status.commits_ahead > 0 && status.pr_url.is_none() {
        return PanelAction::CreatePR;
    }
    if !has_changes && status.pr_url.is_some() && !status.pr_merged {
        return PanelAction::Rebase;
    }
    PanelAction::NoAction
}

// ---------------------------------------------------------------------------
// small pieces of UI state
// ---------------------------------------------------------------------------

/// Which sidebar is being resized.
#[derive(Clone, Copy, Debug, PartialEq, Eq, Structural)]
pub enum ResizingSidebar {
    Left,
    Right,
}

/// Where the update check stands.
#[derive(Debug)]
pub enum UpdateStatus {
    Idle,
    Checking,
    Available { version: String, download_url: String },
    Updating,
    Error(String),
}

impl Default for UpdateStatus {
    fn default() -> (r: Self)
        ensures
            r is Idle,
    {
        UpdateStatus::Idle
    }
}

/// Where the update check stands once it answered: a newer release is
/// offered; no newer release, and a failed check, leave it idle.
pub fn update_status_after_check(result: Result<Option<crate::updater::UpdateInfo>, String>) -> (r: UpdateStatus)
    ensures
        match result {
            Ok(Some(info)) => r matches UpdateStatus::Available { version, download_url } && version@
                == info.version@ && download_url@ == info.download_url@,
            _ => r is Idle,
        },
{
    match result {
        Ok(Some(info)) => UpdateStatus::Available { version: info.version, download_url: info.download_url },
        Ok(None) => UpdateStatus::Idle,
        Err(_) => UpdateStatus::Idle,
    }
}

/// Where a Git action of the side panel stands.
#[derive(Debug)]
pub enum ActionPhase {
    Idle,
    Working(String),
    Error(String),
}

impl Default for ActionPhase {
    fn default() -> (r: Self)
        ensures
            r is Idle,
    {
        ActionPhase::Idle
    }
}

// ---------------------------------------------------------------------------
// the title bar's action
// ---------------------------------------------------------------------------

/// What the close-view action closes.
#[derive(Clone, Copy, Debug, PartialEq, Eq, Structural)]
pub enum CloseTarget {
    Help,
    Settings,
    Diff,
    /// Nothing is open here; the action goes on to the next handler.
    PassOn,
}

/// The view that the close-view action closes: the help view first, then
/// the settings view, then an open diff; with none of them open the action
/// is passed on.
pub fn close_view_target(viewing_help: bool, viewing_settings: bool, viewing_diff: bool) -> (r: CloseTarget)
    ensures
        r == (if viewing_help {
            CloseTarget::Help
        } else if viewing_settings {
            CloseTarget::Settings
        } else if viewing_diff {
            CloseTarget::Diff
        } else {
            CloseTarget::PassOn
        }),
{
    if viewing_help {
        CloseTarget::Help
    } else if viewing_settings {
        CloseTarget::Settings
    } else if viewing_diff {
        CloseTarget::Diff
    } else {
        CloseTarget::PassOn
    }
}

/// What the title bar shows for the side panel's action.
#[derive(Debug, PartialEq, Eq)]
pub enum TitlebarAction {
    /// An action is running; its label.
    Working(String),
    /// An action failed; its message, with a button that dismisses it.
    Error(String),
    /// Auto-merge is on; the button turns it off.
    AutoMergeEnabled,
    /// Auto-merge is allowed and the checks have not all passed; the
    /// button turns it on.
    OfferAutoMerge,
    /// The button that runs the action.
    Run(PanelAction),
    /// Nothing.
    Hidden,
}

/// Every check passed or was skipped, and there is at least one.
pub open spec fn all_checks_pass(checks: Seq<CiCheckView>) -> bool {
    checks.len() > 0 && forall|i: int|
        0 <= i < checks.len() ==> (#[trigger] checks[i]).bucket == CheckBucket::Pass || checks[i].bucket
            == CheckBucket::Skipping
}

/// The title bar's action when no action is running: nothing for no
/// action; for a rebase, the auto-merge toggle when auto-merge is on, or
/// when it is allowed and the checks have not all passed, nothing when
/// rebase merges are not allowed; otherwise the action's button.
pub open spec fn idle_titlebar_action(
    action: PanelAction,
    checks: Seq<CiCheckView>,
    auto_merge_enabled: bool,
    caps: RepoCapabilities,
) -> TitlebarAction {
    if action == PanelAction::NoAction {
        TitlebarAction::Hidden
    } else if action == PanelAction::Rebase && auto_merge_enabled {
        TitlebarAction::AutoMergeEnabled
    } else if action == PanelAction::Rebase && !all_checks_pass(checks) && caps.auto_merge_allowed {
        TitlebarAction::OfferAutoMerge
    } else if action == PanelAction::Rebase && !caps.rebase_merge_allowed {
        TitlebarAction::Hidden
    } else {
        TitlebarAction::Run(action)
    }
}

/// Whether every check passed or was skipped, and there is at least one.
pub fn checks_all_pass(checks: &Vec<crate::branch::CiCheck>) -> (r: bool)
    ensures
        r == all_checks_pass(checks_view(checks@)),
{
    if checks.len() == 0 {
        return false;
    }
    let mut i: usize = 0;
    while i < checks.len()
        invariant
            i <= checks.len(),
            forall|j: int|
                0 <= j < i ==> checks@[j].bucket == CheckBucket::Pass || checks@[j].bucket
                    == CheckBucket::Skipping,
        decreases checks.len() - i,
    {
        let b = checks[i].bucket;
        if !(b == CheckBucket::Pass || b == CheckBucket::Skipping) {
            assert(checks_view(checks@)[i as int].bucket == b);
            return false;
        }
        i = i + 1;
    }
    proof {
        assert forall|j: int| 0 <= j < checks_view(checks@).len() implies (#[trigger] checks_view(checks@)[j]).bucket
            == CheckBucket::Pass || checks_view(checks@)[j].bucket == CheckBucket::Skipping by {
            assert(checks_view(checks@)[j].bucket == checks@[j].bucket);
        }
    }
    true
}

/// Decides what the title bar shows for the side panel's action: a running
/// action's label, a failed action's message, else see
/// [`idle_titlebar_action`].
pub fn titlebar_action(
    action: PanelAction,
    phase: &ActionPhase,
    branch_status: &BranchStatus,
    caps: RepoCapabilities,
) -> (r: TitlebarAction)
    ensures
        match phase {
            ActionPhase::Working(label) => r matches TitlebarAction::Working(l) && l@ == label@,
            ActionPhase::Error(msg) => r matches TitlebarAction::Error(m) && m@ == msg@,
            ActionPhase::Idle => r == idle_titlebar_action(
                action,
                checks_view(branch_status.checks@),
                branch_status.auto_merge_enabled,
                caps,
            ),
        },
{
    match phase {
        ActionPhase::Working(label) => {
            return TitlebarAction::Working(label.clone());
        },
        ActionPhase::Error(msg) => {
            return TitlebarAction::Error(msg.clone());
        },
        ActionPhase::Idle => {},
    }
    if action == PanelAction::NoAction {
        return TitlebarAction::Hidden;
    }
    if action == PanelAction::Rebase {
        if branch_status.auto_merge_enabled {
            return TitlebarAction::AutoMergeEnabled;
        }
        let all_pass = checks_all_pass(&branch_status.checks);
        if !all_pass && caps.auto_merge_allowed {
            return TitlebarAction::OfferAutoMerge;
        }
        if !caps.rebase_merge_allowed {
            return TitlebarAction::Hidden;
        }
    }
    TitlebarAction::Run(action)
}

/// The label of an action's button.
pub fn action_label(action: PanelAction) -> (r: Option<&'static str>)
    ensures
        match action {
            PanelAction::Commit => r matches Some(l) && l@ == "Commit"@,
            PanelAction::Amend => r matches Some(l) && l@ == "Amend"@,
            PanelAction::CreatePR => r matches Some(l) && l@ == "Create PR"@,
            PanelAction::Rebase => r matches Some(l) && l@ == "Rebase & Merge"@,
            PanelAction::CloseSession => r matches Some(l) && l@ == "Close Session"@,
            PanelAction::NoAction => r is None,
        },
{
    match action {
        PanelAction::Commit => Some("Commit"),
        PanelAction::Amend => Some("Amend"),
        PanelAction::CreatePR => Some("Create PR"),
        PanelAction::Rebase => Some("Rebase & Merge"),
        PanelAction::CloseSession => Some("Close Session"),
        PanelAction::NoAction => None,
    }
}

// ---------------------------------------------------------------------------
// terminal tabs and panes
// ---------------------------------------------------------------------------

/// The index of the pane focused after moving `delta` panes on from pane
/// `current`, wrapping around.
pub open spec fn cycled_index(current: int, len: int, delta: int) -> int {
    let m = (current + delta) % len;
    m
}

/// Cycling stays among the panes, moves one pane on (wrapping from the
/// last to the first) or one back (wrapping from the first to the last),
/// and moving twice is moving by the sum: so moving `delta` panes is
/// `current + delta` taken modulo the number of panes, and moving by one
/// among two or more panes always reaches another pane.
pub proof fn law_cycling_moves_round_the_panes(current: int, len: int, d1: int, d2: int)
    requires
        2 <= len,
        0 <= current < len,
    ensures
        0 <= cycled_index(current, len, d1) < len,
        cycled_index(current, len, 1) == (if current + 1 == len {
            0
        } else {
            current + 1
        }),
        cycled_index(current, len, -1) == (if current == 0 {
            len - 1
        } else {
            current - 1
        }),
        cycled_index(current, len, 1) != current,
        cycled_index(current, len, 0) == current,
        cycled_index(cycled_index(current, len, d1), len, d2) == cycled_index(current, len, d1 + d2),
        (cycled_index(current, len, d1) - current - d1) % len == 0,
{
    let m = cycled_index(current, len, d1);
    vstd::arithmetic::div_mod::lemma_mod_bound(current + d1, len);
    vstd::arithmetic::div_mod::lemma_fundamental_div_mod(current + d1, len);
    vstd::arithmetic::div_mod::lemma_mod_add_multiples_vanish(current + d1 + d2, len);
    vstd::arithmetic::div_mod::lemma_add_mod_noop(current + d1, d2, len);
    vstd::arithmetic::div_mod::lemma_add_mod_noop(m, d2, len);
    vstd::arithmetic::div_mod::lemma_mod_twice(current + d1, len);
    vstd::arithmetic::div_mod::lemma_mod_twice(current, len);
    vstd::arithmetic::div_mod::lemma_small_mod(current as nat, len as nat);
    vstd::arithmetic::div_mod::lemma_mod_sub_multiples_vanish(m - current - d1, len);
    assert((m - current - d1) % len == 0) by {
        let q = (current + d1) / len;
        assert(m - current - d1 == -(len * q));
        vstd::arithmetic::div_mod::lemma_mod_multiples_basic(-q, len);
        assert(-(len * q) == (-q) * len) by (nonlinear_arith);
    }
    if current + 1 == len {
        vstd::arithmetic::div_mod::lemma_mod_self_0(len);
    } else {
        vstd::arithmetic::div_mod::lemma_small_mod((current + 1) as nat, len as nat);
    }
    if current == 0 {
        assert((-1int) % len == len - 1) by {
            vstd::arithmetic::div_mod::lemma_mod_add_multiples_vanish(-1, len);
            vstd::arithmetic::div_mod::lemma_small_mod((len - 1) as nat, len as nat);
        }
    } else {
        vstd::arithmetic::div_mod::lemma_small_mod((current - 1) as nat, len as nat);
    }
}

/// Cycles through the panes of a tab.
pub fn next_pane_index(current: usize, len: usize, delta: i32) -> (r: usize)
    requires
        2 <= len <= i32::MAX,
        current < len,
    ensures
        r as int == cycled_index(current as int, len as int, delta as int),
        r < len,
{
    let n: u64 = len as u64;
    // a multiple of the length that makes the sum non-negative
    let t: u64 = 0x8000_0000u64 / n + 1;
    assert(t * n >= 0x8000_0000) by (nonlinear_arith)
        requires
            t == 0x8000_0000u64 / n + 1,
            n >= 2,
    ;
    assert(t * n <= 0x8000_0000 + n) by (nonlinear_arith)
        requires
            t == 0x8000_0000u64 / n + 1,
            n >= 2,
    ;
    let shifted: i64 = current as i64 + delta as i64 + (t * n) as i64;
    let r: u64 = (shifted as u64) % n;
    proof {
        vstd::arithmetic::div_mod::lemma_mod_multiples_vanish(t as int, current + delta, n as int);
        assert(shifted == (n as int) * (t as int) + (current + delta)) by (nonlinear_arith)
            requires
                shifted == current + delta + t * n,
        ;
    }
    r as usize
}

/// The side tabs after closing tab `tab_id`: its tab is dropped; when it was
/// selected, the first remaining tab is selected (none if none remain).
pub fn delete_side_tab(tabs: &mut Vec<String>, selected: &mut Option<String>, tab_id: &str)
    ensures
        crate::workspace::path_views(final(tabs)@) == crate::workspace::path_views(old(tabs)@).filter(
            |t: Seq<char>| t != tab_id@,
        ),
        opt_view_str(*old(selected)) == Some(tab_id@) ==> opt_view_str(*final(selected)) == (
            if final(tabs)@.len() > 0 {
                Some(final(tabs)@[0]@)
            } else {
                None
            }),
        opt_view_str(*old(selected)) != Some(tab_id@) ==> *final(selected) == *old(selected),
{
    let ghost orig = path_views(tabs@);
    let mut kept: Vec<String> = Vec::new();
    let mut i: usize = 0;
    assert(orig.subrange(0, 0).filter(|t: Seq<char>| t != tab_id@) =~= Seq::<Seq<char>>::empty());
    while i < tabs.len()
        invariant
            i <= tabs@.len(),
            orig == path_views(tabs@),
            path_views(kept@) == orig.subrange(0, i as int).filter(|t: Seq<char>| t != tab_id@),
        decreases tabs@.len() - i,
    {
        proof {
            assert(orig.subrange(0, i + 1).drop_last() =~= orig.subrange(0, i as int));
            reveal(Seq::filter);
        }
        let ghost before = path_views(kept@);
        if !str_is(tabs[i].as_str(), tab_id) {
            kept.push(tabs[i].clone());
            assert(path_views(kept@) =~= before.push(tabs@[i as int]@));
        }
        i = i + 1;
    }
    assert(orig.subrange(0, i as int) =~= orig);
    *tabs = kept;
    let was_selected = match selected {
        Some(s) => str_is(s.as_str(), tab_id),
        None => false,
    };
    if was_selected {
        *selected = if tabs.len() > 0 {
            Some(tabs[0].clone())
        } else {
            None
        };
    }
}

pub open spec fn opt_view_str(o: Option<String>) -> Option<Seq<char>> {
    match o {
        Some(s) => Some(s@),
        None => None,
    }
}

// ---------------------------------------------------------------------------
// laws
// ---------------------------------------------------------------------------

/// Reading the same changes again changes nothing: it is not reported as a
/// change, and the staged paths stay as they are (a file the user unstaged
/// is not staged again).
pub proof fn law_same_snapshot_twice_is_quiet(
    staged: Set<Seq<char>>,
    old_cs: Seq<GitChangeView>,
    new_cs: Seq<GitChangeView>,
)
    ensures
        !snapshot_changed(new_cs, false, new_cs),
        staged_after(staged_after(staged, old_cs, new_cs), new_cs, new_cs) == staged_after(
            staged,
            old_cs,
            new_cs,
        ),
{
    assert(staged_after(staged_after(staged, old_cs, new_cs), new_cs, new_cs) =~= staged_after(
        staged,
        old_cs,
        new_cs,
    ));
}

/// After a new list of changes, only changed paths are staged, and every
/// path new to the list is staged.
pub proof fn law_staged_paths_are_changed_paths(
    staged: Set<Seq<char>>,
    old_cs: Seq<GitChangeView>,
    new_cs: Seq<GitChangeView>,
)
    ensures
        staged_after(staged, old_cs, new_cs).subset_of(change_paths(new_cs)),
        change_paths(new_cs).difference(change_paths(old_cs)).subset_of(
            staged_after(staged, old_cs, new_cs),
        ),
{
}

/// A merged pull request always closes the session, whatever else holds.
pub proof fn law_merged_pr_closes_session(has_changes: bool, staged_count: nat, commits_ahead: nat, has_pr: bool)
    ensures
        panel_action_for(has_changes, staged_count, commits_ahead, has_pr, true) == PanelAction::CloseSession,
{
}

// ---------------------------------------------------------------------------
// Git polling
// ---------------------------------------------------------------------------

/// What a tick of the Git poll collects besides the changed files: the
/// branch status every fifth tick, the repository's capabilities every
/// hundred and fiftieth.
#[derive(Clone, Copy, Debug, PartialEq, Eq, Structural)]
pub struct PollPlan {
    pub collect_branch_status: bool,
    pub check_capabilities: bool,
}

/// The plan of tick `tick`.
pub fn poll_plan(tick: u32) -> (r: PollPlan)
    ensures
        r.collect_branch_status == (tick % 5 == 0),
        r.check_capabilities == (tick % 150 == 0),
{
    PollPlan { collect_branch_status: tick % 5 == 0, check_capabilities: tick % 150 == 0 }
}

/// The tick after `tick`, wrapping around.
pub fn next_poll_tick(tick: u32) -> (r: u32)
    ensures
        r == (if tick == u32::MAX {
            0
        } else {
            tick + 1
        }),
{
    tick.wrapping_add(1)
}

/// The generation of a newly started poll, wrapping around: a poll whose
/// generation is no longer the current one stops.
pub fn next_poll_generation(generation: u64) -> (r: u64)
    ensures
        r == (if generation == u64::MAX {
            0
        } else {
            generation + 1
        }),
{
    generation.wrapping_add(1)
}

/// Whether a poll started as `generation` for `repo_root` is still
/// wanted: no poll started since, and the repository is still selected.
pub fn poll_is_current(current_generation: u64, generation: u64, selected_repo: &Option<String>, repo_root: &str) -> (r: bool)
    ensures
        r == (current_generation == generation && match selected_repo {
            Some(s) => same_path(s@, repo_root@),
            None => false,
        }),
{
    if current_generation != generation {
        return false;
    }
    match selected_repo {
        Some(s) => paths_equal(s.as_str(), repo_root),
        None => false,
    }
}

/// What the answers of a poll tick changed.
#[derive(Clone, Copy, Debug, PartialEq, Eq, Structural)]
pub struct PollOutcome {
    /// The branch status or the capabilities changed: the panel redraws
    /// and the selected session caches the new values.
    pub changed: bool,
    /// The CI checks changed: their popover closes.
    pub close_checks_popover: bool,
}

/// A value kept after a poll tick: the collected one, when one was
/// collected.
pub open spec fn after_poll<T>(kept: T, collected: Option<T>) -> T {
    match collected {
        Some(c) => c,
        None => kept,
    }
}

/// Whether a poll tick collected a value that differs from the kept one.
pub open spec fn poll_changes<T>(kept: T, collected: Option<T>) -> bool {
    match collected {
        Some(c) => c != kept,
        None => false,
    }
}

/// An optional branch status as an optional view.
pub open spec fn opt_status_view(s: Option<BranchStatus>) -> Option<crate::branch::BranchStatusView> {
    match s {
        Some(b) => Some(b@),
        None => None,
    }
}

/// Takes in the branch status and capabilities that a poll tick collected
/// (each when it was collected): a value that differs from the one kept
/// replaces it; the changed files and the staged paths stay.
pub fn apply_poll_results(
    runtime: &mut ProjectGitState,
    branch_status: Option<BranchStatus>,
    capabilities: Option<RepoCapabilities>,
) -> (r: PollOutcome)
    ensures
        final(runtime).branch_status@ == after_poll(old(runtime).branch_status@, opt_status_view(branch_status)),
        final(runtime).repo_capabilities == after_poll(old(runtime).repo_capabilities, capabilities),
        r.changed == (poll_changes(old(runtime).branch_status@, opt_status_view(branch_status))
            || poll_changes(old(runtime).repo_capabilities, capabilities)),
        r.close_checks_popover == (poll_changes(old(runtime).branch_status@, opt_status_view(branch_status))
            && checks_view(branch_status->0.checks@) != checks_view(old(runtime).branch_status.checks@)),
        changes_view(final(runtime).git_snapshot.changes@) == changes_view(old(runtime).git_snapshot.changes@),
        final(runtime).git_snapshot.last_error == old(runtime).git_snapshot.last_error,
        final(runtime).git_snapshot.last_refresh == old(runtime).git_snapshot.last_refresh,
        final(runtime).staged_files@ == old(runtime).staged_files@,
{
    let mut changed = false;
    let mut close_checks_popover = false;
    match branch_status {
        Some(status) => {
            if !branch_status_equal(&runtime.branch_status, &status) {
                if !checks_equal(&runtime.branch_status.checks, &status.checks) {
                    close_checks_popover = true;
                }
                runtime.branch_status = status;
                changed = true;
            }
        },
        None => {},
    }
    match capabilities {
        Some(caps) => {
            if runtime.repo_capabilities != caps {
                runtime.repo_capabilities = caps;
                changed = true;
            }
        },
        None => {},
    }
    PollOutcome { changed, close_checks_popover }
}

/// Polling again with what was just taken in changes nothing: the kept
/// values stay and nothing is reported changed.
pub proof fn law_repeated_poll_is_quiet(
    kept_status: crate::branch::BranchStatusView,
    kept_caps: RepoCapabilities,
    status: Option<crate::branch::BranchStatusView>,
    caps: Option<RepoCapabilities>,
)
    ensures
        after_poll(after_poll(kept_status, status), status) == after_poll(kept_status, status),
        after_poll(after_poll(kept_caps, caps), caps) == after_poll(kept_caps, caps),
        !poll_changes(after_poll(kept_status, status), status),
        !poll_changes(after_poll(kept_caps, caps), caps),
{
}

} // verus!
