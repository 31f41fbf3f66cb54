//! The state of a branch as the workspace shows it: commits ahead of the
//! default branch, the pull request and its CI checks, and the repository's
//! merge settings; and how a diff of one changed file is set up.
use vstd::prelude::*;
use crate::text::{parse_u32, parse_unsigned, str_chars, string_from_chars, trim_str, trimmed};
use crate::status::{copy_chars, find_arrow, first_arrow, string_is};

verus! {

// ---------------------------------------------------------------------------
// CI checks
// ---------------------------------------------------------------------------

/// How a CI check stands.
#[derive(Clone, Copy, Debug, PartialEq, Eq, Structural)]
pub enum CheckBucket {
    Pass,
    Fail,
    Pending,
    Skipping,
}

/// One CI check of a pull request.
#[derive(Debug)]
pub struct CiCheck {
    pub name: String,
    pub bucket: CheckBucket,
    pub workflow: String,
    pub link: Option<String>,
}

/// The fields that a status-check rollup entry of `gh pr view --json` may
/// carry, each present when the entry holds it as a string.
#[derive(Debug)]
pub struct RollupEntry {
    pub typename: Option<String>,
    pub name: Option<String>,
    pub status: Option<String>,
    pub conclusion: Option<String>,
    pub workflow_name: Option<String>,
    pub details_url: Option<String>,
    pub context: Option<String>,
    pub state: Option<String>,
    pub target_url: Option<String>,
}

pub open spec fn opt_view(o: Option<String>) -> Option<Seq<char>> {
    match o {
        Some(s) => Some(s@),
        None => None,
    }
}

pub open spec fn or_empty(o: Option<String>) -> Seq<char> {
    match o {
        Some(s) => s@,
        None => Seq::empty(),
    }
}

/// A link, kept only when it is not empty.
pub open spec fn nonempty_link(o: Option<String>) -> Option<Seq<char>> {
    match o {
        Some(s) => if s@.len() > 0 {
            Some(s@)
        } else {
            None
        },
        None => None,
    }
}

/// The bucket of a check run: a successful, neutral or skipped conclusion
/// decides; otherwise a completed run failed and any other is pending.
pub open spec fn check_run_bucket(status: Seq<char>, conclusion: Option<Seq<char>>) -> CheckBucket {
    if conclusion == Some("SUCCESS"@) || conclusion == Some("NEUTRAL"@) {
        CheckBucket::Pass
    } else if conclusion == Some("SKIPPED"@) {
        CheckBucket::Skipping
    } else if status == "COMPLETED"@ {
        CheckBucket::Fail
    } else {
        CheckBucket::Pending
    }
}

/// The bucket of a commit status: success passes, pending or expected is
/// pending, anything else failed.
pub open spec fn status_context_bucket(state: Seq<char>) -> CheckBucket {
    if state == "SUCCESS"@ {
        CheckBucket::Pass
    } else if state == "PENDING"@ || state == "EXPECTED"@ {
        CheckBucket::Pending
    } else {
        CheckBucket::Fail
    }
}

pub ghost struct CiCheckView {
    pub name: Seq<char>,
    pub bucket: CheckBucket,
    pub workflow: Seq<char>,
    pub link: Option<Seq<char>>,
}

impl View for CiCheck {
    type V = CiCheckView;

    open spec fn view(&self) -> CiCheckView {
        CiCheckView {
            name: self.name@,
            bucket: self.bucket,
            workflow: self.workflow@,
            link: opt_view(self.link),
        }
    }
}

/// The check that a rollup entry describes: check runs and commit statuses
/// are checks, other entries are not.
pub open spec fn rollup_check(e: RollupEntry) -> Option<CiCheckView> {
    let typename = or_empty(e.typename);
    if typename == "CheckRun"@ {
        Some(
            CiCheckView {
                name: or_empty(e.name),
                bucket: check_run_bucket(or_empty(e.status), opt_view(e.conclusion)),
                workflow: or_empty(e.workflow_name),
                link: nonempty_link(e.details_url),
            },
        )
    } else if typename == "StatusContext"@ {
        Some(
            CiCheckView {
                name: or_empty(e.context),
                bucket: status_context_bucket(or_empty(e.state)),
                workflow: Seq::empty(),
                link: nonempty_link(e.target_url),
            },
        )
    } else {
        None
    }
}

/// The checks of a list of rollup entries, in order.
pub open spec fn rollup_checks(es: Seq<RollupEntry>) -> Seq<CiCheckView>
    decreases es.len(),
{
    if es.len() == 0 {
        Seq::empty()
    } else {
        let rest = rollup_checks(es.drop_last());
        match rollup_check(es.last()) {
            Some(c) => rest.push(c),
            None => rest,
        }
    }
}

pub open spec fn checks_view(cs: Seq<CiCheck>) -> Seq<CiCheckView> {
    cs.map_values(|c: CiCheck| c@)
}

fn text_or_empty(o: &Option<String>) -> (r: String)
    ensures
        r@ == or_empty(*o),
{
    match o {
        Some(s) => s.clone(),
        None => String::new(),
    }
}

fn link_if_nonempty(o: &Option<String>) -> (r: Option<String>)
    ensures
        opt_view(r) == nonempty_link(*o),
{
    match o {
        Some(s) => {
            if !s.as_str().is_empty() {
                Some(s.clone())
            } else {
                None
            }
        },
        None => None,
    }
}

fn is_lit(o: &Option<String>, lit: &str) -> (r: bool)
    ensures
        r == (opt_view(*o) == Some(lit@)),
{
    match o {
        Some(s) => string_is(s, lit),
        None => false,
    }
}

/// The check that one rollup entry describes, if any.
pub fn check_from_rollup(e: &RollupEntry) -> (r: Option<CiCheck>)
    ensures
        match r {
            Some(c) => rollup_check(*e) == Some(c@),
            None => rollup_check(*e) is None,
        },
{
    let typename = text_or_empty(&e.typename);
    if string_is(&typename, "CheckRun") {
        let bucket = if is_lit(&e.conclusion, "SUCCESS") || is_lit(&e.conclusion, "NEUTRAL") {
            CheckBucket::Pass
        } else if is_lit(&e.conclusion, "SKIPPED") {
            CheckBucket::Skipping
        } else if string_is(&text_or_empty(&e.status), "COMPLETED") {
            CheckBucket::Fail
        } else {
            CheckBucket::Pending
        };
        Some(
            CiCheck {
                name: text_or_empty(&e.name),
                bucket,
                workflow: text_or_empty(&e.workflow_name),
                link: link_if_nonempty(&e.details_url),
            },
        )
    } else if string_is(&typename, "StatusContext") {
        let state = text_or_empty(&e.state);
        let bucket = if string_is(&state, "SUCCESS") {
            CheckBucket::Pass
        } else if string_is(&state, "PENDING") || string_is(&state, "EXPECTED") {
            CheckBucket::Pending
        } else {
            CheckBucket::Fail
        };
        Some(
            CiCheck {
                name: text_or_empty(&e.context),
                bucket,
                workflow: String::new(),
                link: link_if_nonempty(&e.target_url),
            },
        )
    } else {
        None
    }
}

/// The CI checks of a pull request's status-check rollup; none when the
/// rollup is not a list.
pub fn parse_status_check_rollup(entries: &Option<Vec<RollupEntry>>) -> (r: Vec<CiCheck>)
    ensures
        match entries {
            Some(es) => checks_view(r@) == rollup_checks(es@),
            None => r@.len() == 0,
        },
{
    let mut out: Vec<CiCheck> = Vec::new();
    match entries {
        None => out,
        Some(es) => {
            let mut i: usize = 0;
            assert(es@.subrange(0, 0) =~= Seq::<RollupEntry>::empty());
            while i < es.len()
                invariant
                    i <= es@.len(),
                    checks_view(out@) == rollup_checks(es@.subrange(0, i as int)),
                decreases es@.len() - i,
            {
                let ghost before = checks_view(out@);
                proof {
                    assert(es@.subrange(0, i + 1).drop_last() =~= es@.subrange(0, i as int));
                    assert(es@.subrange(0, i + 1).last() == es@[i as int]);
                }
                match check_from_rollup(&es[i]) {
                    Some(c) => {
                        out.push(c);
                        proof {
                            assert(checks_view(out@) =~= before.push(out@.last()@));
                        }
                    },
                    None => {},
                }
                i = i + 1;
            }
            assert(es@.subrange(0, es@.len() as int) =~= es@);
            out
        },
    }
}

// ---------------------------------------------------------------------------
// pull request and branch status
// ---------------------------------------------------------------------------

/// What `gh pr view` tells of the branch's pull request.
#[derive(Debug)]
pub struct GithubPrData {
    pub url: String,
    pub merged: bool,
    pub number: Option<u32>,
    pub state: Option<String>,
    pub auto_merge_enabled: bool,
    pub checks: Vec<CiCheck>,
}

/// The fields of a `gh pr view --json` reply that the workspace reads, each
/// present when the reply holds it with the expected JSON type.
#[derive(Debug)]
pub struct PrViewFields {
    pub url: Option<String>,
    pub state: Option<String>,
    pub number: Option<u64>,
    pub auto_merge_request_is_null: bool,
    pub status_check_rollup: Option<Vec<RollupEntry>>,
}

/// The pull request that a `gh pr view` reply describes: none without a
/// non-empty URL; merged when its state is `MERGED`; the number taken
/// modulo 2^32.
pub fn pr_data_from_fields(f: &PrViewFields) -> (r: Option<GithubPrData>)
    ensures
        match r {
            None => nonempty_link(f.url) is None,
            Some(d) => {
                &&& nonempty_link(f.url) == Some(d.url@)
                &&& opt_view(d.state) == Some(or_empty(f.state))
                &&& d.merged == (or_empty(f.state) == "MERGED"@)
                &&& d.number == (match f.number {
                    Some(n) => Some(n as u32),
                    None => None,
                })
                &&& d.auto_merge_enabled == !f.auto_merge_request_is_null
                &&& (match f.status_check_rollup {
                    Some(es) => checks_view(d.checks@) == rollup_checks(es@),
                    None => d.checks@.len() == 0,
                })
            },
        },
{
    let url = match link_if_nonempty(&f.url) {
        Some(u) => u,
        None => return None,
    };
    let state = text_or_empty(&f.state);
    let checks = parse_status_check_rollup(&f.status_check_rollup);
    let merged = string_is(&state, "MERGED");
    let number = match f.number {
        Some(n) => Some(n as u32),
        None => None,
    };
    Some(
        GithubPrData {
            merged,
            number,
            auto_merge_enabled: !f.auto_merge_request_is_null,
            state: Some(state),
            url,
            checks,
        },
    )
}

/// The status of a branch.
#[derive(Debug)]
pub struct BranchStatus {
    pub commits_ahead: u32,
    pub pr_url: Option<String>,
    pub pr_merged: bool,
    pub pr_number: Option<u32>,
    pub pr_state: Option<String>,
    pub checks: Vec<CiCheck>,
    pub auto_merge_enabled: bool,
    pub branch_name: Option<String>,
}

impl BranchStatus {
    /// A branch with nothing ahead, no pull request and no name.
    pub open spec fn is_blank_except(self, commits_ahead: u32, branch_name: Option<Seq<char>>) -> bool {
        &&& self.commits_ahead == commits_ahead
        &&& opt_view(self.branch_name) == branch_name
        &&& self.pr_url is None
        &&& !self.pr_merged
        &&& self.pr_number is None
        &&& self.pr_state is None
        &&& self.checks@.len() == 0
        &&& !self.auto_merge_enabled
    }
}

/// A branch status as mathematical values.
pub ghost struct BranchStatusView {
    pub commits_ahead: u32,
    pub pr_url: Option<Seq<char>>,
    pub pr_merged: bool,
    pub pr_number: Option<u32>,
    pub pr_state: Option<Seq<char>>,
    pub checks: Seq<CiCheckView>,
    pub auto_merge_enabled: bool,
    pub branch_name: Option<Seq<char>>,
}

impl View for BranchStatus {
    type V = BranchStatusView;

    open spec fn view(&self) -> BranchStatusView {
        BranchStatusView {
            commits_ahead: self.commits_ahead,
            pr_url: opt_view(self.pr_url),
            pr_merged: self.pr_merged,
            pr_number: self.pr_number,
            pr_state: opt_view(self.pr_state),
            checks: checks_view(self.checks@),
            auto_merge_enabled: self.auto_merge_enabled,
            branch_name: opt_view(self.branch_name),
        }
    }
}

/// Whether two optional strings are equal.
fn opt_string_equal(a: &Option<String>, b: &Option<String>) -> (r: bool)
    ensures
        r == (opt_view(*a) == opt_view(*b)),
{
    match (a, b) {
        (Some(x), Some(y)) => *x == *y,
        (None, None) => true,
        _ => false,
    }
}

/// Whether two lists of checks are equal, check by check.
pub fn checks_equal(a: &Vec<CiCheck>, b: &Vec<CiCheck>) -> (r: bool)
    ensures
        r == (checks_view(a@) == checks_view(b@)),
{
    if a.len() != b.len() {
        assert(checks_view(a@).len() != checks_view(b@).len());
        return false;
    }
    let mut i: usize = 0;
    while i < a.len()
        invariant
            a.len() == b.len(),
            i <= a.len(),
            forall|j: int| 0 <= j < i ==> a@[j]@ == b@[j]@,
        decreases a.len() - i,
    {
        let x = &a[i];
        let y = &b[i];
        let same = x.name == y.name && x.bucket == y.bucket && x.workflow == y.workflow
            && opt_string_equal(&x.link, &y.link);
        if !same {
            assert(checks_view(a@)[i as int] != checks_view(b@)[i as int]);
            return false;
        }
        i = i + 1;
    }
    assert(checks_view(a@) =~= checks_view(b@));
    true
}

/// Whether two branch statuses are equal, field by field.
pub fn branch_status_equal(a: &BranchStatus, b: &BranchStatus) -> (r: bool)
    ensures
        r == (a@ == b@),
{
    a.commits_ahead == b.commits_ahead && opt_string_equal(&a.pr_url, &b.pr_url) && a.pr_merged
        == b.pr_merged && a.pr_number == b.pr_number && opt_string_equal(&a.pr_state, &b.pr_state)
        && checks_equal(&a.checks, &b.checks) && a.auto_merge_enabled == b.auto_merge_enabled
        && opt_string_equal(&a.branch_name, &b.branch_name)
}

impl Default for BranchStatus {
    fn default() -> (r: Self)
        ensures
            r.is_blank_except(0, None),
    {
        BranchStatus {
            commits_ahead: 0,
            pr_url: None,
            pr_merged: false,
            pr_number: None,
            pr_state: None,
            checks: Vec::new(),
            auto_merge_enabled: false,
            branch_name: None,
        }
    }
}

/// The default branch that `git symbolic-ref refs/remotes/origin/HEAD
/// --short` reported, or `origin/main` when it reported nothing usable.
pub open spec fn default_branch_of(reported: Option<Seq<char>>) -> Seq<char> {
    match reported {
        Some(s) => if s.len() > 0 {
            s
        } else {
            "origin/main"@
        },
        None => "origin/main"@,
    }
}

/// Chooses the default branch from what Git reported (`None` when the
/// command failed).
pub fn default_branch_from(reported: Option<String>) -> (r: String)
    ensures
        r@ == default_branch_of(opt_view(reported)),
{
    match reported {
        Some(s) => {
            if !s.as_str().is_empty() {
                s
            } else {
                "origin/main".to_owned()
            }
        },
        None => "origin/main".to_owned(),
    }
}

/// The number of commits ahead that `git rev-list --count` reported; zero
/// when the command failed or its output is not a `u32`.
pub fn commits_ahead_from(reported: Option<String>) -> (r: u32)
    ensures
        r == (match reported {
            Some(s) => match parse_unsigned(s@, u32::MAX as nat) {
                Some(v) => v as u32,
                None => 0,
            },
            None => 0,
        }),
{
    match reported {
        Some(s) => match parse_u32(s.as_str()) {
            Some(v) => v,
            None => 0,
        },
        None => 0,
    }
}

/// The default branch's short name: without a leading `origin/`.
pub open spec fn short_branch(default_branch: Seq<char>) -> Seq<char> {
    if default_branch.len() >= 7 && default_branch.subrange(0, 7) == "origin/"@ {
        default_branch.subrange(7, default_branch.len() as int)
    } else {
        default_branch
    }
}

/// Whether the branch needs a pull-request lookup: not when it is the
/// default branch itself.
pub fn needs_pr_lookup(branch_name: &Option<String>, default_branch: &str) -> (r: bool)
    ensures
        r == (opt_view(*branch_name) != Some(short_branch(default_branch@))),
{
    let chars = str_chars(default_branch);
    proof {
        reveal_strlit("origin/");
    }
    let has_prefix = chars.len() >= 7 && chars[0] == 'o' && chars[1] == 'r' && chars[2] == 'i'
        && chars[3] == 'g' && chars[4] == 'i' && chars[5] == 'n' && chars[6] == '/';
    proof {
        if chars@.len() >= 7 {
            if has_prefix {
                assert(chars@.subrange(0, 7) =~= "origin/"@);
            } else {
                assert(chars@.subrange(0, 7) != "origin/"@) by {
                    if chars@.subrange(0, 7) == "origin/"@ {
                        assert(chars@.subrange(0, 7)[0] == chars@[0]);
                        assert(chars@.subrange(0, 7)[1] == chars@[1]);
                        assert(chars@.subrange(0, 7)[2] == chars@[2]);
                        assert(chars@.subrange(0, 7)[3] == chars@[3]);
                        assert(chars@.subrange(0, 7)[4] == chars@[4]);
                        assert(chars@.subrange(0, 7)[5] == chars@[5]);
                        assert(chars@.subrange(0, 7)[6] == chars@[6]);
                    }
                }
            }
        }
    }
    let short = if has_prefix {
        copy_chars(chars.as_slice(), 7, chars.len())
    } else {
        copy_chars(chars.as_slice(), 0, chars.len())
    };
    assert(chars@.subrange(0, chars@.len() as int) =~= chars@);
    match branch_name {
        None => true,
        Some(name) => {
            let n = str_chars(name.as_str());
            !chars_equal(&n, &short)
        },
    }
}

/// Whether two character vectors are equal.
pub fn chars_equal(a: &Vec<char>, b: &Vec<char>) -> (r: bool)
    ensures
        r == (a@ == b@),
{
    if a.len() != b.len() {
        return false;
    }
    let mut i: usize = 0;
    while i < a.len()
        invariant
            a@.len() == b@.len(),
            i <= a@.len(),
            forall|j: int| 0 <= j < i ==> a@[j] == b@[j],
        decreases a@.len() - i,
    {
        if a[i] != b[i] {
            return false;
        }
        i = i + 1;
    }
    assert(a@ =~= b@);
    true
}

/// The status of a branch from its commits ahead, its name and, when one
/// was looked up and found, its pull request.
pub fn branch_status_from(
    commits_ahead: u32,
    branch_name: Option<String>,
    pr: Option<GithubPrData>,
) -> (r: BranchStatus)
    ensures
        r.commits_ahead == commits_ahead,
        opt_view(r.branch_name) == opt_view(branch_name),
        match pr {
            None => r.is_blank_except(commits_ahead, opt_view(branch_name)),
            Some(d) => {
                &&& opt_view(r.pr_url) == Some(d.url@)
                &&& r.pr_merged == d.merged
                &&& r.pr_number == d.number
                &&& opt_view(r.pr_state) == opt_view(d.state)
                &&& checks_view(r.checks@) == checks_view(d.checks@)
                &&& r.auto_merge_enabled == d.auto_merge_enabled
            },
        },
{
    match pr {
        Some(data) => BranchStatus {
            commits_ahead,
            pr_url: Some(data.url),
            pr_merged: data.merged,
            pr_number: data.number,
            pr_state: data.state,
            checks: data.checks,
            auto_merge_enabled: data.auto_merge_enabled,
            branch_name,
        },
        None => BranchStatus {
            commits_ahead,
            pr_url: None,
            pr_merged: false,
            pr_number: None,
            pr_state: None,
            checks: Vec::new(),
            auto_merge_enabled: false,
            branch_name,
        },
    }
}

/// Whether the repository allows auto-merge and rebase merges.
#[derive(Clone, Copy, Debug, PartialEq, Eq, Structural)]
pub struct RepoCapabilities {
    pub auto_merge_allowed: bool,
    pub rebase_merge_allowed: bool,
}

impl Default for RepoCapabilities {
    fn default() -> (r: Self)
        ensures
            !r.auto_merge_allowed,
            !r.rebase_merge_allowed,
    {
        RepoCapabilities { auto_merge_allowed: false, rebase_merge_allowed: false }
    }
}

/// The capabilities that the repository settings report: `None` when the
/// lookup failed; otherwise each flag as reported, auto-merge off and
/// rebase merges on when a flag is missing.
pub fn capabilities_from(reported: Option<(Option<bool>, Option<bool>)>) -> (r: RepoCapabilities)
    ensures
        match reported {
            None => r == RepoCapabilities { auto_merge_allowed: false, rebase_merge_allowed: false },
            Some((auto, rebase)) => r == RepoCapabilities {
                auto_merge_allowed: match auto {
                    Some(b) => b,
                    None => false,
                },
                rebase_merge_allowed: match rebase {
                    Some(b) => b,
                    None => true,
                },
            },
        },
{
    match reported {
        None => RepoCapabilities::default(),
        Some((auto, rebase)) => RepoCapabilities {
            auto_merge_allowed: match auto {
                Some(b) => b,
                None => false,
            },
            rebase_merge_allowed: match rebase {
                Some(b) => b,
                None => true,
            },
        },
    }
}

// ---------------------------------------------------------------------------
// diff inputs
// ---------------------------------------------------------------------------

/// Which versions of a changed file a diff compares.
#[derive(Debug)]
pub struct DiffSources {
    /// The path of the committed version.
    pub old_path: String,
    /// The path of the working-tree version.
    pub new_path: String,
    /// The committed side is empty (an untracked file).
    pub old_is_empty: bool,
    /// The working-tree side is empty (a deleted file).
    pub new_is_empty: bool,
}

/// The paths before and after the first ` -> ` of a rename; the path twice
/// otherwise.
pub open spec fn rename_sides(path: Seq<char>) -> (Seq<char>, Seq<char>) {
    let i = first_arrow(path) as int;
    if i + 4 <= path.len() {
        (path.subrange(0, i), path.subrange(i + 4, path.len() as int))
    } else {
        (path, path)
    }
}

/// Sets up the diff of a changed file from its listed path and status: the
/// committed side is empty for an untracked file (status `??` once trimmed),
/// the working-tree side for a status holding `D`.
pub fn diff_sources(file_path: &str, status_code: &str) -> (r: DiffSources)
    ensures
        r.old_path@ == rename_sides(file_path@).0,
        r.new_path@ == rename_sides(file_path@).1,
        r.old_is_empty == (trimmed(status_code@) == "??"@),
        r.new_is_empty == status_code@.contains('D'),
{
    let chars = str_chars(file_path);
    assert(chars@.subrange(0, chars@.len() as int) =~= chars@);
    let i = find_arrow(&chars, 0);
    let (old_path, new_path) = if chars.len() >= 4 && i <= chars.len() - 4 {
        let a = copy_chars(chars.as_slice(), 0, i);
        let b = copy_chars(chars.as_slice(), i + 4, chars.len());
        (string_from_chars(a.as_slice()), string_from_chars(b.as_slice()))
    } else {
        (file_path.to_owned(), file_path.to_owned())
    };
    let trimmed_status = trim_str(status_code);
    let old_is_empty = string_is(&trimmed_status, "??");
    let status_chars = str_chars(status_code);
    let mut has_d = false;
    let mut k: usize = 0;
    while k < status_chars.len()
        invariant
            k <= status_chars@.len(),
            status_chars@ == status_code@,
            has_d == (exists|j: int| 0 <= j < k && status_chars@[j] == 'D'),
        decreases status_chars@.len() - k,
    {
        if status_chars[k] == 'D' {
            has_d = true;
        }
        k = k + 1;
    }
    DiffSources { old_path, new_path, old_is_empty, new_is_empty: has_d }
}


/// A commit status passes exactly on `SUCCESS`, is pending exactly on
/// `PENDING` or `EXPECTED`, and has failed on any other state.
pub proof fn law_commit_status_buckets(state: Seq<char>)
    ensures
        (status_context_bucket(state) == CheckBucket::Pass) <==> state == "SUCCESS"@,
        (status_context_bucket(state) == CheckBucket::Pending) <==> (state == "PENDING"@ || state
            == "EXPECTED"@),
        (status_context_bucket(state) == CheckBucket::Fail) <==> !(state == "SUCCESS"@ || state
            == "PENDING"@ || state == "EXPECTED"@),
{
    reveal_strlit("SUCCESS");
    reveal_strlit("PENDING");
    reveal_strlit("EXPECTED");
    assert("SUCCESS"@[0] != "PENDING"@[0]);
    assert("SUCCESS"@[0] != "EXPECTED"@[0]);
}

/// A check run passes on a `SUCCESS` or `NEUTRAL` conclusion and is skipped
/// on `SKIPPED`; without such a conclusion it has failed once `COMPLETED`
/// and is pending before.
pub proof fn law_check_run_buckets(status: Seq<char>, conclusion: Option<Seq<char>>)
    ensures
        (check_run_bucket(status, conclusion) == CheckBucket::Pass) <==> (conclusion == Some(
            "SUCCESS"@,
        ) || conclusion == Some("NEUTRAL"@)),
        (check_run_bucket(status, conclusion) == CheckBucket::Skipping) <==> conclusion == Some(
            "SKIPPED"@,
        ),
        (check_run_bucket(status, conclusion) == CheckBucket::Fail) <==> (!(conclusion == Some(
            "SUCCESS"@,
        ) || conclusion == Some("NEUTRAL"@) || conclusion == Some("SKIPPED"@)) && status
            == "COMPLETED"@),
        (check_run_bucket(status, conclusion) == CheckBucket::Pending) <==> (!(conclusion == Some(
            "SUCCESS"@,
        ) || conclusion == Some("NEUTRAL"@) || conclusion == Some("SKIPPED"@)) && status
            != "COMPLETED"@),
{
    reveal_strlit("SUCCESS");
    reveal_strlit("NEUTRAL");
    reveal_strlit("SKIPPED");
    assert("SUCCESS"@[1] != "SKIPPED"@[1]);
    assert("NEUTRAL"@[0] != "SKIPPED"@[0]);
}

/// A commit status entry of the rollup is a check named by its context,
/// linked to its target, in the bucket its state gives: pending while
/// `PENDING` or `EXPECTED`, passed on `SUCCESS`, failed otherwise.
pub proof fn law_commit_status_entry(e: RollupEntry)
    requires
        or_empty(e.typename) == "StatusContext"@,
    ensures
        rollup_check(e) matches Some(c) && {
            let state = or_empty(e.state);
            &&& c.name == or_empty(e.context)
            &&& c.link == nonempty_link(e.target_url)
            &&& c.workflow.len() == 0
            &&& (c.bucket == CheckBucket::Pending <==> (state == "PENDING"@ || state == "EXPECTED"@))
            &&& (c.bucket == CheckBucket::Pass <==> state == "SUCCESS"@)
            &&& (c.bucket == CheckBucket::Fail <==> !(state == "SUCCESS"@ || state == "PENDING"@
                || state == "EXPECTED"@))
        },
{
    reveal_strlit("StatusContext");
    reveal_strlit("CheckRun");
    assert("StatusContext"@[0] != "CheckRun"@[0]);
    law_commit_status_buckets(or_empty(e.state));
}

} // verus!
