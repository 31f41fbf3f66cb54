//! Side-by-side file diffs: turning the line operations of a text diff into
//! split rows with line numbers, and collapsing unchanged regions for display.
use std::collections::HashSet;

use similar::DiffOp;

use vstd::prelude::*;

use crate::syntax::{highlight_lines, highlighted, runs_view, SyntaxRun};
use crate::text::{str_chars, string_from_chars};

verus! {

broadcast use vstd::std_specs::hash::group_hash_axioms;

/// Number of unchanged lines kept visible before and after a change.
pub const CONTEXT_LINES: usize = 3;

#[derive(Clone, Copy, Debug, PartialEq, Eq, Structural)]
pub enum SplitLineKind {
    Equal,
    Delete,
    Insert,
    Replace,
}

/// One row of a side-by-side diff. Line numbers are 1-based; a side that has
/// no line in this row has no number and empty text.
#[derive(Debug)]
pub struct SplitLine {
    pub old_lineno: Option<u32>,
    pub new_lineno: Option<u32>,
    pub old_text: String,
    pub new_text: String,
    pub kind: SplitLineKind,
    /// The highlighted runs of the old line, if the row has one.
    pub old_syntax_runs: Vec<SyntaxRun>,
    /// The highlighted runs of the new line, if the row has one.
    pub new_syntax_runs: Vec<SyntaxRun>,
}

/// The mathematical content of a `SplitLine`.
pub ghost struct SplitLineView {
    pub old_lineno: Option<nat>,
    pub new_lineno: Option<nat>,
    pub old_text: Seq<char>,
    pub new_text: Seq<char>,
    pub kind: SplitLineKind,
    pub old_syntax_runs: Seq<SyntaxRun>,
    pub new_syntax_runs: Seq<SyntaxRun>,
}

impl View for SplitLine {
    type V = SplitLineView;

    open spec fn view(&self) -> SplitLineView {
        SplitLineView {
            old_lineno: match self.old_lineno {
                Some(n) => Some(n as nat),
                None => None,
            },
            new_lineno: match self.new_lineno {
                Some(n) => Some(n as nat),
                None => None,
            },
            old_text: self.old_text@,
            new_text: self.new_text@,
            kind: self.kind,
            old_syntax_runs: self.old_syntax_runs@,
            new_syntax_runs: self.new_syntax_runs@,
        }
    }
}

/// A row of the collapsed display of a diff.
#[derive(Clone, Copy, Debug, PartialEq, Eq, Structural)]
pub enum DiffDisplayRow {
    /// The split line at this index.
    Line(usize),
    /// `hidden_count` unchanged lines starting at `start_index`, folded away.
    Collapsed { hidden_count: usize, start_index: usize },
    /// Header of a folded region that the user expanded; its lines follow.
    ExpandedHeader { hidden_count: usize, start_index: usize },
}

/// A computed diff of one file.
pub struct DiffData {
    pub file_path: String,
    pub lines: Vec<SplitLine>,
    pub display_rows: Vec<DiffDisplayRow>,
    pub expanded_sections: HashSet<usize>,
    pub additions: u32,
    pub deletions: u32,
}

/// A line-level diff operation: ranges of old and new lines.
#[derive(Clone, Copy, Debug, PartialEq, Eq, Structural)]
pub enum LineOp {
    Equal { old_index: usize, new_index: usize, len: usize },
    Delete { old_index: usize, old_len: usize, new_index: usize },
    Insert { old_index: usize, new_index: usize, new_len: usize },
    Replace { old_index: usize, old_len: usize, new_index: usize, new_len: usize },
}

// ---------------------------------------------------------------------------
// the `similar` crate
// ---------------------------------------------------------------------------

/// The end (exclusive) of the line that starts at `i`: just after its
/// terminator, which is `'\n'`, `"\r\n"` or a lone `'\r'`, or the end of
/// the text.
pub open spec fn line_end_at(s: Seq<char>, i: int) -> int
    decreases s.len() - i,
{
    if i < 0 || i >= s.len() {
        s.len() as int
    } else if s[i] == '\n' {
        i + 1
    } else if s[i] == '\r' {
        if i + 1 < s.len() && s[i + 1] == '\n' {
            i + 2
        } else {
            i + 1
        }
    } else {
        line_end_at(s, i + 1)
    }
}

/// A line that starts inside the text ends after its start, within the text.
pub proof fn lemma_line_end_at(s: Seq<char>, i: int)
    requires
        0 <= i < s.len(),
    ensures
        i < line_end_at(s, i) <= s.len(),
    decreases s.len() - i,
{
    if s[i] != '\n' && s[i] != '\r' {
        if i + 1 < s.len() {
            lemma_line_end_at(s, i + 1);
        } else {
            assert(line_end_at(s, i + 1) == s.len());
        }
    }
}

/// The lines of `s` from `i` on, each with its terminator.
pub open spec fn lines_from(s: Seq<char>, i: int) -> Seq<Seq<char>>
    decreases s.len() - i,
{
    if i < 0 || i >= s.len() {
        Seq::empty()
    } else {
        proof {
            lemma_line_end_at(s, i);
        }
        seq![s.subrange(i, line_end_at(s, i))] + lines_from(s, line_end_at(s, i))
    }
}

/// The lines into which `similar` tokenizes a text: each ends after a
/// `'\n'`, a `"\r\n"` or a lone `'\r'`, its terminator attached; a last
/// line without a terminator is kept when it is not empty.
pub open spec fn line_tokens(text: Seq<char>) -> Seq<Seq<char>> {
    lines_from(text, 0)
}

/// The operations of `similar`'s line diff of `old` against `new`.
pub uninterp spec fn line_diff_ops(old: Seq<char>, new: Seq<char>) -> Seq<LineOp>;

/// Calls `similar::DiffableStr::tokenize_lines`, which splits a text into
/// lines after each `'\n'`, `"\r\n"` or lone `'\r'`, terminators attached,
/// as `line_tokens` states.
#[verifier::external_body]
fn tokenize_lines(text: &str) -> (r: Vec<String>)
    ensures
        r@.map_values(|l: String| l@) == line_tokens(text@),
{
    similar::DiffableStr::tokenize_lines(text).into_iter().map(|l| l.to_string()).collect()
}

/// Calls `similar::TextDiff::from_lines(old, new)` and returns its operations
/// (`TextDiff::ops`), one `LineOp` per `similar::DiffOp`; the result is named
/// by `line_diff_ops`. As the crate's diff algorithms build them (through
/// its capture hook, with the default exact whitespace mode), the operations
/// walk the lines of both texts in order, each starting where the previous
/// one ended, and together cover all of them; an equal operation pairs lines
/// that are equal. Two identical texts give only equal operations: the
/// default Myers diff first takes their common prefix, all of the lines, as
/// one equal run and finds nothing left to compare. Which operations the
/// algorithm picks otherwise is not stated.
#[verifier::external_body]
fn diff_line_ops(old: &str, new: &str) -> (r: Vec<LineOp>)
    ensures
        r@ == line_diff_ops(old@, new@),
        ops_tile(r@, line_tokens(old@).len(), line_tokens(new@).len()),
        forall|k: int| 0 <= k < r@.len() ==> equal_op_matches(#[trigger] r@[k], line_tokens(old@), line_tokens(new@)),
        old@ == new@ ==> forall|k: int| 0 <= k < r@.len() ==> (#[trigger] r@[k]) is Equal,
{
    similar::TextDiff::from_lines(old, new).ops().iter().map(|op| match *op {
        DiffOp::Equal { old_index, new_index, len } => LineOp::Equal { old_index, new_index, len },
        DiffOp::Delete { old_index, old_len, new_index } => LineOp::Delete { old_index, old_len, new_index },
        DiffOp::Insert { old_index, new_index, new_len } => LineOp::Insert { old_index, new_index, new_len },
        DiffOp::Replace { old_index, old_len, new_index, new_len } => LineOp::Replace { old_index, old_len, new_index, new_len },
    }).collect()
}

// ---------------------------------------------------------------------------
// line text
// ---------------------------------------------------------------------------

/// A line without its trailing `'\n'`, if it has one.
pub open spec fn strip_nl(s: Seq<char>) -> Seq<char> {
    if s.len() > 0 && s.last() == '\n' {
        s.drop_last()
    } else {
        s
    }
}

/// Removes one trailing line feed.
pub fn strip_newline(s: &str) -> (r: String)
    ensures
        r@ == strip_nl(s@),
{
    let chars = str_chars(s);
    let n = chars.len();
    if n > 0 && chars[n - 1] == '\n' {
        let v = slice_prefix(&chars, n - 1);
        string_from_chars(v.as_slice())
    } else {
        string_from_chars(chars.as_slice())
    }
}

/// The first `k` characters of `v`.
pub fn slice_prefix(v: &Vec<char>, k: usize) -> (r: Vec<char>)
    requires
        k <= v.len(),
    ensures
        r@ == v@.subrange(0, k as int),
{
    let mut r: Vec<char> = Vec::new();
    let mut i: usize = 0;
    while i < k
        invariant
            i <= k <= v.len(),
            r@ == v@.subrange(0, i as int),
        decreases k - i,
    {
        r.push(v[i]);
        i = i + 1;
        assert(r@ =~= v@.subrange(0, i as int));
    }
    r
}

// ---------------------------------------------------------------------------
// split rows: specification
// ---------------------------------------------------------------------------

/// Old lines that an operation consumes.
pub open spec fn old_advance(op: LineOp) -> nat {
    match op {
        LineOp::Equal { len, .. } => len as nat,
        LineOp::Delete { old_len, .. } => old_len as nat,
        LineOp::Insert { .. } => 0,
        LineOp::Replace { old_len, .. } => old_len as nat,
    }
}

/// New lines that an operation consumes.
pub open spec fn new_advance(op: LineOp) -> nat {
    match op {
        LineOp::Equal { len, .. } => len as nat,
        LineOp::Delete { .. } => 0,
        LineOp::Insert { new_len, .. } => new_len as nat,
        LineOp::Replace { new_len, .. } => new_len as nat,
    }
}

/// New lines counted as additions (inserted or replacing).
pub open spec fn added_by(op: LineOp) -> nat {
    match op {
        LineOp::Insert { new_len, .. } => new_len as nat,
        LineOp::Replace { new_len, .. } => new_len as nat,
        _ => 0,
    }
}

/// Old lines counted as deletions (deleted or replaced).
pub open spec fn deleted_by(op: LineOp) -> nat {
    match op {
        LineOp::Delete { old_len, .. } => old_len as nat,
        LineOp::Replace { old_len, .. } => old_len as nat,
        _ => 0,
    }
}

/// Total old lines consumed by a sequence of operations.
pub open spec fn total_old(ops: Seq<LineOp>) -> nat
    decreases ops.len(),
{
    if ops.len() == 0 {
        0
    } else {
        total_old(ops.drop_last()) + old_advance(ops.last())
    }
}

pub open spec fn total_new(ops: Seq<LineOp>) -> nat
    decreases ops.len(),
{
    if ops.len() == 0 {
        0
    } else {
        total_new(ops.drop_last()) + new_advance(ops.last())
    }
}

pub open spec fn total_added(ops: Seq<LineOp>) -> nat
    decreases ops.len(),
{
    if ops.len() == 0 {
        0
    } else {
        total_added(ops.drop_last()) + added_by(ops.last())
    }
}

pub open spec fn total_deleted(ops: Seq<LineOp>) -> nat
    decreases ops.len(),
{
    if ops.len() == 0 {
        0
    } else {
        total_deleted(ops.drop_last()) + deleted_by(ops.last())
    }
}

/// Number of rows that an operation yields.
pub open spec fn op_row_count(op: LineOp) -> nat {
    match op {
        LineOp::Equal { len, .. } => len as nat,
        LineOp::Delete { old_len, .. } => old_len as nat,
        LineOp::Insert { new_len, .. } => new_len as nat,
        LineOp::Replace { old_len, new_len, .. } => if old_len >= new_len {
            old_len as nat
        } else {
            new_len as nat
        },
    }
}

/// Whether the operation only reads lines that exist.
pub open spec fn op_fits(op: LineOp, old_count: nat, new_count: nat) -> bool {
    match op {
        LineOp::Equal { old_index, len, .. } => old_index + len <= old_count,
        LineOp::Delete { old_index, old_len, .. } => old_index + old_len <= old_count,
        LineOp::Insert { new_index, new_len, .. } => new_index + new_len <= new_count,
        LineOp::Replace { old_index, old_len, new_index, new_len } => old_index + old_len
            <= old_count && new_index + new_len <= new_count,
    }
}

pub open spec fn ops_fit(ops: Seq<LineOp>, old_count: nat, new_count: nat) -> bool {
    forall|k: int| 0 <= k < ops.len() ==> op_fits(#[trigger] ops[k], old_count, new_count)
}

/// Row `i` of the rows that `op` yields, when the next old and new line
/// numbers are `ol` and `nl`. An equal row shows the old line on both sides.
pub open spec fn op_row(
    op: LineOp,
    old: Seq<Seq<char>>,
    new: Seq<Seq<char>>,
    ol: int,
    nl: int,
    i: int,
) -> SplitLineView {
    match op {
        LineOp::Equal { old_index, .. } => SplitLineView {
            old_lineno: Some((ol + i) as nat),
            new_lineno: Some((nl + i) as nat),
            old_text: strip_nl(old[old_index + i]),
            new_text: strip_nl(old[old_index + i]),
            kind: SplitLineKind::Equal,
            old_syntax_runs: Seq::empty(),
            new_syntax_runs: Seq::empty(),
        },
        LineOp::Delete { old_index, .. } => SplitLineView {
            old_lineno: Some((ol + i) as nat),
            new_lineno: None,
            old_text: strip_nl(old[old_index + i]),
            new_text: Seq::empty(),
            kind: SplitLineKind::Delete,
            old_syntax_runs: Seq::empty(),
            new_syntax_runs: Seq::empty(),
        },
        LineOp::Insert { new_index, .. } => SplitLineView {
            old_lineno: None,
            new_lineno: Some((nl + i) as nat),
            old_text: Seq::empty(),
            new_text: strip_nl(new[new_index + i]),
            kind: SplitLineKind::Insert,
            old_syntax_runs: Seq::empty(),
            new_syntax_runs: Seq::empty(),
        },
        LineOp::Replace { old_index, old_len, new_index, new_len } => SplitLineView {
            old_lineno: if i < old_len {
                Some((ol + i) as nat)
            } else {
                None
            },
            new_lineno: if i < new_len {
                Some((nl + i) as nat)
            } else {
                None
            },
            old_text: if i < old_len {
                strip_nl(old[old_index + i])
            } else {
                Seq::empty()
            },
            new_text: if i < new_len {
                strip_nl(new[new_index + i])
            } else {
                Seq::empty()
            },
            kind: SplitLineKind::Replace,
            old_syntax_runs: Seq::empty(),
            new_syntax_runs: Seq::empty(),
        },
    }
}

/// All rows that `op` yields.
pub open spec fn op_rows(
    op: LineOp,
    old: Seq<Seq<char>>,
    new: Seq<Seq<char>>,
    ol: int,
    nl: int,
) -> Seq<SplitLineView> {
    Seq::new(op_row_count(op), |i: int| op_row(op, old, new, ol, nl, i))
}

/// The split rows of a whole diff: each operation's rows in turn, old and
/// new line numbers both starting at 1.
pub open spec fn split_rows(ops: Seq<LineOp>, old: Seq<Seq<char>>, new: Seq<Seq<char>>) -> Seq<
    SplitLineView,
>
    decreases ops.len(),
{
    if ops.len() == 0 {
        Seq::empty()
    } else {
        split_rows(ops.drop_last(), old, new) + op_rows(
            ops.last(),
            old,
            new,
            1 + total_old(ops.drop_last()) as int,
            1 + total_new(ops.drop_last()) as int,
        )
    }
}

/// Whether every line number and count of the diff fits in a `u32`.
pub open spec fn diff_counts_fit(ops: Seq<LineOp>) -> bool {
    1 + total_old(ops) <= u32::MAX && 1 + total_new(ops) <= u32::MAX
}

pub open spec fn lines_view(lines: Seq<SplitLine>) -> Seq<SplitLineView> {
    lines.map_values(|l: SplitLine| l@)
}

pub open spec fn texts_view(lines: Seq<String>) -> Seq<Seq<char>> {
    lines.map_values(|l: String| l@)
}

/// The first old line that an operation covers.
pub open spec fn op_old_start(op: LineOp) -> int {
    match op {
        LineOp::Equal { old_index, .. } => old_index as int,
        LineOp::Delete { old_index, .. } => old_index as int,
        LineOp::Insert { old_index, .. } => old_index as int,
        LineOp::Replace { old_index, .. } => old_index as int,
    }
}

/// The first new line that an operation covers.
pub open spec fn op_new_start(op: LineOp) -> int {
    match op {
        LineOp::Equal { new_index, .. } => new_index as int,
        LineOp::Delete { new_index, .. } => new_index as int,
        LineOp::Insert { new_index, .. } => new_index as int,
        LineOp::Replace { new_index, .. } => new_index as int,
    }
}

/// Whether the operations walk `old_count` old lines and `new_count` new
/// lines in order: each starts where the previous ones ended on both sides,
/// and together they cover every line.
pub open spec fn ops_tile(ops: Seq<LineOp>, old_count: nat, new_count: nat) -> bool {
    &&& forall|k: int|
        0 <= k < ops.len() ==> op_old_start(#[trigger] ops[k]) == total_old(ops.take(k))
            && op_new_start(ops[k]) == total_new(ops.take(k))
    &&& total_old(ops) == old_count
    &&& total_new(ops) == new_count
}

/// Whether an equal operation pairs equal lines of the two sides.
pub open spec fn equal_op_matches(op: LineOp, old: Seq<Seq<char>>, new: Seq<Seq<char>>) -> bool {
    match op {
        LineOp::Equal { old_index, new_index, len } => old.subrange(
            old_index as int,
            old_index + len,
        ) == new.subrange(new_index as int, new_index + len),
        _ => true,
    }
}

/// Operations that walk both sides in order read only existing lines, and
/// their line numbers fit a `u32` exactly when the line counts do.
pub proof fn lemma_tiling_ops_fit(ops: Seq<LineOp>, old_count: nat, new_count: nat)
    requires
        ops_tile(ops, old_count, new_count),
    ensures
        ops_fit(ops, old_count, new_count),
        diff_counts_fit(ops) <==> (1 + old_count <= u32::MAX && 1 + new_count <= u32::MAX),
{
    assert forall|k: int| 0 <= k < ops.len() implies op_fits(#[trigger] ops[k], old_count, new_count) by {
        lemma_totals_prefix(ops, k + 1);
        assert(ops.take(k + 1).drop_last() =~= ops.take(k));
        assert(ops.take(k + 1).last() == ops[k]);
    }
}

proof fn lemma_added_le_new(ops: Seq<LineOp>)
    ensures
        total_added(ops) <= total_new(ops),
        total_deleted(ops) <= total_old(ops),
    decreases ops.len(),
{
    if ops.len() > 0 {
        lemma_added_le_new(ops.drop_last());
    }
}

proof fn lemma_totals_prefix(ops: Seq<LineOp>, k: int)
    requires
        0 <= k <= ops.len(),
    ensures
        total_old(ops.take(k)) <= total_old(ops),
        total_new(ops.take(k)) <= total_new(ops),
    decreases ops.len() - k,
{
    if k < ops.len() {
        lemma_totals_prefix(ops, k + 1);
        assert(ops.take(k + 1).drop_last() =~= ops.take(k));
    } else {
        assert(ops.take(k) =~= ops);
    }
}

// ---------------------------------------------------------------------------
// split rows: implementation
// ---------------------------------------------------------------------------

/// Builds the split rows of a diff from its line operations and the two
/// sides' lines, and counts added and deleted lines.
pub fn split_lines_from_ops(ops: &Vec<LineOp>, old_lines: &Vec<String>, new_lines: &Vec<String>) -> (r: (
    Vec<SplitLine>,
    u32,
    u32,
))
    requires
        ops_fit(ops@, old_lines@.len(), new_lines@.len()),
        diff_counts_fit(ops@),
    ensures
        lines_view(r.0@) == split_rows(ops@, texts_view(old_lines@), texts_view(new_lines@)),
        r.1 == total_added(ops@),
        r.2 == total_deleted(ops@),
{
    let ghost oldv = texts_view(old_lines@);
    let ghost newv = texts_view(new_lines@);
    let mut lines: Vec<SplitLine> = Vec::new();
    let mut additions: u32 = 0;
    let mut deletions: u32 = 0;
    let mut old_lineno: u32 = 1;
    let mut new_lineno: u32 = 1;
    let mut k: usize = 0;
    proof {
        lemma_added_le_new(ops@);
    }
    while k < ops.len()
        invariant
            k <= ops.len(),
            oldv == texts_view(old_lines@),
            newv == texts_view(new_lines@),
            ops_fit(ops@, old_lines@.len(), new_lines@.len()),
            diff_counts_fit(ops@),
            total_added(ops@) <= total_new(ops@),
            total_deleted(ops@) <= total_old(ops@),
            lines_view(lines@) == split_rows(ops@.take(k as int), oldv, newv),
            old_lineno == 1 + total_old(ops@.take(k as int)),
            new_lineno == 1 + total_new(ops@.take(k as int)),
            additions == total_added(ops@.take(k as int)),
            deletions == total_deleted(ops@.take(k as int)),
        decreases ops.len() - k,
    {
        let op = ops[k];
        let ghost prev = ops@.take(k as int);
        let ghost next = ops@.take(k + 1);
        assert(next.drop_last() =~= prev);
        assert(next.last() == op);
        assert(op_fits(ops@[k as int], old_lines@.len(), new_lines@.len()));
        proof {
            lemma_totals_prefix(ops@, k + 1);
            lemma_added_le_new(next);
        }
        let ghost base = lines@;
        let ghost ol = old_lineno as int;
        let ghost nl = new_lineno as int;
        let count: usize = match op {
            LineOp::Equal { len, .. } => len,
            LineOp::Delete { old_len, .. } => old_len,
            LineOp::Insert { new_len, .. } => new_len,
            LineOp::Replace { old_len, new_len, .. } => if old_len >= new_len {
                old_len
            } else {
                new_len
            },
        };
        assert(count == op_row_count(op));
        let mut i: usize = 0;
        while i < count
            invariant
                i <= count,
                count == op_row_count(op),
                op_fits(op, old_lines@.len(), new_lines@.len()),
                oldv == texts_view(old_lines@),
                newv == texts_view(new_lines@),
                lines_view(lines@) == lines_view(base) + op_rows(op, oldv, newv, ol, nl).take(
                    i as int,
                ),
                ol + old_advance(op) <= u32::MAX,
                nl + new_advance(op) <= u32::MAX,
                old_lineno as int == ol + (if i as nat <= old_advance(op) {
                    i as nat
                } else {
                    old_advance(op)
                }),
                new_lineno as int == nl + (if i as nat <= new_advance(op) {
                    i as nat
                } else {
                    new_advance(op)
                }),
                total_added(prev) + added_by(op) <= u32::MAX,
                total_deleted(prev) + deleted_by(op) <= u32::MAX,
                additions as nat == total_added(prev) + (if i as nat <= added_by(op) {
                    i as nat
                } else {
                    added_by(op)
                }),
                deletions as nat == total_deleted(prev) + (if i as nat <= deleted_by(op) {
                    i as nat
                } else {
                    deleted_by(op)
                }),
            decreases count - i,
        {
            let row = make_row(op, old_lines, new_lines, old_lineno, new_lineno, i);
            let ghost expected = op_row(op, oldv, newv, ol, nl, i as int);
            assert(row@ == expected);
            let ghost before = lines@;
            lines.push(row);
            proof {
                assert(lines_view(lines@) =~= lines_view(before).push(row@));
                assert(op_rows(op, oldv, newv, ol, nl).take(i + 1) =~= op_rows(
                    op,
                    oldv,
                    newv,
                    ol,
                    nl,
                ).take(i as int).push(expected));
                assert(lines_view(lines@) =~= lines_view(base) + op_rows(
                    op,
                    oldv,
                    newv,
                    ol,
                    nl,
                ).take(i + 1));
            }
            match op {
                LineOp::Equal { .. } => {
                    old_lineno = old_lineno + 1;
                    new_lineno = new_lineno + 1;
                },
                LineOp::Delete { .. } => {
                    old_lineno = old_lineno + 1;
                    deletions = deletions + 1;
                },
                LineOp::Insert { .. } => {
                    new_lineno = new_lineno + 1;
                    additions = additions + 1;
                },
                LineOp::Replace { old_len, new_len, .. } => {
                    if i < old_len {
                        old_lineno = old_lineno + 1;
                        deletions = deletions + 1;
                    }
                    if i < new_len {
                        new_lineno = new_lineno + 1;
                        additions = additions + 1;
                    }
                },
            }
            i = i + 1;
        }
        proof {
            assert(op_rows(op, oldv, newv, ol, nl).take(count as int) =~= op_rows(
                op,
                oldv,
                newv,
                ol,
                nl,
            ));
            assert(split_rows(next, oldv, newv) == split_rows(prev, oldv, newv) + op_rows(
                op,
                oldv,
                newv,
                1 + total_old(prev) as int,
                1 + total_new(prev) as int,
            ));
        }
        k = k + 1;
    }
    assert(ops@.take(ops@.len() as int) =~= ops@);
    (lines, additions, deletions)
}

/// Row `i` of the rows of `op`, given the current old and new line numbers.
fn make_row(
    op: LineOp,
    old_lines: &Vec<String>,
    new_lines: &Vec<String>,
    old_lineno: u32,
    new_lineno: u32,
    i: usize,
) -> (r: SplitLine)
    requires
        op_fits(op, old_lines@.len(), new_lines@.len()),
        i < op_row_count(op),
    ensures
        r@ == op_row(
            op,
            texts_view(old_lines@),
            texts_view(new_lines@),
            old_lineno - i,
            new_lineno - i,
            i as int,
        ),
{
    let old_count = old_lines.len();
    let new_count = new_lines.len();
    assert(old_count == old_lines@.len() && new_count == new_lines@.len());
    match op {
        LineOp::Equal { old_index: oi, len, .. } => {
            let text = strip_newline(old_lines[oi + i].as_str());
            SplitLine {
                old_lineno: Some(old_lineno),
                new_lineno: Some(new_lineno),
                old_text: text.clone(),
                new_text: text,
                kind: SplitLineKind::Equal,
                old_syntax_runs: Vec::new(),
                new_syntax_runs: Vec::new(),
            }
        },
        LineOp::Delete { old_index, old_len, .. } => SplitLine {
            old_lineno: Some(old_lineno),
            new_lineno: None,
            old_text: strip_newline(old_lines[old_index + i].as_str()),
            new_text: String::new(),
            kind: SplitLineKind::Delete,
            old_syntax_runs: Vec::new(),
            new_syntax_runs: Vec::new(),
        },
        LineOp::Insert { new_index, .. } => SplitLine {
            old_lineno: None,
            new_lineno: Some(new_lineno),
            old_text: String::new(),
            new_text: strip_newline(new_lines[new_index + i].as_str()),
            kind: SplitLineKind::Insert,
            old_syntax_runs: Vec::new(),
            new_syntax_runs: Vec::new(),
        },
        LineOp::Replace { old_index, old_len, new_index, new_len } => {
            let has_old = i < old_len;
            let has_new = i < new_len;
            SplitLine {
                old_lineno: if has_old {
                    Some(old_lineno)
                } else {
                    None
                },
                new_lineno: if has_new {
                    Some(new_lineno)
                } else {
                    None
                },
                old_text: if has_old {
                    strip_newline(old_lines[old_index + i].as_str())
                } else {
                    String::new()
                },
                new_text: if has_new {
                    strip_newline(new_lines[new_index + i].as_str())
                } else {
                    String::new()
                },
                kind: SplitLineKind::Replace,
                old_syntax_runs: Vec::new(),
                new_syntax_runs: Vec::new(),
            }
        },
    }
}

/// Whether `op` only reads existing lines, checked at run time.
fn op_fits_exec(op: LineOp, old_count: usize, new_count: usize) -> (r: bool)
    ensures
        r == op_fits(op, old_count as nat, new_count as nat),
{
    match op {
        LineOp::Equal { old_index, len, .. } => old_index <= old_count && len <= old_count
            - old_index,
        LineOp::Delete { old_index, old_len, .. } => old_index <= old_count && old_len
            <= old_count - old_index,
        LineOp::Insert { new_index, new_len, .. } => new_index <= new_count && new_len
            <= new_count - new_index,
        LineOp::Replace { old_index, old_len, new_index, new_len } => old_index <= old_count
            && old_len <= old_count - old_index && new_index <= new_count && new_len <= new_count
            - new_index,
    }
}

/// Whether the operations fit the two sides and their line numbers fit a
/// `u32`, checked at run time.
fn ops_usable(ops: &Vec<LineOp>, old_count: usize, new_count: usize) -> (r: bool)
    ensures
        r == (ops_fit(ops@, old_count as nat, new_count as nat) && diff_counts_fit(ops@)),
{
    let mut total_o: u64 = 0;
    let mut total_n: u64 = 0;
    let mut k: usize = 0;
    while k < ops.len()
        invariant
            k <= ops.len(),
            forall|j: int| 0 <= j < k ==> op_fits(#[trigger] ops@[j], old_count as nat, new_count as nat),
            total_o == total_old(ops@.take(k as int)),
            total_n == total_new(ops@.take(k as int)),
            1 + total_o <= u32::MAX,
            1 + total_n <= u32::MAX,
        decreases ops.len() - k,
    {
        let op = ops[k];
        let ghost next = ops@.take(k + 1);
        assert(next.drop_last() =~= ops@.take(k as int));
        proof {
            lemma_totals_prefix(ops@, k + 1);
        }
        if !op_fits_exec(op, old_count, new_count) {
            return false;
        }
        let (adv_o, adv_n): (usize, usize) = match op {
            LineOp::Equal { len, .. } => (len, len),
            LineOp::Delete { old_len, .. } => (old_len, 0),
            LineOp::Insert { new_len, .. } => (0, new_len),
            LineOp::Replace { old_len, new_len, .. } => (old_len, new_len),
        };
        assert(adv_o == old_advance(op) && adv_n == new_advance(op));
        if adv_o as u64 > 0xFFFF_FFFEu64 - total_o || adv_n as u64 > 0xFFFF_FFFEu64 - total_n {
            return false;
        }
        total_o = total_o + adv_o as u64;
        total_n = total_n + adv_n as u64;
        k = k + 1;
    }
    assert(ops@.take(ops@.len() as int) =~= ops@);
    true
}

// ---------------------------------------------------------------------------
// syntax runs
// ---------------------------------------------------------------------------

/// The runs of line `lineno` (1-based) of a side: none when the row has no
/// line on that side or the side has no runs for it.
pub open spec fn runs_for(hl: Seq<Seq<SyntaxRun>>, lineno: Option<nat>) -> Seq<SyntaxRun> {
    match lineno {
        Some(n) => if 1 <= n <= hl.len() {
            hl[n - 1]
        } else {
            Seq::empty()
        },
        None => Seq::empty(),
    }
}

/// A row with each side's runs taken by its line number.
pub open spec fn with_runs(row: SplitLineView, old_hl: Seq<Seq<SyntaxRun>>, new_hl: Seq<Seq<SyntaxRun>>) -> SplitLineView {
    SplitLineView {
        old_lineno: row.old_lineno,
        new_lineno: row.new_lineno,
        old_text: row.old_text,
        new_text: row.new_text,
        kind: row.kind,
        old_syntax_runs: runs_for(old_hl, row.old_lineno),
        new_syntax_runs: runs_for(new_hl, row.new_lineno),
    }
}

pub open spec fn rows_with_runs(
    rows: Seq<SplitLineView>,
    old_hl: Seq<Seq<SyntaxRun>>,
    new_hl: Seq<Seq<SyntaxRun>>,
) -> Seq<SplitLineView> {
    rows.map_values(|row: SplitLineView| with_runs(row, old_hl, new_hl))
}

fn copy_runs(v: &Vec<SyntaxRun>) -> (r: Vec<SyntaxRun>)
    ensures
        r@ == v@,
{
    let mut r: Vec<SyntaxRun> = Vec::new();
    let mut i: usize = 0;
    while i < v.len()
        invariant
            i <= v@.len(),
            r@ == v@.take(i as int),
        decreases v@.len() - i,
    {
        r.push(v[i]);
        i = i + 1;
        assert(r@ =~= v@.take(i as int));
    }
    assert(v@.take(v@.len() as int) =~= v@);
    r
}

fn runs_for_line(hl: &Vec<Vec<SyntaxRun>>, lineno: Option<u32>) -> (r: Vec<SyntaxRun>)
    ensures
        r@ == runs_for(
            runs_view(hl@),
            match lineno {
                Some(n) => Some(n as nat),
                None => None,
            },
        ),
{
    match lineno {
        Some(n) => if 1 <= n && ((n - 1) as usize) < hl.len() {
            copy_runs(&hl[(n - 1) as usize])
        } else {
            Vec::new()
        },
        None => Vec::new(),
    }
}

/// Gives each row the runs of its old and its new line, by line number.
pub fn attach_syntax_runs(
    lines: Vec<SplitLine>,
    old_hl: &Vec<Vec<SyntaxRun>>,
    new_hl: &Vec<Vec<SyntaxRun>>,
) -> (r: Vec<SplitLine>)
    ensures
        lines_view(r@) == rows_with_runs(lines_view(lines@), runs_view(old_hl@), runs_view(new_hl@)),
{
    let ghost want = rows_with_runs(lines_view(lines@), runs_view(old_hl@), runs_view(new_hl@));
    let mut out: Vec<SplitLine> = Vec::new();
    let mut i: usize = 0;
    while i < lines.len()
        invariant
            i <= lines@.len(),
            want == rows_with_runs(lines_view(lines@), runs_view(old_hl@), runs_view(new_hl@)),
            lines_view(out@) == want.take(i as int),
        decreases lines@.len() - i,
    {
        let row = &lines[i];
        let new_row = SplitLine {
            old_lineno: row.old_lineno,
            new_lineno: row.new_lineno,
            old_text: row.old_text.clone(),
            new_text: row.new_text.clone(),
            kind: row.kind,
            old_syntax_runs: runs_for_line(old_hl, row.old_lineno),
            new_syntax_runs: runs_for_line(new_hl, row.new_lineno),
        };
        let ghost prev = out@;
        out.push(new_row);
        proof {
            assert(new_row@ == want[i as int]);
            assert(lines_view(out@) =~= lines_view(prev).push(new_row@));
            assert(want.take(i + 1) =~= want.take(i as int).push(want[i as int]));
        }
        i = i + 1;
    }
    assert(want.take(lines@.len() as int) =~= want);
    out
}

/// Builds the side-by-side diff of `old` against `new` for `file_path`.
///
/// The line operations come from the `similar` crate. `None` is returned
/// only when a line number would not fit a `u32`. Each row carries the
/// syntax runs of its old and new line, highlighted by the file's
/// extension. The display rows collapse unchanged regions, with no region
/// expanded.
pub fn build_split_diff(file_path: &str, old: &str, new: &str) -> (r: Option<DiffData>)
    ensures
        r is Some <==> (1 + line_tokens(old@).len() <= u32::MAX && 1 + line_tokens(new@).len()
            <= u32::MAX),
        r matches Some(d) ==> {
            &&& d.file_path@ == file_path@
            &&& lines_view(d.lines@) == rows_with_runs(
                split_rows(line_diff_ops(old@, new@), line_tokens(old@), line_tokens(new@)),
                highlighted(old@, file_path@),
                highlighted(new@, file_path@),
            )
            &&& forall|i: int| 0 <= i < d.lines@.len() ==> row_fits_kind(#[trigger] d.lines@[i]@)
            &&& old@ == new@ ==> {
                &&& d.additions == 0
                &&& d.deletions == 0
                &&& d.lines@.len() == line_tokens(old@).len()
                &&& forall|i: int|
                    0 <= i < d.lines@.len() ==> {
                        let l = #[trigger] d.lines@[i];
                        &&& l.kind == SplitLineKind::Equal
                        &&& l.old_lineno == Some((i + 1) as u32)
                        &&& l.new_lineno == Some((i + 1) as u32)
                        &&& l.old_text@ == strip_nl(line_tokens(old@)[i])
                        &&& l.new_text@ == l.old_text@
                    }
            }
            &&& old_texts(lines_view(d.lines@)) == strip_all(line_tokens(old@))
            &&& new_texts(lines_view(d.lines@)) == strip_all(line_tokens(new@))
            &&& d.additions == total_added(line_diff_ops(old@, new@))
            &&& d.deletions == total_deleted(line_diff_ops(old@, new@))
            &&& d.display_rows@ == display_rows(line_kinds(d.lines@), Set::empty())
            &&& d.expanded_sections@ == Set::<usize>::empty()
        },
{
    let ops = diff_line_ops(old, new);
    let old_lines = tokenize_lines(old);
    let new_lines = tokenize_lines(new);
    assert(texts_view(old_lines@) == line_tokens(old@));
    assert(texts_view(new_lines@) == line_tokens(new@));
    proof {
        lemma_tiling_ops_fit(ops@, old_lines@.len(), new_lines@.len());
    }
    if !ops_usable(&ops, old_lines.len(), new_lines.len()) {
        return None;
    }
    let (rows, additions, deletions) = split_lines_from_ops(&ops, &old_lines, &new_lines);
    let old_hl = highlight_lines(old, file_path);
    let new_hl = highlight_lines(new, file_path);
    let lines = attach_syntax_runs(rows, &old_hl, &new_hl);
    proof {
        law_rows_show_both_texts(ops@, old_lines@.map_values(|l: String| l@), new_lines@.map_values(|l: String| l@));
        lemma_runs_keep_texts(lines_view(rows@), runs_view(old_hl@), runs_view(new_hl@));
        let sr = split_rows(ops@, texts_view(old_lines@), texts_view(new_lines@));
        law_rows_fit_their_kind(ops@, texts_view(old_lines@), texts_view(new_lines@));
        if old@ == new@ {
            let toks = texts_view(old_lines@);
            law_identical_texts_give_equal_rows(ops@, toks);
            assert(lines_view(lines@).len() == lines@.len());
            assert forall|i: int| 0 <= i < lines@.len() implies {
                let l = #[trigger] lines@[i];
                &&& l.kind == SplitLineKind::Equal
                &&& l.old_lineno == Some((i + 1) as u32)
                &&& l.new_lineno == Some((i + 1) as u32)
                &&& l.old_text@ == strip_nl(line_tokens(old@)[i])
                &&& l.new_text@ == l.old_text@
            } by {
                assert(lines_view(lines@)[i] == lines@[i]@);
                assert(lines_view(rows@)[i] == sr[i]);
                assert(sr[i] == unchanged_row(toks, i));
            }
        }
        assert forall|i: int| 0 <= i < lines@.len() implies row_fits_kind(#[trigger] lines@[i]@) by {
            assert(lines_view(lines@)[i] == lines@[i]@);
            assert(lines_view(rows@)[i] == sr[i]);
        }
    }
    proof {
        assert(lines_view(lines@).len() == lines@.len());
        assert forall|i: int| 0 <= i < lines@.len() implies lines@[i].kind == rows@[i].kind by {
            assert(lines_view(lines@)[i] == lines@[i]@);
            assert(lines_view(rows@)[i] == rows@[i]@);
        }
        assert(line_kinds(lines@) =~= line_kinds(rows@));
    }
    let expanded: HashSet<usize> = HashSet::new();
    let display_rows = build_display_rows(lines.as_slice(), &expanded);
    Some(
        DiffData {
            file_path: string_from_chars(str_chars(file_path).as_slice()),
            lines,
            display_rows,
            expanded_sections: expanded,
            additions,
            deletions,
        },
    )
}

// ---------------------------------------------------------------------------
// collapsed display
// ---------------------------------------------------------------------------

pub open spec fn line_kinds(lines: Seq<SplitLine>) -> Seq<SplitLineKind> {
    lines.map_values(|l: SplitLine| l.kind)
}

/// A line is visible when a changed line lies within `CONTEXT_LINES` of it.
pub open spec fn is_visible(kinds: Seq<SplitLineKind>, i: int) -> bool {
    exists|j: int|
        0 <= j < kinds.len() && #[trigger] kinds[j] != SplitLineKind::Equal && j
            - CONTEXT_LINES <= i <= j + CONTEXT_LINES
}

/// The end (exclusive) of the run of hidden lines that starts at `i`.
pub open spec fn hidden_run_end(kinds: Seq<SplitLineKind>, i: int) -> int
    decreases kinds.len() - i,
{
    if i >= kinds.len() || is_visible(kinds, i) {
        i
    } else {
        hidden_run_end(kinds, i + 1)
    }
}

pub proof fn lemma_hidden_run_end(kinds: Seq<SplitLineKind>, i: int)
    requires
        0 <= i,
    ensures
        i <= hidden_run_end(kinds, i),
        i < kinds.len() ==> hidden_run_end(kinds, i) <= kinds.len(),
        i < kinds.len() && !is_visible(kinds, i) ==> i < hidden_run_end(kinds, i),
        forall|x: int| i <= x < hidden_run_end(kinds, i) ==> !is_visible(kinds, x),
        hidden_run_end(kinds, i) < kinds.len() ==> is_visible(kinds, hidden_run_end(kinds, i)),
    decreases kinds.len() - i,
{
    if i < kinds.len() && !is_visible(kinds, i) {
        lemma_hidden_run_end(kinds, i + 1);
    }
}

/// `Line` rows for the indices `start..end`.
pub open spec fn line_rows(start: int, end: int) -> Seq<DiffDisplayRow> {
    Seq::new((end - start) as nat, |k: int| DiffDisplayRow::Line((start + k) as usize))
}

/// The display rows from line `i` on: visible lines one by one; each run of
/// hidden lines as one `Collapsed` row, or, when the run's first index is
/// among `expanded`, as an `ExpandedHeader` row followed by its lines.
pub open spec fn display_rows_from(
    kinds: Seq<SplitLineKind>,
    expanded: Set<usize>,
    i: int,
) -> Seq<DiffDisplayRow>
    decreases kinds.len() - i,
{
    if i < 0 || i >= kinds.len() {
        Seq::empty()
    } else if is_visible(kinds, i) {
        seq![DiffDisplayRow::Line(i as usize)] + display_rows_from(kinds, expanded, i + 1)
    } else {
        let end = hidden_run_end(kinds, i);
        proof {
            lemma_hidden_run_end(kinds, i);
        }
        let count = (end - i) as usize;
        if expanded.contains(i as usize) {
            seq![DiffDisplayRow::ExpandedHeader { hidden_count: count, start_index: i as usize }]
                + line_rows(i, end) + display_rows_from(kinds, expanded, end)
        } else {
            seq![DiffDisplayRow::Collapsed { hidden_count: count, start_index: i as usize }]
                + display_rows_from(kinds, expanded, end)
        }
    }
}

pub open spec fn display_rows(kinds: Seq<SplitLineKind>, expanded: Set<usize>) -> Seq<
    DiffDisplayRow,
> {
    display_rows_from(kinds, expanded, 0)
}

/// Whether a run of hidden lines starts at `k`.
pub open spec fn run_starts_at(kinds: Seq<SplitLineKind>, k: int) -> bool {
    0 <= k < kinds.len() && !is_visible(kinds, k) && (k == 0 || is_visible(kinds, k - 1))
}

/// Whether the display walk can reach `i` at the start of a row: the
/// start, past the end, a visible line, or just after one.
spec fn walk_point(kinds: Seq<SplitLineKind>, i: int) -> bool {
    i == 0 || i >= kinds.len() || is_visible(kinds, i) || (i > 0 && is_visible(kinds, i - 1))
}

proof fn lemma_expanding_elsewhere(kinds: Seq<SplitLineKind>, exp: Set<usize>, k: usize, i: int)
    requires
        kinds.len() <= usize::MAX,
        !run_starts_at(kinds, k as int),
        0 <= i,
        walk_point(kinds, i),
    ensures
        display_rows_from(kinds, exp.insert(k), i) == display_rows_from(kinds, exp, i),
    decreases kinds.len() - i,
{
    if i < kinds.len() {
        if is_visible(kinds, i) {
            lemma_expanding_elsewhere(kinds, exp, k, i + 1);
        } else {
            lemma_hidden_run_end(kinds, i);
            let end = hidden_run_end(kinds, i);
            lemma_expanding_elsewhere(kinds, exp, k, end);
            assert(run_starts_at(kinds, i));
            assert(i as usize != k);
            assert(exp.insert(k).contains(i as usize) == exp.contains(i as usize));
        }
    }
}

/// Expanding at an index where no run of hidden lines starts changes no
/// display row.
pub proof fn law_expanding_elsewhere_changes_nothing(kinds: Seq<SplitLineKind>, exp: Set<usize>, k: usize)
    requires
        kinds.len() <= usize::MAX,
        !run_starts_at(kinds, k as int),
    ensures
        display_rows(kinds, exp.insert(k)) == display_rows(kinds, exp),
{
    lemma_expanding_elsewhere(kinds, exp, k, 0);
}

/// The rows with the `Collapsed` row of the run that starts at `s` unfolded
/// into its `ExpandedHeader` row followed by the run's lines.
pub open spec fn unfold_at(rows: Seq<DiffDisplayRow>, s: usize) -> Seq<DiffDisplayRow>
    decreases rows.len(),
{
    if rows.len() == 0 {
        Seq::empty()
    } else {
        let rest = unfold_at(rows.drop_first(), s);
        match rows[0] {
            DiffDisplayRow::Collapsed { hidden_count, start_index } => if start_index == s {
                seq![DiffDisplayRow::ExpandedHeader { hidden_count, start_index }] + line_rows(
                    s as int,
                    s + hidden_count,
                ) + rest
            } else {
                seq![rows[0]] + rest
            },
            _ => seq![rows[0]] + rest,
        }
    }
}

proof fn lemma_unfold_concat(a: Seq<DiffDisplayRow>, b: Seq<DiffDisplayRow>, s: usize)
    ensures
        unfold_at(a + b, s) == unfold_at(a, s) + unfold_at(b, s),
    decreases a.len(),
{
    if a.len() == 0 {
        assert(a + b =~= b);
        assert(unfold_at(a, s) + unfold_at(b, s) =~= unfold_at(b, s));
    } else {
        lemma_unfold_concat(a.drop_first(), b, s);
        assert((a + b).drop_first() =~= a.drop_first() + b);
        assert((a + b)[0] == a[0]);
        let ua = unfold_at(a.drop_first(), s);
        let ub = unfold_at(b, s);
        match a[0] {
            DiffDisplayRow::Collapsed { hidden_count, start_index } => {
                if start_index == s {
                    let h = seq![DiffDisplayRow::ExpandedHeader { hidden_count, start_index }]
                        + line_rows(s as int, s + hidden_count);
                    assert(h + (ua + ub) =~= (h + ua) + ub);
                } else {
                    assert(seq![a[0]] + (ua + ub) =~= (seq![a[0]] + ua) + ub);
                }
            },
            _ => {
                assert(seq![a[0]] + (ua + ub) =~= (seq![a[0]] + ua) + ub);
            },
        }
    }
}

proof fn lemma_unfold_lines(start: int, end: int, s: usize)
    requires
        start <= end,
    ensures
        unfold_at(line_rows(start, end), s) == line_rows(start, end),
    decreases end - start,
{
    let rows = line_rows(start, end);
    if start < end {
        lemma_unfold_lines(start + 1, end, s);
        assert(rows.drop_first() =~= line_rows(start + 1, end));
        assert(rows[0] == DiffDisplayRow::Line(start as usize));
        assert(seq![rows[0]] + line_rows(start + 1, end) =~= rows);
    } else {
        assert(rows =~= Seq::<DiffDisplayRow>::empty());
    }
}

proof fn lemma_unfold_single(r: DiffDisplayRow, s: usize)
    ensures
        unfold_at(seq![r], s) == match r {
            DiffDisplayRow::Collapsed { hidden_count, start_index } => if start_index == s {
                seq![DiffDisplayRow::ExpandedHeader { hidden_count, start_index }] + line_rows(
                    s as int,
                    s + hidden_count,
                )
            } else {
                seq![r]
            },
            _ => seq![r],
        },
{
    let rows = seq![r];
    assert(rows.drop_first() =~= Seq::<DiffDisplayRow>::empty());
    assert(unfold_at(Seq::<DiffDisplayRow>::empty(), s) =~= Seq::<DiffDisplayRow>::empty());
    match r {
        DiffDisplayRow::Collapsed { hidden_count, start_index } => {
            if start_index == s {
                let h = seq![DiffDisplayRow::ExpandedHeader { hidden_count, start_index }] + line_rows(
                    s as int,
                    s + hidden_count,
                );
                assert(h + Seq::<DiffDisplayRow>::empty() =~= h);
            } else {
                assert(seq![r] + Seq::<DiffDisplayRow>::empty() =~= seq![r]);
            }
        },
        _ => {
            assert(seq![r] + Seq::<DiffDisplayRow>::empty() =~= seq![r]);
        },
    }
}

proof fn lemma_expanding_run(kinds: Seq<SplitLineKind>, exp: Set<usize>, s: usize, i: int)
    requires
        kinds.len() <= usize::MAX,
        run_starts_at(kinds, s as int),
        !exp.contains(s),
        0 <= i,
        walk_point(kinds, i),
    ensures
        display_rows_from(kinds, exp.insert(s), i) == unfold_at(display_rows_from(kinds, exp, i), s),
    decreases kinds.len() - i,
{
    if i >= kinds.len() {
        assert(display_rows_from(kinds, exp, i) =~= Seq::<DiffDisplayRow>::empty());
    } else if is_visible(kinds, i) {
        lemma_expanding_run(kinds, exp, s, i + 1);
        let r = DiffDisplayRow::Line(i as usize);
        lemma_unfold_concat(seq![r], display_rows_from(kinds, exp, i + 1), s);
        lemma_unfold_single(r, s);
    } else {
        lemma_hidden_run_end(kinds, i);
        let end = hidden_run_end(kinds, i);
        lemma_expanding_run(kinds, exp, s, end);
        let rest = display_rows_from(kinds, exp, end);
        let count = (end - i) as usize;
        let lines = line_rows(i, end);
        let header = DiffDisplayRow::ExpandedHeader { hidden_count: count, start_index: i as usize };
        let folded = DiffDisplayRow::Collapsed { hidden_count: count, start_index: i as usize };
        assert(i + count == end);
        if exp.contains(i as usize) {
            assert(i as usize != s);
            lemma_unfold_concat(seq![header] + lines, rest, s);
            lemma_unfold_concat(seq![header], lines, s);
            lemma_unfold_single(header, s);
            lemma_unfold_lines(i, end, s);
        } else {
            lemma_unfold_concat(seq![folded], rest, s);
            lemma_unfold_single(folded, s);
            if i as usize == s {
                assert(exp.insert(s).contains(i as usize));
                assert(line_rows(s as int, s + count) == lines);
            } else {
                assert(!exp.insert(s).contains(i as usize));
            }
        }
    }
}

/// Expanding the run of hidden lines that starts at `s`, when it is
/// collapsed, unfolds its `Collapsed` row into an `ExpandedHeader` row
/// followed by the run's lines, and changes no other row.
pub proof fn law_expanding_a_run_unfolds_it(kinds: Seq<SplitLineKind>, exp: Set<usize>, s: usize)
    requires
        kinds.len() <= usize::MAX,
        run_starts_at(kinds, s as int),
        !exp.contains(s),
    ensures
        display_rows(kinds, exp.insert(s)) == unfold_at(display_rows(kinds, exp), s),
{
    lemma_expanding_run(kinds, exp, s, 0);
}

proof fn lemma_line_rows_not_collapsed(start: int, end: int, h: usize, s: usize)
    requires
        start <= end,
    ensures
        !line_rows(start, end).contains(DiffDisplayRow::Collapsed { hidden_count: h, start_index: s }),
{
    let rows = line_rows(start, end);
    if rows.contains(DiffDisplayRow::Collapsed { hidden_count: h, start_index: s }) {
        let j = choose|j: int|
            0 <= j < rows.len() && rows[j] == DiffDisplayRow::Collapsed { hidden_count: h, start_index: s };
        assert(rows[j] == DiffDisplayRow::Line((start + j) as usize));
    }
}

proof fn lemma_concat_contains<T>(a: Seq<T>, b: Seq<T>, x: T)
    ensures
        (a + b).contains(x) <==> (a.contains(x) || b.contains(x)),
{
    if (a + b).contains(x) {
        let j = choose|j: int| 0 <= j < (a + b).len() && (a + b)[j] == x;
        if j < a.len() {
            assert(a[j] == x);
        } else {
            assert(b[j - a.len()] == x);
        }
    }
    if a.contains(x) {
        let j = choose|j: int| 0 <= j < a.len() && a[j] == x;
        assert((a + b)[j] == x);
    }
    if b.contains(x) {
        let j = choose|j: int| 0 <= j < b.len() && b[j] == x;
        assert((a + b)[j + a.len()] == x);
    }
}

/// A `Collapsed` row stands for a run of hidden lines that starts at its
/// index, is not expanded, and is as long as its count.
proof fn lemma_collapsed_row_is_a_run(kinds: Seq<SplitLineKind>, exp: Set<usize>, h: usize, s: usize, i: int)
    requires
        kinds.len() <= usize::MAX,
        0 <= i,
        walk_point(kinds, i),
        display_rows_from(kinds, exp, i).contains(DiffDisplayRow::Collapsed { hidden_count: h, start_index: s }),
    ensures
        run_starts_at(kinds, s as int),
        !exp.contains(s),
    decreases kinds.len() - i,
{
    let x = DiffDisplayRow::Collapsed { hidden_count: h, start_index: s };
    if i >= kinds.len() {
    } else if is_visible(kinds, i) {
        let first = seq![DiffDisplayRow::Line(i as usize)];
        lemma_concat_contains(first, display_rows_from(kinds, exp, i + 1), x);
        if !display_rows_from(kinds, exp, i + 1).contains(x) {
            assert(first[0] != x);
        } else {
            lemma_collapsed_row_is_a_run(kinds, exp, h, s, i + 1);
        }
    } else {
        lemma_hidden_run_end(kinds, i);
        let end = hidden_run_end(kinds, i);
        let count = (end - i) as usize;
        let rest = display_rows_from(kinds, exp, end);
        if exp.contains(i as usize) {
            let header = seq![DiffDisplayRow::ExpandedHeader { hidden_count: count, start_index: i as usize }];
            lemma_concat_contains(header + line_rows(i, end), rest, x);
            lemma_concat_contains(header, line_rows(i, end), x);
            lemma_line_rows_not_collapsed(i, end, h, s);
            if !rest.contains(x) {
                assert(header[0] != x);
            } else {
                lemma_collapsed_row_is_a_run(kinds, exp, h, s, end);
            }
        } else {
            let first = seq![DiffDisplayRow::Collapsed { hidden_count: count, start_index: i as usize }];
            lemma_concat_contains(first, rest, x);
            if rest.contains(x) {
                lemma_collapsed_row_is_a_run(kinds, exp, h, s, end);
            } else {
                assert(first[0] == x);
                assert(run_starts_at(kinds, i));
            }
        }
    }
}

/// A run of hidden lines that is not expanded shows as a `Collapsed` row.
proof fn lemma_run_shows_collapsed(kinds: Seq<SplitLineKind>, exp: Set<usize>, k: usize, i: int)
    requires
        kinds.len() <= usize::MAX,
        run_starts_at(kinds, k as int),
        !exp.contains(k),
        0 <= i <= k,
        walk_point(kinds, i),
    ensures
        display_rows_from(kinds, exp, i).contains(
            DiffDisplayRow::Collapsed { hidden_count: (hidden_run_end(kinds, k as int) - k) as usize, start_index: k },
        ),
    decreases kinds.len() - i,
{
    let x = DiffDisplayRow::Collapsed { hidden_count: (hidden_run_end(kinds, k as int) - k) as usize, start_index: k };
    if is_visible(kinds, i) {
        let first = seq![DiffDisplayRow::Line(i as usize)];
        lemma_run_shows_collapsed(kinds, exp, k, i + 1);
        lemma_concat_contains(first, display_rows_from(kinds, exp, i + 1), x);
    } else {
        lemma_hidden_run_end(kinds, i);
        let end = hidden_run_end(kinds, i);
        let count = (end - i) as usize;
        let rest = display_rows_from(kinds, exp, end);
        if i == k {
            let first = seq![DiffDisplayRow::Collapsed { hidden_count: count, start_index: i as usize }];
            assert(first[0] == x);
            lemma_concat_contains(first, rest, x);
        } else {
            assert(is_visible(kinds, k - 1));
            assert(end <= k);
            lemma_run_shows_collapsed(kinds, exp, k, end);
            if exp.contains(i as usize) {
                let header = seq![DiffDisplayRow::ExpandedHeader { hidden_count: count, start_index: i as usize }];
                lemma_concat_contains(header + line_rows(i, end), rest, x);
            } else {
                let first = seq![DiffDisplayRow::Collapsed { hidden_count: count, start_index: i as usize }];
                lemma_concat_contains(first, rest, x);
            }
        }
    }
}

/// Expanding the section of a `Collapsed { hidden_count: h, start_index: s }`
/// row replaces that row by an `ExpandedHeader` with the same count and
/// index followed by the lines `s..s + h`; every other row stays.
pub proof fn law_expanding_a_collapsed_row(kinds: Seq<SplitLineKind>, exp: Set<usize>, h: usize, s: usize)
    requires
        kinds.len() <= usize::MAX,
        display_rows(kinds, exp).contains(DiffDisplayRow::Collapsed { hidden_count: h, start_index: s }),
    ensures
        display_rows(kinds, exp.insert(s)) == unfold_at(display_rows(kinds, exp), s),
{
    lemma_collapsed_row_is_a_run(kinds, exp, h, s, 0);
    law_expanding_a_run_unfolds_it(kinds, exp, s);
}

/// Expanding at an index that no `Collapsed` row starts at changes no row.
pub proof fn law_expanding_no_collapsed_row_changes_nothing(kinds: Seq<SplitLineKind>, exp: Set<usize>, k: usize)
    requires
        kinds.len() <= usize::MAX,
        forall|h: usize|
            !display_rows(kinds, exp).contains(DiffDisplayRow::Collapsed { hidden_count: h, start_index: k }),
    ensures
        display_rows(kinds, exp.insert(k)) == display_rows(kinds, exp),
{
    if run_starts_at(kinds, k as int) {
        if !exp.contains(k) {
            lemma_run_shows_collapsed(kinds, exp, k, 0);
            let h = (hidden_run_end(kinds, k as int) - k) as usize;
            assert(!display_rows(kinds, exp).contains(
                DiffDisplayRow::Collapsed { hidden_count: h, start_index: k },
            ));
            assert(false);
        }
        assert(exp.insert(k) =~= exp);
    } else {
        law_expanding_elsewhere_changes_nothing(kinds, exp, k);
    }
}

/// Marks the lines within `CONTEXT_LINES` of a change.
#[verifier::spinoff_prover]
#[verifier::rlimit(40)]
fn visible_lines(lines: &[SplitLine]) -> (r: Vec<bool>)
    ensures
        r@.len() == lines@.len(),
        forall|x: int| 0 <= x < lines@.len() ==> r@[x] == is_visible(line_kinds(lines@), x),
{
    let len = lines.len();
    let ghost kinds = line_kinds(lines@);
    let mut visible: Vec<bool> = Vec::new();
    let mut x: usize = 0;
    while x < len
        invariant
            x <= len == lines@.len(),
            visible@.len() == x,
            forall|y: int| 0 <= y < x ==> !visible@[y],
        decreases len - x,
    {
        visible.push(false);
        x = x + 1;
    }
    let mut j: usize = 0;
    while j < len
        invariant
            j <= len == lines@.len(),
            kinds == line_kinds(lines@),
            visible@.len() == len,
            forall|y: int|
                0 <= y < len ==> (visible@[y] <==> exists|w: int|
                    0 <= w < j && #[trigger] kinds[w] != SplitLineKind::Equal && w
                        - CONTEXT_LINES <= y <= w + CONTEXT_LINES),
        decreases len - j,
    {
        let ghost before = visible@;
        let changed = lines[j].kind != SplitLineKind::Equal;
        assert(changed == (kinds[j as int] != SplitLineKind::Equal));
        if changed {
            let start = if j >= CONTEXT_LINES {
                j - CONTEXT_LINES
            } else {
                0
            };
            let end = if len - j > CONTEXT_LINES {
                j + CONTEXT_LINES + 1
            } else {
                len
            };
            let mut y: usize = start;
            while y < end
                invariant
                    start <= y <= end <= len,
                    visible@.len() == len,
                    before.len() == len,
                    forall|z: int|
                        0 <= z < len ==> visible@[z] == (before[z] || (start <= z < y)),
                decreases end - y,
            {
                visible.set(y, true);
                y = y + 1;
            }
            assert forall|z: int| 0 <= z < len implies visible@[z] == (before[z] || (changed && j
                - CONTEXT_LINES <= z <= j + CONTEXT_LINES)) by {
                assert(y == end);
                assert(visible@[z] == (before[z] || (start <= z < y)));
                assert((start <= z < end) == (j - CONTEXT_LINES <= z <= j + CONTEXT_LINES));
            }
        }
        assert(forall|z: int|
            0 <= z < len ==> visible@[z] == (before[z] || (changed && j - CONTEXT_LINES <= z
                <= j + CONTEXT_LINES)));
        proof {
            assert forall|y: int| 0 <= y < len implies (visible@[y] <==> exists|w: int|
                0 <= w < j + 1 && #[trigger] kinds[w] != SplitLineKind::Equal && w
                    - CONTEXT_LINES <= y <= w + CONTEXT_LINES) by {
                if visible@[y] {
                    if before[y] {
                        let w = choose|w: int|
                            0 <= w < j && #[trigger] kinds[w] != SplitLineKind::Equal && w
                                - CONTEXT_LINES <= y <= w + CONTEXT_LINES;
                        assert(kinds[w] != SplitLineKind::Equal);
                    } else {
                        assert(kinds[j as int] != SplitLineKind::Equal);
                    }
                } else {
                    if exists|w: int|
                        0 <= w < j + 1 && #[trigger] kinds[w] != SplitLineKind::Equal && w
                            - CONTEXT_LINES <= y <= w + CONTEXT_LINES {
                        let w = choose|w: int|
                            0 <= w < j + 1 && #[trigger] kinds[w] != SplitLineKind::Equal && w
                                - CONTEXT_LINES <= y <= w + CONTEXT_LINES;
                        if w < j {
                            assert(kinds[w] != SplitLineKind::Equal);
                            assert(before[y]);
                        }
                    }
                }
            }
        }
        j = j + 1;
    }
    visible
}

/// Builds the display rows of a diff: changed lines and their context are
/// shown; each other run of unchanged lines is folded into one row, unless
/// its first index is in `expanded_sections`, in which case a header row is
/// followed by all of its lines.
pub fn build_display_rows(lines: &[SplitLine], expanded_sections: &HashSet<usize>) -> (r: Vec<
    DiffDisplayRow,
>)
    ensures
        r@ == display_rows(line_kinds(lines@), expanded_sections@),
{
    let len = lines.len();
    let ghost kinds = line_kinds(lines@);
    let ghost expanded = expanded_sections@;
    let mut rows: Vec<DiffDisplayRow> = Vec::new();
    if len == 0 {
        return rows;
    }
    let visible = visible_lines(lines);
    let mut i: usize = 0;
    while i < len
        invariant
            i <= len == lines@.len() == kinds.len(),
            kinds == line_kinds(lines@),
            expanded == expanded_sections@,
            visible@.len() == len,
            forall|x: int| 0 <= x < len ==> visible@[x] == is_visible(kinds, x),
            rows@ + display_rows_from(kinds, expanded, i as int) == display_rows(kinds, expanded),
        decreases len - i,
    {
        if visible[i] {
            let ghost before = rows@;
            rows.push(DiffDisplayRow::Line(i));
            assert(rows@ + display_rows_from(kinds, expanded, i + 1) =~= before
                + display_rows_from(kinds, expanded, i as int));
            i = i + 1;
        } else {
            let start = i;
            proof {
                lemma_hidden_run_end(kinds, start as int);
            }
            while i < len && !visible[i]
                invariant
                    start <= i <= len == kinds.len(),
                    visible@.len() == len,
                    forall|x: int| 0 <= x < len ==> visible@[x] == is_visible(kinds, x),
                    i <= hidden_run_end(kinds, start as int),
                    forall|x: int| start <= x < hidden_run_end(kinds, start as int) ==> !is_visible(kinds, x),
                    hidden_run_end(kinds, start as int) < len ==> is_visible(kinds, hidden_run_end(kinds, start as int)),
                    hidden_run_end(kinds, start as int) <= len,
                decreases len - i,
            {
                i = i + 1;
            }
            if i < len {
                assert(visible@[i as int]);
                assert(is_visible(kinds, i as int));
            }
            assert(i == hidden_run_end(kinds, start as int));
            let hidden_count = i - start;
            let ghost before = rows@;
            if expanded_sections.contains(&start) {
                rows.push(DiffDisplayRow::ExpandedHeader { hidden_count, start_index: start });
                let mut j: usize = start;
                while j < i
                    invariant
                        start <= j <= i,
                        rows@ == before.push(
                            DiffDisplayRow::ExpandedHeader { hidden_count, start_index: start },
                        ) + line_rows(start as int, j as int),
                    decreases i - j,
                {
                    rows.push(DiffDisplayRow::Line(j));
                    j = j + 1;
                    assert(rows@ =~= before.push(
                        DiffDisplayRow::ExpandedHeader { hidden_count, start_index: start },
                    ) + line_rows(start as int, j as int));
                }
                assert(rows@ + display_rows_from(kinds, expanded, i as int) =~= before
                    + display_rows_from(kinds, expanded, start as int));
            } else {
                rows.push(DiffDisplayRow::Collapsed { hidden_count, start_index: start });
                assert(rows@ + display_rows_from(kinds, expanded, i as int) =~= before
                    + display_rows_from(kinds, expanded, start as int));
            }
        }
    }
    assert(display_rows_from(kinds, expanded, len as int) =~= Seq::<DiffDisplayRow>::empty());
    assert(rows@ =~= display_rows(kinds, expanded));
    rows
}

// ---------------------------------------------------------------------------
// line numbers
// ---------------------------------------------------------------------------

/// The old line numbers that rows show, in order.
pub open spec fn old_linenos(rows: Seq<SplitLineView>) -> Seq<nat>
    decreases rows.len(),
{
    if rows.len() == 0 {
        Seq::empty()
    } else {
        let rest = old_linenos(rows.drop_last());
        match rows.last().old_lineno {
            Some(n) => rest.push(n),
            None => rest,
        }
    }
}

/// The new line numbers that rows show, in order.
pub open spec fn new_linenos(rows: Seq<SplitLineView>) -> Seq<nat>
    decreases rows.len(),
{
    if rows.len() == 0 {
        Seq::empty()
    } else {
        let rest = new_linenos(rows.drop_last());
        match rows.last().new_lineno {
            Some(n) => rest.push(n),
            None => rest,
        }
    }
}

/// `start`, `start + 1`, ... : `count` numbers.
pub open spec fn numbered_from(start: int, count: nat) -> Seq<nat> {
    Seq::new(count, |i: int| (start + i) as nat)
}

proof fn lemma_linenos_concat(a: Seq<SplitLineView>, b: Seq<SplitLineView>)
    ensures
        old_linenos(a + b) == old_linenos(a) + old_linenos(b),
        new_linenos(a + b) == new_linenos(a) + new_linenos(b),
    decreases b.len(),
{
    if b.len() == 0 {
        assert(a + b =~= a);
        assert(old_linenos(a) + old_linenos(b) =~= old_linenos(a));
        assert(new_linenos(a) + new_linenos(b) =~= new_linenos(a));
    } else {
        lemma_linenos_concat(a, b.drop_last());
        assert((a + b).drop_last() =~= a + b.drop_last());
        assert((a + b).last() == b.last());
        let ob = old_linenos(b.drop_last());
        let nb = new_linenos(b.drop_last());
        match b.last().old_lineno {
            Some(n) => assert(old_linenos(a) + ob.push(n) =~= (old_linenos(a) + ob).push(n)),
            None => {},
        }
        match b.last().new_lineno {
            Some(n) => assert(new_linenos(a) + nb.push(n) =~= (new_linenos(a) + nb).push(n)),
            None => {},
        }
    }
}

/// The first `m` rows of an operation show the old line numbers from `ol`
/// up to the old lines they consume, and likewise on the new side.
proof fn lemma_op_rows_prefix(op: LineOp, old: Seq<Seq<char>>, new: Seq<Seq<char>>, ol: int, nl: int, m: int)
    requires
        ol >= 1,
        nl >= 1,
        0 <= m <= op_row_count(op),
    ensures
        old_linenos(op_rows(op, old, new, ol, nl).take(m)) == numbered_from(
            ol,
            (if m < old_advance(op) {
                m
            } else {
                old_advance(op) as int
            }) as nat,
        ),
        new_linenos(op_rows(op, old, new, ol, nl).take(m)) == numbered_from(
            nl,
            (if m < new_advance(op) {
                m
            } else {
                new_advance(op) as int
            }) as nat,
        ),
    decreases m,
{
    let rows = op_rows(op, old, new, ol, nl);
    if m == 0 {
        assert(rows.take(0) =~= Seq::<SplitLineView>::empty());
        assert(numbered_from(ol, 0) =~= Seq::<nat>::empty());
        assert(numbered_from(nl, 0) =~= Seq::<nat>::empty());
    } else {
        lemma_op_rows_prefix(op, old, new, ol, nl, m - 1);
        assert(rows.take(m).drop_last() =~= rows.take(m - 1));
        assert(rows.take(m).last() == op_row(op, old, new, ol, nl, m - 1));
        let r = op_row(op, old, new, ol, nl, m - 1);
        assert(r.old_lineno == (if m - 1 < old_advance(op) {
            Some((ol + m - 1) as nat)
        } else {
            None::<nat>
        }));
        assert(r.new_lineno == (if m - 1 < new_advance(op) {
            Some((nl + m - 1) as nat)
        } else {
            None::<nat>
        }));
        if m - 1 < old_advance(op) {
            assert(numbered_from(ol, (m - 1) as nat).push((ol + m - 1) as nat) =~= numbered_from(ol, m as nat));
        }
        if m - 1 < new_advance(op) {
            assert(numbered_from(nl, (m - 1) as nat).push((nl + m - 1) as nat) =~= numbered_from(nl, m as nat));
        }
    }
}

/// The line numbers of a diff run without gap or repeat: the old side
/// shows 1, 2, ... up to the old lines the operations consume, each once
/// and in order, and the new side likewise.
#[verifier::spinoff_prover]
#[verifier::rlimit(40)]
pub proof fn law_line_numbers_run_consecutively(ops: Seq<LineOp>, old: Seq<Seq<char>>, new: Seq<Seq<char>>)
    ensures
        old_linenos(split_rows(ops, old, new)) == numbered_from(1, total_old(ops)),
        new_linenos(split_rows(ops, old, new)) == numbered_from(1, total_new(ops)),
    decreases ops.len(),
{
    if ops.len() == 0 {
        assert(numbered_from(1, 0) =~= Seq::<nat>::empty());
    } else {
        let init = ops.drop_last();
        let op = ops.last();
        law_line_numbers_run_consecutively(init, old, new);
        let ol = 1 + total_old(init) as int;
        let nl = 1 + total_new(init) as int;
        let rows = op_rows(op, old, new, ol, nl);
        lemma_linenos_concat(split_rows(init, old, new), rows);
        lemma_op_rows_prefix(op, old, new, ol, nl, op_row_count(op) as int);
        assert(rows.take(op_row_count(op) as int) =~= rows);
        assert(old_advance(op) <= op_row_count(op));
        assert(new_advance(op) <= op_row_count(op));
        assert(numbered_from(1, total_old(init)) + numbered_from(ol, old_advance(op)) =~= numbered_from(
            1,
            total_old(ops),
        ));
        assert(numbered_from(1, total_new(init)) + numbered_from(nl, new_advance(op)) =~= numbered_from(
            1,
            total_new(ops),
        ));
    }
}

/// The old texts that rows show, in order: one for each row with an old
/// line.
pub open spec fn old_texts(rows: Seq<SplitLineView>) -> Seq<Seq<char>>
    decreases rows.len(),
{
    if rows.len() == 0 {
        Seq::empty()
    } else {
        let rest = old_texts(rows.drop_last());
        if rows.last().old_lineno is Some {
            rest.push(rows.last().old_text)
        } else {
            rest
        }
    }
}

/// The new texts that rows show, in order: one for each row with a new
/// line.
pub open spec fn new_texts(rows: Seq<SplitLineView>) -> Seq<Seq<char>>
    decreases rows.len(),
{
    if rows.len() == 0 {
        Seq::empty()
    } else {
        let rest = new_texts(rows.drop_last());
        if rows.last().new_lineno is Some {
            rest.push(rows.last().new_text)
        } else {
            rest
        }
    }
}

/// Each line without its trailing line feed.
pub open spec fn strip_all(lines: Seq<Seq<char>>) -> Seq<Seq<char>> {
    lines.map_values(|l: Seq<char>| strip_nl(l))
}

proof fn lemma_texts_concat(a: Seq<SplitLineView>, b: Seq<SplitLineView>)
    ensures
        old_texts(a + b) == old_texts(a) + old_texts(b),
        new_texts(a + b) == new_texts(a) + new_texts(b),
    decreases b.len(),
{
    if b.len() == 0 {
        assert(a + b =~= a);
        assert(old_texts(a) + old_texts(b) =~= old_texts(a));
        assert(new_texts(a) + new_texts(b) =~= new_texts(a));
    } else {
        lemma_texts_concat(a, b.drop_last());
        assert((a + b).drop_last() =~= a + b.drop_last());
        assert((a + b).last() == b.last());
        let ob = old_texts(b.drop_last());
        let nb = new_texts(b.drop_last());
        assert(old_texts(a) + ob.push(b.last().old_text) =~= (old_texts(a) + ob).push(b.last().old_text));
        assert(new_texts(a) + nb.push(b.last().new_text) =~= (new_texts(a) + nb).push(b.last().new_text));
    }
}

/// Whether an operation reads only lines that exist, on both sides.
pub open spec fn op_in_range(op: LineOp, old_count: nat, new_count: nat) -> bool {
    op_old_start(op) + old_advance(op) <= old_count && op_new_start(op) + new_advance(op) <= new_count
}

/// The first `m` rows of an operation show, in order, the old lines it
/// starts to consume, and likewise the new lines.
proof fn lemma_op_rows_texts(op: LineOp, old: Seq<Seq<char>>, new: Seq<Seq<char>>, ol: int, nl: int, m: int)
    requires
        0 <= m <= op_row_count(op),
        op_in_range(op, old.len(), new.len()),
        equal_op_matches(op, old, new),
    ensures
        old_texts(op_rows(op, old, new, ol, nl).take(m)) == strip_all(
            old.subrange(
                op_old_start(op),
                op_old_start(op) + (if m < old_advance(op) {
                    m
                } else {
                    old_advance(op) as int
                }),
            ),
        ),
        new_texts(op_rows(op, old, new, ol, nl).take(m)) == strip_all(
            new.subrange(
                op_new_start(op),
                op_new_start(op) + (if m < new_advance(op) {
                    m
                } else {
                    new_advance(op) as int
                }),
            ),
        ),
    decreases m,
{
    let rows = op_rows(op, old, new, ol, nl);
    let os = op_old_start(op);
    let ns = op_new_start(op);
    if m == 0 {
        assert(rows.take(0) =~= Seq::<SplitLineView>::empty());
        assert(strip_all(old.subrange(os, os)) =~= Seq::<Seq<char>>::empty());
        assert(strip_all(new.subrange(ns, ns)) =~= Seq::<Seq<char>>::empty());
    } else {
        lemma_op_rows_texts(op, old, new, ol, nl, m - 1);
        assert(rows.take(m).drop_last() =~= rows.take(m - 1));
        let r = op_row(op, old, new, ol, nl, m - 1);
        assert(rows.take(m).last() == r);
        if let LineOp::Equal { old_index, new_index, len } = op {
            assert(old.subrange(old_index as int, old_index + len)[m - 1] == new.subrange(
                new_index as int,
                new_index + len,
            )[m - 1]);
        }
        if m - 1 < old_advance(op) {
            assert(r.old_lineno is Some && r.old_text == strip_nl(old[os + m - 1]));
            assert(strip_all(old.subrange(os, os + m - 1)).push(strip_nl(old[os + m - 1])) =~= strip_all(
                old.subrange(os, os + m),
            ));
        } else {
            assert(r.old_lineno is None);
        }
        if m - 1 < new_advance(op) {
            assert(r.new_lineno is Some && r.new_text == strip_nl(new[ns + m - 1]));
            assert(strip_all(new.subrange(ns, ns + m - 1)).push(strip_nl(new[ns + m - 1])) =~= strip_all(
                new.subrange(ns, ns + m),
            ));
        } else {
            assert(r.new_lineno is None);
        }
    }
}

/// Operations that each start where the previous ones ended, within both
/// sides' lines.
pub open spec fn ops_walk(ops: Seq<LineOp>, old_count: nat, new_count: nat) -> bool {
    &&& forall|k: int|
        0 <= k < ops.len() ==> op_old_start(#[trigger] ops[k]) == total_old(ops.take(k))
            && op_new_start(ops[k]) == total_new(ops.take(k))
    &&& total_old(ops) <= old_count
    &&& total_new(ops) <= new_count
}

proof fn lemma_rows_texts(ops: Seq<LineOp>, old: Seq<Seq<char>>, new: Seq<Seq<char>>)
    requires
        ops_walk(ops, old.len(), new.len()),
        forall|k: int| 0 <= k < ops.len() ==> equal_op_matches(#[trigger] ops[k], old, new),
    ensures
        old_texts(split_rows(ops, old, new)) == strip_all(old.subrange(0, total_old(ops) as int)),
        new_texts(split_rows(ops, old, new)) == strip_all(new.subrange(0, total_new(ops) as int)),
    decreases ops.len(),
{
    if ops.len() == 0 {
        assert(strip_all(old.subrange(0, 0)) =~= Seq::<Seq<char>>::empty());
        assert(strip_all(new.subrange(0, 0)) =~= Seq::<Seq<char>>::empty());
    } else {
        let init = ops.drop_last();
        let op = ops.last();
        let k = ops.len() - 1;
        assert(ops.take(k) =~= init);
        assert(ops[k] == op);
        assert forall|j: int| 0 <= j < init.len() implies op_old_start(#[trigger] init[j]) == total_old(
            init.take(j),
        ) && op_new_start(init[j]) == total_new(init.take(j)) by {
            assert(init.take(j) =~= ops.take(j));
            assert(init[j] == ops[j]);
        }
        assert forall|j: int| 0 <= j < init.len() implies equal_op_matches(#[trigger] init[j], old, new) by {
            assert(init[j] == ops[j]);
        }
        lemma_rows_texts(init, old, new);
        let to = total_old(init) as int;
        let tn = total_new(init) as int;
        let rows = op_rows(op, old, new, 1 + to, 1 + tn);
        lemma_texts_concat(split_rows(init, old, new), rows);
        lemma_op_rows_texts(op, old, new, 1 + to, 1 + tn, op_row_count(op) as int);
        assert(rows.take(op_row_count(op) as int) =~= rows);
        assert(old_advance(op) <= op_row_count(op));
        assert(new_advance(op) <= op_row_count(op));
        assert(strip_all(old.subrange(0, to)) + strip_all(old.subrange(to, to + old_advance(op)))
            =~= strip_all(old.subrange(0, total_old(ops) as int)));
        assert(strip_all(new.subrange(0, tn)) + strip_all(new.subrange(tn, tn + new_advance(op)))
            =~= strip_all(new.subrange(0, total_new(ops) as int)));
    }
}

/// A diff shows every line of both texts: the rows with an old line give
/// the old lines in order, each without its line feed, and the rows with a
/// new line give the new lines likewise, when the operations walk both
/// sides in order and pair equal lines in their equal runs.
pub proof fn law_rows_show_both_texts(ops: Seq<LineOp>, old: Seq<Seq<char>>, new: Seq<Seq<char>>)
    requires
        ops_tile(ops, old.len(), new.len()),
        forall|k: int| 0 <= k < ops.len() ==> equal_op_matches(#[trigger] ops[k], old, new),
    ensures
        old_texts(split_rows(ops, old, new)) == strip_all(old),
        new_texts(split_rows(ops, old, new)) == strip_all(new),
{
    lemma_rows_texts(ops, old, new);
    assert(old.subrange(0, old.len() as int) =~= old);
    assert(new.subrange(0, new.len() as int) =~= new);
}

proof fn lemma_runs_keep_texts(rows: Seq<SplitLineView>, o: Seq<Seq<SyntaxRun>>, n: Seq<Seq<SyntaxRun>>)
    ensures
        old_texts(rows_with_runs(rows, o, n)) == old_texts(rows),
        new_texts(rows_with_runs(rows, o, n)) == new_texts(rows),
    decreases rows.len(),
{
    if rows.len() > 0 {
        lemma_runs_keep_texts(rows.drop_last(), o, n);
        assert(rows_with_runs(rows, o, n).drop_last() =~= rows_with_runs(rows.drop_last(), o, n));
    }
}

/// What a row of each kind shows: an equal row has an old and a new line
/// with the same text; a deleted row only an old line; an inserted row only
/// a new line; a replaced row at least one of the two; a side without a
/// line has no text.
pub open spec fn row_fits_kind(r: SplitLineView) -> bool {
    &&& (r.old_lineno is None ==> r.old_text.len() == 0)
    &&& (r.new_lineno is None ==> r.new_text.len() == 0)
    &&& match r.kind {
        SplitLineKind::Equal => r.old_lineno is Some && r.new_lineno is Some && r.old_text
            == r.new_text,
        SplitLineKind::Delete => r.old_lineno is Some && r.new_lineno is None,
        SplitLineKind::Insert => r.old_lineno is None && r.new_lineno is Some,
        SplitLineKind::Replace => r.old_lineno is Some || r.new_lineno is Some,
    }
}

/// Every row of a diff fits its kind.
pub proof fn law_rows_fit_their_kind(ops: Seq<LineOp>, old: Seq<Seq<char>>, new: Seq<Seq<char>>)
    ensures
        forall|i: int|
            0 <= i < split_rows(ops, old, new).len() ==> row_fits_kind(
                #[trigger] split_rows(ops, old, new)[i],
            ),
    decreases ops.len(),
{
    if ops.len() > 0 {
        let init = ops.drop_last();
        law_rows_fit_their_kind(init, old, new);
        let a = split_rows(init, old, new);
        let op = ops.last();
        let ol = 1 + total_old(init) as int;
        let nl = 1 + total_new(init) as int;
        let b = op_rows(op, old, new, ol, nl);
        assert forall|i: int| 0 <= i < (a + b).len() implies row_fits_kind(#[trigger] (a + b)[i]) by {
            if i >= a.len() {
                let j = i - a.len();
                assert((a + b)[i] == op_row(op, old, new, ol, nl, j));
            } else {
                assert((a + b)[i] == a[i]);
            }
        }
    }
}

/// The row that an unchanged line `i` (0-based) of both sides shows.
pub open spec fn unchanged_row(lines: Seq<Seq<char>>, i: int) -> SplitLineView {
    SplitLineView {
        old_lineno: Some((i + 1) as nat),
        new_lineno: Some((i + 1) as nat),
        old_text: strip_nl(lines[i]),
        new_text: strip_nl(lines[i]),
        kind: SplitLineKind::Equal,
        old_syntax_runs: Seq::empty(),
        new_syntax_runs: Seq::empty(),
    }
}

proof fn lemma_equal_ops_rows(ops: Seq<LineOp>, lines: Seq<Seq<char>>)
    requires
        forall|k: int| 0 <= k < ops.len() ==> (#[trigger] ops[k]) is Equal,
        forall|k: int|
            0 <= k < ops.len() ==> op_old_start(#[trigger] ops[k]) == total_old(ops.take(k)),
        total_old(ops) <= lines.len(),
    ensures
        split_rows(ops, lines, lines) == Seq::new(total_old(ops), |i: int| unchanged_row(lines, i)),
        total_new(ops) == total_old(ops),
        total_added(ops) == 0,
        total_deleted(ops) == 0,
    decreases ops.len(),
{
    if ops.len() == 0 {
        assert(split_rows(ops, lines, lines) =~= Seq::new(0, |i: int| unchanged_row(lines, i)));
    } else {
        let init = ops.drop_last();
        let op = ops.last();
        assert(ops[ops.len() - 1] == op);
        assert(ops.take(ops.len() - 1) =~= init);
        assert forall|k: int| 0 <= k < init.len() implies (#[trigger] init[k]) is Equal by {
            assert(init[k] == ops[k]);
        }
        assert forall|k: int| 0 <= k < init.len() implies op_old_start(#[trigger] init[k]) == total_old(
            init.take(k),
        ) by {
            assert(init[k] == ops[k]);
            assert(init.take(k) =~= ops.take(k));
        }
        lemma_equal_ops_rows(init, lines);
        let t = total_old(init) as int;
        let rows = op_rows(op, lines, lines, 1 + t, 1 + t);
        if let LineOp::Equal { old_index, new_index, len } = op {
            assert(old_index == t);
            assert(split_rows(ops, lines, lines) =~= Seq::new(total_old(ops), |i: int| unchanged_row(lines, i))) by {
                assert forall|i: int| t <= i < t + len implies rows[i - t] == unchanged_row(lines, i) by {}
            }
        }
    }
}

/// Two identical texts give one unchanged row per line, in order: line
/// `i` numbered `i + 1` on both sides with the same text, and no additions
/// or deletions, when the operations walk the lines in order with only
/// equal runs.
pub proof fn law_identical_texts_give_equal_rows(ops: Seq<LineOp>, lines: Seq<Seq<char>>)
    requires
        ops_tile(ops, lines.len(), lines.len()),
        forall|k: int| 0 <= k < ops.len() ==> (#[trigger] ops[k]) is Equal,
    ensures
        split_rows(ops, lines, lines) == Seq::new(lines.len(), |i: int| unchanged_row(lines, i)),
        total_added(ops) == 0,
        total_deleted(ops) == 0,
{
    lemma_equal_ops_rows(ops, lines);
}

/// Rows that show an added line: a new line on a row that is not equal.
pub open spec fn added_rows(rows: Seq<SplitLineView>) -> nat
    decreases rows.len(),
{
    if rows.len() == 0 {
        0
    } else {
        let r = rows.last();
        added_rows(rows.drop_last()) + (if r.new_lineno is Some && r.kind != SplitLineKind::Equal {
            1nat
        } else {
            0nat
        })
    }
}

/// Rows that show a deleted line: an old line on a row that is not equal.
pub open spec fn deleted_rows(rows: Seq<SplitLineView>) -> nat
    decreases rows.len(),
{
    if rows.len() == 0 {
        0
    } else {
        let r = rows.last();
        deleted_rows(rows.drop_last()) + (if r.old_lineno is Some && r.kind != SplitLineKind::Equal {
            1nat
        } else {
            0nat
        })
    }
}

proof fn lemma_row_counts_concat(a: Seq<SplitLineView>, b: Seq<SplitLineView>)
    ensures
        added_rows(a + b) == added_rows(a) + added_rows(b),
        deleted_rows(a + b) == deleted_rows(a) + deleted_rows(b),
    decreases b.len(),
{
    if b.len() == 0 {
        assert(a + b =~= a);
    } else {
        lemma_row_counts_concat(a, b.drop_last());
        assert((a + b).drop_last() =~= a + b.drop_last());
        assert((a + b).last() == b.last());
    }
}

proof fn lemma_op_rows_counts(op: LineOp, old: Seq<Seq<char>>, new: Seq<Seq<char>>, ol: int, nl: int, m: int)
    requires
        0 <= m <= op_row_count(op),
    ensures
        added_rows(op_rows(op, old, new, ol, nl).take(m)) == (if m < added_by(op) {
            m
        } else {
            added_by(op) as int
        }),
        deleted_rows(op_rows(op, old, new, ol, nl).take(m)) == (if m < deleted_by(op) {
            m
        } else {
            deleted_by(op) as int
        }),
    decreases m,
{
    let rows = op_rows(op, old, new, ol, nl);
    if m == 0 {
        assert(rows.take(0) =~= Seq::<SplitLineView>::empty());
    } else {
        lemma_op_rows_counts(op, old, new, ol, nl, m - 1);
        assert(rows.take(m).drop_last() =~= rows.take(m - 1));
        assert(rows.take(m).last() == op_row(op, old, new, ol, nl, m - 1));
    }
}

/// The counts of a diff are what it shows: the additions are the rows
/// that show an added line, the deletions those that show a deleted one.
pub proof fn law_counts_match_rows(ops: Seq<LineOp>, old: Seq<Seq<char>>, new: Seq<Seq<char>>)
    ensures
        added_rows(split_rows(ops, old, new)) == total_added(ops),
        deleted_rows(split_rows(ops, old, new)) == total_deleted(ops),
    decreases ops.len(),
{
    if ops.len() > 0 {
        let init = ops.drop_last();
        let op = ops.last();
        law_counts_match_rows(init, old, new);
        let ol = 1 + total_old(init) as int;
        let nl = 1 + total_new(init) as int;
        let rows = op_rows(op, old, new, ol, nl);
        lemma_row_counts_concat(split_rows(init, old, new), rows);
        lemma_op_rows_counts(op, old, new, ol, nl, op_row_count(op) as int);
        assert(rows.take(op_row_count(op) as int) =~= rows);
    }
}

} // verus!
