//! Syntax highlighting of file contents, line by line, with the `syntect`
//! crate: the styled regions it yields for each line become runs of bytes
//! with a colour and a font style.
use syntect::highlighting::{HighlightIterator, HighlightState, Highlighter, ThemeSet};
use syntect::parsing::{ParseState, ScopeStack, SyntaxSet};

use vstd::prelude::*;

use crate::text::{lemma_encode_utf8_concat, str_chars, string_from_chars};

verus! {

/// A colour as red, green, blue and alpha components.
#[derive(Clone, Copy, Debug, PartialEq, Eq, Structural)]
pub struct Rgba8 {
    pub r: u8,
    pub g: u8,
    pub b: u8,
    pub a: u8,
}

pub open spec fn rgba8(c: (u8, u8, u8, u8)) -> Rgba8 {
    Rgba8 { r: c.0, g: c.1, b: c.2, a: c.3 }
}

/// A highlighted stretch of a line: its length in bytes, its colour, and
/// whether it is bold or italic.
#[derive(Clone, Copy, Debug, PartialEq, Eq, Structural)]
pub struct SyntaxRun {
    pub len: usize,
    pub color: Rgba8,
    pub bold: bool,
    pub italic: bool,
}

// ---------------------------------------------------------------------------
// the `syntect` crate
// ---------------------------------------------------------------------------

/// Whether `name` is one of the themes that `syntect` bundles
/// (`ThemeSet::load_defaults`).
pub open spec fn bundled_theme(name: Seq<char>) -> bool {
    ||| name == "base16-ocean.dark"@
    ||| name == "base16-eighties.dark"@
    ||| name == "base16-mocha.dark"@
    ||| name == "base16-ocean.light"@
    ||| name == "InspiredGitHub"@
    ||| name == "Solarized (dark)"@
    ||| name == "Solarized (light)"@
}

/// Whether `syntect`'s default syntaxes hold one for the extension `ext`.
pub uninterp spec fn syntax_known(ext: Seq<char>) -> bool;

/// The styled regions that `syntect` yields for each of `lines`, highlighted
/// in turn with the syntax for the extension `ext` and the bundled theme
/// `theme`: each region's text, its foreground colour, and the bits of its
/// font style.
pub uninterp spec fn syntect_regions(theme: Seq<char>, ext: Seq<char>, lines: Seq<Seq<char>>) -> Seq<
    Seq<(Seq<char>, (u8, u8, u8, u8), u8)>,
>;

/// The same for plain text, with no syntax.
pub uninterp spec fn syntect_plain_regions(theme: Seq<char>, lines: Seq<Seq<char>>) -> Seq<
    Seq<(Seq<char>, (u8, u8, u8, u8), u8)>,
>;

pub open spec fn strings_view(lines: Seq<String>) -> Seq<Seq<char>> {
    lines.map_values(|l: String| l@)
}

pub open spec fn region_view(g: (String, (u8, u8, u8, u8), u8)) -> (
    Seq<char>,
    (u8, u8, u8, u8),
    u8,
) {
    (g.0@, g.1, g.2)
}

pub open spec fn regions_view(r: Seq<Vec<(String, (u8, u8, u8, u8), u8)>>) -> Seq<
    Seq<(Seq<char>, (u8, u8, u8, u8), u8)>,
> {
    r.map_values(|line: Vec<(String, (u8, u8, u8, u8), u8)>| line@.map_values(|g| region_view(g)))
}

/// The texts of a line's regions, one after another.
pub open spec fn region_texts(regions: Seq<(Seq<char>, (u8, u8, u8, u8), u8)>) -> Seq<char>
    decreases regions.len(),
{
    if regions.len() == 0 {
        Seq::empty()
    } else {
        region_texts(regions.drop_last()) + regions.last().0
    }
}

/// Whether each line's regions are, one after another, the start of that
/// line: `HighlightIterator` yields consecutive slices of the line from its
/// start (and, as documented, all of it unless a scope operation fails).
pub open spec fn regions_follow_lines(
    regions: Seq<Seq<(Seq<char>, (u8, u8, u8, u8), u8)>>,
    lines: Seq<Seq<char>>,
) -> bool {
    &&& regions.len() == lines.len()
    &&& forall|i: int| 0 <= i < lines.len() ==> region_texts(#[trigger] regions[i]).is_prefix_of(lines[i])
}

/// Looks the extension up with `SyntaxSet::find_syntax_by_extension` in
/// `syntect`'s default syntaxes; the answer is named by `syntax_known`.
#[verifier::external_body]
fn has_syntax_for(ext: &str) -> (r: bool)
    ensures
        r == syntax_known(ext@),
{
    SyntaxSet::load_defaults_newlines().find_syntax_by_extension(ext).is_some()
}

/// Highlights `lines` in turn with `syntect`: loads its default syntaxes and
/// themes, takes the syntax that `SyntaxSet::find_syntax_by_extension` finds
/// for `ext` and the theme `theme`, and for each line calls
/// `ParseState::parse_line` (no operations when parsing fails) and collects
/// `HighlightIterator`'s regions, parse and highlight state carried from
/// line to line; a region's font style is given by its bits
/// (`FontStyle::bits`: bold 1, italic 4). The result is named by
/// `syntect_regions`; it has one entry per line, and each line's regions
/// are consecutive slices of it from its start.
#[verifier::external_body]
fn highlight_regions(theme: &str, ext: &str, lines: &Vec<String>) -> (r: Vec<Vec<(String, (u8, u8, u8, u8), u8)>>)
    requires
        bundled_theme(theme@),
        syntax_known(ext@),
    ensures
        regions_view(r@) == syntect_regions(theme@, ext@, strings_view(lines@)),
        regions_follow_lines(regions_view(r@), strings_view(lines@)),
{
    let ss = SyntaxSet::load_defaults_newlines();
    let themes = ThemeSet::load_defaults();
    let hl = Highlighter::new(&themes.themes[theme]);
    let mut ps = ParseState::new(ss.find_syntax_by_extension(ext).unwrap());
    let mut hs = HighlightState::new(&hl, ScopeStack::new());
    lines.iter().map(|line| {
        let ops = ps.parse_line(line, &ss).unwrap_or_default();
        HighlightIterator::new(&mut hs, &ops, line, &hl).map(|(s, t)| {
            let c = s.foreground;
            (t.to_string(), (c.r, c.g, c.b, c.a), s.font_style.bits())
        }).collect()
    }).collect()
}

/// As `highlight_regions`, with `SyntaxSet::find_syntax_plain_text` for the
/// syntax; the result is named by `syntect_plain_regions`.
#[verifier::external_body]
fn highlight_plain_regions(theme: &str, lines: &Vec<String>) -> (r: Vec<Vec<(String, (u8, u8, u8, u8), u8)>>)
    requires
        bundled_theme(theme@),
    ensures
        regions_view(r@) == syntect_plain_regions(theme@, strings_view(lines@)),
        regions_follow_lines(regions_view(r@), strings_view(lines@)),
{
    let ss = SyntaxSet::load_defaults_newlines();
    let themes = ThemeSet::load_defaults();
    let hl = Highlighter::new(&themes.themes[theme]);
    let mut ps = ParseState::new(ss.find_syntax_plain_text());
    let mut hs = HighlightState::new(&hl, ScopeStack::new());
    lines.iter().map(|line| {
        let ops = ps.parse_line(line, &ss).unwrap_or_default();
        HighlightIterator::new(&mut hs, &ops, line, &hl).map(|(s, t)| {
            let c = s.foreground;
            (t.to_string(), (c.r, c.g, c.b, c.a), s.font_style.bits())
        }).collect()
    }).collect()
}

// ---------------------------------------------------------------------------
// specification
// ---------------------------------------------------------------------------

/// The extension of a path: the text after its last `'.'`, or the whole
/// path when it has none.
pub open spec fn extension_of(path: Seq<char>) -> Seq<char>
    decreases path.len(),
{
    if path.len() == 0 {
        path
    } else if path.last() == '.' {
        Seq::empty()
    } else {
        extension_of(path.drop_last()).push(path.last())
    }
}

/// A line without the `'\r'` that ends it, if one does.
pub open spec fn strip_cr(s: Seq<char>) -> Seq<char> {
    if s.len() > 0 && s.last() == '\r' {
        s.drop_last()
    } else {
        s
    }
}

/// The lines of `s` finished so far, and the line being read: a `'\n'`
/// finishes the current line, without a `'\r'` just before it.
pub open spec fn lines_read(s: Seq<char>) -> (Seq<Seq<char>>, Seq<char>)
    decreases s.len(),
{
    if s.len() == 0 {
        (Seq::empty(), Seq::empty())
    } else {
        let (done, cur) = lines_read(s.drop_last());
        if s.last() == '\n' {
            (done.push(strip_cr(cur)), Seq::empty())
        } else {
            (done, cur.push(s.last()))
        }
    }
}

/// The lines of `s` as `str::lines` gives them: split at `'\n'` or `"\r\n"`,
/// terminators dropped; a final line is kept when it is not empty.
pub open spec fn text_lines(s: Seq<char>) -> Seq<Seq<char>> {
    let (done, cur) = lines_read(s);
    if cur.len() > 0 {
        done.push(cur)
    } else {
        done
    }
}

/// The lines handed to the highlighter: each line of `content` with a
/// `'\n'` after it.
pub open spec fn highlight_input(content: Seq<char>) -> Seq<Seq<char>> {
    text_lines(content).map_values(|l: Seq<char>| l.push('\n'))
}

/// `s` without the `'\n'`s that end it.
pub open spec fn trim_newlines(s: Seq<char>) -> Seq<char>
    decreases s.len(),
{
    if s.len() > 0 && s.last() == '\n' {
        trim_newlines(s.drop_last())
    } else {
        s
    }
}

/// The runs of one line: each region with its ending newlines trimmed, as
/// its length in UTF-8 bytes and its style, regions left empty dropped.
pub open spec fn line_runs(regions: Seq<(Seq<char>, (u8, u8, u8, u8), u8)>) -> Seq<SyntaxRun>
    decreases regions.len(),
{
    if regions.len() == 0 {
        Seq::empty()
    } else {
        let rest = line_runs(regions.drop_last());
        let g = regions.last();
        let n = vstd::utf8::encode_utf8(trim_newlines(g.0)).len();
        if n == 0 {
            rest
        } else {
            rest.push(
                SyntaxRun { len: n as usize, color: rgba8(g.1), bold: g.2 & 1 != 0, italic: g.2 & 4 != 0 },
            )
        }
    }
}

/// The theme diffs are highlighted with.
pub open spec fn diff_theme() -> Seq<char> {
    "base16-eighties.dark"@
}

/// The regions of `lines`: by the syntax of `ext` when `syntect` has one,
/// as plain text otherwise, in the diff theme.
pub open spec fn diff_regions(ext: Seq<char>, lines: Seq<Seq<char>>) -> Seq<
    Seq<(Seq<char>, (u8, u8, u8, u8), u8)>,
> {
    if syntax_known(ext) {
        syntect_regions(diff_theme(), ext, lines)
    } else {
        syntect_plain_regions(diff_theme(), lines)
    }
}

/// The bytes that runs cover together.
pub open spec fn runs_total(runs: Seq<SyntaxRun>) -> int
    decreases runs.len(),
{
    if runs.len() == 0 {
        0
    } else {
        runs_total(runs.drop_last()) + runs.last().len
    }
}

/// Whether `s` holds no `'\n'`.
pub open spec fn no_newline(s: Seq<char>) -> bool {
    forall|j: int| 0 <= j < s.len() ==> s[j] != '\n'
}

proof fn lemma_trim_plain(s: Seq<char>)
    requires
        no_newline(s),
    ensures
        trim_newlines(s) == s,
{
    if s.len() > 0 {
        assert(s[s.len() - 1] != '\n');
    }
}

/// Trimming the ending newline of `a + b`, where `a` holds none and `b` is
/// not empty and has a `'\n'` at most at its end, trims it from `b`.
proof fn lemma_trim_concat(a: Seq<char>, b: Seq<char>)
    requires
        no_newline(a),
        b.len() > 0,
        no_newline(b.drop_last()),
    ensures
        trim_newlines(a + b) == a + trim_newlines(b),
{
    let bd = b.drop_last();
    if b.last() == '\n' {
        assert((a + b).drop_last() =~= a + bd);
        assert((a + b).last() == '\n');
        lemma_trim_plain(bd);
        if bd.len() == 0 {
            assert(a + bd =~= a);
            lemma_trim_plain(a);
            assert(a + trim_newlines(b) =~= a);
        } else {
            assert(no_newline(a + bd)) by {
                assert forall|j: int| 0 <= j < (a + bd).len() implies (a + bd)[j] != '\n' by {
                    if j >= a.len() {
                        assert((a + bd)[j] == bd[j - a.len()]);
                    }
                }
            }
            lemma_trim_plain(a + bd);
        }
    } else {
        assert(b[b.len() - 1] != '\n');
        assert((a + b).last() == b.last());
        assert(no_newline(b)) by {
            assert forall|j: int| 0 <= j < b.len() implies b[j] != '\n' by {
                if j < b.len() - 1 {
                    assert(b[j] == bd[j]);
                }
            }
        }
        lemma_trim_plain(b);
    }
}

proof fn lemma_runs_total(regions: Seq<(Seq<char>, (u8, u8, u8, u8), u8)>)
    requires
        region_texts(regions).len() > 0 ==> no_newline(region_texts(regions).drop_last()),
        vstd::utf8::encode_utf8(region_texts(regions)).len() <= usize::MAX,
    ensures
        runs_total(line_runs(regions)) == vstd::utf8::encode_utf8(trim_newlines(region_texts(regions))).len(),
    decreases regions.len(),
{
    let t = region_texts(regions);
    if regions.len() == 0 {
        assert(trim_newlines(t) =~= Seq::<char>::empty());
        assert(vstd::utf8::encode_utf8(Seq::<char>::empty()) =~= Seq::<u8>::empty());
    } else {
        let rest = regions.drop_last();
        let g = regions.last();
        let t0 = region_texts(rest);
        assert(t == t0 + g.0);
        lemma_encode_utf8_concat(t0, g.0);
        if g.0.len() == 0 {
            assert(t =~= t0);
            lemma_runs_total(rest);
            assert(line_runs(regions) == line_runs(rest));
            assert(trim_newlines(g.0) =~= Seq::<char>::empty());
            assert(vstd::utf8::encode_utf8(Seq::<char>::empty()) =~= Seq::<u8>::empty());
        } else {
            assert(no_newline(t0)) by {
                assert forall|j: int| 0 <= j < t0.len() implies t0[j] != '\n' by {
                    assert(t.drop_last()[j] == t0[j]);
                }
            }
            assert(t0.len() > 0 ==> no_newline(t0.drop_last()));
            lemma_runs_total(rest);
            lemma_trim_plain(t0);
            assert(no_newline(g.0.drop_last())) by {
                assert forall|j: int| 0 <= j < g.0.len() - 1 implies g.0.drop_last()[j] != '\n' by {
                    assert(t.drop_last()[t0.len() + j] == g.0[j]);
                }
            }
            lemma_trim_concat(t0, g.0);
            lemma_encode_utf8_concat(t0, trim_newlines(g.0));
            let tg = trim_newlines(g.0);
            if g.0.last() == '\n' {
                lemma_trim_plain(g.0.drop_last());
                assert(g.0.drop_last() + seq![g.0.last()] =~= g.0);
                lemma_encode_utf8_concat(g.0.drop_last(), seq![g.0.last()]);
            } else {
                assert(no_newline(g.0)) by {
                    assert forall|j: int| 0 <= j < g.0.len() implies g.0[j] != '\n' by {
                        if j < g.0.len() - 1 {
                            assert(g.0.drop_last()[j] == g.0[j]);
                        }
                    }
                }
                lemma_trim_plain(g.0);
            }
            let n = vstd::utf8::encode_utf8(tg).len();
            assert(n <= usize::MAX);
            if n == 0 {
                assert(line_runs(regions) == line_runs(rest));
            } else {
                let run = SyntaxRun { len: n as usize, color: rgba8(g.1), bold: g.2 & 1 != 0, italic: g.2 & 4 != 0 };
                assert(line_runs(regions) == line_runs(rest).push(run));
                assert(line_runs(rest).push(run).drop_last() =~= line_runs(rest));
            }
        }
    }
}

/// When a line's regions are, one after another, the line and its `'\n'`
/// (as `HighlightIterator` documents its regions), the line's runs cover
/// exactly its bytes.
pub proof fn law_runs_cover_the_line(regions: Seq<(Seq<char>, (u8, u8, u8, u8), u8)>, line: Seq<char>)
    requires
        region_texts(regions) == line.push('\n'),
        no_newline(line),
        vstd::utf8::encode_utf8(line).len() < usize::MAX,
    ensures
        runs_total(line_runs(regions)) == vstd::utf8::encode_utf8(line).len(),
{
    let t = line.push('\n');
    assert(t.drop_last() =~= line);
    lemma_encode_utf8_concat(line, seq!['\n']);
    assert(vstd::utf8::encode_utf8(seq!['\n']).len() == 1) by {
        crate::text::lemma_encode_utf8_single('\n');
    }
    assert(line + seq!['\n'] =~= t);
    lemma_runs_total(regions);
    assert(t.last() == '\n');
    lemma_trim_plain(line);
}

/// The runs of each line of `content`, highlighted by the extension of
/// `file_path`.
pub open spec fn highlighted(content: Seq<char>, file_path: Seq<char>) -> Seq<Seq<SyntaxRun>> {
    diff_regions(extension_of(file_path), highlight_input(content)).map_values(
        |regions: Seq<(Seq<char>, (u8, u8, u8, u8), u8)>| line_runs(regions),
    )
}

pub open spec fn runs_view(r: Seq<Vec<SyntaxRun>>) -> Seq<Seq<SyntaxRun>> {
    r.map_values(|v: Vec<SyntaxRun>| v@)
}

// ---------------------------------------------------------------------------
// implementation
// ---------------------------------------------------------------------------

/// The extension of `path`: the text after its last `'.'`, or all of it.
pub fn path_extension(path: &str) -> (r: String)
    ensures
        r@ == extension_of(path@),
{
    let chars = str_chars(path);
    let mut ext: Vec<char> = Vec::new();
    let mut i: usize = 0;
    while i < chars.len()
        invariant
            i <= chars@.len(),
            chars@ == path@,
            ext@ == extension_of(chars@.take(i as int)),
        decreases chars@.len() - i,
    {
        assert(chars@.take(i + 1).drop_last() =~= chars@.take(i as int));
        if chars[i] == '.' {
            ext = Vec::new();
            assert(ext@ =~= Seq::<char>::empty());
        } else {
            ext.push(chars[i]);
        }
        i = i + 1;
    }
    assert(chars@.take(chars@.len() as int) =~= chars@);
    string_from_chars(ext.as_slice())
}

/// The lines of `content` as `str::lines` splits them, each with a `'\n'`
/// after it.
pub fn highlight_input_lines(content: &str) -> (r: Vec<String>)
    ensures
        strings_view(r@) == highlight_input(content@),
{
    let chars = str_chars(content);
    let mut out: Vec<String> = Vec::new();
    let mut cur: Vec<char> = Vec::new();
    let mut i: usize = 0;
    while i < chars.len()
        invariant
            i <= chars@.len(),
            chars@ == content@,
            strings_view(out@) == lines_read(chars@.take(i as int)).0.map_values(
                |l: Seq<char>| l.push('\n'),
            ),
            cur@ == lines_read(chars@.take(i as int)).1,
        decreases chars@.len() - i,
    {
        let ghost before = chars@.take(i as int);
        assert(chars@.take(i + 1).drop_last() =~= before);
        assert(chars@.take(i + 1).last() == chars@[i as int]);
        if chars[i] == '\n' {
            let n = cur.len();
            if n > 0 && cur[n - 1] == '\r' {
                cur.pop();
            }
            let ghost line = cur@;
            cur.push('\n');
            let ghost done = lines_read(before).0;
            let ghost prev = out@;
            let text = string_from_chars(cur.as_slice());
            out.push(text);
            proof {
                assert(line == strip_cr(lines_read(before).1));
                assert(strings_view(out@) =~= strings_view(prev).push(text@));
                assert(done.push(line).map_values(|l: Seq<char>| l.push('\n')) =~= done.map_values(
                    |l: Seq<char>| l.push('\n'),
                ).push(line.push('\n')));
            }
            cur = Vec::new();
            assert(cur@ =~= Seq::<char>::empty());
        } else {
            cur.push(chars[i]);
        }
        i = i + 1;
    }
    assert(chars@.take(chars@.len() as int) =~= chars@);
    if cur.len() > 0 {
        let ghost done = lines_read(chars@).0;
        let ghost line = cur@;
        cur.push('\n');
        let ghost prev = out@;
        let text = string_from_chars(cur.as_slice());
        out.push(text);
        assert(strings_view(out@) =~= strings_view(prev).push(text@));
        assert(done.push(line).map_values(|l: Seq<char>| l.push('\n')) =~= done.map_values(
            |l: Seq<char>| l.push('\n'),
        ).push(line.push('\n')));
    }
    out
}

/// `s` without its ending `'\n'`s.
fn trim_trailing_newlines(s: &String) -> (r: String)
    ensures
        r@ == trim_newlines(s@),
{
    let chars = str_chars(s.as_str());
    let mut n = chars.len();
    assert(chars@.take(n as int) =~= s@);
    while n > 0 && chars[n - 1] == '\n'
        invariant
            n <= chars@.len(),
            chars@ == s@,
            trim_newlines(chars@.take(n as int)) == trim_newlines(s@),
        decreases n,
    {
        assert(chars@.take(n - 1) =~= chars@.take(n as int).drop_last());
        n = n - 1;
    }
    let mut kept: Vec<char> = Vec::new();
    let mut i: usize = 0;
    while i < n
        invariant
            n <= chars@.len(),
            i <= n,
            kept@ == chars@.take(i as int),
        decreases n - i,
    {
        kept.push(chars[i]);
        i = i + 1;
        assert(kept@ =~= chars@.take(i as int));
    }
    proof {
        assert(chars@.take(chars@.len() as int) =~= chars@);
    }
    string_from_chars(kept.as_slice())
}

/// The runs of one line from its regions.
fn runs_of_line(regions: &Vec<(String, (u8, u8, u8, u8), u8)>) -> (r: Vec<SyntaxRun>)
    ensures
        r@ == line_runs(regions@.map_values(|g| region_view(g))),
{
    let ghost rv = regions@.map_values(|g| region_view(g));
    let mut runs: Vec<SyntaxRun> = Vec::new();
    let mut k: usize = 0;
    while k < regions.len()
        invariant
            k <= regions@.len(),
            rv == regions@.map_values(|g| region_view(g)),
            runs@ == line_runs(rv.take(k as int)),
        decreases regions@.len() - k,
    {
        assert(rv.take(k + 1).drop_last() =~= rv.take(k as int));
        assert(rv.take(k + 1).last() == region_view(regions@[k as int]));
        let text = trim_trailing_newlines(&regions[k].0);
        let len = text.as_str().as_bytes().len();
        if len > 0 {
            runs.push(
                SyntaxRun {
                    len,
                    color: Rgba8 {
                        r: regions[k].1.0,
                        g: regions[k].1.1,
                        b: regions[k].1.2,
                        a: regions[k].1.3,
                    },
                    bold: regions[k].2 & 1 != 0,
                    italic: regions[k].2 & 4 != 0,
                },
            );
        }
        k = k + 1;
    }
    assert(rv.take(regions@.len() as int) =~= rv);
    runs
}

/// Highlights each line of `content` (as `str::lines` splits it) with the
/// syntax that the extension of `file_path` names: one list of runs per
/// line, in order.
pub fn highlight_lines(content: &str, file_path: &str) -> (r: Vec<Vec<SyntaxRun>>)
    ensures
        runs_view(r@) == highlighted(content@, file_path@),
        r@.len() == text_lines(content@).len(),
{
    let ext = path_extension(file_path);
    let lines = highlight_input_lines(content);
    let theme = "base16-eighties.dark";
    let regions = if has_syntax_for(ext.as_str()) {
        highlight_regions(theme, ext.as_str(), &lines)
    } else {
        highlight_plain_regions(theme, &lines)
    };
    let ghost all = diff_regions(ext@, strings_view(lines@));
    assert(regions_view(regions@) == all);
    let mut out: Vec<Vec<SyntaxRun>> = Vec::new();
    let mut i: usize = 0;
    while i < regions.len()
        invariant
            i <= regions@.len(),
            regions_view(regions@) == all,
            out@.len() == i,
            runs_view(out@) == all.take(i as int).map_values(
                |g: Seq<(Seq<char>, (u8, u8, u8, u8), u8)>| line_runs(g),
            ),
        decreases regions@.len() - i,
    {
        let runs = runs_of_line(&regions[i]);
        proof {
            assert(all[i as int] == regions@[i as int]@.map_values(|g| region_view(g)));
        }
        let ghost prev = out@;
        out.push(runs);
        assert(runs_view(out@) =~= runs_view(prev).push(runs@));
        assert(all.take(i + 1).drop_last() =~= all.take(i as int));
        i = i + 1;
        assert(runs_view(out@) =~= all.take(i as int).map_values(
            |g: Seq<(Seq<char>, (u8, u8, u8, u8), u8)>| line_runs(g),
        ));
    }
    assert(all.take(regions@.len() as int) =~= all);
    assert(strings_view(lines@).len() == lines@.len());
    assert(highlight_input(content@).len() == text_lines(content@).len());
    assert(runs_view(out@) =~= highlighted(content@, file_path@));
    out
}

} // verus!
