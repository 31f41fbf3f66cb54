//! The terminal screen as the view draws it: colors, the 256-color palette,
//! runs of cells that share a style, the text of a row, the box-drawing
//! characters drawn as lines, and the session's reaction to the emulator's
//! events.
use vstd::prelude::*;
use crate::terminal_input::{char_display_width, unicode_char_width};

verus! {

// ---------------------------------------------------------------------------
// colors and configuration
// ---------------------------------------------------------------------------

#[derive(Clone, Copy, Debug, PartialEq, Eq, Structural)]
pub struct Rgb {
    pub r: u8,
    pub g: u8,
    pub b: u8,
}

/// A run of cells of a row that share colors and flags; columns are
/// 1-based and inclusive.
#[derive(Clone, Copy, Debug, PartialEq, Eq, Structural)]
pub struct StyleRun {
    pub start_col: u16,
    pub end_col: u16,
    pub fg: Rgb,
    pub bg: Rgb,
    pub flags: u8,
}

pub const CELL_STYLE_FLAG_BOLD: u8 = 0x02;

pub const CELL_STYLE_FLAG_ITALIC: u8 = 0x04;

pub const CELL_STYLE_FLAG_UNDERLINE: u8 = 0x08;

pub const CELL_STYLE_FLAG_FAINT: u8 = 0x10;

pub const CELL_STYLE_FLAG_STRIKETHROUGH: u8 = 0x40;

/// The size and default colors of a terminal.
#[derive(Clone, Copy, Debug)]
pub struct TerminalConfig {
    pub cols: u16,
    pub rows: u16,
    pub default_fg: Rgb,
    pub default_bg: Rgb,
    pub update_window_title: bool,
}

impl Default for TerminalConfig {
    /// 80 by 24 cells, white on dark grey, window title updates on.
    fn default() -> (r: Self)
        ensures
            r.cols == 80,
            r.rows == 24,
            r.default_fg == (Rgb { r: 0xff, g: 0xff, b: 0xff }),
            r.default_bg == (Rgb { r: 0x1e, g: 0x1e, b: 0x1e }),
            r.update_window_title,
    {
        TerminalConfig {
            cols: 80,
            rows: 24,
            default_fg: Rgb { r: 0xff, g: 0xff, b: 0xff },
            default_bg: Rgb { r: 0x1e, g: 0x1e, b: 0x1e },
            update_window_title: true,
        }
    }
}

/// The shape of the cursor.
#[derive(Clone, Copy, Debug, PartialEq, Eq, Structural)]
pub enum CursorShape {
    Bar,
    Block,
    Underline,
}

impl Default for CursorShape {
    fn default() -> (r: Self)
        ensures
            r == CursorShape::Bar,
    {
        CursorShape::Bar
    }
}

/// The shapes a terminal application can ask the cursor to take.
#[derive(Clone, Copy, Debug, PartialEq, Eq, Structural)]
pub enum RequestedCursorShape {
    Block,
    Underline,
    Beam,
    HollowBlock,
    Hidden,
}

/// The cursor shape shown for the one the application asked for: a beam or
/// anything else that is not a block or an underline is shown as a bar.
pub fn cursor_shape_for(requested: RequestedCursorShape) -> (r: CursorShape)
    ensures
        r == (match requested {
            RequestedCursorShape::Block => CursorShape::Block,
            RequestedCursorShape::Underline => CursorShape::Underline,
            _ => CursorShape::Bar,
        }),
{
    match requested {
        RequestedCursorShape::Block => CursorShape::Block,
        RequestedCursorShape::Underline => CursorShape::Underline,
        _ => CursorShape::Bar,
    }
}

// ---------------------------------------------------------------------------
// the palette
// ---------------------------------------------------------------------------

/// A component of the 6x6x6 color cube: 0 stays 0, `n` in 1..=5 is
/// `55 + 40 * n`.
pub open spec fn cube_component(n: int) -> int {
    if n == 0 {
        0
    } else {
        55 + 40 * n
    }
}

/// The 256-color palette: the 16 standard colors, the 6x6x6 cube from 16
/// to 231, and a 24-step grey ramp (`8 + 10 * n`) from 232 to 255.
pub open spec fn palette(i: int) -> (int, int, int) {
    if i == 0 {
        (0x1a, 0x1a, 0x1a)
    } else if i == 1 {
        (0xcc, 0x37, 0x2e)
    } else if i == 2 {
        (0x26, 0xa4, 0x39)
    } else if i == 3 {
        (0xcd, 0xac, 0x08)
    } else if i == 4 {
        (0x08, 0x69, 0xcb)
    } else if i == 5 {
        (0x96, 0x47, 0xbf)
    } else if i == 6 {
        (0x47, 0x9e, 0xc2)
    } else if i == 7 {
        (0x98, 0x98, 0x9d)
    } else if i == 8 {
        (0x46, 0x46, 0x46)
    } else if i == 9 {
        (0xff, 0x45, 0x3a)
    } else if i == 10 {
        (0x32, 0xd7, 0x4b)
    } else if i == 11 {
        (0xff, 0xd6, 0x0a)
    } else if i == 12 {
        (0x0a, 0x84, 0xff)
    } else if i == 13 {
        (0xbf, 0x5a, 0xf2)
    } else if i == 14 {
        (0x76, 0xd6, 0xff)
    } else if i == 15 {
        (0xff, 0xff, 0xff)
    } else if i < 232 {
        let n = i - 16;
        (cube_component(n / 36), cube_component((n / 6) % 6), cube_component(n % 6))
    } else {
        let v = 8 + 10 * (i - 232);
        (v, v, v)
    }
}

pub open spec fn rgb_is(c: Rgb, t: (int, int, int)) -> bool {
    c.r as int == t.0 && c.g as int == t.1 && c.b as int == t.2
}

fn cube(n: u8) -> (r: u8)
    requires
        n < 6,
    ensures
        r as int == cube_component(n as int),
{
    if n == 0 {
        0
    } else {
        55 + 40 * n
    }
}

/// The palette color at `index`.
pub fn ansi_color(index: u8) -> (r: Rgb)
    ensures
        rgb_is(r, palette(index as int)),
{
    let t: (u8, u8, u8) = match index {
        0 => (0x1a, 0x1a, 0x1a),
        1 => (0xcc, 0x37, 0x2e),
        2 => (0x26, 0xa4, 0x39),
        3 => (0xcd, 0xac, 0x08),
        4 => (0x08, 0x69, 0xcb),
        5 => (0x96, 0x47, 0xbf),
        6 => (0x47, 0x9e, 0xc2),
        7 => (0x98, 0x98, 0x9d),
        8 => (0x46, 0x46, 0x46),
        9 => (0xff, 0x45, 0x3a),
        10 => (0x32, 0xd7, 0x4b),
        11 => (0xff, 0xd6, 0x0a),
        12 => (0x0a, 0x84, 0xff),
        13 => (0xbf, 0x5a, 0xf2),
        14 => (0x76, 0xd6, 0xff),
        15 => (0xff, 0xff, 0xff),
        _ => {
            if index < 232 {
                let n = index - 16;
                (cube(n / 36), cube((n / 6) % 6), cube(n % 6))
            } else {
                let v = 8 + 10 * (index - 232);
                (v, v, v)
            }
        },
    };
    Rgb { r: t.0, g: t.1, b: t.2 }
}

/// The color for a palette index, an emulator color slot or a default: a
/// color the application set for the slot wins; then the palette; slot 256
/// is the default foreground, 257 the default background, any other white.
pub fn resolve_color_index(set_color: Option<Rgb>, idx: usize, config: &TerminalConfig) -> (r: Rgb)
    ensures
        match set_color {
            Some(c) => r == c,
            None => if idx < 256 {
                rgb_is(r, palette(idx as int))
            } else if idx == 256 {
                r == config.default_fg
            } else if idx == 257 {
                r == config.default_bg
            } else {
                r == (Rgb { r: 0xff, g: 0xff, b: 0xff })
            },
        },
{
    if let Some(c) = set_color {
        return c;
    }
    if idx < 256 {
        return ansi_color(idx as u8);
    }
    if idx == 256 {
        config.default_fg
    } else if idx == 257 {
        config.default_bg
    } else {
        Rgb { r: 0xff, g: 0xff, b: 0xff }
    }
}

/// The color of a cell as the emulator stores it.
#[derive(Clone, Copy, Debug, PartialEq, Eq, Structural)]
pub enum CellColor {
    /// A direct RGB color.
    Spec(Rgb),
    /// A palette index.
    Indexed(u8),
    /// A named slot (its index), and whether it is the background slot.
    Named { index: usize, is_background: bool },
}

/// The emulator's color slot that a cell color reads, if any.
pub fn color_slot(color: CellColor) -> (r: Option<usize>)
    ensures
        r == (match color {
            CellColor::Spec(_) => None,
            CellColor::Indexed(i) => Some(i as usize),
            CellColor::Named { index, .. } => Some(index),
        }),
{
    match color {
        CellColor::Spec(_) => None,
        CellColor::Indexed(i) => Some(i as usize),
        CellColor::Named { index, .. } => Some(index),
    }
}

/// The color a cell is drawn in: a direct color as it is; a slot the
/// application set; the palette; else the default background for the
/// background slot and the default foreground for any other.
pub fn resolve_cell_color(color: CellColor, set_color: Option<Rgb>, config: &TerminalConfig) -> (r: Rgb)
    ensures
        match color {
            CellColor::Spec(c) => r == c,
            CellColor::Indexed(i) => match set_color {
                Some(c) => r == c,
                None => rgb_is(r, palette(i as int)),
            },
            CellColor::Named { index, is_background } => match set_color {
                Some(c) => r == c,
                None => if index < 256 {
                    rgb_is(r, palette(index as int))
                } else if is_background {
                    r == config.default_bg
                } else {
                    r == config.default_fg
                },
            },
        },
{
    match color {
        CellColor::Spec(c) => c,
        CellColor::Indexed(i) => match set_color {
            Some(c) => c,
            None => ansi_color(i),
        },
        CellColor::Named { index, is_background } => match set_color {
            Some(c) => c,
            None => {
                if index < 256 {
                    ansi_color(index as u8)
                } else if is_background {
                    config.default_bg
                } else {
                    config.default_fg
                }
            },
        },
    }
}

// ---------------------------------------------------------------------------
// rows
// ---------------------------------------------------------------------------

/// One cell of a row, with its colors resolved.
#[derive(Clone, Copy, Debug)]
pub struct CellStyle {
    pub c: char,
    /// The cell is the spacer after a wide character.
    pub wide_spacer: bool,
    pub fg: Rgb,
    pub bg: Rgb,
    pub bold: bool,
    pub italic: bool,
    /// Any kind of underline.
    pub underline: bool,
    pub dim: bool,
    pub strikeout: bool,
    pub inverse: bool,
}

/// The style flags of a cell.
pub open spec fn cell_flags(c: CellStyle) -> u8 {
    ((if c.bold {
        2int
    } else {
        0
    }) + (if c.italic {
        4int
    } else {
        0
    }) + (if c.underline {
        8int
    } else {
        0
    }) + (if c.dim {
        16int
    } else {
        0
    }) + (if c.strikeout {
        64int
    } else {
        0
    })) as u8
}

/// The colors a cell is drawn in: swapped when inverse.
pub open spec fn drawn_colors(c: CellStyle) -> (Rgb, Rgb) {
    if c.inverse {
        (c.bg, c.fg)
    } else {
        (c.fg, c.bg)
    }
}

/// The columns a cell takes: its display width, at least one (one for a
/// control character).
pub open spec fn cell_columns(c: char) -> int {
    match char_display_width(c) {
        Some(w) => if w == 0 {
            1
        } else {
            w as int
        },
        None => 1,
    }
}

/// The text of a row: wide-character spacers are skipped and empty cells
/// are spaces.
pub open spec fn row_text(cells: Seq<CellStyle>) -> Seq<char>
    decreases cells.len(),
{
    if cells.len() == 0 {
        Seq::empty()
    } else {
        let c = cells.last();
        row_text(cells.drop_last()) + (if c.wide_spacer {
            Seq::empty()
        } else if c.c == '\0' {
            seq![' ']
        } else {
            seq![c.c]
        })
    }
}

/// Builds the text of a row.
pub fn row_string(cells: &Vec<CellStyle>) -> (r: Vec<char>)
    ensures
        r@ == row_text(cells@),
{
    let mut out: Vec<char> = Vec::new();
    let mut i: usize = 0;
    while i < cells.len()
        invariant
            i <= cells@.len(),
            out@ == row_text(cells@.subrange(0, i as int)),
        decreases cells@.len() - i,
    {
        let c = cells[i];
        proof {
            assert(cells@.subrange(0, i + 1).drop_last() =~= cells@.subrange(0, i as int));
        }
        if !c.wide_spacer {
            if c.c == '\0' {
                out.push(' ');
            } else {
                out.push(c.c);
            }
        }
        proof {
            assert(out@ =~= row_text(cells@.subrange(0, i + 1)));
        }
        i = i + 1;
    }
    assert(cells@.subrange(0, cells@.len() as int) =~= cells@);
    out
}

/// Rows joined into one text, a line feed between each two.
pub open spec fn joined_rows(rows: Seq<Seq<char>>) -> Seq<char>
    decreases rows.len(),
{
    if rows.len() == 0 {
        Seq::empty()
    } else if rows.len() == 1 {
        rows[0]
    } else {
        joined_rows(rows.drop_last()) + seq!['\n'] + rows.last()
    }
}

/// Joins the rows of the viewport into one text, a line feed between each
/// two rows.
pub fn join_rows(rows: &Vec<Vec<char>>) -> (r: Vec<char>)
    ensures
        r@ == joined_rows(rows@.map_values(|v: Vec<char>| v@)),
{
    let ghost rv = rows@.map_values(|v: Vec<char>| v@);
    let mut out: Vec<char> = Vec::new();
    let mut i: usize = 0;
    while i < rows.len()
        invariant
            i <= rows@.len(),
            rv == rows@.map_values(|v: Vec<char>| v@),
            out@ == joined_rows(rv.take(i as int)),
        decreases rows@.len() - i,
    {
        let ghost before = out@;
        if i > 0 {
            out.push('\n');
        }
        let row = &rows[i];
        let mut k: usize = 0;
        let ghost mid = out@;
        while k < row.len()
            invariant
                k <= row@.len(),
                out@ == mid + row@.take(k as int),
            decreases row@.len() - k,
        {
            out.push(row[k]);
            k = k + 1;
            assert(out@ =~= mid + row@.take(k as int));
        }
        proof {
            assert(row@.take(row@.len() as int) =~= row@);
            assert(rv.take(i + 1).drop_last() =~= rv.take(i as int));
            assert(rv.take(i + 1).last() == row@);
            if i == 0 {
                assert(rv.take(1) =~= seq![row@]);
                assert(out@ =~= row@);
            } else {
                assert(mid =~= before + seq!['\n']);
            }
        }
        i = i + 1;
    }
    assert(rv.take(rows@.len() as int) =~= rv);
    out
}

/// Where the cursor shows, 1-based column and row: nowhere while the view
/// is scrolled back into the history.
pub fn visible_cursor(display_offset: usize, column: usize, line: i32) -> (r: Option<(u16, u16)>)
    requires
        column < u16::MAX,
        0 <= line < u16::MAX,
    ensures
        r == (if display_offset != 0 {
            None
        } else {
            Some(((column + 1) as u16, (line + 1) as u16))
        }),
{
    if display_offset != 0 {
        return None;
    }
    Some((column as u16 + 1, line as u16 + 1))
}

/// How far the view scrolled between two display offsets (lines scrolled
/// back into the history): positive towards the live screen.
pub fn scroll_delta(last_offset: usize, current_offset: usize) -> (r: i32)
    requires
        last_offset <= i32::MAX,
        current_offset <= i32::MAX,
    ensures
        r == last_offset - current_offset,
{
    last_offset as i32 - current_offset as i32
}

/// A run in progress: colors, flags and the column it starts at.
pub type OpenRun = (Rgb, Rgb, u8, int);

/// The runs of a row read from its start, given the run still open and the
/// column reached after `cells`: a cell of the open run's style extends it,
/// another closes it at the column before its own and opens its own;
/// spacers are skipped.
pub open spec fn runs_after(cells: Seq<CellStyle>) -> (Seq<(int, int, Rgb, Rgb, u8)>, Option<OpenRun>, int)
    decreases cells.len(),
{
    if cells.len() == 0 {
        (Seq::empty(), None, 1)
    } else {
        let (done, open, col) = runs_after(cells.drop_last());
        let c = cells.last();
        if c.wide_spacer {
            (done, open, col)
        } else {
            let (fg, bg) = drawn_colors(c);
            let flags = cell_flags(c);
            let next_col = col + cell_columns(c.c);
            match open {
                Some((rf, rb, rl, start)) => if rf == fg && rb == bg && rl == flags {
                    (done, open, next_col)
                } else {
                    (done.push((start, col - 1, rf, rb, rl)), Some((fg, bg, flags, col)), next_col)
                },
                None => (done, Some((fg, bg, flags, col)), next_col),
            }
        }
    }
}

/// The style runs of a row: the closed runs, then the one still open.
pub open spec fn style_runs_of(cells: Seq<CellStyle>) -> Seq<(int, int, Rgb, Rgb, u8)> {
    let (done, open, col) = runs_after(cells);
    match open {
        Some((f, b, l, start)) => done.push((start, col - 1, f, b, l)),
        None => done,
    }
}

pub open spec fn run_view(r: StyleRun) -> (int, int, Rgb, Rgb, u8) {
    (r.start_col as int, r.end_col as int, r.fg, r.bg, r.flags)
}

/// The last column a row reaches: one past the columns of its cells.
pub open spec fn row_end_column(cells: Seq<CellStyle>) -> int {
    runs_after(cells).2
}

proof fn lemma_runs_columns(cells: Seq<CellStyle>)
    ensures
        runs_after(cells).2 >= 1,
        runs_after(cells).1 matches Some(o) ==> 1 <= o.3 < runs_after(cells).2,
        forall|j: int| 0 <= j < runs_after(cells).0.len() ==> 1 <= (#[trigger] runs_after(cells).0[j]).0
            <= runs_after(cells).0[j].1 < runs_after(cells).2,
    decreases cells.len(),
{
    if cells.len() > 0 {
        lemma_runs_columns(cells.drop_last());
        let c = cells.last();
        let p = runs_after(cells.drop_last());
        assert(cell_columns(c.c) >= 1);
        if !c.wide_spacer {
            let (fg, bg) = drawn_colors(c);
            let flags = cell_flags(c);
            match p.1 {
                Some(o) => {
                    if !(o.0 == fg && o.1 == bg && o.2 == flags) {
                        let done2 = p.0.push((o.3, p.2 - 1, o.0, o.1, o.2));
                        assert forall|j: int| 0 <= j < done2.len() implies 1 <= (#[trigger] done2[j]).0
                            <= done2[j].1 < p.2 + cell_columns(c.c) by {
                            if j < p.0.len() {
                                assert(done2[j] == p.0[j]);
                            }
                        }
                    }
                },
                None => {},
            }
        }
    }
}

/// Whether runs follow one another along a row: the first starts at column
/// 1, each ends no earlier than it starts, each starts just after the one
/// before it ends, and neighbours differ in colors or flags.
pub open spec fn runs_chained(rs: Seq<(int, int, Rgb, Rgb, u8)>) -> bool {
    &&& rs.len() > 0 ==> rs[0].0 == 1
    &&& forall|k: int| 0 <= k < rs.len() ==> (#[trigger] rs[k]).0 <= rs[k].1
    &&& forall|k: int|
        1 <= k < rs.len() ==> (#[trigger] rs[k]).0 == rs[k - 1].1 + 1 && (rs[k].2, rs[k].3, rs[k].4)
            != (rs[k - 1].2, rs[k - 1].3, rs[k - 1].4)
}

proof fn lemma_runs_chained(cells: Seq<CellStyle>)
    ensures
        runs_after(cells).1 is None ==> runs_after(cells).0.len() == 0 && runs_after(cells).2 == 1,
        runs_after(cells).1 matches Some(o) ==> 1 <= o.3 < runs_after(cells).2,
        runs_chained(style_runs_of(cells)),
        style_runs_of(cells).len() > 0 ==> style_runs_of(cells).last().1 == runs_after(cells).2 - 1,
    decreases cells.len(),
{
    if cells.len() > 0 {
        let prev = cells.drop_last();
        lemma_runs_chained(prev);
        let (done, open, col) = runs_after(prev);
        let c = cells.last();
        let rs0 = style_runs_of(prev);
        assert(cell_columns(c.c) >= 1);
        if !c.wide_spacer {
            let (fg, bg) = drawn_colors(c);
            let flags = cell_flags(c);
            let next_col = col + cell_columns(c.c);
            match open {
                Some(o) => {
                    let rs = style_runs_of(cells);
                    if o.0 == fg && o.1 == bg && o.2 == flags {
                        assert(rs == done.push((o.3, next_col - 1, o.0, o.1, o.2)));
                        assert(rs0 == done.push((o.3, col - 1, o.0, o.1, o.2)));
                        assert forall|k: int| 0 <= k < rs.len() implies (#[trigger] rs[k]).0 <= rs[k].1 by {
                            if k < done.len() {
                                assert(rs[k] == rs0[k]);
                            }
                        }
                        assert forall|k: int| 1 <= k < rs.len() implies (#[trigger] rs[k]).0 == rs[k - 1].1 + 1
                            && (rs[k].2, rs[k].3, rs[k].4) != (rs[k - 1].2, rs[k - 1].3, rs[k - 1].4) by {
                            assert(rs[k - 1] == rs0[k - 1]);
                            if k < done.len() {
                                assert(rs[k] == rs0[k]);
                            } else {
                                assert(rs0[k].0 == rs[k].0);
                            }
                        }
                    } else {
                        let closed = (o.3, col - 1, o.0, o.1, o.2);
                        assert(rs0 == done.push(closed));
                        assert(rs == rs0.push((col, next_col - 1, fg, bg, flags)));
                        assert forall|k: int| 0 <= k < rs.len() implies (#[trigger] rs[k]).0 <= rs[k].1 by {
                            if k < rs0.len() {
                                assert(rs[k] == rs0[k]);
                            }
                        }
                        assert forall|k: int| 1 <= k < rs.len() implies (#[trigger] rs[k]).0 == rs[k - 1].1 + 1
                            && (rs[k].2, rs[k].3, rs[k].4) != (rs[k - 1].2, rs[k - 1].3, rs[k - 1].4) by {
                            assert(rs[k - 1] == rs0[k - 1]);
                            if k < rs0.len() {
                                assert(rs[k] == rs0[k]);
                            }
                        }
                    }
                },
                None => {
                    let rs = style_runs_of(cells);
                    assert(rs =~= seq![(1int, next_col - 1, fg, bg, flags)]);
                },
            }
        }
    }
}

/// The style runs of a row follow one another from column 1 to the last
/// column the row reaches, each with colors or flags other than its
/// neighbours'; a row with no cell to draw has none.
pub proof fn law_style_runs_cover_the_row(cells: Seq<CellStyle>)
    ensures
        runs_chained(style_runs_of(cells)),
        style_runs_of(cells).len() > 0 ==> style_runs_of(cells).last().1 == row_end_column(cells) - 1,
        style_runs_of(cells).len() == 0 <==> row_end_column(cells) == 1,
{
    lemma_runs_chained(cells);
}

proof fn lemma_col_prefix(cells: Seq<CellStyle>, k: int)
    requires
        0 <= k <= cells.len(),
    ensures
        runs_after(cells.subrange(0, k)).2 <= runs_after(cells).2,
    decreases cells.len() - k,
{
    if k < cells.len() {
        lemma_col_prefix(cells, k + 1);
        let p = cells.subrange(0, k + 1);
        assert(p.drop_last() =~= cells.subrange(0, k));
        assert(cell_columns(p.last().c) >= 1);
    } else {
        assert(cells.subrange(0, k) =~= cells);
    }
}

fn cell_flags_exec(c: &CellStyle) -> (r: u8)
    ensures
        r == cell_flags(*c),
{
    let mut flags: u8 = 0;
    if c.bold {
        flags = flags + 2;
    }
    if c.italic {
        flags = flags + 4;
    }
    if c.underline {
        flags = flags + 8;
    }
    if c.dim {
        flags = flags + 16;
    }
    if c.strikeout {
        flags = flags + 64;
    }
    flags
}

/// The columns a character takes in a row.
pub fn char_columns(c: char) -> (r: usize)
    ensures
        r as int == cell_columns(c),
        r >= 1,
{
    match unicode_char_width(c) {
        Some(w) => if w == 0 {
            1
        } else {
            w
        },
        None => 1,
    }
}

/// Splits a row into runs of cells that share colors and flags. The
/// columns must fit in `u16`: the row may not reach past column 65535.
pub fn dump_row_style_runs(cells: &Vec<CellStyle>) -> (r: Vec<StyleRun>)
    requires
        row_end_column(cells@) <= u16::MAX,
    ensures
        r@.map_values(|x: StyleRun| run_view(x)) == style_runs_of(cells@),
{
    let mut runs: Vec<StyleRun> = Vec::new();
    let mut current: Option<(Rgb, Rgb, u8, u16)> = None;
    let mut col_pos: u16 = 1;
    let mut i: usize = 0;
    proof {
        lemma_runs_columns(cells@);
        assert forall|k: int| 0 <= k <= cells@.len() implies #[trigger] runs_after(
            cells@.subrange(0, k),
        ).2 <= row_end_column(cells@) by {
            lemma_col_prefix(cells@, k);
        }
        assert(cells@.subrange(0, 0) =~= Seq::<CellStyle>::empty());
    }
    while i < cells.len()
        invariant
            i <= cells@.len(),
            row_end_column(cells@) <= u16::MAX,
            ({
                let st = runs_after(cells@.subrange(0, i as int));
                &&& runs@.map_values(|x: StyleRun| run_view(x)) == st.0
                &&& col_pos as int == st.2
                &&& match current {
                    Some((f, b, l, s)) => st.1 == Some((f, b, l, s as int)),
                    None => st.1 is None,
                }
            }),
            forall|k: int| i <= k <= cells@.len() ==> #[trigger] runs_after(cells@.subrange(0, k)).2
                <= row_end_column(cells@),
        decreases cells@.len() - i,
    {
        let c = cells[i];
        let ghost pre = cells@.subrange(0, i as int);
        proof {
            assert(cells@.subrange(0, i + 1).drop_last() =~= pre);
            assert(cells@.subrange(0, i + 1).last() == c);
            assert(runs_after(cells@.subrange(0, i + 1)).2 <= row_end_column(cells@));
            lemma_runs_columns(pre);
        }
        if c.wide_spacer {
            i = i + 1;
            continue;
        }
        let (fg, bg) = if c.inverse {
            (c.bg, c.fg)
        } else {
            (c.fg, c.bg)
        };
        let flags = cell_flags_exec(&c);
        let width = char_columns(c.c);
        let ghost before = runs@.map_values(|x: StyleRun| run_view(x));
        match current {
            Some((rf, rb, rl, start)) => {
                if rf == fg && rb == bg && rl == flags {
                } else {
                    runs.push(StyleRun { start_col: start, end_col: col_pos - 1, fg: rf, bg: rb, flags: rl });
                    proof {
                        assert(runs@.map_values(|x: StyleRun| run_view(x)) =~= before.push(
                            (start as int, col_pos - 1, rf, rb, rl),
                        ));
                    }
                    current = Some((fg, bg, flags, col_pos));
                }
            },
            None => {
                current = Some((fg, bg, flags, col_pos));
            },
        }
        col_pos = col_pos + width as u16;
        i = i + 1;
    }
    assert(cells@.subrange(0, cells@.len() as int) =~= cells@);
    if let Some((fg, bg, flags, start)) = current {
        let ghost before = runs@.map_values(|x: StyleRun| run_view(x));
        proof {
            lemma_runs_columns(cells@);
        }
        runs.push(StyleRun { start_col: start, end_col: col_pos - 1, fg, bg, flags });
        assert(runs@.map_values(|x: StyleRun| run_view(x)) =~= before.push(
            (start as int, col_pos - 1, fg, bg, flags),
        ));
    }
    runs
}

/// The style runs of a row whose columns fit in `u16`; `None` for a row
/// that would reach past column 65535.
pub fn row_style_runs(cells: &Vec<CellStyle>) -> (r: Option<Vec<StyleRun>>)
    ensures
        match r {
            Some(v) => row_end_column(cells@) <= u16::MAX && v@.map_values(|x: StyleRun| run_view(x))
                == style_runs_of(cells@),
            None => row_end_column(cells@) > u16::MAX,
        },
{
    let mut col: usize = 1;
    let mut i: usize = 0;
    assert(cells@.subrange(0, 0) =~= Seq::<CellStyle>::empty());
    while i < cells.len()
        invariant
            i <= cells@.len(),
            col as int == runs_after(cells@.subrange(0, i as int)).2,
            col <= u16::MAX,
        decreases cells@.len() - i,
    {
        proof {
            assert(cells@.subrange(0, i + 1).drop_last() =~= cells@.subrange(0, i as int));
            lemma_col_prefix(cells@, i + 1);
        }
        if !cells[i].wide_spacer {
            let w = char_columns(cells[i].c);
            if w > 65535 - col {
                return None;
            }
            col = col + w;
        }
        i = i + 1;
    }
    assert(cells@.subrange(0, cells@.len() as int) =~= cells@);
    Some(dump_row_style_runs(cells))
}

// ---------------------------------------------------------------------------
// box drawing
// ---------------------------------------------------------------------------

pub const BOX_DIR_LEFT: u8 = 0x01;

pub const BOX_DIR_RIGHT: u8 = 0x02;

pub const BOX_DIR_UP: u8 = 0x04;

pub const BOX_DIR_DOWN: u8 = 0x08;

/// The stroke of a box-drawing character.
#[derive(Clone, Copy, Debug, PartialEq, Eq, Structural)]
pub enum LineWeight {
    Light,
    Heavy,
    Double,
}

/// The directions in which a box-drawing character's lines leave the
/// cell center (left 1, right 2, up 4, down 8), and their stroke; `None`
/// for a character drawn as text.
pub open spec fn box_lines(ch: char) -> Option<(u8, LineWeight)> {
    let mask: Option<u8> = if ch == '\u{2500}' || ch == '\u{2501}' || ch == '\u{2550}' {
        Some(3)
    } else if ch == '\u{2502}' || ch == '\u{2503}' || ch == '\u{2551}' {
        Some(12)
    } else if ch == '\u{250c}' || ch == '\u{250f}' || ch == '\u{2554}' || ch == '\u{256d}' {
        Some(10)
    } else if ch == '\u{2510}' || ch == '\u{2513}' || ch == '\u{2557}' || ch == '\u{256e}' {
        Some(9)
    } else if ch == '\u{2514}' || ch == '\u{2517}' || ch == '\u{255a}' || ch == '\u{2570}' {
        Some(6)
    } else if ch == '\u{2518}' || ch == '\u{251b}' || ch == '\u{255d}' || ch == '\u{256f}' {
        Some(5)
    } else if ch == '\u{251c}' || ch == '\u{2523}' || ch == '\u{2560}' {
        Some(14)
    } else if ch == '\u{2524}' || ch == '\u{252b}' || ch == '\u{2563}' {
        Some(13)
    } else if ch == '\u{252c}' || ch == '\u{2533}' || ch == '\u{2566}' {
        Some(11)
    } else if ch == '\u{2534}' || ch == '\u{253b}' || ch == '\u{2569}' {
        Some(7)
    } else if ch == '\u{253c}' || ch == '\u{254b}' || ch == '\u{256c}' {
        Some(15)
    } else {
        None
    };
    let weight = if ch == '\u{2501}' || ch == '\u{2503}' || ch == '\u{250f}' || ch == '\u{2513}'
        || ch == '\u{2517}' || ch == '\u{251b}' || ch == '\u{2523}' || ch == '\u{252b}' || ch
        == '\u{2533}' || ch == '\u{253b}' || ch == '\u{254b}' {
        LineWeight::Heavy
    } else if ch == '\u{2550}' || ch == '\u{2551}' || ch == '\u{2554}' || ch == '\u{2557}' || ch
        == '\u{255a}' || ch == '\u{255d}' || ch == '\u{2560}' || ch == '\u{2563}' || ch
        == '\u{2566}' || ch == '\u{2569}' || ch == '\u{256c}' {
        LineWeight::Double
    } else {
        LineWeight::Light
    };
    match mask {
        Some(m) => Some((m, weight)),
        None => None,
    }
}

/// The lines of a box-drawing character.
pub fn box_drawing_mask(ch: char) -> (r: Option<(u8, LineWeight)>)
    ensures
        r == box_lines(ch),
{
    let mask: u8 = match ch {
        '\u{2500}' | '\u{2501}' | '\u{2550}' => BOX_DIR_LEFT | BOX_DIR_RIGHT,
        '\u{2502}' | '\u{2503}' | '\u{2551}' => BOX_DIR_UP | BOX_DIR_DOWN,
        '\u{250c}' | '\u{250f}' | '\u{2554}' | '\u{256d}' => BOX_DIR_RIGHT | BOX_DIR_DOWN,
        '\u{2510}' | '\u{2513}' | '\u{2557}' | '\u{256e}' => BOX_DIR_LEFT | BOX_DIR_DOWN,
        '\u{2514}' | '\u{2517}' | '\u{255a}' | '\u{2570}' => BOX_DIR_RIGHT | BOX_DIR_UP,
        '\u{2518}' | '\u{251b}' | '\u{255d}' | '\u{256f}' => BOX_DIR_LEFT | BOX_DIR_UP,
        '\u{251c}' | '\u{2523}' | '\u{2560}' => BOX_DIR_RIGHT | BOX_DIR_UP | BOX_DIR_DOWN,
        '\u{2524}' | '\u{252b}' | '\u{2563}' => BOX_DIR_LEFT | BOX_DIR_UP | BOX_DIR_DOWN,
        '\u{252c}' | '\u{2533}' | '\u{2566}' => BOX_DIR_LEFT | BOX_DIR_RIGHT | BOX_DIR_DOWN,
        '\u{2534}' | '\u{253b}' | '\u{2569}' => BOX_DIR_LEFT | BOX_DIR_RIGHT | BOX_DIR_UP,
        '\u{253c}' | '\u{254b}' | '\u{256c}' => BOX_DIR_LEFT | BOX_DIR_RIGHT | BOX_DIR_UP
            | BOX_DIR_DOWN,
        _ => return None,
    };
    proof {
        assert(1u8 | 2u8 == 3u8) by (bit_vector);
        assert(4u8 | 8u8 == 12u8) by (bit_vector);
        assert(2u8 | 8u8 == 10u8) by (bit_vector);
        assert(1u8 | 8u8 == 9u8) by (bit_vector);
        assert(2u8 | 4u8 == 6u8) by (bit_vector);
        assert(1u8 | 4u8 == 5u8) by (bit_vector);
        assert(2u8 | 4u8 | 8u8 == 14u8) by (bit_vector);
        assert(1u8 | 4u8 | 8u8 == 13u8) by (bit_vector);
        assert(1u8 | 2u8 | 8u8 == 11u8) by (bit_vector);
        assert(1u8 | 2u8 | 4u8 == 7u8) by (bit_vector);
        assert(1u8 | 2u8 | 4u8 | 8u8 == 15u8) by (bit_vector);
    }
    let weight = match ch {
        '\u{2501}' | '\u{2503}' | '\u{250f}' | '\u{2513}' | '\u{2517}' | '\u{251b}' | '\u{2523}'
        | '\u{252b}' | '\u{2533}' | '\u{253b}' | '\u{254b}' => LineWeight::Heavy,
        '\u{2550}' | '\u{2551}' | '\u{2554}' | '\u{2557}' | '\u{255a}' | '\u{255d}' | '\u{2560}'
        | '\u{2563}' | '\u{2566}' | '\u{2569}' | '\u{256c}' => LineWeight::Double,
        _ => LineWeight::Light,
    };
    Some((mask, weight))
}

// ---------------------------------------------------------------------------
// emulator events
// ---------------------------------------------------------------------------

/// An event that the terminal emulator reports after processing output.
#[derive(Debug)]
pub enum TerminalEvent {
    Title(String),
    ResetTitle,
    ClipboardStore(String),
    PtyWrite(String),
    ColorRequest(usize),
    Other,
}

/// What the session keeps from the emulator's events.
#[derive(Debug)]
pub struct SessionEvents {
    pub title: Option<String>,
    pub clipboard_write: Option<String>,
}

/// What handling an event asks of the caller.
#[derive(Debug)]
pub enum EventReply {
    Nothing,
    /// Send these bytes back to the program (a terminal query's answer).
    Send(String),
    /// Answer a color query for this slot.
    AnswerColor(usize),
}

impl SessionEvents {
    /// Takes the text that the program asked to copy, if any.
    pub fn take_clipboard_write(&mut self) -> (r: Option<String>)
        ensures
            r == old(self).clipboard_write,
            final(self).clipboard_write is None,
            final(self).title == old(self).title,
    {
        let r = self.clipboard_write.take();
        r
    }

    /// Handles one event: a title is kept or cleared, a clipboard store is
    /// kept for the view; with `forward` on, a write to the program and a
    /// color query are handed back to be answered, otherwise ignored.
    pub fn handle_event(&mut self, event: TerminalEvent, forward: bool) -> (r: EventReply)
        ensures
            match event {
                TerminalEvent::Title(t) => final(self).title == Some(t) && final(self).clipboard_write
                    == old(self).clipboard_write && r is Nothing,
                TerminalEvent::ResetTitle => final(self).title is None
                    && final(self).clipboard_write == old(self).clipboard_write && r is Nothing,
                TerminalEvent::ClipboardStore(t) => final(self).clipboard_write == Some(t)
                    && final(self).title == old(self).title && r is Nothing,
                TerminalEvent::PtyWrite(t) => *final(self) == *old(self) && (if forward {
                    r == EventReply::Send(t)
                } else {
                    r is Nothing
                }),
                TerminalEvent::ColorRequest(i) => *final(self) == *old(self) && (if forward {
                    r == EventReply::AnswerColor(i)
                } else {
                    r is Nothing
                }),
                TerminalEvent::Other => *final(self) == *old(self) && r is Nothing,
            },
    {
        match event {
            TerminalEvent::Title(t) => {
                self.title = Some(t);
                EventReply::Nothing
            },
            TerminalEvent::ResetTitle => {
                self.title = None;
                EventReply::Nothing
            },
            TerminalEvent::ClipboardStore(t) => {
                self.clipboard_write = Some(t);
                EventReply::Nothing
            },
            TerminalEvent::PtyWrite(t) => {
                if forward {
                    EventReply::Send(t)
                } else {
                    EventReply::Nothing
                }
            },
            TerminalEvent::ColorRequest(i) => {
                if forward {
                    EventReply::AnswerColor(i)
                } else {
                    EventReply::Nothing
                }
            },
            TerminalEvent::Other => EventReply::Nothing,
        }
    }
}

} // verus!
