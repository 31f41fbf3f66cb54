use dif::terminal_screen::{
    ansi_color, box_drawing_mask, cursor_shape_for, resolve_cell_color, resolve_color_index,
    row_string, row_style_runs, CellColor, CellStyle, CursorShape, EventReply, LineWeight,
    RequestedCursorShape, Rgb, SessionEvents, StyleRun, TerminalConfig, TerminalEvent,
};

fn rgb(r: u8, g: u8, b: u8) -> Rgb {
    Rgb { r, g, b }
}

#[test]
fn terminal_config_defaults() {
    let c = TerminalConfig::default();
    assert_eq!((c.cols, c.rows), (80, 24));
    assert_eq!(c.default_fg, rgb(0xff, 0xff, 0xff));
    assert_eq!(c.default_bg, rgb(0x1e, 0x1e, 0x1e));
    assert!(c.update_window_title);
    assert_eq!(CursorShape::default(), CursorShape::Bar);
}

#[test]
fn palette_entries() {
    assert_eq!(ansi_color(1), rgb(0xcc, 0x37, 0x2e));
    assert_eq!(ansi_color(15), rgb(0xff, 0xff, 0xff));
    assert_eq!(ansi_color(16), rgb(0, 0, 0));
    assert_eq!(ansi_color(21), rgb(0, 0, 255));
    assert_eq!(ansi_color(196), rgb(255, 0, 0));
    assert_eq!(ansi_color(231), rgb(255, 255, 255));
    assert_eq!(ansi_color(232), rgb(8, 8, 8));
    assert_eq!(ansi_color(255), rgb(238, 238, 238));
}

#[test]
fn color_resolution() {
    let c = TerminalConfig::default();
    assert_eq!(resolve_color_index(Some(rgb(1, 2, 3)), 4, &c), rgb(1, 2, 3));
    assert_eq!(resolve_color_index(None, 4, &c), rgb(0x08, 0x69, 0xcb));
    assert_eq!(resolve_color_index(None, 256, &c), c.default_fg);
    assert_eq!(resolve_color_index(None, 257, &c), c.default_bg);
    assert_eq!(resolve_color_index(None, 300, &c), rgb(0xff, 0xff, 0xff));
    assert_eq!(resolve_cell_color(CellColor::Spec(rgb(9, 9, 9)), Some(rgb(1, 1, 1)), &c), rgb(9, 9, 9));
    assert_eq!(resolve_cell_color(CellColor::Indexed(2), None, &c), rgb(0x26, 0xa4, 0x39));
    assert_eq!(
        resolve_cell_color(CellColor::Named { index: 257, is_background: true }, None, &c),
        c.default_bg
    );
    assert_eq!(
        resolve_cell_color(CellColor::Named { index: 256, is_background: false }, None, &c),
        c.default_fg
    );
    assert_eq!(cursor_shape_for(RequestedCursorShape::Beam), CursorShape::Bar);
    assert_eq!(cursor_shape_for(RequestedCursorShape::Block), CursorShape::Block);
}

fn cell(c: char, fg: Rgb, bold: bool) -> CellStyle {
    CellStyle {
        c,
        wide_spacer: false,
        fg,
        bg: rgb(0, 0, 0),
        bold,
        italic: false,
        underline: false,
        dim: false,
        strikeout: false,
        inverse: false,
    }
}

#[test]
fn style_runs_group_cells() {
    let white = rgb(255, 255, 255);
    let red = rgb(255, 0, 0);
    let mut wide = cell('\u{4e2d}', red, false);
    wide.wide_spacer = false;
    let mut spacer = cell(' ', white, false);
    spacer.wide_spacer = true;
    let cells = vec![
        cell('a', white, false),
        cell('b', white, false),
        cell('c', red, true),
        wide,
        spacer,
        cell('\0', red, false),
    ];
    let runs = row_style_runs(&cells).unwrap();
    assert_eq!(
        runs,
        vec![
            StyleRun { start_col: 1, end_col: 2, fg: white, bg: rgb(0, 0, 0), flags: 0 },
            StyleRun { start_col: 3, end_col: 3, fg: red, bg: rgb(0, 0, 0), flags: 0x02 },
            StyleRun { start_col: 4, end_col: 6, fg: red, bg: rgb(0, 0, 0), flags: 0 },
        ]
    );
    let text: String = row_string(&cells).into_iter().collect();
    assert_eq!(text, "abc\u{4e2d} ");
}

#[test]
fn inverse_cells_swap_colors() {
    let mut c = cell('x', rgb(1, 1, 1), false);
    c.inverse = true;
    c.dim = true;
    let runs = row_style_runs(&vec![c]).unwrap();
    assert_eq!(runs[0].fg, rgb(0, 0, 0));
    assert_eq!(runs[0].bg, rgb(1, 1, 1));
    assert_eq!(runs[0].flags, 0x10);
    assert!(row_style_runs(&vec![]).unwrap().is_empty());
}

#[test]
fn box_drawing_characters() {
    assert_eq!(box_drawing_mask('\u{2500}'), Some((0x03, LineWeight::Light)));
    assert_eq!(box_drawing_mask('\u{254b}'), Some((0x0f, LineWeight::Heavy)));
    assert_eq!(box_drawing_mask('\u{255d}'), Some((0x05, LineWeight::Double)));
    assert_eq!(box_drawing_mask('\u{256d}'), Some((0x0a, LineWeight::Light)));
    assert_eq!(box_drawing_mask('x'), None);
}

#[test]
fn emulator_events_update_the_session() {
    let mut s = SessionEvents { title: None, clipboard_write: None };
    assert!(matches!(s.handle_event(TerminalEvent::Title("t".to_string()), false), EventReply::Nothing));
    assert_eq!(s.title.as_deref(), Some("t"));
    s.handle_event(TerminalEvent::ClipboardStore("copied".to_string()), true);
    assert!(matches!(s.handle_event(TerminalEvent::PtyWrite("\x1b[0n".to_string()), true), EventReply::Send(ref x) if x == "\x1b[0n"));
    assert!(matches!(s.handle_event(TerminalEvent::PtyWrite("x".to_string()), false), EventReply::Nothing));
    assert!(matches!(s.handle_event(TerminalEvent::ColorRequest(11), true), EventReply::AnswerColor(11)));
    s.handle_event(TerminalEvent::ResetTitle, false);
    assert!(s.title.is_none());
    assert_eq!(s.take_clipboard_write().as_deref(), Some("copied"));
    assert!(s.take_clipboard_write().is_none());
}
