use dif::terminal_view::{
    file_drop_payload, is_word_char, mouse_report, move_route, next_click_count, paste_payload,
    press_route, release_report, release_route, scroll_action, shell_quote, split_viewport_lines,
    ByteSelection, MouseButtonKind, MoveRoute, PressRoute, ReleaseRoute, ScrollAction,
    TerminalView,
};

#[test]
fn shell_quote_returns_empty_quoted_for_empty_string() {
    assert_eq!(shell_quote(""), "''");
}

#[test]
fn shell_quote_leaves_simple_paths_unquoted() {
    assert_eq!(shell_quote("/usr/bin/ls"), "/usr/bin/ls");
    assert_eq!(shell_quote("file.txt"), "file.txt");
    assert_eq!(shell_quote("a-b_c.d"), "a-b_c.d");
    assert_eq!(shell_quote("/tmp/image@2x.png"), "/tmp/image@2x.png");
}

#[test]
fn shell_quote_quotes_paths_with_spaces() {
    assert_eq!(
        shell_quote("/path/to/my file.png"),
        "'/path/to/my file.png'"
    );
}

#[test]
fn shell_quote_escapes_single_quotes() {
    assert_eq!(shell_quote("it's"), "'it'\\''s'");
}

#[test]
fn shell_quote_quotes_special_characters() {
    assert_eq!(shell_quote("a b"), "'a b'");
    assert_eq!(shell_quote("a(b)"), "'a(b)'");
    assert_eq!(shell_quote("a$b"), "'a$b'");
    assert_eq!(shell_quote("a&b"), "'a&b'");
}

#[test]
fn word_boundary_detection() {
    let line = b"hello world foo-bar";

    // 'h' at 0 is word char
    assert!(is_word_char(line[0]));
    // space at 5 is not
    assert!(!is_word_char(line[5]));
    // '-' at 15 IS word char (we include it, like paths/identifiers)
    assert!(is_word_char(line[15]));
}

#[test]
fn viewport_line_offsets_computed_correctly() {
    let lines = vec![
        "first line".to_string(),
        "second line".to_string(),
        "third".to_string(),
    ];
    let offsets = TerminalView::compute_viewport_line_offsets(&lines);
    assert_eq!(offsets, vec![0, 11, 23]);

    let total = TerminalView::compute_viewport_total_len(&lines);
    assert_eq!(total, 29); // 10+1 + 11+1 + 5+1 = 29
}

#[test]
fn shell_quote_keeps_non_ascii_quoted() {
    assert_eq!(shell_quote("caf\u{e9}"), "'caf\u{e9}'");
}

#[test]
fn split_viewport_lines_drops_one_trailing_newline() {
    assert_eq!(split_viewport_lines("a\nb\n"), vec!["a", "b"]);
    assert_eq!(split_viewport_lines("a\n\n"), vec!["a", ""]);
    assert!(split_viewport_lines("").is_empty());
    assert!(split_viewport_lines("\n").is_empty());
}

#[test]
fn viewport_text_builds_offsets() {
    let view = TerminalView::from_viewport_text("first line\nsecond line\nthird\n").unwrap();
    assert_eq!(view.viewport_lines, vec!["first line", "second line", "third"]);
    assert_eq!(view.viewport_line_offsets, vec![0, 11, 23]);
    assert_eq!(view.viewport_total_len, 29);
    assert!(view.selection.is_none());
}

#[test]
fn viewport_row_lookup_finds_the_line_of_a_byte() {
    let view = TerminalView::from_viewport_text("first line\nsecond line\nthird").unwrap();
    assert_eq!(view.viewport_row_for_index(0), Some((0, "first line", 0)));
    assert_eq!(view.viewport_row_for_index(11), Some((1, "second line", 11)));
    assert_eq!(view.viewport_row_for_index(10), Some((0, "first line", 0)));
    assert_eq!(view.viewport_row_for_index(100), Some((2, "third", 23)));
}

#[test]
fn double_click_selects_word_space_run_or_byte() {
    let view = TerminalView::from_viewport_text("hello world  foo-bar.rs!").unwrap();
    assert_eq!(
        view.select_word_at_index(1),
        Some(ByteSelection { anchor: 0, active: 5 })
    );
    assert_eq!(
        view.select_word_at_index(14),
        Some(ByteSelection { anchor: 13, active: 23 })
    );
    assert_eq!(
        view.select_word_at_index(11),
        Some(ByteSelection { anchor: 11, active: 13 })
    );
    assert_eq!(
        view.select_word_at_index(23),
        Some(ByteSelection { anchor: 23, active: 24 })
    );
    assert_eq!(view.select_word_at_index(24), None);
}

#[test]
fn triple_click_selects_line() {
    let view = TerminalView::from_viewport_text("first line\nsecond line").unwrap();
    assert_eq!(
        view.select_line_at_index(13),
        Some(ByteSelection { anchor: 11, active: 22 })
    );
}

#[test]
fn selection_range_is_ordered() {
    let s = ByteSelection { anchor: 9, active: 3 };
    assert_eq!(s.start(), 3);
    assert_eq!(s.end(), 9);
    assert!(!s.is_empty());
    assert!(ByteSelection { anchor: 4, active: 4 }.is_empty());
}

#[test]
fn paste_strips_escapes_unless_bracketed() {
    assert_eq!(paste_payload("a\u{1b}[31mb", false), b"a[31mb".to_vec());
    assert_eq!(
        paste_payload("a\u{1b}b", true),
        b"\x1b[200~a\x1bb\x1b[201~".to_vec()
    );
}

#[test]
fn file_drop_quotes_and_joins_paths() {
    let paths = vec!["/tmp/a b.png".to_string(), "/tmp/c.txt".to_string()];
    assert_eq!(
        file_drop_payload(&paths, false),
        Some(b"'/tmp/a b.png' /tmp/c.txt".to_vec())
    );
    assert_eq!(
        file_drop_payload(&vec!["x".to_string()], true),
        Some(b"\x1b[200~x\x1b[201~".to_vec())
    );
    assert_eq!(file_drop_payload(&Vec::new(), true), None);
}

#[test]
fn click_count_cycles_through_three() {
    assert_eq!(next_click_count(None, true), 1);
    assert_eq!(next_click_count(Some(1), true), 2);
    assert_eq!(next_click_count(Some(2), true), 3);
    assert_eq!(next_click_count(Some(3), true), 1);
    assert_eq!(next_click_count(Some(2), false), 1);
}

#[test]
fn scroll_routes_to_reports_arrows_or_history() {
    assert_eq!(
        scroll_action(-3, true, false, true, false, false, false),
        ScrollAction::Report { button: 64, steps: 3 }
    );
    assert_eq!(
        scroll_action(25, true, false, true, false, true, true),
        ScrollAction::Report { button: 65 + 8 + 16, steps: 10 }
    );
    assert_eq!(
        scroll_action(2, true, false, false, true, false, false),
        ScrollAction::Arrows { down: true, steps: 2 }
    );
    assert_eq!(
        scroll_action(-2, false, false, true, true, false, false),
        ScrollAction::Viewport(-2)
    );
    assert_eq!(
        scroll_action(i32::MIN, true, true, true, true, false, false),
        ScrollAction::Arrows { down: false, steps: 10 }
    );
}

#[test]
fn presses_go_to_the_selection_or_the_application() {
    assert_eq!(press_route(true, MouseButtonKind::Left, false, true, true), PressRoute::Ignore);
    assert_eq!(press_route(false, MouseButtonKind::Left, true, true, true), PressRoute::Select);
    assert_eq!(press_route(false, MouseButtonKind::Right, false, false, true), PressRoute::Ignore);
    assert_eq!(press_route(false, MouseButtonKind::Left, false, true, false), PressRoute::Select);
    assert_eq!(press_route(false, MouseButtonKind::Middle, false, true, true), PressRoute::Report(1));
    assert_eq!(press_route(false, MouseButtonKind::Other, false, true, true), PressRoute::Ignore);
    assert_eq!(release_route(MouseButtonKind::Right, false, true, true), ReleaseRoute::Report(2));
    assert_eq!(release_route(MouseButtonKind::Right, true, true, true), ReleaseRoute::Select);
    assert_eq!(release_route(MouseButtonKind::Other, false, true, true), ReleaseRoute::Ignore);
}

#[test]
fn motion_is_reported_only_when_asked_for() {
    assert_eq!(move_route(false, true, true, true, false, None), MoveRoute::Report(3));
    assert_eq!(move_route(false, true, true, false, true, Some(MouseButtonKind::Left)), MoveRoute::Report(0));
    assert_eq!(move_route(false, true, true, false, true, None), MoveRoute::Drag);
    assert_eq!(move_route(true, true, true, true, true, Some(MouseButtonKind::Left)), MoveRoute::Drag);
    assert_eq!(move_route(false, true, true, false, false, Some(MouseButtonKind::Left)), MoveRoute::Drag);
}

#[test]
fn mouse_reports_in_both_encodings() {
    assert_eq!(mouse_report(0, 5, 3, true, true), b"\x1b[<0;5;3M".to_vec());
    assert_eq!(mouse_report(0, 5, 3, false, true), b"\x1b[<0;5;3m".to_vec());
    assert_eq!(mouse_report(0, 5, 3, true, false), vec![0x1b, b'[', b'M', 32, 37, 35]);
    assert_eq!(release_report(2, false, false, 1, 1, true), b"\x1b[<2;1;1m".to_vec());
    assert_eq!(release_report(2, false, false, 1, 1, false), vec![0x1b, b'[', b'M', 35, 33, 33]);
}

#[test]
fn clicks_select_a_point_a_word_or_a_line() {
    let mut view = TerminalView::from_viewport_text("hello world\nsecond").unwrap();
    view.press_selection(7, 1);
    assert_eq!(view.selection, Some(ByteSelection { anchor: 7, active: 7 }));
    view.press_selection(7, 2);
    assert_eq!(view.selection, Some(ByteSelection { anchor: 6, active: 11 }));
    view.press_selection(13, 3);
    assert_eq!(view.selection, Some(ByteSelection { anchor: 12, active: 18 }));
    assert!(view.drag_selection(14));
    assert_eq!(view.selection, Some(ByteSelection { anchor: 12, active: 14 }));
    assert!(!view.drag_selection(14));
    assert!(view.release_selection());
    assert_eq!(view.selection, Some(ByteSelection { anchor: 12, active: 14 }));
    view.press_selection(3, 1);
    assert!(view.release_selection());
    assert_eq!(view.selection, None);
    assert!(!view.release_selection());
}

#[test]
fn select_all_covers_the_viewport() {
    let mut view = TerminalView::from_viewport_text("ab\ncd").unwrap();
    view.select_all();
    assert_eq!(view.selection, Some(ByteSelection { anchor: 0, active: view.viewport_total_len }));
    assert_eq!(view.viewport_total_len, 6);
}
