use dif::terminal_input::encode_key_named;
use dif::terminal_screen::{join_rows, scroll_delta, visible_cursor};
use dif::terminal_view::shell_quote;
use dif::text_input::{cursor_visual_line, selection_spans};

#[test]
fn cursor_shows_only_on_the_live_screen() {
    assert_eq!(visible_cursor(0, 3, 4), Some((4, 5)));
    assert_eq!(visible_cursor(2, 3, 4), None);
}

#[test]
fn scroll_delta_counts_towards_the_live_screen() {
    assert_eq!(scroll_delta(5, 2), 3);
    assert_eq!(scroll_delta(0, 4), -4);
}

#[test]
fn viewport_rows_join_with_line_feeds() {
    assert_eq!(join_rows(&vec![vec!['a'], vec!['b', 'c']]), vec!['a', '\n', 'b', 'c']);
    assert_eq!(join_rows(&vec![vec!['x']]), vec!['x']);
    assert!(join_rows(&Vec::new()).is_empty());
}

#[test]
fn cursor_lands_on_the_last_line_starting_before_it() {
    let starts = vec![0, 5, 9];
    assert_eq!(cursor_visual_line(&starts, 7), (1, 2));
    assert_eq!(cursor_visual_line(&starts, 9), (2, 0));
    assert_eq!(cursor_visual_line(&starts, 0), (0, 0));
}

#[test]
fn selection_spans_each_visual_line_it_touches() {
    let starts = vec![0, 5, 9];
    assert_eq!(selection_spans(&starts, 12, 3, 10), vec![(0, 3, 5), (1, 0, 4), (2, 0, 1)]);
    assert_eq!(selection_spans(&starts, 12, 6, 8), vec![(1, 1, 3)]);
    assert!(selection_spans(&starts, 12, 4, 4).is_empty());
}

#[test]
fn key_bytes_follow_the_written_out_forms() {
    assert_eq!(encode_key_named("up", false, false, false), Some(b"\x1b[A".to_vec()));
    assert_eq!(encode_key_named("up", true, true, true), Some(b"\x1b[1;8A".to_vec()));
    assert_eq!(encode_key_named("f5", false, true, false), Some(b"\x1b[15;5~".to_vec()));
    assert_eq!(encode_key_named("f1", false, false, false), Some(b"\x1bOP".to_vec()));
    assert_eq!(encode_key_named("f1", false, false, true), Some(b"\x1b[1;3P".to_vec()));
}

#[test]
fn quoted_paths_read_back_as_one_word() {
    assert_eq!(shell_quote("src/main.rs"), "src/main.rs");
    assert_eq!(shell_quote("my file"), "'my file'");
    assert_eq!(shell_quote("it's"), "'it'\\''s'");
    assert_eq!(shell_quote(""), "''");
}
