use dif::text_input::{TextInput, TextInputEvent};

fn input(text: &str) -> TextInput {
    TextInput::new(text.to_string())
}

#[test]
fn test_initial_state() {
    let input = input("hello");
    assert_eq!(input.text(), "hello");
    assert_eq!(input.selected_range(), 0..5);
}

#[test]
fn test_empty_initial_text() {
    let input = input("");
    assert_eq!(input.text(), "");
    assert_eq!(input.selected_range(), 0..0);
}

#[test]
fn test_backspace_deletes_selection() {
    let mut input = input("hello");
    input.backspace();
    assert_eq!(input.text(), "");
    assert_eq!(input.selected_range(), 0..0);
}

#[test]
fn test_backspace_single_char() {
    let mut input = input("hello");
    input.move_to(5);
    input.backspace();
    assert_eq!(input.text(), "hell");
    assert_eq!(input.selected_range(), 4..4);
}

#[test]
fn test_delete_forward() {
    let mut input = input("hello");
    input.move_to(0);
    input.delete();
    assert_eq!(input.text(), "ello");
    assert_eq!(input.selected_range(), 0..0);
}

#[test]
fn test_left_collapses_selection_to_start() {
    let mut input = input("hello");
    input.left();
    assert_eq!(input.selected_range(), 0..0);
}

#[test]
fn test_right_collapses_selection_to_end() {
    let mut input = input("hello");
    input.right();
    assert_eq!(input.selected_range(), 5..5);
}

#[test]
fn test_select_all() {
    let mut input = input("hello");
    input.move_to(3);
    assert_eq!(input.selected_range(), 3..3);
    input.select_all();
    assert_eq!(input.selected_range(), 0..5);
}

#[test]
fn test_home_and_end() {
    let mut input = input("hello");
    input.move_to(3);
    input.end();
    assert_eq!(input.selected_range(), 5..5);
    input.home();
    assert_eq!(input.selected_range(), 0..0);
}

#[test]
fn test_replace_text_in_range() {
    let mut input = input("hello world");
    input.replace_text_in_range(Some(6..11), "rust");
    assert_eq!(input.text(), "hello rust");
}

#[test]
fn test_select_left_right() {
    let mut input = input("abc");
    input.move_to(1);
    input.select_right();
    assert_eq!(input.selected_range(), 1..2);
    input.select_right();
    assert_eq!(input.selected_range(), 1..3);
    input.select_left();
    assert_eq!(input.selected_range(), 1..2);
}

#[test]
fn test_cursor_navigation() {
    let mut input = input("abc");
    input.move_to(0);
    input.right();
    assert_eq!(input.selected_range(), 1..1);
    input.right();
    assert_eq!(input.selected_range(), 2..2);
    input.left();
    assert_eq!(input.selected_range(), 1..1);
}

#[test]
fn test_right_at_end_stays() {
    let mut input = input("ab");
    input.move_to(2);
    input.right();
    assert_eq!(input.selected_range(), 2..2);
}

#[test]
fn test_left_at_start_stays() {
    let mut input = input("ab");
    input.move_to(0);
    input.left();
    assert_eq!(input.selected_range(), 0..0);
}

#[test]
fn test_utf16_offset_roundtrip() {
    // '€' is 3 bytes in UTF-8 and 1 code unit in UTF-16.
    let input = input("a€b");
    assert_eq!(input.offset_to_utf16(0), 0);
    assert_eq!(input.offset_to_utf16(1), 1);
    assert_eq!(input.offset_to_utf16(4), 2);
    assert_eq!(input.offset_to_utf16(5), 3);

    assert_eq!(input.offset_from_utf16(0), 0);
    assert_eq!(input.offset_from_utf16(1), 1);
    assert_eq!(input.offset_from_utf16(2), 4);
    assert_eq!(input.offset_from_utf16(3), 5);
}

#[test]
fn test_grapheme_boundaries() {
    let input = input("abc");
    assert_eq!(input.previous_boundary(3), 2);
    assert_eq!(input.previous_boundary(2), 1);
    assert_eq!(input.previous_boundary(1), 0);
    assert_eq!(input.previous_boundary(0), 0);

    assert_eq!(input.next_boundary(0), 1);
    assert_eq!(input.next_boundary(1), 2);
    assert_eq!(input.next_boundary(2), 3);
    assert_eq!(input.next_boundary(3), 3);
}

#[test]
fn test_confirm_emits_trimmed_text() {
    let input = input("  hello  ");
    match input.confirm() {
        TextInputEvent::Confirm(text) => assert_eq!(text, "hello"),
        other => panic!("expected Confirm, got {:?}", other),
    }
}

#[test]
fn test_cancel_emits_event() {
    let input = input("text");
    assert!(matches!(input.cancel(), TextInputEvent::Cancel));
}

#[test]
fn grapheme_moves_skip_combining_marks() {
    // "e" + combining acute accent is one cluster of three bytes.
    let mut input = input("ae\u{301}b");
    input.move_to(1);
    input.right();
    assert_eq!(input.selected_range(), 4..4);
    input.left();
    assert_eq!(input.selected_range(), 1..1);
    input.move_to(4);
    input.backspace();
    assert_eq!(input.text(), "ab");
    assert_eq!(input.selected_range(), 1..1);
}

#[test]
fn select_to_swaps_ends_when_crossing() {
    let mut input = input("hello");
    input.move_to(3);
    input.select_left();
    input.select_left();
    assert_eq!(input.selected_range(), 1..3);
    assert_eq!(input.cursor_offset(), 1);
    input.select_to(4);
    assert_eq!(input.selected_range(), 3..4);
    assert_eq!(input.cursor_offset(), 4);
}

#[test]
fn utf16_round_trip_on_boundaries_with_surrogates() {
    // '😀' is 4 bytes in UTF-8 and 2 code units in UTF-16.
    let input = input("x😀y");
    for b in [0usize, 1, 5, 6] {
        assert_eq!(input.offset_from_utf16(input.offset_to_utf16(b)), b);
    }
    assert_eq!(input.offset_to_utf16(5), 3);
    assert_eq!(input.offset_from_utf16(2), 5);
}

#[test]
fn paste_turns_line_breaks_into_spaces() {
    let mut input = input("ab");
    input.move_to(1);
    input.paste("x\ny");
    assert_eq!(input.text(), "ax yb");
    assert_eq!(input.selected_range(), 4..4);
}

#[test]
fn copy_and_cut_take_the_selection() {
    let mut input = input("hello world");
    input.move_to(6);
    input.select_to(11);
    assert_eq!(input.copy(), Some("world".to_string()));
    assert_eq!(input.cut(), Some("world".to_string()));
    assert_eq!(input.text(), "hello ");
    assert_eq!(input.cut(), None);
}

#[test]
fn marked_text_is_replaced_by_the_next_edit() {
    let mut input = input("ab");
    input.move_to(1);
    input.replace_and_mark_text_in_range(None, "ka", None);
    assert_eq!(input.text(), "akab");
    assert_eq!(input.marked_text_range(), Some(1..3));
    assert_eq!(input.selected_range(), 3..3);
    input.replace_text_in_range(None, "か");
    assert_eq!(input.text(), "aかb");
    assert_eq!(input.marked_text_range(), None);
    assert_eq!(input.selected_range(), 4..4);
}

#[test]
fn text_for_range_reports_the_range_used() {
    let mut input = input("a€b");
    let mut actual = None;
    assert_eq!(input.text_for_range(1..3, &mut actual), Some("€b".to_string()));
    assert_eq!(actual, Some(1..3));
    input.unmark_text();
    let sel = input.selected_text_range();
    assert_eq!((sel.start, sel.end, sel.reversed), (0, 3, false));
}

#[test]
fn mouse_drag_extends_the_selection() {
    let mut input = input("hello");
    input.on_mouse_down(1, false);
    input.on_mouse_move(4);
    input.on_mouse_up();
    input.on_mouse_move(5);
    assert_eq!(input.selected_range(), 1..4);
    input.on_mouse_down(0, true);
    assert_eq!(input.selected_range(), 0..1);
}

#[test]
fn select_all_then_backspace_clears() {
    let mut input = input("héllo wörld");
    input.move_to(3);
    input.select_left();
    input.select_all();
    input.backspace();
    assert_eq!(input.text(), "");
    assert_eq!(input.selected_range(), 0..0);
}
