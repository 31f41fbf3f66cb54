use dif::terminal_input::{
    byte_index_for_column_in_line, ctrl_byte_for_keystroke, encode_key_named,
    normal_mouse_sequence, sgr_mouse_button_value, sgr_mouse_sequence,
    should_skip_key_down_for_ime,
};

#[test]
fn encode_arrow_keys() {
    assert_eq!(
        encode_key_named("up", false, false, false).as_deref(),
        Some(b"\x1b[A".as_slice())
    );
    assert_eq!(
        encode_key_named("down", false, false, false).as_deref(),
        Some(b"\x1b[B".as_slice())
    );
    assert_eq!(
        encode_key_named("right", false, false, false).as_deref(),
        Some(b"\x1b[C".as_slice())
    );
    assert_eq!(
        encode_key_named("left", false, false, false).as_deref(),
        Some(b"\x1b[D".as_slice())
    );
}

#[test]
fn encode_home_end() {
    assert_eq!(
        encode_key_named("home", false, false, false).as_deref(),
        Some(b"\x1b[H".as_slice())
    );
    assert_eq!(
        encode_key_named("end", false, false, false).as_deref(),
        Some(b"\x1b[F".as_slice())
    );
}

#[test]
fn encode_insert_delete() {
    assert_eq!(
        encode_key_named("insert", false, false, false).as_deref(),
        Some(b"\x1b[2~".as_slice())
    );
    assert_eq!(
        encode_key_named("delete", false, false, false).as_deref(),
        Some(b"\x1b[3~".as_slice())
    );
}

#[test]
fn encode_page_up_down() {
    assert_eq!(
        encode_key_named("pageup", false, false, false).as_deref(),
        Some(b"\x1b[5~".as_slice())
    );
    assert_eq!(
        encode_key_named("pagedown", false, false, false).as_deref(),
        Some(b"\x1b[6~".as_slice())
    );
}

#[test]
fn encode_function_keys() {
    assert!(encode_key_named("f1", false, false, false).is_some());
    assert!(encode_key_named("f2", false, false, false).is_some());
    assert!(encode_key_named("f5", false, false, false).is_some());
    assert!(encode_key_named("f12", false, false, false).is_some());
}

#[test]
fn encode_arrow_with_ctrl() {
    let encoded = encode_key_named("up", false, true, false).unwrap();
    // Should include modifier parameter (CSI 1;5A)
    assert_eq!(encoded, b"\x1b[1;5A");
}

#[test]
fn encode_arrow_with_shift() {
    let encoded = encode_key_named("up", true, false, false).unwrap();
    // CSI 1;2A
    assert_eq!(encoded, b"\x1b[1;2A");
}

#[test]
fn encode_arrow_with_alt() {
    let encoded = encode_key_named("up", false, false, true).unwrap();
    // CSI 1;3A
    assert_eq!(encoded, b"\x1b[1;3A");
}

#[test]
fn tab_encodes_correctly() {
    let encoded = encode_key_named("tab", false, false, false);
    // Tab key should produce \t (0x09) or be recognized
    if let Some(bytes) = encoded {
        assert_eq!(bytes, b"\t");
    }
    // If None, tab is handled separately by the terminal input handler, which is also acceptable
}

#[test]
fn encode_function_keys_exact_bytes() {
    assert_eq!(encode_key_named("f1", false, false, false).unwrap(), b"\x1bOP");
    assert_eq!(encode_key_named("f4", false, true, false).unwrap(), b"\x1b[1;5S");
    assert_eq!(encode_key_named("f5", false, false, false).unwrap(), b"\x1b[15~");
    assert_eq!(encode_key_named("f12", true, false, false).unwrap(), b"\x1b[24;2~");
    assert_eq!(encode_key_named("page_down", false, false, false).unwrap(), b"\x1b[6~");
}

#[test]
fn encode_all_modifiers_and_plain_only_keys() {
    assert_eq!(encode_key_named("left", true, true, true).unwrap(), b"\x1b[1;8D");
    assert_eq!(encode_key_named("tab", true, false, false).unwrap(), b"\x1b[Z");
    assert_eq!(encode_key_named("tab", false, true, false), None);
    assert_eq!(encode_key_named("enter", false, false, false).unwrap(), b"\r");
    assert_eq!(encode_key_named("return", false, false, true), None);
    assert_eq!(encode_key_named("backspace", false, false, false).unwrap(), vec![0x7f]);
    assert_eq!(encode_key_named("escape", false, false, false).unwrap(), vec![0x1b]);
    assert_eq!(encode_key_named("space", false, false, false), None);
}

#[test]
fn ctrl_byte_basic_letters() {
    assert_eq!(ctrl_byte_for_keystroke("a", None), Some(0x01));
    assert_eq!(ctrl_byte_for_keystroke("z", None), Some(0x1a));
    assert_eq!(ctrl_byte_for_keystroke("m", None), Some(0x0d));
}

#[test]
fn ctrl_byte_special_chars() {
    assert_eq!(ctrl_byte_for_keystroke("space", None), Some(0x00));
    assert_eq!(ctrl_byte_for_keystroke("/", None), Some(0x1f));
    assert_eq!(ctrl_byte_for_keystroke("x", Some("[")), Some(0x1b));
    assert_eq!(ctrl_byte_for_keystroke("2", None), Some(0x00));
    assert_eq!(ctrl_byte_for_keystroke("5", None), Some(0x1d));
    assert_eq!(ctrl_byte_for_keystroke("8", None), Some(0x7f));
    assert_eq!(ctrl_byte_for_keystroke("9", None), None);
    assert_eq!(ctrl_byte_for_keystroke("", None), None);
    assert_eq!(ctrl_byte_for_keystroke("ab", None), None);
    assert_eq!(ctrl_byte_for_keystroke("\u{e9}", None), None);
}

#[test]
fn ime_keeps_enter_keys() {
    assert!(should_skip_key_down_for_ime(true, true, "a"));
    assert!(!should_skip_key_down_for_ime(true, true, "enter"));
    assert!(!should_skip_key_down_for_ime(true, true, "kp_enter"));
    assert!(!should_skip_key_down_for_ime(true, false, "a"));
    assert!(!should_skip_key_down_for_ime(false, true, "a"));
}

#[test]
fn mouse_reports() {
    assert_eq!(sgr_mouse_button_value(0, true, true, true, true), 60);
    assert_eq!(sgr_mouse_button_value(250, true, false, false, false), 255);
    assert_eq!(sgr_mouse_sequence(0, 10, 5, true), "\x1b[<0;10;5M");
    assert_eq!(sgr_mouse_sequence(65, 1, 300, false), "\x1b[<65;1;300m");
    assert_eq!(normal_mouse_sequence(0, 10, 5), vec![0x1b, b'[', b'M', 32, 42, 37]);
    assert_eq!(normal_mouse_sequence(250, 500, 223), vec![0x1b, b'[', b'M', 255, 255, 255]);
}

#[test]
fn column_to_byte_index() {
    assert_eq!(byte_index_for_column_in_line("hello", 0), 0);
    assert_eq!(byte_index_for_column_in_line("hello", 1), 0);
    assert_eq!(byte_index_for_column_in_line("hello", 3), 2);
    assert_eq!(byte_index_for_column_in_line("hello", 9), 5);
    // a wide character takes two columns
    assert_eq!(byte_index_for_column_in_line("a\u{4e2d}b", 3), 1);
    assert_eq!(byte_index_for_column_in_line("a\u{4e2d}b", 4), 4);
    assert_eq!(byte_index_for_column_in_line("\u{e9}x", 2), 2);
}
