use rusteams::sanitize::{sanitize, sanitize_with_limit};

#[test]
fn plain_text_passes_through() {
    assert_eq!(sanitize("Hello, Teams!"), "Hello, Teams!");
}

#[test]
fn strips_ansi_color_sequences() {
    assert_eq!(sanitize("\x1b[31mred\x1b[0m"), "red");
}

#[test]
fn strips_csi_cursor_positioning() {
    assert_eq!(sanitize("a\x1b[2;5Hb"), "ab");
}

#[test]
fn strips_osc_hyperlink_and_title() {
    assert_eq!(sanitize("\x1b]8;;http://evil.example\x07click\x1b]0;owned\x07"), "click");
}

#[test]
fn strips_lone_escape_and_other_esc_sequences() {
    assert_eq!(sanitize("a\x1bb"), "a");
    assert_eq!(sanitize("a\x1b(0b"), "ab");
    assert_eq!(sanitize("a\x1b b"), "a b");
}

#[test]
fn strips_c0_controls_but_keeps_newline_and_tab() {
    assert_eq!(sanitize("a\x00b\x07c\nd\te"), "abc\nd\te");
}

#[test]
fn strips_del_character() {
    assert_eq!(sanitize("a\x7fb"), "ab");
}

#[test]
fn strips_esc_terminated_osc() {
    assert_eq!(sanitize("x\x1b]8;;http://e\x1b\\y"), "xy");
}

#[test]
fn handles_emoji_and_unicode() {
    assert_eq!(sanitize("hi 💘 ünïcodé"), "hi 💘 ünïcodé");
}

#[test]
fn truncate_respects_char_boundary() {
    assert_eq!(sanitize_with_limit("abcdef", 3), "abc");
    assert_eq!(sanitize_with_limit("hi 💘bye", 4), "hi 💘");
}

#[test]
fn empty_input_stays_empty() {
    assert_eq!(sanitize(""), "");
}

#[test]
fn sanitizing_twice_changes_nothing() {
    for s in ["\x1b[1mbold\x1b[0m\x07", "a\x1b", "\x1b]0;t", "\u{fdd0}x\u{ffff}", "plain"] {
        let once = sanitize(s);
        assert_eq!(sanitize(&once), once);
        assert!(!once.contains('\x1b'));
        assert!(once.chars().all(|c| c == '\n' || c == '\t' || !c.is_control()));
    }
}

#[test]
fn unterminated_sequences_swallow_the_rest() {
    assert_eq!(sanitize("ok\x1b[12"), "ok");
    assert_eq!(sanitize("ok\x1b]title"), "ok");
    assert_eq!(sanitize("ok\x1b"), "ok");
}

#[test]
fn noncharacters_are_dropped() {
    assert_eq!(sanitize("a\u{fdd0}b\u{fffe}c\u{1ffff}d"), "abcd");
}
