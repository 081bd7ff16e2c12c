use std::borrow::Cow;

use editor_91to9::terminal_ui_tools::{
    bg_color, bg_indexed, bg_rgb, clear_color, draw_box, fg_color, fg_indexed, fg_rgb, hline,
    put_text, sanitize_for_terminal, vline,
};

#[test]
fn clean_text_is_borrowed_unchanged() {
    let text = "plain name, with spaces 42";
    match sanitize_for_terminal(text) {
        Cow::Borrowed(clean) => assert_eq!(clean, text),
        Cow::Owned(_) => panic!("clean input must not allocate"),
    }
}

#[test]
fn c0_controls_use_caret_notation() {
    assert_eq!(sanitize_for_terminal("a\x1b\x07\x0ab"), "a^[^G^Jb");
    assert_eq!(sanitize_for_terminal("\x00"), "^@");
    assert_eq!(sanitize_for_terminal("\x1f"), "^_");
    assert_eq!(sanitize_for_terminal("\x7f"), "^?");
}

#[test]
fn c1_controls_become_replacement_char() {
    assert_eq!(sanitize_for_terminal("a\u{9f}b"), "a\u{fffd}b");
    assert_eq!(sanitize_for_terminal("\u{80}"), "\u{fffd}");
}

#[test]
fn put_text_strips_injection_but_keeps_csi_move() {
    let mut buf = Vec::new();
    put_text(&mut buf, 3, 5, "x\x1b[31m");
    assert_eq!(String::from_utf8(buf).unwrap(), "\x1b[3;5Hx^[[31m");
}

fn written(emit: impl FnOnce(&mut Vec<u8>)) -> String {
    let mut buf = Vec::new();
    emit(&mut buf);
    String::from_utf8(buf).unwrap()
}

#[test]
fn sanitizing_twice_changes_nothing_more() {
    let once = sanitize_for_terminal("a\x1b]0;evil\x07\u{85}z").into_owned();
    assert_eq!(once, "a^[]0;evil^G\u{fffd}z");
    match sanitize_for_terminal(&once) {
        Cow::Borrowed(again) => assert_eq!(again, once),
        Cow::Owned(_) => panic!("sanitized text must already be clean"),
    }
}

#[test]
fn non_ascii_text_is_kept() {
    assert_eq!(sanitize_for_terminal("世界 é"), "世界 é");
    assert_eq!(written(|b| put_text(b, 1, 2, "世")), "\x1b[1;2H世");
}

#[test]
fn color_sequences() {
    assert_eq!(written(clear_color), "\x1b[39;49m");
    assert_eq!(written(|b| fg_color(b, 36)), "\x1b[36m");
    assert_eq!(written(|b| bg_color(b, 104)), "\x1b[104m");
    assert_eq!(written(|b| fg_indexed(b, 208)), "\x1b[38;5;208m");
    assert_eq!(written(|b| bg_indexed(b, 0)), "\x1b[48;5;0m");
    assert_eq!(written(|b| fg_rgb(b, 255, 0, 7)), "\x1b[38;2;255;0;7m");
    assert_eq!(written(|b| bg_rgb(b, 1, 22, 133)), "\x1b[48;2;1;22;133m");
}

#[test]
fn lines_and_boxes() {
    assert_eq!(written(|b| hline(b, 2, 3, 3)), "\x1b[2;3H───");
    assert_eq!(written(|b| hline(b, 2, 3, 0)), "\x1b[2;3H");
    assert_eq!(written(|b| vline(b, 4, 1, 2)), "\x1b[4;1H│\x1b[5;1H│");
    assert_eq!(written(|b| vline(b, 4, 1, 0)), "");
    assert_eq!(
        written(|b| draw_box(b, 1, 1, 3, 3)),
        "\x1b[1;1H┌─┐\x1b[2;1H│\x1b[2;3H│\x1b[3;1H└─┘"
    );
    assert_eq!(written(|b| draw_box(b, 1, 1, 2, 2)), "\x1b[1;1H┌┐\x1b[2;1H└┘");
    assert_eq!(written(|b| draw_box(b, 1, 1, 1, 5)), "");
}

#[test]
fn flat_box_at_the_right_edge() {
    assert_eq!(written(|b| draw_box(b, 1, 65535, 2, 2)), "\x1b[1;65535H┌┐\x1b[2;65535H└┘");
}
