use editor_91to9::terminal_tools::{
    clear, clear_line, enter_alt_screen, goto, hide_cursor, leave_alt_screen, reset_style,
    restore_cursor, save_cursor, set_title, show_cursor,
};

fn written(emit: impl FnOnce(&mut Vec<u8>)) -> String {
    let mut buf = Vec::new();
    emit(&mut buf);
    String::from_utf8(buf).unwrap()
}

#[test]
fn cursor_and_screen_sequences() {
    assert_eq!(written(|b| goto(b, 1, 1)), "\x1b[1;1H");
    assert_eq!(written(|b| goto(b, 65535, 10)), "\x1b[65535;10H");
    assert_eq!(written(clear), "\x1b[2J\x1b[H");
    assert_eq!(written(clear_line), "\x1b[2K");
    assert_eq!(written(show_cursor), "\x1b[?25h");
    assert_eq!(written(hide_cursor), "\x1b[?25l");
    assert_eq!(written(save_cursor), "\x1b7");
    assert_eq!(written(restore_cursor), "\x1b8");
    assert_eq!(written(enter_alt_screen), "\x1b[?1049h");
    assert_eq!(written(leave_alt_screen), "\x1b[?1049l");
    assert_eq!(written(reset_style), "\x1b[0m");
}

#[test]
fn title_is_written_as_given() {
    assert_eq!(written(|b| set_title(b, "Explorer — /tmp")), "\x1b]0;Explorer — /tmp\x07");
}

#[test]
fn sequences_append_to_the_buffer() {
    let mut buf = b"ab".to_vec();
    goto(&mut buf, 3, 4);
    clear_line(&mut buf);
    assert_eq!(String::from_utf8(buf).unwrap(), "ab\x1b[3;4H\x1b[2K");
}
