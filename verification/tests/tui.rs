use editor_91to9::dir_info::Entry;
use editor_91to9::tui::{
    cell_for, spinner_frame, status_line, sync, Command, Key, ListView, Screen, TuiState,
};

fn state() -> TuiState {
    TuiState::new()
}

#[test]
fn navigation_keys_move_within_list() {
    let mut s = state();
    assert_eq!(s.handle_key(Key::Down, 3, 10), Command::Stay);
    assert_eq!(s.selected, 1);
    s.handle_key(Key::Char('j'), 3, 10);
    s.handle_key(Key::Char('j'), 3, 10);
    assert_eq!(s.selected, 2);
    s.handle_key(Key::Up, 3, 10);
    s.handle_key(Key::Char('k'), 3, 10);
    s.handle_key(Key::Char('k'), 3, 10);
    assert_eq!(s.selected, 0);
    s.handle_key(Key::End, 3, 10);
    assert_eq!(s.selected, 2);
    s.handle_key(Key::Home, 3, 10);
    assert_eq!(s.selected, 0);
    s.handle_key(Key::PageDown, 100, 20);
    assert_eq!(s.selected, 20);
    s.handle_key(Key::PageUp, 100, 15);
    assert_eq!(s.selected, 5);
    s.handle_key(Key::PageDown, 0, 15);
    assert_eq!(s.selected, 0);
}

#[test]
fn commands_from_keys() {
    let mut s = state();
    assert_eq!(s.handle_key(Key::Char('q'), 1, 1), Command::Quit);
    assert_eq!(s.handle_key(Key::Esc, 1, 1), Command::Quit);
    assert_eq!(s.handle_key(Key::Char('r'), 1, 1), Command::Refresh);
    assert_eq!(s.handle_key(Key::Enter, 1, 1), Command::Open);
    assert_eq!(s.handle_key(Key::Backspace, 1, 1), Command::Parent);
    assert_eq!(s.handle_key(Key::Other, 1, 1), Command::Stay);
    s.selected = 4;
    assert_eq!(s.handle_key(Key::Char('.'), 9, 1), Command::Stay);
    assert!(s.show_hidden);
    assert_eq!(s.selected, 0);
    s.handle_key(Key::Char('h'), 9, 1);
    assert!(!s.show_hidden);
}

#[test]
fn filter_editing() {
    let mut s = state();
    s.handle_key(Key::Char('/'), 5, 5);
    assert!(s.filtering);
    for c in "srcx".chars() {
        assert_eq!(s.handle_key(Key::Char(c), 5, 5), Command::Stay);
    }
    s.handle_key(Key::Backspace, 5, 5);
    assert_eq!(s.filter_draft, "src");
    // While editing, q and Enter do not quit or open.
    s.handle_key(Key::Char('q'), 5, 5);
    assert_eq!(s.filter_draft, "srcq");
    s.handle_key(Key::Backspace, 5, 5);
    s.selected = 3;
    assert_eq!(s.handle_key(Key::Enter, 5, 5), Command::Stay);
    assert_eq!((s.filter.as_str(), s.filtering, s.selected), ("src", false, 0));
    s.handle_key(Key::Char('/'), 5, 5);
    assert_eq!(s.filter_draft, "src");
    s.handle_key(Key::Char('!'), 5, 5);
    s.handle_key(Key::Esc, 5, 5);
    assert_eq!((s.filter.as_str(), s.filtering), ("src", false));
    s.navigated();
    assert_eq!((s.filter.as_str(), s.selected, s.top), ("", 0, 0));
}

#[test]
fn frame_keeps_selection_visible() {
    let mut s = state();
    s.selected = 50;
    s.frame(30, 10);
    assert_eq!((s.selected, s.top), (29, 20));
    s.selected = 3;
    s.frame(30, 10);
    assert_eq!((s.selected, s.top), (3, 0));
    s.selected = 12;
    s.frame(30, 10);
    assert_eq!((s.selected, s.top), (12, 3));
    s.frame(0, 10);
    assert_eq!((s.selected, s.top), (0, 0));
}

#[test]
fn spinner_cycles() {
    let mut s = state();
    assert_eq!(spinner_frame(s.spinner), '⠋');
    for _ in 0..9 {
        s.tick();
    }
    assert_eq!(spinner_frame(s.spinner), '⠏');
    s.tick();
    assert_eq!(s.spinner, 0);
}

fn entry(name: &str, is_dir: bool, size: u64) -> Entry {
    Entry { name: name.to_owned(), is_dir, size, files: 0, dirs: 0 }
}

fn view<'a>(dir: &'a str, entries: &'a [Entry], message: &'a str, filter: &'a str) -> ListView<'a> {
    ListView {
        dir,
        entries,
        selected: 0,
        top: 0,
        message,
        computing: false,
        spinner: '⠋',
        filtering: false,
        filter,
        filter_draft: "",
    }
}

#[test]
fn status_line_combines_message_filter_and_spinner() {
    let entries: [Entry; 0] = [];
    let mut v = view("/", &entries, "Computing sizes…", "src");
    assert_eq!(status_line(&v), "Computing sizes… · filter \"src\"");
    v.computing = true;
    assert_eq!(status_line(&v), "⠋ Computing sizes… · filter \"src\"");
    v.message = "";
    v.computing = false;
    assert_eq!(status_line(&v), "filter \"src\"");
    v.filtering = true;
    v.filter_draft = "sr";
    assert_eq!(status_line(&v), "Filter (Enter=apply, Esc=cancel): sr");
}

#[test]
fn cells_show_clipped_name_and_size() {
    let entries = [entry("a-very-long-file-name.txt", false, 1536), entry("dir", true, 0)];
    let v = view("/", &entries, "", "");
    let cell = cell_for(&v, &[1, 0], 24, 1).expect("second row");
    assert_eq!(cell.name, "...ame.txt");
    assert_eq!(cell.size, "1.5K");
    assert!(!cell.is_dir && !cell.selected);
    let first = cell_for(&v, &[1, 0], 24, 0).expect("first row");
    assert!(first.is_dir && first.selected);
    assert!(cell_for(&v, &[1, 0], 24, 2).is_none());
}

#[test]
fn scrolled_rows_mark_the_selected_entry() {
    let entries = [entry("a", false, 1), entry("b", false, 2), entry("c", false, 3), entry("d", false, 4)];
    let indices = [0, 1, 2, 3];
    let mut v = view("/", &entries, "", "");
    v.top = 2;
    v.selected = 3;
    let first = cell_for(&v, &indices, 40, 0).expect("row 0");
    let second = cell_for(&v, &indices, 40, 1).expect("row 1");
    assert_eq!((first.name.as_str(), first.selected), ("c", false));
    assert_eq!((second.name.as_str(), second.selected), ("d", true));
}

#[test]
fn sync_redraws_fully_then_only_changes() {
    let entries = [entry("a", false, 1), entry("b", false, 2)];
    let indices = [0, 1];
    let mut screen = Screen::new();
    let mut v = view("/d", &entries, "", "");
    let mut out = Vec::new();
    sync(&mut out, &v, &indices, 40, 6, &mut screen);
    let full = String::from_utf8(out).unwrap();
    assert!(full.starts_with("\x1b[2J\x1b[H\x1b]0;Explorer — /d\x07"));
    assert!(full.contains("\x1b[1;30H2 items"));
    assert!(full.contains("\x1b[2;1H\x1b[2K\x1b[44m\x1b[2;1H>\x1b[2;3Ha\x1b[39;49m\x1b[2;32H1B"));
    assert!(full.contains("\x1b[3;1H\x1b[2K\x1b[3;1H \x1b[3;3Hb\x1b[39;49m\x1b[3;32H2B"));

    // Same frame again: nothing to redraw.
    let mut out = Vec::new();
    sync(&mut out, &v, &indices, 40, 6, &mut screen);
    assert!(out.is_empty());

    // Move the selection: only the two affected rows are rewritten.
    v.selected = 1;
    let mut out = Vec::new();
    sync(&mut out, &v, &indices, 40, 6, &mut screen);
    let partial = String::from_utf8(out).unwrap();
    assert_eq!(
        partial,
        "\x1b[2;1H\x1b[2K\x1b[2;1H \x1b[2;3Ha\x1b[39;49m\x1b[2;32H1B\
         \x1b[3;1H\x1b[2K\x1b[44m\x1b[3;1H>\x1b[3;3Hb\x1b[39;49m\x1b[3;32H2B"
    );

    // A row that no longer holds an entry is cleared; the count changes.
    let mut out = Vec::new();
    sync(&mut out, &v, &indices[..1], 40, 6, &mut screen);
    let shrunk = String::from_utf8(out).unwrap();
    assert!(shrunk.starts_with("\x1b[1;1H\x1b[2K"));
    assert!(shrunk.contains("1 items"));
    assert!(shrunk.ends_with("\x1b[3;1H\x1b[2K"));
}

#[test]
fn sync_sanitizes_untrusted_names() {
    let entries = [entry("evil\x1b]0;x\x07", false, 0)];
    let mut screen = Screen::new();
    let v = view("/\x1bd", &entries, "", "");
    let mut out = Vec::new();
    sync(&mut out, &v, &[0], 60, 6, &mut screen);
    let text = String::from_utf8(out).unwrap();
    assert!(text.contains("Explorer — /^[d"));
    assert!(text.contains("evil^[]0;x^G"));
    assert!(!text.contains("\x1b]0;x"));
}

#[test]
fn spinner_tick_rewrites_only_the_status_line() {
    let entries = [entry("a", false, 1)];
    let mut screen = Screen::new();
    let mut v = view("/d", &entries, "Computing sizes…", "");
    v.computing = true;
    let mut out = Vec::new();
    sync(&mut out, &v, &[0], 40, 6, &mut screen);
    v.spinner = '⠙';
    let mut out = Vec::new();
    sync(&mut out, &v, &[0], 40, 6, &mut screen);
    assert_eq!(
        String::from_utf8(out).unwrap(),
        "\x1b[4;1H\x1b[2K\x1b[4;1H⠙ Computing sizes…"
    );
}
