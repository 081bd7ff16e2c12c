use editor_91to9::gui::{KeyCommand, step_selection};

#[test]
fn step_selection_clamps_to_visible_range() {
    assert_eq!(step_selection(0, 0, 10, KeyCommand::Down), 0);
    assert_eq!(step_selection(0, 0, 10, KeyCommand::Up), 0);
    assert_eq!(step_selection(3, 5, 10, KeyCommand::Up), 2);
    assert_eq!(step_selection(4, 5, 10, KeyCommand::Down), 4);
    assert_eq!(step_selection(0, 5, 10, KeyCommand::Home), 0);
    assert_eq!(step_selection(4, 5, 10, KeyCommand::End), 4);
}

#[test]
fn step_selection_pages_by_screen_height() {
    assert_eq!(step_selection(0, 100, 20, KeyCommand::PageDown), 20);
    assert_eq!(step_selection(30, 100, 20, KeyCommand::PageUp), 10);
    assert_eq!(step_selection(95, 100, 20, KeyCommand::PageDown), 99);
    assert_eq!(step_selection(5, 100, 20, KeyCommand::PageUp), 0);
}

#[test]
fn step_selection_area_rebounds_at_zero() {
    assert_eq!(step_selection(2, 5, 0, KeyCommand::PageUp), 1);
    assert_eq!(step_selection(2, 5, 1, KeyCommand::PageUp), 1);
}

use editor_91to9::gui::GuiNav;

#[test]
fn step_selection_up_and_home_from_anywhere() {
    assert_eq!(step_selection(0, 5, 10, KeyCommand::Up), 0);
    assert_eq!(step_selection(2, 5, 10, KeyCommand::Home), 0);
    assert_eq!(step_selection(0, 5, 10, KeyCommand::End), 4);
    assert_eq!(step_selection(1, 5, usize::MAX, KeyCommand::PageDown), 4);
}

#[test]
fn gui_nav_moves_and_scrolls() {
    let mut nav = GuiNav::new();
    assert_eq!((nav.selected, nav.scroll_to, nav.page_size), (0, Some(0), 1));
    nav.scroll_to = None;
    nav.move_selection(KeyCommand::Up, 3);
    assert_eq!((nav.selected, nav.scroll_to), (0, None));
    nav.move_selection(KeyCommand::End, 3);
    assert_eq!((nav.selected, nav.scroll_to), (2, Some(2)));
    nav.page_size = 2;
    nav.move_selection(KeyCommand::PageUp, 3);
    assert_eq!((nav.selected, nav.scroll_to), (0, Some(0)));
}

#[test]
fn gui_nav_resets_on_view_changes() {
    let mut nav = GuiNav::new();
    nav.selected = 7;
    nav.scroll_to = None;
    nav.toggle_hidden();
    assert!(nav.show_hidden);
    assert_eq!((nav.selected, nav.scroll_to), (0, Some(0)));
    nav.filter.push_str("abc");
    nav.selected = 3;
    nav.clear_filter();
    assert_eq!((nav.filter.as_str(), nav.selected), ("", 0));
    nav.filter.push_str("x");
    nav.navigated();
    assert_eq!(nav.filter, "");
    nav.selected = 9;
    nav.clamp_selection(4);
    assert_eq!(nav.selected, 3);
    nav.clamp_selection(0);
    assert_eq!(nav.selected, 0);
}

#[test]
fn step_selection_down_in_an_empty_list_from_the_end() {
    assert_eq!(step_selection(usize::MAX, 0, 10, KeyCommand::Down), 0);
}

use editor_91to9::browse::OpenAction;
use editor_91to9::dir_info::Entry;
use editor_91to9::gui::{GuiAction, GuiKey};

fn entry(name: &str, is_dir: bool) -> Entry {
    Entry { name: name.to_owned(), is_dir, size: 0, files: 0, dirs: 0 }
}

#[test]
fn handle_keys_moves_then_opens_the_selected_folder() {
    let entries = [entry("a.txt", false), entry("docs", true)];
    let mut nav = GuiNav::new();
    let actions = nav.handle_keys(&[GuiKey::Move(KeyCommand::Down), GuiKey::Enter], &entries, &[0, 1], false);
    assert_eq!((nav.selected, nav.scroll_to), (1, Some(1)));
    assert_eq!(actions.len(), 1);
    assert!(matches!(&actions[0], GuiAction::Open(OpenAction::Enter(name)) if name == "docs"));
}

#[test]
fn handle_keys_opening_a_file_gives_a_message() {
    let entries = [entry("a.txt", false)];
    let mut nav = GuiNav::new();
    let actions = nav.handle_keys(&[GuiKey::Enter], &entries, &[0], false);
    assert!(matches!(&actions[0], GuiAction::Open(OpenAction::NotSupported(m))
        if m == "`a.txt` is a file — opening is not supported yet"));
    let actions = nav.handle_keys(&[GuiKey::Enter], &entries, &[], false);
    assert!(matches!(&actions[0], GuiAction::Open(OpenAction::Nothing)));
}

#[test]
fn handle_keys_slash_focuses_the_filter_and_stops() {
    let entries = [entry("a", false), entry("b", false)];
    let mut nav = GuiNav::new();
    let actions = nav.handle_keys(
        &[GuiKey::Slash, GuiKey::ToggleHidden, GuiKey::Move(KeyCommand::End), GuiKey::Refresh],
        &entries,
        &[0, 1],
        false,
    );
    assert!(nav.focus_filter);
    assert!(!nav.show_hidden);
    assert_eq!(nav.selected, 0);
    assert_eq!(actions.len(), 1);
    assert!(matches!(actions[0], GuiAction::FocusFilter));
}

#[test]
fn handle_keys_ignored_while_the_filter_is_edited() {
    let entries = [entry("a", false), entry("b", false)];
    let mut nav = GuiNav::new();
    let actions = nav.handle_keys(&[GuiKey::Move(KeyCommand::End), GuiKey::Backspace], &entries, &[0, 1], true);
    assert!(actions.is_empty());
    assert_eq!(nav.selected, 0);
}

#[test]
fn handle_keys_toggle_then_go_up_and_refresh_in_order() {
    let entries = [entry("a", false), entry("b", false)];
    let mut nav = GuiNav::new();
    nav.selected = 1;
    nav.scroll_to = None;
    let actions = nav.handle_keys(&[GuiKey::ToggleHidden, GuiKey::Backspace, GuiKey::Refresh], &entries, &[0, 1], false);
    assert!(nav.show_hidden);
    assert_eq!((nav.selected, nav.scroll_to), (0, Some(0)));
    assert_eq!(actions.len(), 2);
    assert!(matches!(actions[0], GuiAction::GoUp));
    assert!(matches!(actions[1], GuiAction::Refresh));
}

#[test]
fn handle_keys_down_from_the_largest_index_keeps_the_state() {
    let entries = [entry("a", false)];
    let mut nav = GuiNav::new();
    nav.selected = usize::MAX;
    nav.scroll_to = None;
    let actions = nav.handle_keys(&[GuiKey::Move(KeyCommand::Down)], &entries, &[0], false);
    assert!(actions.is_empty());
    assert_eq!((nav.selected, nav.scroll_to), (usize::MAX, None));
    nav.handle_keys(&[GuiKey::Move(KeyCommand::Up)], &entries, &[0], false);
    assert_eq!((nav.selected, nav.scroll_to), (usize::MAX - 1, Some(usize::MAX - 1)));
}
