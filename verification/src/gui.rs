//! Selection and navigation rules of the windowed explorer, kept apart from
//! the drawing so they can be checked without a display: keyboard movement
//! commands and how they move the selection, and the view state that the
//! toolbar, the list and the keys update.

use vstd::prelude::*;
use crate::dir_info::Entry;
use crate::browse::{open_model, open_selected, shown_indices, OpenAction, OpenModel};

verus! {

/// Keyboard movement commands, mirroring the terminal navigation keys.
#[derive(Debug, Clone, Copy, PartialEq, Eq)]
pub enum KeyCommand {
    Up,
    Down,
    PageUp,
    PageDown,
    Home,
    End,
}

/// `a - b`, or 0 when `b > a`.
pub open spec fn minus(a: int, b: int) -> int {
    if a >= b { a - b } else { 0 }
}

/// `min(a, b)`.
pub open spec fn min_of(a: int, b: int) -> int {
    if a <= b { a } else { b }
}

/// Where `cmd` moves the selection `selected` in a list of `count` visible
/// rows, paging by `area` rows (at least one row for paging up).
pub open spec fn stepped(selected: int, count: int, area: int, cmd: KeyCommand) -> int {
    if count == 0 {
        0
    } else {
        match cmd {
            KeyCommand::Up => minus(selected, 1),
            KeyCommand::Down => min_of(selected + 1, count - 1),
            KeyCommand::PageUp => minus(selected, if area >= 1 { area } else { 1 }),
            KeyCommand::PageDown => min_of(if selected + area <= usize::MAX { selected + area } else { usize::MAX as int }, count - 1),
            KeyCommand::Home => 0,
            KeyCommand::End => count - 1,
        }
    }
}

/// Move `selected` by `cmd` inside a list of `count` visible rows, paging by
/// `area` rows; guarded against empty lists and off-by-one at both ends.
pub fn step_selection(selected: usize, count: usize, area: usize, cmd: KeyCommand) -> (r: usize)
    requires
        cmd == KeyCommand::Down && count > 0 ==> selected < usize::MAX,
    ensures
        r == stepped(selected as int, count as int, area as int, cmd),
        selected < count ==> r < count,
        count == 0 ==> r == 0,
{
    if count == 0 {
        return 0;
    }
    match cmd {
        KeyCommand::Up => selected.saturating_sub(1),
        KeyCommand::Down => (selected + 1).min(count - 1),
        KeyCommand::PageUp => selected.saturating_sub(area.max(1)),
        KeyCommand::PageDown => selected.saturating_add(area).min(count - 1),
        KeyCommand::Home => 0,
        KeyCommand::End => count - 1,
    }
}

/// Indices of the entries currently visible (hidden files filtered by
/// `show_hidden`, names by the lowercase `filter`; listing order kept),
/// the same projection the terminal explorer uses.
pub fn visible_indices(entries: &[Entry], show_hidden: bool, filter: &str) -> (r: Vec<usize>)
    ensures
        r@ == shown_indices(entries@, show_hidden, filter@, entries@.len()),
{
    crate::browse::visible_indices(entries, show_hidden, filter)
}

/// A key press that the windowed explorer reacts to, in the order in which
/// one frame's presses are handled: `/` (focus the filter), `.` or `h`
/// (toggle hidden files), a movement key, Enter (open), Backspace (parent
/// folder), `r` (refresh).
#[derive(Debug, Clone, Copy, PartialEq, Eq)]
pub enum GuiKey {
    Slash,
    ToggleHidden,
    Move(KeyCommand),
    Enter,
    Backspace,
    Refresh,
}

/// What the window has to carry out after a key press.
pub enum GuiAction {
    /// The filter field takes the keyboard focus.
    FocusFilter,
    /// Open the selected row.
    Open(OpenAction),
    /// Go to the parent folder.
    GoUp,
    /// List the current folder again.
    Refresh,
}

/// A `GuiAction` with its strings as characters.
pub enum GuiActionModel {
    FocusFilter,
    Open(OpenModel),
    GoUp,
    Refresh,
}

impl View for GuiAction {
    type V = GuiActionModel;

    open spec fn view(&self) -> GuiActionModel {
        match self {
            GuiAction::FocusFilter => GuiActionModel::FocusFilter,
            GuiAction::Open(o) => GuiActionModel::Open(o@),
            GuiAction::GoUp => GuiActionModel::GoUp,
            GuiAction::Refresh => GuiActionModel::Refresh,
        }
    }
}

/// The models of a sequence of actions.
pub open spec fn action_views(actions: Seq<GuiAction>) -> Seq<GuiActionModel> {
    actions.map_values(|a: GuiAction| a@)
}

/// The view state of the windowed explorer, with the filter as characters.
pub struct GuiNavModel {
    pub selected: usize,
    pub show_hidden: bool,
    pub filter: Seq<char>,
    pub scroll_to: Option<usize>,
    pub page_size: usize,
    pub focus_filter: bool,
}

/// The selection after `cmd` among `count` rows: moved as `stepped` says and
/// scrolled into view when it moved. A step down from the largest index,
/// which no row can have, leaves the state as it is.
pub open spec fn moved(m: GuiNavModel, cmd: KeyCommand, count: int) -> GuiNavModel {
    if cmd == KeyCommand::Down && count > 0 && m.selected == usize::MAX {
        m
    } else {
        let next = stepped(m.selected as int, count, m.page_size as int, cmd);
        GuiNavModel {
            selected: next as usize,
            scroll_to: if next != m.selected { Some(next as usize) } else { m.scroll_to },
            ..m
        }
    }
}

/// One key press on the state `m`, with `indices` the visible rows of
/// `entries`: the new state and the action to carry out, if any.
pub open spec fn key_step(m: GuiNavModel, key: GuiKey, entries: Seq<Entry>, indices: Seq<usize>) -> (GuiNavModel, Option<GuiActionModel>) {
    match key {
        GuiKey::Slash => (GuiNavModel { focus_filter: true, ..m }, Some(GuiActionModel::FocusFilter)),
        GuiKey::ToggleHidden => (GuiNavModel { show_hidden: !m.show_hidden, selected: 0, scroll_to: Some(0usize), ..m }, None),
        GuiKey::Move(cmd) => (moved(m, cmd, indices.len() as int), None),
        GuiKey::Enter => (m, Some(GuiActionModel::Open(open_model(entries, indices, m.selected)))),
        GuiKey::Backspace => (m, Some(GuiActionModel::GoUp)),
        GuiKey::Refresh => (m, Some(GuiActionModel::Refresh)),
    }
}

/// The presses `keys` handled in order: the state, the actions, and whether
/// a `/` ended the handling (the presses after it are ignored).
pub open spec fn keys_run(m: GuiNavModel, keys: Seq<GuiKey>, entries: Seq<Entry>, indices: Seq<usize>) -> (GuiNavModel, Seq<GuiActionModel>, bool)
    decreases keys.len(),
{
    if keys.len() == 0 {
        (m, Seq::empty(), false)
    } else {
        let prev = keys_run(m, keys.drop_last(), entries, indices);
        if prev.2 {
            prev
        } else {
            let (next, action) = key_step(prev.0, keys.last(), entries, indices);
            let actions = match action {
                Some(a) => prev.1.push(a),
                None => prev.1,
            };
            (next, actions, keys.last() is Slash)
        }
    }
}

/// One frame's presses: ignored while the filter field has the keyboard
/// focus, handled in order otherwise.
pub open spec fn gui_keys_effect(m: GuiNavModel, keys: Seq<GuiKey>, entries: Seq<Entry>, indices: Seq<usize>, filter_focused: bool) -> (GuiNavModel, Seq<GuiActionModel>) {
    if filter_focused {
        (m, Seq::empty())
    } else {
        let r = keys_run(m, keys, entries, indices);
        (r.0, r.1)
    }
}

/// The view state of the windowed explorer: the selected row, whether
/// hidden files are shown, the name filter, the row to scroll into view,
/// the page height used by PageUp/PageDown, and whether the filter field
/// should take the keyboard focus.
pub struct GuiNav {
    pub selected: usize,
    pub show_hidden: bool,
    pub filter: String,
    pub scroll_to: Option<usize>,
    pub page_size: usize,
    pub focus_filter: bool,
}

impl View for GuiNav {
    type V = GuiNavModel;

    open spec fn view(&self) -> GuiNavModel {
        GuiNavModel {
            selected: self.selected,
            show_hidden: self.show_hidden,
            filter: self.filter@,
            scroll_to: self.scroll_to,
            page_size: self.page_size,
            focus_filter: self.focus_filter,
        }
    }
}

impl GuiNav {
    /// The view state of a fresh window: first row selected and scrolled to,
    /// hidden files not shown, no filter, pages of one row until the list
    /// is measured.
    pub fn new() -> (r: Self)
        ensures
            r.selected == 0,
            !r.show_hidden,
            r.filter@.len() == 0,
            r.scroll_to == Some(0usize),
            r.page_size == 1,
            !r.focus_filter,
    {
        GuiNav { selected: 0, show_hidden: false, filter: String::new(), scroll_to: Some(0), page_size: 1, focus_filter: false }
    }

    /// Move the selection by `cmd` among `count` visible rows; when it moves,
    /// bring the new row into view.
    pub fn move_selection(&mut self, cmd: KeyCommand, count: usize)
        requires
            cmd == KeyCommand::Down && count > 0 ==> old(self).selected < usize::MAX,
        ensures
            ({
                let next = stepped(old(self).selected as int, count as int, old(self).page_size as int, cmd);
                &&& final(self).selected == next
                &&& final(self).scroll_to == if next != old(self).selected { Some(next as usize) } else { old(self).scroll_to }
            }),
            final(self).show_hidden == old(self).show_hidden,
            final(self).filter == old(self).filter,
            final(self).page_size == old(self).page_size,
            final(self).focus_filter == old(self).focus_filter,
    {
        let next = step_selection(self.selected, count, self.page_size, cmd);
        if next != self.selected {
            self.selected = next;
            self.scroll_to = Some(next);
        }
    }

    /// Back to the first row, scrolled into view (after the visible set
    /// changed: hidden files toggled, filter edited, directory changed).
    pub fn reset_selection(&mut self)
        ensures
            final(self).selected == 0,
            final(self).scroll_to == Some(0usize),
            final(self).show_hidden == old(self).show_hidden,
            final(self).filter == old(self).filter,
            final(self).page_size == old(self).page_size,
            final(self).focus_filter == old(self).focus_filter,
    {
        self.selected = 0;
        self.scroll_to = Some(0);
    }

    /// Show or hide hidden files; the selection goes back to the first row.
    pub fn toggle_hidden(&mut self)
        ensures
            final(self).show_hidden == !old(self).show_hidden,
            final(self).selected == 0,
            final(self).scroll_to == Some(0usize),
            final(self).filter == old(self).filter,
            final(self).page_size == old(self).page_size,
            final(self).focus_filter == old(self).focus_filter,
    {
        self.show_hidden = !self.show_hidden;
        self.reset_selection();
    }

    /// Clear the name filter; the selection goes back to the first row.
    pub fn clear_filter(&mut self)
        ensures
            final(self).filter@.len() == 0,
            final(self).selected == 0,
            final(self).scroll_to == Some(0usize),
            final(self).show_hidden == old(self).show_hidden,
            final(self).page_size == old(self).page_size,
            final(self).focus_filter == old(self).focus_filter,
    {
        self.filter = String::new();
        self.reset_selection();
    }

    /// A new directory is shown: first row, no filter, scrolled to the top.
    pub fn navigated(&mut self)
        ensures
            final(self).selected == 0,
            final(self).filter@.len() == 0,
            final(self).scroll_to == Some(0usize),
            final(self).show_hidden == old(self).show_hidden,
            final(self).page_size == old(self).page_size,
            final(self).focus_filter == old(self).focus_filter,
    {
        self.clear_filter();
    }

    /// Handle one key press with `indices` the visible rows of `entries`;
    /// returns the action to carry out, if any.
    fn press(&mut self, key: GuiKey, entries: &[Entry], indices: &[usize]) -> (r: Option<GuiAction>)
        ensures
            (final(self)@, match r { Some(a) => Some(a@), None => None }) == key_step(old(self)@, key, entries@, indices@),
    {
        match key {
            GuiKey::Slash => {
                self.focus_filter = true;
                Some(GuiAction::FocusFilter)
            },
            GuiKey::ToggleHidden => {
                self.toggle_hidden();
                None
            },
            GuiKey::Move(cmd) => {
                let count = indices.len();
                let down = match cmd {
                    KeyCommand::Down => true,
                    _ => false,
                };
                if !(down && count > 0 && self.selected == usize::MAX) {
                    self.move_selection(cmd, count);
                }
                None
            },
            GuiKey::Enter => Some(GuiAction::Open(open_selected(entries, indices, self.selected))),
            GuiKey::Backspace => Some(GuiAction::GoUp),
            GuiKey::Refresh => Some(GuiAction::Refresh),
        }
    }

    /// Handle one frame's key presses `keys` in order, with `indices` the
    /// visible rows of `entries`: nothing while the filter field has the
    /// keyboard focus; `/` focuses it and ends the handling; `.`/`h` toggles
    /// hidden files; movement keys move the selection; Enter, Backspace and
    /// `r` ask for opening the selected row, the parent folder and a refresh.
    /// Returns the actions for the window to carry out, in order.
    pub fn handle_keys(&mut self, keys: &[GuiKey], entries: &[Entry], indices: &[usize], filter_focused: bool) -> (r: Vec<GuiAction>)
        ensures
            (final(self)@, action_views(r@)) == gui_keys_effect(old(self)@, keys@, entries@, indices@, filter_focused),
    {
        let mut actions: Vec<GuiAction> = Vec::new();
        if filter_focused {
            proof { assert(action_views(actions@) =~= Seq::<GuiActionModel>::empty()); }
            return actions;
        }
        let ghost start = self@;
        let mut stopped = false;
        let mut i: usize = 0;
        while i < keys.len()
            invariant
                i <= keys@.len(),
                (self@, action_views(actions@), stopped) == keys_run(start, keys@.take(i as int), entries@, indices@),
            decreases keys@.len() - i,
        {
            let ghost before = actions@;
            proof { assert(keys@.take(i + 1).drop_last() =~= keys@.take(i as int)); }
            if !stopped {
                let key = keys[i];
                let action = self.press(key, entries, indices);
                match action {
                    Some(a) => {
                        actions.push(a);
                        proof { assert(action_views(actions@) =~= action_views(before).push(a@)); }
                    },
                    None => {},
                }
                stopped = match key {
                    GuiKey::Slash => true,
                    _ => false,
                };
            }
            i = i + 1;
        }
        proof { assert(keys@.take(keys@.len() as int) =~= keys@); }
        actions
    }

    /// Keep the selection on one of the `count` visible rows (row 0 when
    /// there are none).
    pub fn clamp_selection(&mut self, count: usize)
        ensures
            final(self).selected == (if count == 0 { 0 } else { min_of(old(self).selected as int, count - 1) }),
            count > 0 ==> final(self).selected < count,
            final(self).scroll_to == old(self).scroll_to,
            final(self).show_hidden == old(self).show_hidden,
            final(self).filter == old(self).filter,
            final(self).page_size == old(self).page_size,
            final(self).focus_filter == old(self).focus_filter,
    {
        if count == 0 {
            self.selected = 0;
        } else {
            self.selected = self.selected.min(count - 1);
        }
    }
}

} // verus!
