//! The terminal explorer's rules: how keys change the view state (selection,
//! scrolling, hidden files, name filter) and what the loop must do next, and
//! how a frame is drawn — redrawing only the parts of the screen that changed
//! since the previous frame. Reading keys and writing the bytes to the
//! terminal is left to the caller.

use vstd::prelude::*;
use vstd::utf8::encode_utf8;
use crate::gui::{minus, min_of};
use crate::text::{push_char_to, pop_char_from, decimal, append_str, string_of, push_decimal_chars};
use crate::dir_info::Entry;
use crate::format_tools::{clip, clipped, format_size, size_text};
use crate::terminal_tools::{cup, title_seq, goto, clear, clear_line, set_title, lemma_append_encoded};
use crate::terminal_ui_tools::{sgr, sanitized, put_text, fg_color, bg_color, clear_color, sanitize_for_terminal};
use std::borrow::Cow;

verus! {

/// Spinner frame `i` of the "computing" state.
pub open spec fn spinner_char(i: nat) -> char {
    let k = i % 10;
    if k == 0 { '⠋' } else if k == 1 { '⠙' } else if k == 2 { '⠹' } else if k == 3 { '⠸' } else if k == 4 { '⠼' }
    else if k == 5 { '⠴' } else if k == 6 { '⠦' } else if k == 7 { '⠧' } else if k == 8 { '⠇' } else { '⠏' }
}

/// The spinner frame for tick `i`.
pub fn spinner_frame(i: usize) -> (c: char)
    ensures
        c == spinner_char(i as nat),
{
    match i % 10 {
        0 => '⠋',
        1 => '⠙',
        2 => '⠹',
        3 => '⠸',
        4 => '⠼',
        5 => '⠴',
        6 => '⠦',
        7 => '⠧',
        8 => '⠇',
        _ => '⠏',
    }
}

/// A key press, as far as the explorer distinguishes keys.
#[derive(Debug, Clone, Copy, PartialEq, Eq)]
pub enum Key {
    Char(char),
    Up,
    Down,
    PageUp,
    PageDown,
    Home,
    End,
    Enter,
    Esc,
    Backspace,
    Other,
}

/// What the loop does after a key.
#[derive(Debug, Clone, Copy, PartialEq, Eq)]
pub enum Command {
    /// Nothing beyond the state change: draw the next frame.
    Stay,
    /// Leave the explorer.
    Quit,
    /// Navigate to the current directory again.
    Refresh,
    /// Open the selected entry.
    Open,
    /// Navigate to the parent directory.
    Parent,
}

/// The view state of the terminal explorer.
pub struct TuiState {
    /// Selected row among the visible rows.
    pub selected: usize,
    /// First visible row shown on screen.
    pub top: usize,
    pub show_hidden: bool,
    /// The applied name filter.
    pub filter: String,
    /// Whether the filter is being edited.
    pub filtering: bool,
    /// The filter being edited.
    pub filter_draft: String,
    /// Spinner tick.
    pub spinner: usize,
}

/// The view state as plain values.
pub struct TuiModel {
    pub selected: usize,
    pub top: usize,
    pub show_hidden: bool,
    pub filter: Seq<char>,
    pub filtering: bool,
    pub draft: Seq<char>,
    pub spinner: usize,
}

impl View for TuiState {
    type V = TuiModel;

    open spec fn view(&self) -> TuiModel {
        TuiModel {
            selected: self.selected,
            top: self.top,
            show_hidden: self.show_hidden,
            filter: self.filter@,
            filtering: self.filtering,
            draft: self.filter_draft@,
            spinner: self.spinner,
        }
    }
}

/// The view state and the loop's next step after `key`, with `count`
/// visible rows and `area` list rows on screen. While the filter is edited,
/// characters go to the draft, Backspace deletes, Enter applies it and Esc
/// drops it; otherwise the navigation keys move the selection, `/` starts
/// editing the filter, `.`/`h` toggle hidden files and `q`/Esc quit.
pub open spec fn key_effect(m: TuiModel, key: Key, count: int, area: int) -> (TuiModel, Command) {
    if m.filtering {
        match key {
            Key::Char(c) => (TuiModel { draft: m.draft.push(c), ..m }, Command::Stay),
            Key::Backspace => (TuiModel { draft: if m.draft.len() > 0 { m.draft.drop_last() } else { m.draft }, ..m }, Command::Stay),
            Key::Enter => (TuiModel { filter: m.draft, filtering: false, selected: 0, ..m }, Command::Stay),
            Key::Esc => (TuiModel { filtering: false, ..m }, Command::Stay),
            _ => (m, Command::Stay),
        }
    } else {
        match key {
            Key::Char('q') | Key::Esc => (m, Command::Quit),
            Key::Up | Key::Char('k') => (TuiModel { selected: minus(m.selected as int, 1) as usize, ..m }, Command::Stay),
            Key::Down | Key::Char('j') => (TuiModel { selected: if m.selected + 1 < count { (m.selected + 1) as usize } else { m.selected }, ..m }, Command::Stay),
            Key::PageUp => (TuiModel { selected: minus(m.selected as int, area) as usize, ..m }, Command::Stay),
            Key::PageDown => (TuiModel {
                selected: min_of(min_of(m.selected + area, usize::MAX as int), minus(count, 1)) as usize,
                ..m
            }, Command::Stay),
            Key::Home => (TuiModel { selected: 0, ..m }, Command::Stay),
            Key::End => (TuiModel { selected: minus(count, 1) as usize, ..m }, Command::Stay),
            Key::Char('/') => (TuiModel { filtering: true, draft: m.filter, ..m }, Command::Stay),
            Key::Char('.') | Key::Char('h') => (TuiModel { show_hidden: !m.show_hidden, selected: 0, ..m }, Command::Stay),
            Key::Char('r') => (m, Command::Refresh),
            Key::Enter => (m, Command::Open),
            Key::Backspace => (m, Command::Parent),
            _ => (m, Command::Stay),
        }
    }
}

/// The selection and the first shown row for a frame with `count` visible
/// rows and `area` list rows: the selection is kept on a visible row and the
/// window scrolls just enough to show it.
pub open spec fn framed(m: TuiModel, count: int, area: int) -> TuiModel {
    if count == 0 {
        TuiModel { selected: 0, top: 0, ..m }
    } else {
        let selected = min_of(m.selected as int, count - 1);
        TuiModel { selected: selected as usize, top: min_of(minus(selected, minus(area, 1)), minus(count, area)) as usize, ..m }
    }
}

impl TuiState {
    /// The state at startup: nothing selected yet, no filter.
    pub fn new() -> (r: Self)
        ensures
            r@ == (TuiModel {
                selected: 0,
                top: 0,
                show_hidden: false,
                filter: Seq::empty(),
                filtering: false,
                draft: Seq::empty(),
                spinner: 0,
            }),
    {
        TuiState {
            selected: 0,
            top: 0,
            show_hidden: false,
            filter: String::new(),
            filtering: false,
            filter_draft: String::new(),
            spinner: 0,
        }
    }

    /// Advance the spinner by one frame.
    pub fn tick(&mut self)
        ensures
            final(self)@ == (TuiModel { spinner: ((old(self).spinner + 1) % 10) as usize, ..old(self)@ }),
    {
        self.spinner = (self.spinner % 10 + 1) % 10;
    }

    /// Fit the selection and the scroll position to a frame with `count`
    /// visible rows and `area` list rows.
    pub fn frame(&mut self, count: usize, area: usize)
        ensures
            final(self)@ == framed(old(self)@, count as int, area as int),
            count > 0 ==> final(self).selected < count,
            count > 0 && area > 0 ==> final(self).top <= final(self).selected < final(self).top + area,
    {
        if count == 0 {
            self.selected = 0;
            self.top = 0;
        } else {
            self.selected = self.selected.min(count - 1);
            self.top = self.selected.saturating_sub(area.saturating_sub(1)).min(count.saturating_sub(area));
        }
    }

    /// Apply a key press with `count` visible rows and `area` list rows on
    /// screen, and say what the loop does next.
    pub fn handle_key(&mut self, key: Key, count: usize, area: usize) -> (r: Command)
        ensures
            (final(self)@, r) == key_effect(old(self)@, key, count as int, area as int),
    {
        if self.filtering {
            match key {
                Key::Char(c) => push_char_to(&mut self.filter_draft, c),
                Key::Backspace => pop_char_from(&mut self.filter_draft),
                Key::Enter => {
                    self.filter = self.filter_draft.clone();
                    self.filtering = false;
                    self.selected = 0;
                },
                Key::Esc => self.filtering = false,
                _ => {},
            }
            return Command::Stay;
        }
        match key {
            Key::Char('q') | Key::Esc => Command::Quit,
            Key::Up | Key::Char('k') => {
                self.selected = self.selected.saturating_sub(1);
                Command::Stay
            },
            Key::Down | Key::Char('j') => {
                if count > 0 && self.selected < count - 1 {
                    self.selected = self.selected + 1;
                }
                Command::Stay
            },
            Key::PageUp => {
                self.selected = self.selected.saturating_sub(area);
                Command::Stay
            },
            Key::PageDown => {
                self.selected = self.selected.saturating_add(area).min(count.saturating_sub(1));
                Command::Stay
            },
            Key::Home => {
                self.selected = 0;
                Command::Stay
            },
            Key::End => {
                self.selected = count.saturating_sub(1);
                Command::Stay
            },
            Key::Char('/') => {
                self.filtering = true;
                self.filter_draft = self.filter.clone();
                Command::Stay
            },
            Key::Char('.') | Key::Char('h') => {
                self.show_hidden = !self.show_hidden;
                self.selected = 0;
                Command::Stay
            },
            Key::Char('r') => Command::Refresh,
            Key::Enter => Command::Open,
            Key::Backspace => Command::Parent,
            _ => Command::Stay,
        }
    }

    /// A navigation succeeded: the filter is dropped and the list starts at
    /// its first row.
    pub fn navigated(&mut self)
        ensures
            final(self)@ == (TuiModel { filter: Seq::empty(), selected: 0, top: 0, ..old(self)@ }),
    {
        self.filter = String::new();
        self.selected = 0;
        self.top = 0;
    }
}

// ---------------------------------------------------------------------------
// Drawing
// ---------------------------------------------------------------------------

/// The key help shown on the last line.
pub open spec fn help_text() -> Seq<char> {
    "q: quit | j/k/arrows: move | PgUp/PgDn/Home/End: page | /: filter | .: hidden | Enter: open | Backspace: up | r: refresh"@
}

/// `a - b` on screen coordinates, or 0 when `b > a`.
pub open spec fn sat(a: nat, b: nat) -> nat {
    if a >= b { (a - b) as nat } else { 0 }
}

/// Text written at (row, col), made inert.
pub open spec fn put_seq(row: nat, col: nat, text: Seq<char>) -> Seq<char> {
    cup(row, col) + sanitized(text)
}

/// `CSI 2K`: erase the line.
pub open spec fn erase_line() -> Seq<char> {
    "\x1b[2K"@
}

/// Default colors: `CSI 39;49 m`.
pub open spec fn default_colors() -> Seq<char> {
    "\x1b[39;49m"@
}

/// The directory path on the title line, clipped to the width left by the
/// item count.
pub open spec fn caption(dir: Seq<char>, width: nat) -> Seq<char> {
    clipped(dir, sat(width, 8))
}

/// `"{count} items"`.
pub open spec fn items_text(count: nat) -> Seq<char> {
    decimal(count) + " items"@
}

/// The first line: the directory on the left, the item count on the right.
pub open spec fn title_line(width: nat, dir: Seq<char>, count: nat) -> Seq<char> {
    cup(1, 1) + erase_line() + put_seq(1, 1, caption(dir, width)) + sgr(36)
        + put_seq(1, sat(width, 10), items_text(count)) + default_colors()
}

/// The last line: the key help.
pub open spec fn help_line(height: nat) -> Seq<char> {
    let y = sat(height, 1);
    cup(y, 1) + erase_line() + put_seq(y, 1, help_text())
}

/// The second-to-last line: the status.
pub open spec fn status_row(height: nat, status: Seq<char>) -> Seq<char> {
    let y = sat(height, 2);
    cup(y, 1) + erase_line() + put_seq(y, 1, status)
}

/// What one list row shows.
pub struct CellModel {
    pub name: Seq<char>,
    pub size: Seq<char>,
    pub is_dir: bool,
    pub selected: bool,
}

/// The text drawn on one list row; compared across frames so only rows whose
/// content (name, size, folder style or selection marker) changed are
/// redrawn.
pub struct Cell {
    pub name: String,
    pub size: String,
    pub is_dir: bool,
    pub selected: bool,
}

impl View for Cell {
    type V = CellModel;

    open spec fn view(&self) -> CellModel {
        CellModel { name: self.name@, size: self.size@, is_dir: self.is_dir, selected: self.selected }
    }
}

/// The plain values of an optional row.
pub open spec fn cell_model(c: Option<Cell>) -> Option<CellModel> {
    match c {
        Some(c) => Some(c@),
        None => None,
    }
}

/// A list row at screen line `y`: selection marker (on a blue background
/// when selected), the name (blue for folders) and the size.
pub open spec fn list_row(y: nat, c: CellModel, width: nat) -> Seq<char> {
    cup(y, 1) + erase_line()
        + (if c.selected { sgr(44) + put_seq(y, 1, ">"@) } else { put_seq(y, 1, " "@) })
        + (if c.is_dir { sgr(34) } else { Seq::empty() })
        + put_seq(y, 3, c.name) + default_colors() + put_seq(y, sat(width, 8), c.size)
}

/// An emptied list row at screen line `y`.
pub open spec fn cleared_row(y: nat) -> Seq<char> {
    cup(y, 1) + erase_line()
}

/// What is drawn in one frame.
pub struct ListView<'a> {
    /// The directory, as displayed.
    pub dir: &'a str,
    pub entries: &'a [Entry],
    pub selected: usize,
    pub top: usize,
    pub message: &'a str,
    pub computing: bool,
    pub spinner: char,
    pub filtering: bool,
    pub filter: &'a str,
    pub filter_draft: &'a str,
}

/// The row shown at list position `pos` (counted from `v.top` among the
/// visible rows `indices`), or `None` past the end.
pub open spec fn cell_at(v: ListView, indices: Seq<usize>, width: nat, pos: nat) -> Option<CellModel> {
    if v.top + pos < indices.len() {
        let e = v.entries@[indices[v.top + pos] as int];
        Some(CellModel {
            name: clipped(e.name@, sat(width, 14)),
            size: size_text(e.size as nat),
            is_dir: e.is_dir,
            selected: v.top + pos == v.selected,
        })
    } else {
        None
    }
}

/// The status line: the filter being edited, or the message followed by
/// the applied filter; preceded by the spinner while computing.
pub open spec fn status_text(v: ListView) -> Seq<char> {
    let status = if v.filtering {
        "Filter (Enter=apply, Esc=cancel): "@ + v.filter_draft@
    } else if v.filter@.len() == 0 {
        v.message@
    } else {
        (if v.message@.len() == 0 { v.message@ } else { v.message@ + " · "@ }) + "filter \""@ + v.filter@ + "\""@
    };
    if v.computing {
        seq![v.spinner, ' '] + status
    } else {
        status
    }
}

/// The clipped directory path shown on the title line.
pub fn dir_caption(dir: &str, width: u16) -> (r: String)
    ensures
        r@ == caption(dir@, width as nat),
{
    clip(dir, width.saturating_sub(8) as usize)
}

/// What should be rendered on the list row `pos` (its offset into the visible
/// list, starting at `view.top`), or `None` when there is no entry at that
/// position.
pub fn cell_for(view: &ListView, indices: &[usize], width: u16, pos: usize) -> (r: Option<Cell>)
    requires
        forall|i: int| 0 <= i < indices@.len() ==> indices@[i] < view.entries@.len(),
    ensures
        cell_model(r) == cell_at(*view, indices@, width as nat, pos as nat),
{
    if view.top >= indices.len() || pos >= indices.len() - view.top {
        return None;
    }
    let entry_index = indices[view.top + pos];
    let entry = &view.entries[entry_index];
    Some(Cell {
        name: clip(entry.name.as_str(), width.saturating_sub(14) as usize),
        size: format_size(entry.size),
        is_dir: entry.is_dir,
        selected: view.top + pos == view.selected,
    })
}

/// Whether two rows show the same thing.
pub fn same_cell(a: &Option<Cell>, b: &Option<Cell>) -> (r: bool)
    ensures
        r == (cell_model(*a) == cell_model(*b)),
{
    match (a, b) {
        (Some(x), Some(y)) => {
            let r = x.name == y.name && x.size == y.size && x.is_dir == y.is_dir && x.selected == y.selected;
            assert(r ==> x@ == y@);
            r
        },
        (None, None) => true,
        _ => false,
    }
}

/// Redraw the first line: directory path on the left, item count on the right.
pub fn render_title(out: &mut Vec<u8>, width: u16, dir: &str, count: usize)
    ensures
        final(out)@ == old(out)@ + encode_utf8(title_line(width as nat, dir@, count as nat)),
{
    let ghost start = out@;
    let ghost w = width as nat;
    goto(out, 1, 1);
    let ghost acc = cup(1, 1);
    clear_line(out);
    proof { lemma_append_encoded(start, acc, erase_line()); acc = acc + erase_line(); }
    let cap = dir_caption(dir, width);
    put_text(out, 1, 1, cap.as_str());
    proof { lemma_append_encoded(start, acc, put_seq(1, 1, caption(dir@, w))); acc = acc + put_seq(1, 1, caption(dir@, w)); }
    fg_color(out, 36);
    proof { lemma_append_encoded(start, acc, sgr(36)); acc = acc + sgr(36); }
    let mut label: Vec<char> = Vec::new();
    push_decimal_chars(&mut label, count as u64);
    append_str(&mut label, " items");
    let label = string_of(label.as_slice());
    assert(label@ =~= items_text(count as nat));
    put_text(out, 1, width.saturating_sub(10), label.as_str());
    proof {
        lemma_append_encoded(start, acc, put_seq(1, sat(w, 10), items_text(count as nat)));
        acc = acc + put_seq(1, sat(w, 10), items_text(count as nat));
    }
    clear_color(out);
    proof {
        lemma_append_encoded(start, acc, default_colors());
        assert(acc + default_colors() =~= title_line(w, dir@, count as nat));
    }
}

/// Redraw the last line: the keyboard help.
pub fn render_help(out: &mut Vec<u8>, height: u16)
    ensures
        final(out)@ == old(out)@ + encode_utf8(help_line(height as nat)),
{
    let ghost start = out@;
    let y = height.saturating_sub(1);
    goto(out, y, 1);
    clear_line(out);
    proof { lemma_append_encoded(start, cup(y as nat, 1), erase_line()); }
    put_text(
        out,
        y,
        1,
        "q: quit | j/k/arrows: move | PgUp/PgDn/Home/End: page | /: filter | .: hidden | Enter: open | Backspace: up | r: refresh",
    );
    proof {
        lemma_append_encoded(start, cup(y as nat, 1) + erase_line(), put_seq(y as nat, 1, help_text()));
        assert(cup(y as nat, 1) + erase_line() + put_seq(y as nat, 1, help_text()) =~= help_line(height as nat));
    }
}

/// Redraw the contents of one list row (marker, name, size).
pub fn render_list_row(out: &mut Vec<u8>, y: u16, cell: &Cell, width: u16)
    ensures
        final(out)@ == old(out)@ + encode_utf8(list_row(y as nat, cell@, width as nat)),
{
    let ghost start = out@;
    let ghost yy = y as nat;
    goto(out, y, 1);
    let ghost acc = cup(yy, 1);
    clear_line(out);
    proof { lemma_append_encoded(start, acc, erase_line()); acc = acc + erase_line(); }
    let ghost marker = if cell.selected { sgr(44) + put_seq(yy, 1, ">"@) } else { put_seq(yy, 1, " "@) };
    if cell.selected {
        let ghost mid = out@;
        bg_color(out, 44);
        put_text(out, y, 1, ">");
        proof { lemma_append_encoded(mid, sgr(44), put_seq(yy, 1, ">"@)); }
    } else {
        put_text(out, y, 1, " ");
    }
    proof {
        assert(out@ =~= start + encode_utf8(acc) + encode_utf8(marker));
        lemma_append_encoded(start, acc, marker);
        acc = acc + marker;
    }
    let ghost style = if cell.is_dir { sgr(34) } else { Seq::<char>::empty() };
    if cell.is_dir {
        fg_color(out, 34);
    }
    proof {
        assert(encode_utf8(Seq::<char>::empty()) =~= Seq::<u8>::empty());
        assert(out@ =~= start + encode_utf8(acc) + encode_utf8(style));
        lemma_append_encoded(start, acc, style);
        acc = acc + style;
    }
    put_text(out, y, 3, cell.name.as_str());
    proof { lemma_append_encoded(start, acc, put_seq(yy, 3, cell.name@)); acc = acc + put_seq(yy, 3, cell.name@); }
    clear_color(out);
    proof { lemma_append_encoded(start, acc, default_colors()); acc = acc + default_colors(); }
    put_text(out, y, width.saturating_sub(8), cell.size.as_str());
    proof {
        lemma_append_encoded(start, acc, put_seq(yy, sat(width as nat, 8), cell.size@));
        assert(acc + put_seq(yy, sat(width as nat, 8), cell.size@) =~= list_row(yy, cell@, width as nat));
    }
}

/// Clear the entire contents of a list row whose entry no longer exists.
pub fn clear_row(out: &mut Vec<u8>, y: u16)
    ensures
        final(out)@ == old(out)@ + encode_utf8(cleared_row(y as nat)),
{
    let ghost start = out@;
    goto(out, y, 1);
    clear_line(out);
    proof { lemma_append_encoded(start, cup(y as nat, 1), erase_line()); }
}

/// Compose the second-to-last line: computing spinner, message, filter state.
pub fn status_line(view: &ListView) -> (r: String)
    ensures
        r@ == status_text(*view),
{
    let mut chars: Vec<char> = Vec::new();
    if view.computing {
        chars.push(view.spinner);
        chars.push(' ');
    }
    let ghost head = chars@;
    if view.filtering {
        append_str(&mut chars, "Filter (Enter=apply, Esc=cancel): ");
        append_str(&mut chars, view.filter_draft);
    } else {
        append_str(&mut chars, view.message);
        if !view.filter.is_empty() {
            if !view.message.is_empty() {
                append_str(&mut chars, " · ");
            }
            append_str(&mut chars, "filter \"");
            append_str(&mut chars, view.filter);
            append_str(&mut chars, "\"");
        }
    }
    proof {
        assert(chars@ =~= status_text(*view));
    }
    string_of(chars.as_slice())
}

/// Redraw the second-to-last line (cleared first so a shorter status cannot
/// leave trailing characters).
pub fn render_status(out: &mut Vec<u8>, height: u16, status: &str)
    ensures
        final(out)@ == old(out)@ + encode_utf8(status_row(height as nat, status@)),
{
    let ghost start = out@;
    let y = height.saturating_sub(2);
    goto(out, y, 1);
    clear_line(out);
    proof { lemma_append_encoded(start, cup(y as nat, 1), erase_line()); }
    put_text(out, y, 1, status);
    proof {
        lemma_append_encoded(start, cup(y as nat, 1) + erase_line(), put_seq(y as nat, 1, status@));
        assert(cup(y as nat, 1) + erase_line() + put_seq(y as nat, 1, status@) =~= status_row(height as nat, status@));
    }
}

// ---------------------------------------------------------------------------
// Frames: redraw only what changed
// ---------------------------------------------------------------------------

/// What is currently on screen, as plain values.
pub struct ScreenModel {
    pub dir: Seq<char>,
    pub count: usize,
    pub width: u16,
    pub height: u16,
    pub rows: Seq<Option<CellModel>>,
    pub status: Seq<char>,
}

/// Snapshot of what is currently on screen; `sync` diffs the new frame
/// against it and only rewrites the parts that changed.
pub struct Screen {
    dir: String,
    count: usize,
    width: u16,
    height: u16,
    rows: Vec<Option<Cell>>,
    status: String,
}

impl View for Screen {
    type V = ScreenModel;

    closed spec fn view(&self) -> ScreenModel {
        ScreenModel {
            dir: self.dir@,
            count: self.count,
            width: self.width,
            height: self.height,
            rows: Seq::new(self.rows@.len(), |i: int| cell_model(self.rows@[i])),
            status: self.status@,
        }
    }
}

/// Number of list rows on a screen of `height` lines (title, status and
/// help take the rest).
pub open spec fn list_area(height: nat) -> nat {
    sat(height, 4)
}

/// The screen holds the rows of one whole list area, or nothing yet.
pub open spec fn screen_wf(s: ScreenModel) -> bool {
    s.rows.len() == 0 || s.rows.len() == list_area(s.height as nat)
}

/// The whole screen must be redrawn: nothing drawn yet, the terminal was
/// resized, or another directory is shown.
pub open spec fn needs_full_redraw(s: ScreenModel, dir: Seq<char>, width: nat, height: nat) -> bool {
    s.rows.len() == 0 || s.width != width || s.height != height || s.dir != dir
}

/// The first `k` list rows of a full redraw.
pub open spec fn full_rows(v: ListView, indices: Seq<usize>, width: nat, k: nat) -> Seq<char>
    decreases k,
{
    if k == 0 {
        Seq::empty()
    } else {
        full_rows(v, indices, width, (k - 1) as nat) + match cell_at(v, indices, width, (k - 1) as nat) {
            Some(c) => list_row((2 + k - 1) as nat, c, width),
            None => Seq::empty(),
        }
    }
}

/// The first `k` list rows of a partial redraw: only rows that differ from
/// what is on screen are rewritten, rows that no longer hold an entry are
/// cleared.
pub open spec fn changed_rows(v: ListView, indices: Seq<usize>, width: nat, shown: Seq<Option<CellModel>>, k: nat) -> Seq<char>
    decreases k,
{
    if k == 0 {
        Seq::empty()
    } else {
        let pos = (k - 1) as nat;
        let cell = cell_at(v, indices, width, pos);
        changed_rows(v, indices, width, shown, pos) + if cell != shown[pos as int] {
            match cell {
                Some(c) => list_row((2 + pos) as nat, c, width),
                None => cleared_row((2 + pos) as nat),
            }
        } else {
            Seq::empty()
        }
    }
}

/// The characters written for the frame `v` with the visible rows `indices`
/// on a `width` x `height` terminal showing `s`: a full redraw (clear, window
/// title, title, help, status, list) when needed, otherwise the count line
/// if the count changed, the changed rows and the status if it changed.
pub open spec fn frame_output(v: ListView, indices: Seq<usize>, width: nat, height: nat, s: ScreenModel) -> Seq<char> {
    let dir = v.dir@;
    let count = indices.len();
    let status = status_text(v);
    let area = list_area(height);
    if needs_full_redraw(s, dir, width, height) {
        "\x1b[2J\x1b[H"@ + title_seq(sanitized("Explorer — "@ + dir)) + title_line(width, dir, count)
            + help_line(height) + status_row(height, status) + full_rows(v, indices, width, area)
    } else {
        (if s.count != count { title_line(width, dir, count) } else { Seq::empty() })
            + changed_rows(v, indices, width, s.rows, area)
            + (if s.status != status { status_row(height, status) } else { Seq::empty() })
    }
}

/// What is on screen after the frame `v` was drawn.
pub open spec fn after_frame(v: ListView, indices: Seq<usize>, width: u16, height: u16) -> ScreenModel {
    ScreenModel {
        dir: v.dir@,
        count: indices.len() as usize,
        width,
        height,
        rows: Seq::new(list_area(height as nat), |pos: int| cell_at(v, indices, width as nat, pos as nat)),
        status: status_text(v),
    }
}

impl Screen {
    /// Nothing drawn yet.
    pub fn new() -> (r: Self)
        ensures
            r@.rows.len() == 0,
            screen_wf(r@),
    {
        Screen { dir: String::new(), count: 0, width: 0, height: 0, rows: Vec::new(), status: String::new() }
    }
}

/// Draw the frame `view` (with the visible rows `indices`) on a `width` x
/// `height` terminal, redrawing only the parts that changed since the frame
/// recorded in `screen`, and record the new frame there. A full redraw
/// happens at startup, on resize and on navigation; otherwise only the
/// title/count line, the list rows whose content changed and the status line
/// are rewritten.
pub fn sync(out: &mut Vec<u8>, view: &ListView, indices: &[usize], width: u16, height: u16, screen: &mut Screen)
    requires
        screen_wf(old(screen)@),
        forall|i: int| 0 <= i < indices@.len() ==> indices@[i] < view.entries@.len(),
    ensures
        final(out)@ == old(out)@ + encode_utf8(frame_output(*view, indices@, width as nat, height as nat, old(screen)@)),
        final(screen)@ == after_frame(*view, indices@, width, height),
        screen_wf(final(screen)@),
{
    let ghost start = out@;
    let ghost old_screen = screen@;
    let ghost w = width as nat;
    let ghost h = height as nat;
    let dir = view.dir.to_owned();
    let count = indices.len();
    let status = status_line(view);
    let area = height.saturating_sub(4) as usize;
    let mut rows: Vec<Option<Cell>> = Vec::new();
    if screen.rows.len() == 0 || screen.width != width || screen.height != height || !(screen.dir == dir) {
        clear(out);
        let ghost acc = "\x1b[2J\x1b[H"@;
        let mut caption_chars: Vec<char> = Vec::new();
        append_str(&mut caption_chars, "Explorer — ");
        append_str(&mut caption_chars, dir.as_str());
        let window_title = string_of(caption_chars.as_slice());
        let clean = sanitize_for_terminal(window_title.as_str());
        match &clean {
            Cow::Borrowed(b) => set_title(out, b),
            Cow::Owned(o) => set_title(out, o.as_str()),
        }
        proof {
            let t = title_seq(sanitized("Explorer — "@ + dir@));
            lemma_append_encoded(start, acc, t);
            acc = acc + t;
        }
        render_title(out, width, view.dir, count);
        proof { lemma_append_encoded(start, acc, title_line(w, dir@, count as nat)); acc = acc + title_line(w, dir@, count as nat); }
        render_help(out, height);
        proof { lemma_append_encoded(start, acc, help_line(h)); acc = acc + help_line(h); }
        render_status(out, height, status.as_str());
        proof { lemma_append_encoded(start, acc, status_row(h, status@)); acc = acc + status_row(h, status@); }
        let ghost head = acc;
        let mut pos: usize = 0;
        while pos < area
            invariant
                pos <= area,
                area == list_area(h),
                h == height as nat,
                w == width as nat,
                area <= 65531,
                forall|i: int| 0 <= i < indices@.len() ==> indices@[i] < view.entries@.len(),
                out@ == start + encode_utf8(head + full_rows(*view, indices@, w, pos as nat)),
                rows@.len() == pos,
                forall|i: int| 0 <= i < pos ==> #[trigger] cell_model(rows@[i]) == cell_at(*view, indices@, w, i as nat),
            decreases area - pos,
        {
            let cell = cell_for(view, indices, width, pos);
            let ghost before = head + full_rows(*view, indices@, w, pos as nat);
            let ghost piece = match cell_at(*view, indices@, w, pos as nat) {
                Some(c) => list_row((2 + pos) as nat, c, w),
                None => Seq::<char>::empty(),
            };
            match &cell {
                Some(c) => {
                    render_list_row(out, 2 + pos as u16, c, width);
                },
                None => {},
            }
            proof {
                assert(encode_utf8(Seq::<char>::empty()) =~= Seq::<u8>::empty());
                assert(out@ =~= start + encode_utf8(before) + encode_utf8(piece));
                lemma_append_encoded(start, before, piece);
                assert(before + piece =~= head + full_rows(*view, indices@, w, (pos + 1) as nat));
            }
            rows.push(cell);
            pos = pos + 1;
        }
    } else {
        let ghost acc = Seq::<char>::empty();
        proof { assert(out@ =~= start + encode_utf8(acc)); }
        if screen.count != count {
            render_title(out, width, view.dir, count);
            proof { lemma_append_encoded(start, acc, title_line(w, dir@, count as nat)); }
        }
        proof {
            acc = if old_screen.count != count { title_line(w, dir@, count as nat) } else { Seq::<char>::empty() };
            assert(acc =~= Seq::<char>::empty() + acc);
        }
        let ghost head = acc;
        let mut pos: usize = 0;
        std::mem::swap(&mut rows, &mut screen.rows);
        assert(rows@.len() == area);
        while pos < area
            invariant
                pos <= area,
                area == list_area(h),
                h == height as nat,
                w == width as nat,
                area <= 65531,
                rows@.len() == area,
                old_screen.rows.len() == area,
                forall|i: int| 0 <= i < indices@.len() ==> indices@[i] < view.entries@.len(),
                out@ == start + encode_utf8(head + changed_rows(*view, indices@, w, old_screen.rows, pos as nat)),
                forall|i: int| 0 <= i < pos ==> #[trigger] cell_model(rows@[i]) == cell_at(*view, indices@, w, i as nat),
                forall|i: int| pos <= i < area ==> #[trigger] cell_model(rows@[i]) == old_screen.rows[i],
            decreases area - pos,
        {
            let cell = cell_for(view, indices, width, pos);
            let ghost before = head + changed_rows(*view, indices@, w, old_screen.rows, pos as nat);
            let ghost cm = cell_at(*view, indices@, w, pos as nat);
            let ghost piece = if cm != old_screen.rows[pos as int] {
                match cm {
                    Some(c) => list_row((2 + pos) as nat, c, w),
                    None => cleared_row((2 + pos) as nat),
                }
            } else {
                Seq::<char>::empty()
            };
            if !same_cell(&cell, &rows[pos]) {
                match &cell {
                    Some(c) => render_list_row(out, 2 + pos as u16, c, width),
                    None => clear_row(out, 2 + pos as u16),
                }
            }
            proof {
                assert(encode_utf8(Seq::<char>::empty()) =~= Seq::<u8>::empty());
                assert(out@ =~= start + encode_utf8(before) + encode_utf8(piece));
                lemma_append_encoded(start, before, piece);
                assert(before + piece =~= head + changed_rows(*view, indices@, w, old_screen.rows, (pos + 1) as nat));
            }
            rows.set(pos, cell);
            pos = pos + 1;
        }
        let ghost mid = head + changed_rows(*view, indices@, w, old_screen.rows, area as nat);
        if !(screen.status == status) {
            render_status(out, height, status.as_str());
            proof { lemma_append_encoded(start, mid, status_row(h, status@)); }
        }
        proof {
            let tail = if old_screen.status != status@ { status_row(h, status@) } else { Seq::<char>::empty() };
            assert(encode_utf8(Seq::<char>::empty()) =~= Seq::<u8>::empty());
            assert(out@ =~= start + encode_utf8(mid + tail)) by {
                if old_screen.status == status@ {
                    assert(mid + tail =~= mid);
                }
            }
        }
    }
    screen.rows = rows;
    screen.dir = dir;
    screen.count = count;
    screen.width = width;
    screen.height = height;
    screen.status = status;
    proof {
        assert(screen@.rows =~= after_frame(*view, indices@, width, height).rows);
    }
}

proof fn lemma_no_changed_rows(v: ListView, indices: Seq<usize>, width: nat, shown: Seq<Option<CellModel>>, k: nat)
    requires
        k <= shown.len(),
        forall|pos: int| 0 <= pos < k ==> #[trigger] shown[pos] == cell_at(v, indices, width, pos as nat),
    ensures
        changed_rows(v, indices, width, shown, k) == Seq::<char>::empty(),
    decreases k,
{
    if k > 0 {
        lemma_no_changed_rows(v, indices, width, shown, (k - 1) as nat);
        assert(shown[k - 1] == cell_at(v, indices, width, (k - 1) as nat));
        assert(changed_rows(v, indices, width, shown, k) =~= Seq::<char>::empty());
    }
}

/// Drawing the frame that is already on screen writes nothing (when the
/// terminal has room for at least one list row).
pub proof fn lemma_same_frame_writes_nothing(v: ListView, indices: Seq<usize>, width: u16, height: u16)
    requires
        list_area(height as nat) > 0,
        indices.len() <= usize::MAX,
    ensures
        frame_output(v, indices, width as nat, height as nat, after_frame(v, indices, width, height)) == Seq::<char>::empty(),
{
    let s = after_frame(v, indices, width, height);
    lemma_no_changed_rows(v, indices, width as nat, s.rows, list_area(height as nat));
    assert(!needs_full_redraw(s, v.dir@, width as nat, height as nat));
    assert(changed_rows(v, indices, width as nat, s.rows, list_area(height as nat)) == Seq::<char>::empty());
    assert(frame_output(v, indices, width as nat, height as nat, s) =~= Seq::<char>::empty());
}

/// A spinner tick (the frame differs from the one on screen only in its
/// spinner character) rewrites the status line and nothing else.
pub proof fn lemma_spinner_tick_redraws_status_only(v: ListView, spinner: char, indices: Seq<usize>, width: u16, height: u16)
    requires
        list_area(height as nat) > 0,
        indices.len() <= usize::MAX,
    ensures
        ({
            let ticked = ListView { spinner, ..v };
            let before = after_frame(v, indices, width, height);
            frame_output(ticked, indices, width as nat, height as nat, before) == if status_text(ticked) != status_text(v) {
                status_row(height as nat, status_text(ticked))
            } else {
                Seq::<char>::empty()
            }
        }),
{
    let ticked = ListView { spinner, ..v };
    let s = after_frame(v, indices, width, height);
    assert forall|pos: int| 0 <= pos < list_area(height as nat) implies #[trigger] s.rows[pos] == cell_at(ticked, indices, width as nat, pos as nat) by {
        assert(cell_at(ticked, indices, width as nat, pos as nat) == cell_at(v, indices, width as nat, pos as nat));
    }
    lemma_no_changed_rows(ticked, indices, width as nat, s.rows, list_area(height as nat));
    assert(!needs_full_redraw(s, ticked.dir@, width as nat, height as nat));
    assert(frame_output(ticked, indices, width as nat, height as nat, s) =~= (if status_text(ticked) != status_text(v) {
        status_row(height as nat, status_text(ticked))
    } else {
        Seq::<char>::empty()
    }));
}

/// The sequence that clears the screen and homes the cursor.
pub open spec fn clear_screen() -> Seq<char> {
    "\x1b[2J\x1b[H"@
}

/// A frame for a directory other than the one on screen, or for a resized
/// terminal, is drawn as on a blank screen: it starts by clearing the
/// screen, setting the window title for the new directory and rewriting the
/// title line, whatever was drawn before.
pub proof fn lemma_navigation_redraws_fully(v: ListView, indices: Seq<usize>, width: nat, height: nat, s: ScreenModel)
    requires
        s.dir != v.dir@ || s.width != width || s.height != height,
    ensures
        frame_output(v, indices, width, height, s) == frame_output(v, indices, width, height, ScreenModel { rows: Seq::empty(), ..s }),
        ({
            let head = clear_screen() + title_seq(sanitized("Explorer — "@ + v.dir@)) + title_line(width, v.dir@, indices.len());
            &&& head.len() <= frame_output(v, indices, width, height, s).len()
            &&& frame_output(v, indices, width, height, s).subrange(0, head.len() as int) == head
        }),
{
    let out = frame_output(v, indices, width, height, s);
    let head = clear_screen() + title_seq(sanitized("Explorer — "@ + v.dir@)) + title_line(width, v.dir@, indices.len());
    let rest = help_line(height) + status_row(height, status_text(v)) + full_rows(v, indices, width, list_area(height));
    assert(out =~= head + rest);
    assert(out.subrange(0, head.len() as int) =~= head);
}

/// While the filter is being edited no key ends the explorer or asks for
/// anything but a redraw; outside of it, only `q` and Esc quit.
pub proof fn lemma_quit_keys(m: TuiModel, key: Key, count: int, area: int)
    ensures
        m.filtering ==> key_effect(m, key, count, area).1 == Command::Stay,
        key_effect(m, key, count, area).1 == Command::Quit <==> (!m.filtering && (key == Key::Char('q') || key == Key::Esc)),
{
}

} // verus!
