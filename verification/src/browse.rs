//! Browsing core shared by the terminal and the windowed front ends: the
//! directory shown, its listing, and the bookkeeping of the background size
//! scan. A navigation shows the quick listing at once and starts a new scan
//! generation; a finished scan is applied only if it belongs to the current
//! generation, so a slow scan of a directory the user already left can never
//! overwrite the listing. `visible_indices` (the hidden/filter projection) is
//! shared by both front ends too.

use std::path::PathBuf;
use vstd::prelude::*;
use crate::dir_info::Entry;
use crate::text::{append_str, chars_of, string_of, lowercase, lowercase_chars, occurs_in, contains_chars};

verus! {

#[verifier::external_type_specification]
#[verifier::external_body]
pub struct ExPathBuf(PathBuf);

/// The bytes of the path `p`, as `p.as_os_str().as_encoded_bytes()` gives
/// them: a path is the empty path exactly when it has none.
pub uninterp spec fn path_bytes(p: PathBuf) -> Seq<u8>;

/// `PathBuf::new()`: allocates an empty path, one without any bytes.
#[verifier::external_body]
fn empty_path() -> (r: PathBuf)
    ensures
        path_bytes(r).len() == 0,
{
    PathBuf::new()
}

/// The status shown while the background scan runs.
pub open spec fn computing_message() -> Seq<char> {
    "Computing sizes…"@
}

/// The status shown when the background scan failed.
pub open spec fn scan_failed_message() -> Seq<char> {
    "Could not compute directory size"@
}

/// The status shown when `target` could not be listed because of `error`.
pub open spec fn unreadable_message(target: Seq<char>, error: Seq<char>) -> Seq<char> {
    "Cannot read `"@ + target + "`: "@ + error
}

/// The state of a browser.
pub struct BrowserModel {
    pub dir: PathBuf,
    pub entries: Seq<Entry>,
    pub generation: usize,
    pub computing: bool,
    pub message: Seq<char>,
}

/// The browser after the quick listing `entries` of `dir` succeeded: it shows
/// them at once and a new scan generation starts computing the sizes.
pub open spec fn after_listed(m: BrowserModel, dir: PathBuf, entries: Seq<Entry>) -> BrowserModel {
    BrowserModel {
        dir,
        entries,
        generation: vstd::wrapping::usize_specs::wrapping_add(m.generation, 1),
        computing: true,
        message: computing_message(),
    }
}

/// The browser after the finished scan `ready` (its generation and its
/// listing, `None` when it failed) was collected: applied only while
/// computing and only when it belongs to the current generation.
pub open spec fn after_poll(m: BrowserModel, ready: Option<(usize, Option<Vec<Entry>>)>) -> BrowserModel {
    match ready {
        Some((generation, enriched)) => if m.computing && generation == m.generation {
            match enriched {
                Some(entries) => BrowserModel { entries: entries@, computing: false, message: Seq::empty(), ..m },
                None => BrowserModel { computing: false, message: scan_failed_message(), ..m },
            }
        } else {
            m
        },
        None => m,
    }
}

/// Browsing state shared between a front end and its scan thread: the list is
/// drawn immediately from the quick listing, the thread computes the full
/// listing of the current generation, and only that generation overwrites it.
pub struct Browser {
    dir: PathBuf,
    entries: Vec<Entry>,
    generation: usize,
    computing: bool,
    message: String,
}

impl View for Browser {
    type V = BrowserModel;

    closed spec fn view(&self) -> BrowserModel {
        BrowserModel {
            dir: self.dir,
            entries: self.entries@,
            generation: self.generation,
            computing: self.computing,
            message: self.message@,
        }
    }
}

impl Browser {
    /// A browser pointed at nothing (the empty path); navigate before use.
    pub fn new() -> (r: Self)
        ensures
            path_bytes(r@.dir).len() == 0,
            r@.entries.len() == 0,
            r@.generation == 0,
            !r@.computing,
            r@.message.len() == 0,
    {
        Browser { dir: empty_path(), entries: Vec::new(), generation: 0, computing: false, message: String::new() }
    }

    /// The quick listing `entries` of `dir` succeeded: show it, cancel
    /// interest in any earlier scan and start a new scan generation, which
    /// is returned (the background scan of `dir` reports under it).
    pub fn navigated(&mut self, dir: PathBuf, entries: Vec<Entry>) -> (generation: usize)
        ensures
            final(self)@ == after_listed(old(self)@, dir, entries@),
            generation == final(self)@.generation,
    {
        self.dir = dir;
        self.entries = entries;
        self.generation = self.generation.wrapping_add(1);
        self.computing = true;
        self.message = "Computing sizes…".to_owned();
        self.generation
    }

    /// Listing `target` failed with `error`: keep showing the current
    /// directory and say why.
    pub fn navigation_failed(&mut self, target: &str, error: &str)
        ensures
            final(self)@ == (BrowserModel { message: unreadable_message(target@, error@), ..old(self)@ }),
    {
        let mut chars: Vec<char> = Vec::new();
        append_str(&mut chars, "Cannot read `");
        append_str(&mut chars, target);
        append_str(&mut chars, "`: ");
        append_str(&mut chars, error);
        self.message = string_of(chars.as_slice());
        assert(self.message@ =~= unreadable_message(target@, error@));
    }

    /// Apply a finished scan, taken from the scan thread's result slot while
    /// computing: it replaces the listing (or reports the failure) only if it
    /// belongs to the current generation; stale results are dropped.
    pub fn poll(&mut self, ready: Option<(usize, Option<Vec<Entry>>)>)
        ensures
            final(self)@ == after_poll(old(self)@, ready),
    {
        if !self.computing {
            return;
        }
        if let Some((generation, enriched)) = ready {
            if generation != self.generation {
                return;
            }
            self.computing = false;
            match enriched {
                Some(entries) => {
                    self.entries = entries;
                    self.message = String::new();
                },
                None => {
                    self.message = "Could not compute directory size".to_owned();
                },
            }
        }
    }

    /// The directory the browser is currently showing.
    pub fn dir(&self) -> (r: &PathBuf)
        ensures
            *r == self@.dir,
    {
        &self.dir
    }

    /// The current listing (basic while a scan is computing, fully enriched
    /// once it finished).
    pub fn entries(&self) -> (r: &[Entry])
        ensures
            r@ == self@.entries,
    {
        self.entries.as_slice()
    }

    /// Whether a background size scan is still running.
    pub fn is_computing(&self) -> (r: bool)
        ensures
            r == self@.computing,
    {
        self.computing
    }

    /// The current scan generation.
    pub fn generation(&self) -> (r: usize)
        ensures
            r == self@.generation,
    {
        self.generation
    }

    /// The status message to show (computing text, current error, or empty
    /// once everything is done).
    pub fn message(&self) -> (r: &str)
        ensures
            r@ == self@.message,
    {
        self.message.as_str()
    }

    /// Show a transient message in place of the scan status until the next
    /// interaction overwrites it.
    pub fn set_message(&mut self, message: &str)
        ensures
            final(self)@ == (BrowserModel { message: message@, ..old(self)@ }),
    {
        self.message = message.to_owned();
    }
}

/// A scan result from an earlier generation never changes the browser.
pub proof fn lemma_stale_scan_ignored(m: BrowserModel, generation: usize, enriched: Option<Vec<Entry>>)
    requires
        generation != m.generation,
    ensures
        after_poll(m, Some((generation, enriched))) == m,
{
}

/// After a navigation, the scan started before it can no longer be applied
/// (as long as the generation counter has not wrapped around).
pub proof fn lemma_navigation_supersedes_scan(
    m: BrowserModel,
    dir: PathBuf,
    entries: Seq<Entry>,
    enriched: Option<Vec<Entry>>,
)
    requires
        m.generation < usize::MAX,
    ensures
        after_poll(after_listed(m, dir, entries), Some((m.generation, enriched))) == after_listed(m, dir, entries),
{
}

/// The scan of the current generation replaces the quick listing and
/// clears the status; a failed one reports the failure. Either way the
/// browser stops computing.
pub proof fn lemma_current_scan_applied(
    m: BrowserModel,
    dir: PathBuf,
    entries: Seq<Entry>,
    enriched: Option<Vec<Entry>>,
)
    ensures
        ({
            let listed = after_listed(m, dir, entries);
            let polled = after_poll(listed, Some((listed.generation, enriched)));
            &&& !polled.computing
            &&& polled.dir == dir
            &&& match enriched {
                Some(e) => polled.entries == e@ && polled.message.len() == 0,
                None => polled.entries == entries && polled.message == scan_failed_message(),
            }
        }),
{
}

/// A navigation always replaces a transient message with the scan status.
pub proof fn lemma_navigation_replaces_message(m: BrowserModel, message: Seq<char>, dir: PathBuf, entries: Seq<Entry>)
    ensures
        after_listed(BrowserModel { message, ..m }, dir, entries).message == computing_message(),
{
}

/// A call that changes a browser.
pub enum BrowserCall {
    /// `navigated(dir, entries)`: a quick listing succeeded.
    Navigated(PathBuf, Seq<Entry>),
    /// `navigation_failed(target, error)`.
    NavigationFailed(Seq<char>, Seq<char>),
    /// `poll(ready)`.
    Poll(Option<(usize, Option<Vec<Entry>>)>),
    /// `set_message(message)`.
    SetMessage(Seq<char>),
}

/// The browser after the call `c`.
pub open spec fn after_call(m: BrowserModel, c: BrowserCall) -> BrowserModel {
    match c {
        BrowserCall::Navigated(dir, entries) => after_listed(m, dir, entries),
        BrowserCall::NavigationFailed(target, error) => BrowserModel { message: unreadable_message(target, error), ..m },
        BrowserCall::Poll(ready) => after_poll(m, ready),
        BrowserCall::SetMessage(message) => BrowserModel { message, ..m },
    }
}

/// The browser after the calls `calls`, in order.
pub open spec fn after_calls(m: BrowserModel, calls: Seq<BrowserCall>) -> BrowserModel
    decreases calls.len(),
{
    if calls.len() == 0 {
        m
    } else {
        after_call(after_calls(m, calls.drop_last()), calls.last())
    }
}

/// The position of the last successful navigation among `calls`, if any.
pub open spec fn last_navigation(calls: Seq<BrowserCall>) -> Option<int>
    decreases calls.len(),
{
    if calls.len() == 0 {
        None
    } else if calls.last() is Navigated {
        Some(calls.len() - 1)
    } else {
        last_navigation(calls.drop_last())
    }
}

/// Whether the call `c` hands in a finished scan of generation `g`.
pub open spec fn delivers(c: BrowserCall, g: usize) -> bool {
    match c {
        BrowserCall::Poll(Some((h, _))) => h == g,
        _ => false,
    }
}

/// `last_navigation` is the last call that is a successful navigation.
pub proof fn lemma_last_navigation(calls: Seq<BrowserCall>)
    ensures
        last_navigation(calls) matches Some(i) ==> 0 <= i < calls.len() && calls[i] is Navigated
            && forall|j: int| i < j < calls.len() ==> !(#[trigger] calls[j] is Navigated),
        last_navigation(calls) is None ==> forall|j: int| 0 <= j < calls.len() ==> !(#[trigger] calls[j] is Navigated),
    decreases calls.len(),
{
    if calls.len() > 0 {
        lemma_last_navigation(calls.drop_last());
        assert forall|j: int| 0 <= j < calls.len() - 1 implies calls[j] == calls.drop_last()[j] by {}
    }
}

/// Whatever the calls made on a browser, it is computing exactly when its
/// last successful navigation started a scan that no later `poll` has
/// delivered (the scan carries the browser's current generation, which only
/// a navigation changes); with no navigation among the calls, when it was
/// computing before and no call delivered the scan it was waiting for. A
/// fresh browser is not computing, so for it only the first case remains.
pub proof fn lemma_computing_until_delivered(m: BrowserModel, calls: Seq<BrowserCall>)
    ensures
        after_calls(m, calls).computing <==> match last_navigation(calls) {
            Some(i) => forall|j: int| i < j < calls.len() ==> !delivers(#[trigger] calls[j], after_calls(m, calls).generation),
            None => m.computing && forall|j: int| 0 <= j < calls.len() ==> !delivers(#[trigger] calls[j], m.generation),
        },
        last_navigation(calls) matches Some(i) ==> after_calls(m, calls).generation == after_calls(m, calls.take(i + 1)).generation,
        last_navigation(calls) is None ==> after_calls(m, calls).generation == m.generation,
    decreases calls.len(),
{
    if calls.len() > 0 {
        let n = calls.len();
        let p = calls.drop_last();
        let c = calls.last();
        let prev = after_calls(m, p);
        let now = after_calls(m, calls);
        lemma_computing_until_delivered(m, p);
        lemma_last_navigation(p);
        assert forall|j: int| 0 <= j < n - 1 implies calls[j] == p[j] by {}
        if c is Navigated {
            assert(calls.take(n as int) =~= calls);
        } else {
            // A call other than a navigation keeps the generation, and stops
            // the computing exactly when it delivers the awaited scan.
            assert(now.generation == prev.generation);
            assert(now.computing == (prev.computing && !delivers(c, prev.generation)));
            let from: int = match last_navigation(p) {
                Some(i) => i,
                None => -1,
            };
            let g = match last_navigation(p) {
                Some(i) => now.generation,
                None => m.generation,
            };
            assert((forall|j: int| from < j < n ==> !delivers(#[trigger] calls[j], g))
                <==> ((forall|j: int| from < j < n - 1 ==> !delivers(#[trigger] p[j], g)) && !delivers(c, g))) by {
                if forall|j: int| from < j < n - 1 ==> !delivers(#[trigger] p[j], g) {
                    assert forall|j: int| from < j < n implies !delivers(#[trigger] calls[j], g) || j == n - 1 by {
                        if j < n - 1 {
                            assert(calls[j] == p[j]);
                        }
                    }
                }
                if forall|j: int| from < j < n ==> !delivers(#[trigger] calls[j], g) {
                    assert(!delivers(calls[n - 1], g));
                    assert forall|j: int| from < j < n - 1 implies !delivers(#[trigger] p[j], g) by {
                        assert(calls[j] == p[j]);
                    }
                }
            }
            match last_navigation(p) {
                Some(i) => {
                    assert(calls.take(i + 1) =~= p.take(i + 1));
                },
                None => {},
            }
        }
    }
}

// ---------------------------------------------------------------------------
// Opening the selected entry
// ---------------------------------------------------------------------------

/// The message shown when the file `name` is opened.
pub open spec fn not_supported_message(name: Seq<char>) -> Seq<char> {
    "`"@ + name + "` is a file — opening is not supported yet"@
}

/// What opening the selected row does.
pub enum OpenAction {
    /// No entry is selected.
    Nothing,
    /// Navigate into the subdirectory of this name.
    Enter(String),
    /// The entry is a file: show this message.
    NotSupported(String),
}

/// An `OpenAction` with its name or message as characters.
pub enum OpenModel {
    Nothing,
    Enter(Seq<char>),
    NotSupported(Seq<char>),
}

impl View for OpenAction {
    type V = OpenModel;

    open spec fn view(&self) -> OpenModel {
        match self {
            OpenAction::Nothing => OpenModel::Nothing,
            OpenAction::Enter(name) => OpenModel::Enter(name@),
            OpenAction::NotSupported(message) => OpenModel::NotSupported(message@),
        }
    }
}

/// What opening the row `selected` of the visible rows `indices` does.
pub open spec fn open_model(entries: Seq<Entry>, indices: Seq<usize>, selected: usize) -> OpenModel {
    if selected < indices.len() && indices[selected as int] < entries.len() {
        let e = entries[indices[selected as int] as int];
        if e.is_dir {
            OpenModel::Enter(e.name@)
        } else {
            OpenModel::NotSupported(not_supported_message(e.name@))
        }
    } else {
        OpenModel::Nothing
    }
}

/// What opening the row `selected` of the visible rows `indices` (indices
/// into `entries`) does: a directory is entered, a file gets a message, and
/// nothing happens when no entry is there.
pub fn open_selected(entries: &[Entry], indices: &[usize], selected: usize) -> (r: OpenAction)
    ensures
        r@ == open_model(entries@, indices@, selected),
        (selected < indices@.len() && indices@[selected as int] < entries@.len()) ==> ({
            let e = entries@[indices@[selected as int] as int];
            if e.is_dir {
                r == OpenAction::Enter(e.name)
            } else {
                r matches OpenAction::NotSupported(m) && m@ == not_supported_message(e.name@)
            }
        }),
        !(selected < indices@.len() && indices@[selected as int] < entries@.len()) ==> r is Nothing,
{
    if selected >= indices.len() {
        return OpenAction::Nothing;
    }
    let index = indices[selected];
    if index >= entries.len() {
        return OpenAction::Nothing;
    }
    let entry = &entries[index];
    if entry.is_dir {
        OpenAction::Enter(entry.name.clone())
    } else {
        let mut chars: Vec<char> = Vec::new();
        append_str(&mut chars, "`");
        append_str(&mut chars, entry.name.as_str());
        append_str(&mut chars, "` is a file — opening is not supported yet");
        OpenAction::NotSupported(string_of(chars.as_slice()))
    }
}

// ---------------------------------------------------------------------------
// Visible entries
// ---------------------------------------------------------------------------

/// A hidden name starts with a dot.
pub open spec fn is_hidden(name: Seq<char>) -> bool {
    name.len() > 0 && name[0] == '.'
}

/// `entry` is shown: hidden names only with `show_hidden`, and the lower-cased
/// filter must occur in the lower-cased name.
pub open spec fn is_shown(entry: Entry, show_hidden: bool, filter: Seq<char>) -> bool {
    (show_hidden || !is_hidden(entry.name@)) && occurs_in(lowercase(filter), lowercase(entry.name@))
}

/// The indices among the first `n` entries that are shown, ascending.
pub open spec fn shown_indices(entries: Seq<Entry>, show_hidden: bool, filter: Seq<char>, n: nat) -> Seq<usize>
    decreases n,
{
    if n == 0 {
        Seq::empty()
    } else {
        let before = shown_indices(entries, show_hidden, filter, (n - 1) as nat);
        if is_shown(entries[n - 1], show_hidden, filter) {
            before.push((n - 1) as usize)
        } else {
            before
        }
    }
}

/// Indices of the entries currently visible in `entries` (hidden files
/// filtered by `show_hidden`, names by the lowercase `filter`; listing
/// order kept). Shared by the TUI and the GUI.
pub fn visible_indices(entries: &[Entry], show_hidden: bool, filter: &str) -> (r: Vec<usize>)
    ensures
        r@ == shown_indices(entries@, show_hidden, filter@, entries@.len()),
        filter@.len() == 0 ==> forall|k: usize| k < entries@.len() ==> #[trigger] visible_unless_dot_file(entries@, show_hidden, r@, k),
{
    let needle = lowercase_chars(filter);
    let mut out: Vec<usize> = Vec::new();
    let mut i: usize = 0;
    while i < entries.len()
        invariant
            i <= entries@.len(),
            needle@ == lowercase(filter@),
            out@ == shown_indices(entries@, show_hidden, filter@, i as nat),
        decreases entries@.len() - i,
    {
        let name = entries[i].name.as_str();
        let chars = chars_of(name);
        let hidden = chars.len() > 0 && chars[0] == '.';
        let shown = show_hidden || !hidden;
        let matches = if !shown {
            false
        } else if needle.len() == 0 {
            assert(lowercase(entries@[i as int].name@).subrange(0int, 0int + needle@.len()) =~= needle@);
            true
        } else {
            let lower = lowercase_chars(name);
            contains_chars(&lower, &needle)
        };
        if shown && matches {
            out.push(i);
        }
        i = i + 1;
    }
    proof {
        if filter@.len() == 0 {
            assert(lowercase(filter@) =~= Seq::<char>::empty());
            lemma_unfiltered_shows_non_dot_files(entries@, show_hidden, filter@);
        }
    }
    out
}

/// With a filter that lower-cases to nothing, the visible entries are
/// exactly the non-dot-files, or all entries when hidden files are shown.
proof fn lemma_unfiltered_shows_non_dot_files(entries: Seq<Entry>, show_hidden: bool, filter: Seq<char>)
    requires
        entries.len() <= usize::MAX,
        lowercase(filter) == Seq::<char>::empty(),
    ensures
        forall|k: usize| k < entries.len()
            ==> #[trigger] visible_unless_dot_file(entries, show_hidden, shown_indices(entries, show_hidden, filter, entries.len()), k),
{
    let r = shown_indices(entries, show_hidden, filter, entries.len());
    assert forall|k: usize| k < entries.len() implies #[trigger] visible_unless_dot_file(entries, show_hidden, r, k) by {
        let hay = lowercase(entries[k as int].name@);
        assert(hay.subrange(0int, 0int + lowercase(filter).len()) =~= lowercase(filter));
        assert(occurs_in(lowercase(filter), hay));
        lemma_dot_files_hidden(entries, show_hidden, filter, k);
    }
}

/// The entry `k` is among `visible` exactly when hidden files are shown or
/// its name does not start with a dot.
pub open spec fn visible_unless_dot_file(entries: Seq<Entry>, show_hidden: bool, visible: Seq<usize>, k: usize) -> bool {
    visible.contains(k) <==> (show_hidden || !starts_with_dot(entries[k as int].name@))
}

/// The name starts with a dot.
pub open spec fn starts_with_dot(name: Seq<char>) -> bool {
    name.len() > 0 && name[0] == '.'
}

/// Hidden files are exactly the dot-files: an entry is visible exactly when
/// hidden files are shown or its name does not start with `.`, and its
/// lower-cased name contains the lower-cased filter.
pub proof fn lemma_dot_files_hidden(entries: Seq<Entry>, show_hidden: bool, filter: Seq<char>, k: usize)
    requires
        k < entries.len(),
        entries.len() <= usize::MAX,
    ensures
        shown_indices(entries, show_hidden, filter, entries.len()).contains(k) <==> (
            (show_hidden || !starts_with_dot(entries[k as int].name@))
                && occurs_in(lowercase(filter), lowercase(entries[k as int].name@))),
{
    let r = shown_indices(entries, show_hidden, filter, entries.len());
    lemma_shown_indices_ordered(entries, show_hidden, filter, entries.len());
    if r.contains(k) {
        let i = choose|i: int| 0 <= i < r.len() && r[i] == k;
        assert(is_shown(entries[r[i] as int], show_hidden, filter));
    }
}

/// The visible indices are valid positions, strictly ascending (the
/// listing order is kept), and exactly the shown entries.
pub proof fn lemma_shown_indices_ordered(entries: Seq<Entry>, show_hidden: bool, filter: Seq<char>, n: nat)
    requires
        n <= entries.len(),
        entries.len() <= usize::MAX,
    ensures
        ({
            let r = shown_indices(entries, show_hidden, filter, n);
            &&& forall|i: int| 0 <= i < r.len() ==> (#[trigger] r[i] as int) < n
            &&& forall|i: int, j: int| 0 <= i < j < r.len() ==> (#[trigger] r[i] as int) < (#[trigger] r[j] as int)
            &&& forall|i: int| 0 <= i < r.len() ==> is_shown(entries[#[trigger] r[i] as int], show_hidden, filter)
            &&& forall|k: int| 0 <= k < n && is_shown(entries[k], show_hidden, filter) ==> r.contains(k as usize)
        }),
    decreases n,
{
    if n > 0 {
        lemma_shown_indices_ordered(entries, show_hidden, filter, (n - 1) as nat);
        let before = shown_indices(entries, show_hidden, filter, (n - 1) as nat);
        let r = shown_indices(entries, show_hidden, filter, n);
        let last = (n - 1) as usize;
        if is_shown(entries[n - 1], show_hidden, filter) {
            assert(r == before.push(last));
            assert forall|i: int| 0 <= i < r.len() implies (#[trigger] r[i] as int) < n by {
                if i < before.len() {
                    assert(r[i] == before[i]);
                }
            }
            assert forall|i: int, j: int| 0 <= i < j < r.len() implies (#[trigger] r[i] as int) < (#[trigger] r[j] as int) by {
                assert(r[i] == before[i]);
                if j < before.len() {
                    assert(r[j] == before[j]);
                }
            }
            assert forall|i: int| 0 <= i < r.len() implies is_shown(entries[#[trigger] r[i] as int], show_hidden, filter) by {
                if i < before.len() {
                    assert(r[i] == before[i]);
                }
            }
        } else {
            assert(r == before);
        }
        assert forall|k: int| 0 <= k < n && is_shown(entries[k], show_hidden, filter) implies r.contains(k as usize) by {
            if k < n - 1 {
                let i = choose|i: int| 0 <= i < before.len() && before[i] == k as usize;
                assert(r[i] == k as usize);
            } else {
                assert(r[r.len() - 1] == k as usize);
            }
        }
    }
}

} // verus!
