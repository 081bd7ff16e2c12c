//! Directory listing rules for the explorer: the entries of one directory
//! with their sizes, recursive file/folder counts and total size.
//!
//! Reading the file system is left to the caller, which hands each item it
//! read to the state machines here ([`Listing`] for one level,
//! [`StatsWalk`] for a recursive count); they decide what is kept, when to
//! stop, which subdirectory to enter next and how the numbers add up.
//! Listings are sorted directories first, then case-insensitively by name.

use vstd::prelude::*;
use crate::text::{ascii_lower, ascii_lowered, is_ascii_text, lowercase, lowercase_chars};

verus! {

/// Default maximum number of items when listing one level (0 = unlimited).
pub const DEFAULT_MAX_ENTRIES: usize = 1000;
/// Default maximum subdirectory depth when computing stats (0 = do not descend).
pub const DEFAULT_MAX_DEPTH: usize = 16;

/// Scan options that cap the workload for large/deep directories.
#[derive(Debug, Clone, Copy, PartialEq, Eq)]
pub struct ScanOptions {
    /// Maximum number of items listed per level; `0` = unlimited.
    pub max_entries: usize,
    /// Number of subdirectory levels entered when computing stats; `0` = direct entries only.
    pub max_depth: usize,
}

impl Default for ScanOptions {
    fn default() -> (r: Self)
        ensures
            r.max_entries == DEFAULT_MAX_ENTRIES,
            r.max_depth == DEFAULT_MAX_DEPTH,
    {
        ScanOptions { max_entries: DEFAULT_MAX_ENTRIES, max_depth: DEFAULT_MAX_DEPTH }
    }
}

/// Directory tree stats: number of files, directories and the total
/// (recursive) size.
#[derive(Debug, Clone, Copy, Default, PartialEq, Eq)]
pub struct DirStats {
    pub files: u64,
    pub dirs: u64,
    pub total_size: u64,
}

/// An entry in a directory listing.
#[derive(Debug, Clone, PartialEq, Eq)]
pub struct Entry {
    pub name: String,
    pub is_dir: bool,
    /// Size of the file; for a directory, the recursive total size.
    pub size: u64,
    /// Recursive file count (directories only).
    pub files: u64,
    /// Recursive directory count (directories only).
    pub dirs: u64,
}

// ---------------------------------------------------------------------------
// Ordering: directories first, then case-insensitively by name
// ---------------------------------------------------------------------------

/// Lexicographic order on character sequences by code point, which is the
/// order of `str` comparison (UTF-8 byte order agrees with code point order).
pub open spec fn chars_lt(a: Seq<char>, b: Seq<char>) -> bool
    decreases a.len(),
{
    if b.len() == 0 {
        false
    } else if a.len() == 0 {
        true
    } else if a[0] != b[0] {
        (a[0] as u32) < (b[0] as u32)
    } else {
        chars_lt(a.drop_first(), b.drop_first())
    }
}

/// The sort key of an entry: folder flag and lower-cased name.
pub open spec fn key_of(e: Entry) -> (bool, Seq<char>) {
    (e.is_dir, lowercase(e.name@))
}

/// `a` sorts strictly before `b`: folders before files, then by name.
pub open spec fn key_lt(a: (bool, Seq<char>), b: (bool, Seq<char>)) -> bool {
    (a.0 && !b.0) || (a.0 == b.0 && chars_lt(a.1, b.1))
}

/// `a` is listed strictly before `b`.
pub open spec fn entry_before(a: Entry, b: Entry) -> bool {
    key_lt(key_of(a), key_of(b))
}

/// No entry of `s` is listed strictly before an earlier one.
pub open spec fn is_sorted(s: Seq<Entry>) -> bool {
    forall|i: int, j: int| 0 <= i < j < s.len() ==> !entry_before(#[trigger] s[j], #[trigger] s[i])
}

/// `p` is a permutation of `0..n`.
pub open spec fn is_permutation(p: Seq<int>, n: nat) -> bool {
    &&& p.len() == n
    &&& forall|i: int| 0 <= i < n ==> 0 <= #[trigger] p[i] < n
    &&& forall|i: int, j: int| 0 <= i < n && 0 <= j < n && i != j ==> #[trigger] p[i] != #[trigger] p[j]
}

/// The lower-cased names of `entries`, the name part of their sort keys.
pub open spec fn name_keys(entries: Seq<Entry>) -> Seq<Seq<char>> {
    Seq::new(entries.len(), |i: int| lowercase(entries[i].name@))
}

/// The views of the key vectors `keys`.
pub open spec fn key_views(keys: Seq<Vec<char>>) -> Seq<Seq<char>> {
    Seq::new(keys.len(), |i: int| keys[i]@)
}

/// The sort key of `orig[i]` when its name key is `names[i]`.
pub open spec fn key_at(orig: Seq<Entry>, names: Seq<Seq<char>>, i: int) -> (bool, Seq<char>) {
    (orig[i].is_dir, names[i])
}

/// `sorted` is `orig` rearranged by `p` (`sorted[i] == orig[p[i]]`) in
/// listing order of the keys `(orig[i].is_dir, names[i])`, with entries of
/// equal keys kept in their input order.
pub open spec fn is_stable_sort(orig: Seq<Entry>, names: Seq<Seq<char>>, sorted: Seq<Entry>, p: Seq<int>) -> bool {
    &&& sorted.len() == orig.len()
    &&& is_permutation(p, orig.len())
    &&& forall|i: int| 0 <= i < sorted.len() ==> #[trigger] sorted[i] == orig[p[i]]
    &&& forall|i: int, j: int| 0 <= i < j < sorted.len() ==> !key_lt(key_at(orig, names, #[trigger] p[j]), key_at(orig, names, #[trigger] p[i]))
    &&& forall|i: int, j: int| 0 <= i < j < sorted.len() && key_at(orig, names, p[i]) == key_at(orig, names, p[j]) ==> #[trigger] p[i] < #[trigger] p[j]
}

/// With the lower-cased names as name keys, a stable sort is sorted in
/// listing order.
pub proof fn lemma_stable_sort_is_sorted(orig: Seq<Entry>, sorted: Seq<Entry>, p: Seq<int>)
    requires
        is_stable_sort(orig, name_keys(orig), sorted, p),
    ensures
        is_sorted(sorted),
{
    assert forall|i: int, j: int| 0 <= i < j < sorted.len() implies !entry_before(#[trigger] sorted[j], #[trigger] sorted[i]) by {
        assert(key_at(orig, name_keys(orig), p[j]) == key_of(sorted[j]));
        assert(key_at(orig, name_keys(orig), p[i]) == key_of(sorted[i]));
    }
}

pub proof fn lemma_chars_lt_irreflexive(a: Seq<char>)
    ensures
        !chars_lt(a, a),
    decreases a.len(),
{
    if a.len() > 0 {
        lemma_chars_lt_irreflexive(a.drop_first());
    }
}

pub proof fn lemma_chars_lt_transitive(a: Seq<char>, b: Seq<char>, c: Seq<char>)
    requires
        chars_lt(a, b),
        chars_lt(b, c),
    ensures
        chars_lt(a, c),
    decreases a.len(),
{
    if a.len() > 0 && b.len() > 0 && c.len() > 0 && a[0] == b[0] && b[0] == c[0] {
        lemma_chars_lt_transitive(a.drop_first(), b.drop_first(), c.drop_first());
    }
}

pub proof fn lemma_chars_lt_total(a: Seq<char>, b: Seq<char>)
    requires
        a != b,
    ensures
        chars_lt(a, b) || chars_lt(b, a),
    decreases a.len(),
{
    if a.len() > 0 && b.len() > 0 {
        if a[0] == b[0] {
            if a.drop_first() == b.drop_first() {
                assert(a =~= seq![a[0]] + a.drop_first());
                assert(b =~= seq![b[0]] + b.drop_first());
            }
            lemma_chars_lt_total(a.drop_first(), b.drop_first());
        } else {
            vstd::utf8::char_u32_cast(a[0], a[0] as u32);
            vstd::utf8::char_u32_cast(b[0], b[0] as u32);
        }
    } else if a.len() == 0 && b.len() == 0 {
        assert(a =~= b);
    }
}

pub proof fn lemma_chars_lt_asymmetric(a: Seq<char>, b: Seq<char>)
    requires
        chars_lt(a, b),
    ensures
        !chars_lt(b, a),
{
    if chars_lt(b, a) {
        lemma_chars_lt_transitive(a, b, a);
        lemma_chars_lt_irreflexive(a);
    }
}

/// Listing order is a strict total order on keys.
pub proof fn lemma_key_order(a: (bool, Seq<char>), b: (bool, Seq<char>), c: (bool, Seq<char>))
    ensures
        !key_lt(a, a),
        key_lt(a, b) ==> !key_lt(b, a),
        key_lt(a, b) && key_lt(b, c) ==> key_lt(a, c),
        a != b ==> key_lt(a, b) || key_lt(b, a),
        !key_lt(c, b) && !key_lt(b, a) ==> !key_lt(c, a),
{
    lemma_chars_lt_irreflexive(a.1);
    if key_lt(a, b) && a.0 == b.0 {
        lemma_chars_lt_asymmetric(a.1, b.1);
    }
    if key_lt(a, b) && key_lt(b, c) && a.0 == b.0 && b.0 == c.0 {
        lemma_chars_lt_transitive(a.1, b.1, c.1);
    }
    if a != b && a.0 == b.0 {
        lemma_chars_lt_total(a.1, b.1);
    }
    if !key_lt(c, b) && !key_lt(b, a) && key_lt(c, a) {
        if a == b {
        } else {
            if a.0 == b.0 {
                lemma_chars_lt_total(a.1, b.1);
            }
            assert(key_lt(a, b));
            if c.0 == a.0 && a.0 == b.0 {
                lemma_chars_lt_transitive(c.1, a.1, b.1);
            }
        }
    }
}

/// Whether `a` comes strictly before `b` in code point order.
fn chars_less(a: &Vec<char>, b: &Vec<char>) -> (r: bool)
    ensures
        r == chars_lt(a@, b@),
{
    let mut i: usize = 0;
    assert(a@.skip(0) =~= a@);
    assert(b@.skip(0) =~= b@);
    while i < a.len() && i < b.len()
        invariant
            i <= a@.len(),
            i <= b@.len(),
            chars_lt(a@, b@) == chars_lt(a@.skip(i as int), b@.skip(i as int)),
        decreases a@.len() - i,
    {
        if a[i] != b[i] {
            proof {
                vstd::utf8::char_u32_cast(a@[i as int], a@[i as int] as u32);
                vstd::utf8::char_u32_cast(b@[i as int], b@[i as int] as u32);
            }
            assert(a@.skip(i as int)[0] == a@[i as int]);
            assert(b@.skip(i as int)[0] == b@[i as int]);
            return (a[i] as u32) < (b[i] as u32);
        }
        assert(a@.skip(i as int).drop_first() =~= a@.skip(i + 1));
        assert(b@.skip(i as int).drop_first() =~= b@.skip(i + 1));
        i = i + 1;
    }
    a.len() < b.len()
}

/// Whether the key `(a_dir, a_name)` sorts strictly before `(b_dir, b_name)`.
fn key_less(a_dir: bool, a_name: &Vec<char>, b_dir: bool, b_name: &Vec<char>) -> (r: bool)
    ensures
        r == key_lt((a_dir, a_name@), (b_dir, b_name@)),
{
    if a_dir != b_dir {
        a_dir
    } else {
        chars_less(a_name, b_name)
    }
}

/// Sort `entries` by the keys `(entries[i].is_dir, keys[i])`: directories
/// first, then by name key in code point order; the sort is stable
/// (entries whose keys are equal keep their order).
pub fn sort_by_keys(entries: &mut Vec<Entry>, keys: Vec<Vec<char>>)
    requires
        keys@.len() == old(entries)@.len(),
    ensures
        exists|p: Seq<int>| is_stable_sort(old(entries)@, key_views(keys@), final(entries)@, p),
{
    let ghost orig = entries@;
    let ghost names = key_views(keys@);
    let mut input: Vec<Entry> = Vec::new();
    std::mem::swap(&mut input, entries);
    let mut input_keys = keys;
    let n = input.len();
    let mut out: Vec<Entry> = Vec::new();
    let mut out_keys: Vec<Vec<char>> = Vec::new();
    let ghost mut p: Seq<int> = Seq::empty();
    while input.len() > 0
        invariant
            n == orig.len(),
            names.len() == n,
            input@.len() + out@.len() == n,
            input@ == orig.take(input@.len() as int),
            input_keys@.len() == input@.len(),
            forall|i: int| 0 <= i < input_keys@.len() ==> #[trigger] input_keys@[i]@ == names[i],
            out_keys@.len() == out@.len(),
            p.len() == out@.len(),
            forall|i: int| 0 <= i < p.len() ==> input@.len() <= #[trigger] p[i] < n,
            forall|i: int, j: int| 0 <= i < p.len() && 0 <= j < p.len() && i != j ==> #[trigger] p[i] != #[trigger] p[j],
            forall|i: int| 0 <= i < out@.len() ==> #[trigger] out@[i] == orig[p[i]],
            forall|i: int| 0 <= i < out@.len() ==> #[trigger] out_keys@[i]@ == names[p[i]],
            forall|i: int, j: int| 0 <= i < j < out@.len() ==> !key_lt(key_at(orig, names, #[trigger] p[j]), key_at(orig, names, #[trigger] p[i])),
            forall|i: int, j: int| 0 <= i < j < out@.len() && key_at(orig, names, p[i]) == key_at(orig, names, p[j]) ==> #[trigger] p[i] < #[trigger] p[j],
        decreases input@.len(),
    {
        let item = input.pop().unwrap();
        let key = input_keys.pop().unwrap();
        let q = input.len();
        assert(item == orig[q as int]);
        assert(key@ == names[q as int]);
        assert(input@ =~= orig.take(q as int));
        let ghost k = key_at(orig, names, q as int);
        let mut j: usize = 0;
        while j < out.len()
            invariant
                j <= out@.len(),
                out_keys@.len() == out@.len(),
                p.len() == out@.len(),
                forall|i: int| 0 <= i < out@.len() ==> #[trigger] out@[i] == orig[p[i]],
                forall|i: int| 0 <= i < out@.len() ==> #[trigger] out_keys@[i]@ == names[p[i]],
                k == (item.is_dir, key@),
                forall|m: int| 0 <= m < j ==> key_lt(key_at(orig, names, #[trigger] p[m]), k),
            ensures
                j <= out@.len(),
                forall|m: int| 0 <= m < j ==> key_lt(key_at(orig, names, #[trigger] p[m]), k),
                j < out@.len() ==> !key_lt(key_at(orig, names, p[j as int]), k),
            decreases out@.len() - j,
        {
            assert(key_at(orig, names, p[j as int]) == (out@[j as int].is_dir, out_keys@[j as int]@));
            if !key_less(out[j].is_dir, &out_keys[j], item.is_dir, &key) {
                break;
            }
            j = j + 1;
        }
        proof {
            // Everything from `j` on sorts no earlier than `item`.
            assert forall|m: int| j <= m < out@.len() implies !key_lt(key_at(orig, names, #[trigger] p[m]), k) by {
                if m > j {
                    assert(!key_lt(key_at(orig, names, p[m]), key_at(orig, names, p[j as int])));
                    lemma_key_order(k, key_at(orig, names, p[j as int]), key_at(orig, names, p[m]));
                }
            }
        }
        let ghost old_out = out@;
        let ghost old_keys = out_keys@;
        let ghost old_p = p;
        out.insert(j, item);
        out_keys.insert(j, key);
        proof {
            p = p.insert(j as int, q as int);
            old_out.insert_ensures(j as int, item);
            old_keys.insert_ensures(j as int, key);
            old_p.insert_ensures(j as int, q as int);
            let ji = j as int;
            assert(key_at(orig, names, p[ji]) == k);
            assert forall|i: int| 0 <= i < input_keys@.len() implies #[trigger] input_keys@[i]@ == names[i] by {}
            assert forall|i: int| 0 <= i < p.len() implies q <= #[trigger] p[i] < n by {
                if i > ji {
                    assert(p[i] == old_p[i - 1]);
                }
            }
            assert forall|a: int, b: int| 0 <= a < p.len() && 0 <= b < p.len() && a != b implies #[trigger] p[a] != #[trigger] p[b] by {
                if a != ji && b != ji {
                    let a0 = if a < ji { a } else { a - 1 };
                    let b0 = if b < ji { b } else { b - 1 };
                    assert(p[a] == old_p[a0]);
                    assert(p[b] == old_p[b0]);
                } else if a == ji {
                    let b0 = if b < ji { b } else { b - 1 };
                    assert(p[b] == old_p[b0]);
                } else {
                    let a0 = if a < ji { a } else { a - 1 };
                    assert(p[a] == old_p[a0]);
                }
            }
            assert forall|i: int| 0 <= i < out@.len() implies #[trigger] out@[i] == orig[p[i]] by {
                if i > ji {
                    assert(out@[i] == old_out[i - 1]);
                    assert(p[i] == old_p[i - 1]);
                }
            }
            assert forall|i: int| 0 <= i < out@.len() implies #[trigger] out_keys@[i]@ == names[p[i]] by {
                if i > ji {
                    assert(out_keys@[i] == old_keys[i - 1]);
                    assert(p[i] == old_p[i - 1]);
                }
            }
            assert forall|a: int, b: int| 0 <= a < b < out@.len() implies !key_lt(key_at(orig, names, #[trigger] p[b]), key_at(orig, names, #[trigger] p[a])) by {
                if a < ji && b < ji {
                } else if a < ji && b == ji {
                    lemma_key_order(key_at(orig, names, p[a]), k, k);
                } else if a < ji && b > ji {
                    assert(p[b] == old_p[b - 1]);
                } else if a == ji {
                    assert(p[b] == old_p[b - 1]);
                } else {
                    assert(p[a] == old_p[a - 1]);
                    assert(p[b] == old_p[b - 1]);
                }
            }
            assert forall|a: int, b: int| 0 <= a < b < out@.len() && key_at(orig, names, p[a]) == key_at(orig, names, p[b]) implies #[trigger] p[a] < #[trigger] p[b] by {
                if a < ji && b < ji {
                } else if a < ji && b == ji {
                    lemma_key_order(key_at(orig, names, p[a]), k, k);
                } else if a < ji && b > ji {
                    assert(p[b] == old_p[b - 1]);
                } else if a == ji {
                    assert(p[b] == old_p[b - 1]);
                } else {
                    assert(p[a] == old_p[a - 1]);
                    assert(p[b] == old_p[b - 1]);
                }
            }
        }
    }
    assert(is_stable_sort(orig, names, out@, p));
    *entries = out;
}

/// Folders come before files in `s`.
pub open spec fn folders_first(s: Seq<Entry>) -> bool {
    forall|i: int, j: int| 0 <= i < j < s.len() && (#[trigger] s[j]).is_dir ==> (#[trigger] s[i]).is_dir
}

/// In `s`, of two entries of the same kind with ASCII names, the later one's
/// name never comes before the earlier one's when both are compared
/// character by character in their ASCII lower-case forms.
pub open spec fn ascii_names_in_order(s: Seq<Entry>) -> bool {
    forall|i: int, j: int|
        0 <= i < j < s.len() && (#[trigger] s[i]).is_dir == (#[trigger] s[j]).is_dir
            && is_ascii_text(s[i].name@) && is_ascii_text(s[j].name@)
            ==> !chars_lt(ascii_lowered(s[j].name@), ascii_lowered(s[i].name@))
}

/// Sort `entries` directories first, then case-insensitively by name (the
/// lower-cased names compared in code point order); the sort is stable.
pub fn sort_entries(entries: &mut Vec<Entry>)
    ensures
        exists|p: Seq<int>| is_stable_sort(old(entries)@, name_keys(old(entries)@), final(entries)@, p),
        folders_first(final(entries)@),
        ascii_names_in_order(final(entries)@),
{
    let ghost before = entries@;
    let mut keys: Vec<Vec<char>> = Vec::new();
    let mut i: usize = 0;
    while i < entries.len()
        invariant
            i <= entries@.len(),
            entries@ == before,
            keys@.len() == i,
            forall|k: int| 0 <= k < i ==> #[trigger] keys@[k]@ == lowercase(entries@[k].name@),
            forall|k: int| 0 <= k < i && is_ascii_text(entries@[k].name@)
                ==> lowercase(#[trigger] entries@[k].name@) == ascii_lowered(entries@[k].name@),
        decreases entries@.len() - i,
    {
        keys.push(lowercase_chars(entries[i].name.as_str()));
        i = i + 1;
    }
    assert(key_views(keys@) =~= name_keys(entries@));
    sort_by_keys(entries, keys);
    proof {
        let after = entries@;
        let p = choose|p: Seq<int>| is_stable_sort(before, name_keys(before), after, p);
        lemma_stable_sort_is_sorted(before, after, p);
        assert forall|i: int, j: int| 0 <= i < j < after.len() && (#[trigger] after[j]).is_dir implies (#[trigger] after[i]).is_dir by {
            assert(!entry_before(after[j], after[i]));
        }
        assert forall|i: int, j: int|
            0 <= i < j < after.len() && (#[trigger] after[i]).is_dir == (#[trigger] after[j]).is_dir
                && is_ascii_text(after[i].name@) && is_ascii_text(after[j].name@)
            implies !chars_lt(ascii_lowered(after[j].name@), ascii_lowered(after[i].name@)) by {
            assert(!entry_before(after[j], after[i]));
            assert(after[i] == before[p[i]]);
            assert(after[j] == before[p[j]]);
            assert(lowercase(before[p[i]].name@) == ascii_lowered(before[p[i]].name@));
            assert(lowercase(before[p[j]].name@) == ascii_lowered(before[p[j]].name@));
        }
    }
}

/// Two character sequences that agree up to position `k` and differ there
/// are ordered by their characters at `k`.
pub proof fn lemma_chars_lt_first_difference(a: Seq<char>, b: Seq<char>, k: int)
    requires
        0 <= k < a.len(),
        k < b.len(),
        forall|t: int| 0 <= t < k ==> a[t] == b[t],
        a[k] != b[k],
    ensures
        chars_lt(a, b) <==> (a[k] as u32) < (b[k] as u32),
    decreases k,
{
    if k > 0 {
        assert forall|t: int| 0 <= t < k - 1 implies a.drop_first()[t] == b.drop_first()[t] by {
            assert(a[t + 1] == b[t + 1]);
        }
        assert(a[0] == b[0]);
        lemma_chars_lt_first_difference(a.drop_first(), b.drop_first(), k - 1);
    }
}

/// In a sorted listing, two names of the same kind (folders, or files)
/// that first differ case-insensitively at position `k`, wherever `k` is,
/// are ordered by their lower-case characters at `k`.
pub proof fn lemma_sorted_by_first_difference(s: Seq<Entry>, i: int, j: int, k: int)
    requires
        ascii_names_in_order(s),
        0 <= i < j < s.len(),
        s[i].is_dir == s[j].is_dir,
        is_ascii_text(s[i].name@),
        is_ascii_text(s[j].name@),
        0 <= k < s[i].name@.len(),
        k < s[j].name@.len(),
        forall|t: int| 0 <= t < k ==> ascii_lower(s[i].name@[t]) == ascii_lower(s[j].name@[t]),
        ascii_lower(s[i].name@[k]) != ascii_lower(s[j].name@[k]),
    ensures
        (ascii_lower(s[i].name@[k]) as u32) < (ascii_lower(s[j].name@[k]) as u32),
{
    let a = ascii_lowered(s[i].name@);
    let b = ascii_lowered(s[j].name@);
    assert(!chars_lt(b, a));
    lemma_chars_lt_first_difference(b, a, k);
}

// ---------------------------------------------------------------------------
// One level: the quick listing
// ---------------------------------------------------------------------------

/// What the caller read about one item of a directory.
pub enum Probe {
    /// The item, or its metadata, could not be read (e.g. a broken symlink);
    /// it is skipped.
    Unreadable,
    /// A readable item: its name, whether it is a directory (symlinks to
    /// directories count as directories) and its length in bytes.
    Found { name: String, is_dir: bool, len: u64 },
}

/// The entry listed for a readable item before any recursive stats: a
/// directory shows size 0, a file its length; no counts yet.
pub open spec fn basic_entry(name: String, is_dir: bool, len: u64) -> Entry {
    Entry { name, is_dir, size: if is_dir { 0 } else { len }, files: 0, dirs: 0 }
}

/// The entries listed for the items `items`, in order, skipping unreadable ones.
pub open spec fn basic_entries(items: Seq<Probe>) -> Seq<Entry>
    decreases items.len(),
{
    if items.len() == 0 {
        Seq::empty()
    } else {
        let rest = basic_entries(items.drop_last());
        match items.last() {
            Probe::Unreadable => rest,
            Probe::Found { name, is_dir, len } => rest.push(basic_entry(name, is_dir, len)),
        }
    }
}

/// What the reader of a directory does next.
#[derive(Debug, Clone, Copy, PartialEq, Eq)]
pub enum Flow {
    /// Hand over the item just read.
    Continue,
    /// The listing is full: stop reading, the listing is complete.
    Stop,
    /// The scan was cancelled: stop with an "interrupted" error.
    Cancelled,
}

/// The listing of one directory level, filled item by item in the order the
/// directory is read, capped at `max_entries` entries (`0` = unlimited).
pub struct Listing {
    max_entries: usize,
    entries: Vec<Entry>,
    seen: Ghost<Seq<Probe>>,
}

impl Listing {
    /// The items handed over so far.
    pub closed spec fn seen(&self) -> Seq<Probe> {
        self.seen@
    }

    /// The cap on the number of entries (`0` = unlimited).
    pub closed spec fn cap(&self) -> usize {
        self.max_entries
    }

    /// The entries are those of the items seen, within the cap.
    pub closed spec fn wf(&self) -> bool {
        &&& self.entries@ == basic_entries(self.seen@)
        &&& self.max_entries != 0 ==> self.entries@.len() <= self.max_entries
    }

    /// The listing holds as many entries as it may.
    pub open spec fn is_full(&self) -> bool {
        self.cap() != 0 && basic_entries(self.seen()).len() >= self.cap()
    }

    /// An empty listing capped by `opts.max_entries`.
    pub fn new(opts: &ScanOptions) -> (r: Self)
        ensures
            r.wf(),
            r.seen() == Seq::<Probe>::empty(),
            r.cap() == opts.max_entries,
    {
        Listing { max_entries: opts.max_entries, entries: Vec::new(), seen: Ghost(Seq::empty()) }
    }

    /// Decide what to do with the item the directory reader just produced,
    /// given whether the scan has been cancelled: cancellation wins, then a
    /// full listing stops the reading, otherwise the item is wanted.
    pub fn check(&self, cancelled: bool) -> (r: Flow)
        requires
            self.wf(),
        ensures
            r == (if cancelled {
                Flow::Cancelled
            } else if self.is_full() {
                Flow::Stop
            } else {
                Flow::Continue
            }),
    {
        if cancelled {
            Flow::Cancelled
        } else if self.max_entries != 0 && self.entries.len() >= self.max_entries {
            Flow::Stop
        } else {
            Flow::Continue
        }
    }

    /// Add the item that [`check`](Self::check) asked for.
    pub fn add(&mut self, item: Probe)
        requires
            old(self).wf(),
            !old(self).is_full(),
        ensures
            final(self).wf(),
            final(self).seen() == old(self).seen().push(item),
            final(self).cap() == old(self).cap(),
    {
        let ghost seen = self.seen@.push(item);
        assert(seen.drop_last() =~= self.seen@);
        match item {
            Probe::Unreadable => {
                self.seen = Ghost(seen);
            },
            Probe::Found { name, is_dir, len } => {
                let size = if is_dir { 0 } else { len };
                self.entries.push(Entry { name, is_dir, size, files: 0, dirs: 0 });
                self.seen = Ghost(seen);
            },
        }
    }

    /// The entries listed, in reading order.
    pub fn into_entries(self) -> (r: Vec<Entry>)
        requires
            self.wf(),
        ensures
            r@ == basic_entries(self.seen()),
            self.cap() != 0 ==> r@.len() <= self.cap(),
    {
        self.entries
    }
}

/// The items a listing has handed over when the reading of a directory ends:
/// from the items `seen` so far, the reader yields `items`, and before each
/// one the cancel flag is read (`cancels[i]` before `items[i]`; one flag
/// per item). `None` when
/// the reading is interrupted; a full listing stops it.
pub open spec fn read_level(cap: usize, seen: Seq<Probe>, items: Seq<Probe>, cancels: Seq<bool>) -> Option<Seq<Probe>>
    decreases items.len(),
{
    if items.len() == 0 {
        Some(seen)
    } else if cancels.len() > 0 && cancels[0] {
        None
    } else if cap != 0 && basic_entries(seen).len() >= cap {
        Some(seen)
    } else {
        read_level(cap, seen.push(items[0]), items.drop_first(), cancels.drop_first())
    }
}

/// The same reading without a cancel flag.
pub open spec fn read_level_unchecked(cap: usize, seen: Seq<Probe>, items: Seq<Probe>) -> Seq<Probe>
    decreases items.len(),
{
    if items.len() == 0 {
        seen
    } else if cap != 0 && basic_entries(seen).len() >= cap {
        seen
    } else {
        read_level_unchecked(cap, seen.push(items[0]), items.drop_first())
    }
}

/// A reading whose cancel flag stays clear lists exactly what the reading
/// without a flag lists.
pub proof fn lemma_uncancelled_level(cap: usize, seen: Seq<Probe>, items: Seq<Probe>, cancels: Seq<bool>)
    requires
        cancels.len() == items.len(),
        forall|i: int| 0 <= i < cancels.len() ==> !#[trigger] cancels[i],
    ensures
        read_level(cap, seen, items, cancels) == Some(read_level_unchecked(cap, seen, items)),
    decreases items.len(),
{
    if items.len() > 0 && !(cap != 0 && basic_entries(seen).len() >= cap) {
        assert forall|i: int| 0 <= i < cancels.drop_first().len() implies !#[trigger] cancels.drop_first()[i] by {
            assert(cancels.drop_first()[i] == cancels[i + 1]);
        }
        lemma_uncancelled_level(cap, seen.push(items[0]), items.drop_first(), cancels.drop_first());
    }
}

/// Listing only ever drops items, never invents them.
pub proof fn lemma_basic_entries_len(items: Seq<Probe>)
    ensures
        basic_entries(items).len() <= items.len(),
    decreases items.len(),
{
    if items.len() > 0 {
        lemma_basic_entries_len(items.drop_last());
    }
}

// ---------------------------------------------------------------------------
// Filling in recursive stats
// ---------------------------------------------------------------------------

/// The depth at which the stats of `entry` are computed, or `None` when the
/// listing does not compute stats for it (files, or `max_depth == 0`).
pub open spec fn stats_depth(entry: Entry, opts: ScanOptions) -> Option<usize> {
    if opts.max_depth > 0 && entry.is_dir {
        Some((opts.max_depth - 1) as usize)
    } else {
        None
    }
}

/// Whether the listing wants recursive stats for `entry`, and to which depth.
pub fn needs_stats(entry: &Entry, opts: &ScanOptions) -> (r: Option<usize>)
    ensures
        r == stats_depth(*entry, *opts),
{
    if opts.max_depth > 0 && entry.is_dir {
        Some(opts.max_depth - 1)
    } else {
        None
    }
}

/// How the recursive count of one listed entry went.
#[derive(Debug, Clone, Copy, PartialEq, Eq)]
pub enum SubStats {
    /// No count was made: a file, or no level left to descend.
    Skipped,
    /// The counts of the directory.
    Counted(DirStats),
    /// The directory could not be read: its entry keeps its zero counts.
    Unavailable,
    /// The scan was cancelled while counting.
    Cancelled,
}

/// The listing was cancelled while its directories were being counted.
#[derive(Debug, Clone, Copy, PartialEq, Eq)]
pub struct ScanCancelled;

/// `entry` with the recursive stats `stats` filled in, when the listing
/// computes stats for it and they could be obtained.
pub open spec fn with_stats(entry: Entry, opts: ScanOptions, stats: SubStats) -> Entry {
    match stats {
        SubStats::Counted(st) if stats_depth(entry, opts) is Some => Entry {
            size: st.total_size,
            files: st.files,
            dirs: st.dirs,
            ..entry
        },
        _ => entry,
    }
}

/// The listing `entries` with the stats `stats[i]` filled into `entries[i]`.
pub open spec fn enriched(entries: Seq<Entry>, opts: ScanOptions, stats: Seq<SubStats>) -> Seq<Entry> {
    Seq::new(entries.len(), |i: int| with_stats(entries[i], opts, stats[i]))
}

/// Whether one of the counts of a listing was cancelled.
pub open spec fn any_cancelled(stats: Seq<SubStats>) -> bool {
    exists|i: int| 0 <= i < stats.len() && stats[i] is Cancelled
}

/// Fill the recursive stats into the directories of a listing
/// (`stats[i]` belongs to `entries[i]`), then sort the result directories
/// first, case-insensitively by name. Fails when a count was cancelled.
pub fn enrich(entries: Vec<Entry>, opts: &ScanOptions, stats: Vec<SubStats>) -> (r: Result<Vec<Entry>, ScanCancelled>)
    requires
        stats@.len() == entries@.len(),
    ensures
        r is Err <==> any_cancelled(stats@),
        r is Ok ==> exists|p: Seq<int>| is_stable_sort(enriched(entries@, *opts, stats@), name_keys(enriched(entries@, *opts, stats@)), r->Ok_0@, p),
{
    let ghost all_stats = stats@;
    let ghost target = enriched(entries@, *opts, stats@);
    let n = entries.len();
    // Take the entries out back to front, filling in the stats ...
    let mut rest = entries;
    let mut rest_stats = stats;
    let mut reversed: Vec<Entry> = Vec::new();
    while rest.len() > 0
        invariant
            rest@.len() == rest_stats@.len(),
            rest@.len() + reversed@.len() == n,
            n == target.len(),
            n == all_stats.len(),
            all_stats == stats@,
            rest_stats@ =~= all_stats.take(rest_stats@.len() as int),
            forall|i: int| rest_stats@.len() <= i < n ==> !(#[trigger] all_stats[i] is Cancelled),
            forall|i: int| 0 <= i < rest@.len() ==> #[trigger] with_stats(rest@[i], *opts, rest_stats@[i]) == target[i],
            forall|i: int| 0 <= i < reversed@.len() ==> #[trigger] reversed@[i] == target[n - 1 - i],
        decreases rest@.len(),
    {
        let e = rest.pop().unwrap();
        let st = rest_stats.pop().unwrap();
        let ghost k = rest@.len() as int;
        assert(with_stats(e, *opts, st) == target[k]);
        proof { assert(all_stats[k] == st); }
        let updated = match st {
            SubStats::Cancelled => {
                proof { assert(0 <= k < all_stats.len() && all_stats[k] is Cancelled); }
                return Err(ScanCancelled);
            },
            SubStats::Counted(s) => {
                if opts.max_depth > 0 && e.is_dir {
                    Entry { name: e.name, is_dir: e.is_dir, size: s.total_size, files: s.files, dirs: s.dirs }
                } else {
                    e
                }
            },
            _ => e,
        };
        reversed.push(updated);
    }
    // ... and put them back in order.
    let mut ordered: Vec<Entry> = Vec::new();
    while reversed.len() > 0
        invariant
            reversed@.len() + ordered@.len() == n,
            n == target.len(),
            forall|i: int| 0 <= i < reversed@.len() ==> #[trigger] reversed@[i] == target[n - 1 - i],
            forall|i: int| 0 <= i < ordered@.len() ==> #[trigger] ordered@[i] == target[i],
        decreases reversed@.len(),
    {
        let e = reversed.pop().unwrap();
        ordered.push(e);
    }
    assert(ordered@ =~= target);
    sort_entries(&mut ordered);
    proof {
        assert forall|i: int| 0 <= i < all_stats.len() implies !(#[trigger] all_stats[i] is Cancelled) by {}
    }
    let ghost p = choose|p: Seq<int>| is_stable_sort(target, name_keys(target), ordered@, p);
    let result: Result<Vec<Entry>, ScanCancelled> = Ok(ordered);
    assert(is_stable_sort(enriched(entries@, *opts, stats@), name_keys(enriched(entries@, *opts, stats@)), result->Ok_0@, p));
    result
}

// ---------------------------------------------------------------------------
// Recursive stats
// ---------------------------------------------------------------------------

/// No files, no directories, no bytes.
pub open spec fn zero_stats() -> DirStats {
    DirStats { files: 0, dirs: 0, total_size: 0 }
}

/// Field-wise sum of two stats (in `u64` arithmetic, wrapping on overflow).
pub open spec fn add_stats(a: DirStats, b: DirStats) -> DirStats {
    DirStats {
        files: vstd::wrapping::u64_specs::wrapping_add(a.files, b.files),
        dirs: vstd::wrapping::u64_specs::wrapping_add(a.dirs, b.dirs),
        total_size: vstd::wrapping::u64_specs::wrapping_add(a.total_size, b.total_size),
    }
}

/// What kind of item a directory holds, as far as counting goes.
pub enum ItemKind {
    Unreadable,
    File(u64),
    Dir,
}

/// The kind of the item read.
pub open spec fn kind_of(item: Probe) -> ItemKind {
    match item {
        Probe::Unreadable => ItemKind::Unreadable,
        Probe::Found { is_dir, len, .. } => if is_dir { ItemKind::Dir } else { ItemKind::File(len) },
    }
}

/// `s` with one more item of kind `k` counted: a file adds one file and its
/// length, a directory one directory; unreadable items are skipped.
pub open spec fn count_item(s: DirStats, k: ItemKind) -> DirStats {
    match k {
        ItemKind::Unreadable => s,
        ItemKind::File(len) => DirStats {
            files: vstd::wrapping::u64_specs::wrapping_add(s.files, 1),
            total_size: vstd::wrapping::u64_specs::wrapping_add(s.total_size, len),
            ..s
        },
        ItemKind::Dir => DirStats { dirs: vstd::wrapping::u64_specs::wrapping_add(s.dirs, 1), ..s },
    }
}

/// One directory being counted: how many more levels may be entered below
/// it, and its counts so far.
#[derive(Debug, Clone, Copy, PartialEq, Eq)]
pub struct Frame {
    pub depth: usize,
    pub stats: DirStats,
}

/// The directories being counted, from the root (first) to the one being
/// read (last), after the item of kind `k` was read from the last one.
/// Cancellation abandons the whole walk.
pub open spec fn after_visit(frames: Seq<Frame>, cancelled: bool, k: ItemKind) -> Seq<Frame> {
    if cancelled {
        Seq::empty()
    } else {
        let top = frames.last();
        let counted = frames.update(frames.len() - 1, Frame { depth: top.depth, stats: count_item(top.stats, k) });
        if k is Dir && top.depth > 0 {
            counted.push(Frame { depth: (top.depth - 1) as usize, stats: zero_stats() })
        } else {
            counted
        }
    }
}

/// The directories being counted after the last one was read to its end:
/// its counts are added to its parent's.
pub open spec fn after_finish(frames: Seq<Frame>) -> Seq<Frame> {
    let rest = frames.drop_last();
    if rest.len() == 0 {
        rest
    } else {
        let parent = rest.last();
        rest.update(rest.len() - 1, Frame { depth: parent.depth, stats: add_stats(parent.stats, frames.last().stats) })
    }
}

/// What the reader of the directory tree does next.
pub enum Visit {
    /// Read the next item of the current directory.
    Next,
    /// Open the subdirectory of this name of the current directory and read
    /// it (it is now the current one).
    Enter(String),
    /// The scan was cancelled: the whole count fails as interrupted.
    Cancelled,
}

/// The recursive count of a directory tree, `dir_stats_at` style: the caller
/// reads the directories and reports each item; the walk counts them,
/// decides which subdirectories to enter (up to the depth limit) and adds
/// the counts of each finished subdirectory to its parent. A subdirectory
/// that cannot be opened adds nothing but still counts as one directory; a
/// cancellation, at any depth, ends the walk.
pub struct StatsWalk {
    frames: Vec<Frame>,
}

impl View for StatsWalk {
    type V = Seq<Frame>;

    closed spec fn view(&self) -> Seq<Frame> {
        self.frames@
    }
}

impl StatsWalk {
    /// A walk over a directory that was opened, entering at most `depth`
    /// levels of subdirectories.
    pub fn new(depth: usize) -> (r: Self)
        ensures
            r@ == seq![Frame { depth, stats: zero_stats() }],
    {
        let mut frames = Vec::new();
        frames.push(Frame { depth, stats: DirStats { files: 0, dirs: 0, total_size: 0 } });
        StatsWalk { frames }
    }

    /// Whether directories are still being read.
    pub fn is_active(&self) -> (r: bool)
        ensures
            r == (self@.len() > 0),
    {
        self.frames.len() > 0
    }

    /// Count the item just read from the current directory, given whether
    /// the scan has been cancelled.
    pub fn visit(&mut self, cancelled: bool, item: Probe) -> (r: Visit)
        requires
            old(self)@.len() > 0,
        ensures
            final(self)@ == after_visit(old(self)@, cancelled, kind_of(item)),
            cancelled <==> r is Cancelled,
            !cancelled ==> match item {
                Probe::Found { name, is_dir, .. } => if is_dir && old(self)@.last().depth > 0 {
                    r == Visit::Enter(name)
                } else {
                    r is Next
                },
                Probe::Unreadable => r is Next,
            },
    {
        if cancelled {
            self.frames = Vec::new();
            return Visit::Cancelled;
        }
        let last = self.frames.len() - 1;
        let top = self.frames[last];
        match item {
            Probe::Unreadable => {
                assert(self.frames@ =~= after_visit(old(self)@, cancelled, ItemKind::Unreadable));
                Visit::Next
            },
            Probe::Found { name, is_dir, len } => {
                if !is_dir {
                    let stats = DirStats {
                        files: top.stats.files.wrapping_add(1),
                        dirs: top.stats.dirs,
                        total_size: top.stats.total_size.wrapping_add(len),
                    };
                    self.frames.set(last, Frame { depth: top.depth, stats });
                    Visit::Next
                } else {
                    let stats = DirStats {
                        files: top.stats.files,
                        dirs: top.stats.dirs.wrapping_add(1),
                        total_size: top.stats.total_size,
                    };
                    self.frames.set(last, Frame { depth: top.depth, stats });
                    if top.depth > 0 {
                        self.frames.push(Frame { depth: top.depth - 1, stats: DirStats { files: 0, dirs: 0, total_size: 0 } });
                        Visit::Enter(name)
                    } else {
                        Visit::Next
                    }
                }
            },
        }
    }

    /// The subdirectory just entered could not be opened: drop it, it adds
    /// nothing to its parent.
    pub fn enter_failed(&mut self)
        requires
            old(self)@.len() > 1,
        ensures
            final(self)@ == old(self)@.drop_last(),
    {
        self.frames.pop();
    }

    /// The current directory was read to its end: add its counts to its
    /// parent, or, for the top directory, return the final counts.
    pub fn finish_dir(&mut self) -> (r: Option<DirStats>)
        requires
            old(self)@.len() > 0,
        ensures
            final(self)@ == after_finish(old(self)@),
            r == (if old(self)@.len() == 1 { Some(old(self)@.last().stats) } else { None::<DirStats> }),
    {
        let done = self.frames.pop().unwrap();
        if self.frames.len() == 0 {
            return Some(done.stats);
        }
        let last = self.frames.len() - 1;
        let parent = self.frames[last];
        let stats = DirStats {
            files: parent.stats.files.wrapping_add(done.stats.files),
            dirs: parent.stats.dirs.wrapping_add(done.stats.dirs),
            total_size: parent.stats.total_size.wrapping_add(done.stats.total_size),
        };
        self.frames.set(last, Frame { depth: parent.depth, stats });
        None
    }
}

// ---------------------------------------------------------------------------
// What a walk computes
// ---------------------------------------------------------------------------

/// A directory item as a recursive scan sees it: unreadable, a file of some
/// length, or a directory with its items (`None` when it cannot be opened).
pub enum Node {
    Unreadable,
    File(u64),
    Dir(Option<Seq<Node>>),
}

/// The kind of a tree node.
pub open spec fn node_kind(n: Node) -> ItemKind {
    match n {
        Node::Unreadable => ItemKind::Unreadable,
        Node::File(len) => ItemKind::File(len),
        Node::Dir(_) => ItemKind::Dir,
    }
}

/// `acc` plus the counts of the items `items` of a directory from which
/// `depth` more levels are entered: every file and directory directly in it
/// counts, and each readable subdirectory adds its own counts while the
/// depth allows.
pub open spec fn tally(acc: DirStats, items: Seq<Node>, depth: nat) -> DirStats
    decreases items,
{
    if items.len() == 0 {
        acc
    } else {
        let n = items[0];
        let counted = count_item(acc, node_kind(n));
        let with_sub = match n {
            Node::Dir(Some(sub)) => if depth > 0 {
                add_stats(counted, tally(zero_stats(), sub, (depth - 1) as nat))
            } else {
                counted
            },
            _ => counted,
        };
        tally(with_sub, items.drop_first(), depth)
    }
}

/// The recursive stats of a directory holding `items`, entering at most
/// `depth` levels of subdirectories.
pub open spec fn tree_stats(items: Seq<Node>, depth: nat) -> DirStats {
    tally(zero_stats(), items, depth)
}

/// The directories being counted after a reader, with no cancellation,
/// reports the items `items` of the current directory depth first: entering
/// each subdirectory the walk asks for, reading it to its end, or reporting
/// that it could not be opened.
pub open spec fn walk(frames: Seq<Frame>, items: Seq<Node>) -> Seq<Frame>
    decreases items,
{
    if items.len() == 0 {
        frames
    } else {
        let n = items[0];
        let visited = after_visit(frames, false, node_kind(n));
        let next = match n {
            Node::Dir(sub) => if frames.last().depth > 0 {
                match sub {
                    Some(sub) => after_finish(walk(visited, sub)),
                    None => visited.drop_last(),
                }
            } else {
                visited
            },
            _ => visited,
        };
        walk(next, items.drop_first())
    }
}

/// The walk of `walk` with the cancel flag read before each item:
/// `cancel(k)` is the flag seen at the `k`-th read, `n` reads were made
/// before. Gives the frames at the end (`None` once a read sees the flag
/// set: the whole walk is abandoned) and the number of reads made.
pub open spec fn checked_walk(frames: Seq<Frame>, items: Seq<Node>, cancel: spec_fn(nat) -> bool, n: nat) -> (Option<Seq<Frame>>, nat)
    decreases items,
{
    if items.len() == 0 {
        (Some(frames), n)
    } else if cancel(n) {
        (None, n + 1)
    } else {
        let node = items[0];
        let visited = after_visit(frames, false, node_kind(node));
        let step: (Option<Seq<Frame>>, nat) = match node {
            Node::Dir(sub) => if frames.last().depth > 0 {
                match sub {
                    Some(sub) => {
                        let inner = checked_walk(visited, sub, cancel, n + 1);
                        (match inner.0 {
                            Some(f) => Some(after_finish(f)),
                            None => None,
                        }, inner.1)
                    },
                    None => (Some(visited.drop_last()), n + 1),
                }
            } else {
                (Some(visited), n + 1)
            },
            _ => (Some(visited), n + 1),
        };
        match step.0 {
            Some(f) => checked_walk(f, items.drop_first(), cancel, step.1),
            None => (None, step.1),
        }
    }
}

/// A walk whose cancel flag is never seen set ends exactly as the walk
/// without a flag: checking for cancellation changes nothing until it
/// happens.
pub proof fn lemma_uncancelled_walk(frames: Seq<Frame>, items: Seq<Node>, cancel: spec_fn(nat) -> bool, n: nat)
    requires
        forall|k: nat| !#[trigger] cancel(k),
    ensures
        checked_walk(frames, items, cancel, n).0 == Some(walk(frames, items)),
    decreases items,
{
    if items.len() > 0 {
        let node = items[0];
        let visited = after_visit(frames, false, node_kind(node));
        assert(!cancel(n));
        match node {
            Node::Dir(sub) => {
                if frames.last().depth > 0 {
                    match sub {
                        Some(sub) => {
                            lemma_uncancelled_walk(visited, sub, cancel, n + 1);
                            let m = checked_walk(visited, sub, cancel, n + 1).1;
                            lemma_uncancelled_walk(after_finish(walk(visited, sub)), items.drop_first(), cancel, m);
                        },
                        None => {
                            lemma_uncancelled_walk(visited.drop_last(), items.drop_first(), cancel, n + 1);
                        },
                    }
                } else {
                    lemma_uncancelled_walk(visited, items.drop_first(), cancel, n + 1);
                }
            },
            _ => {
                lemma_uncancelled_walk(visited, items.drop_first(), cancel, n + 1);
            },
        }
    }
}

/// Reading a directory's items through the walk adds exactly their
/// recursive counts (as `tally` defines them) to that directory's frame.
pub proof fn lemma_walk_tallies(frames: Seq<Frame>, items: Seq<Node>)
    requires
        frames.len() > 0,
    ensures
        walk(frames, items) == frames.update(
            frames.len() - 1,
            Frame { depth: frames.last().depth, stats: tally(frames.last().stats, items, frames.last().depth as nat) },
        ),
    decreases items,
{
    let top = frames.last();
    if items.len() == 0 {
        assert(frames.update(frames.len() - 1, top) =~= frames);
    } else {
        let n = items[0];
        let counted = frames.update(frames.len() - 1, Frame { depth: top.depth, stats: count_item(top.stats, node_kind(n)) });
        let visited = after_visit(frames, false, node_kind(n));
        let next = match n {
            Node::Dir(sub) => if top.depth > 0 {
                match sub {
                    Some(sub) => after_finish(walk(visited, sub)),
                    None => visited.drop_last(),
                }
            } else {
                visited
            },
            _ => visited,
        };
        let acc = count_item(top.stats, node_kind(n));
        let with_sub = match n {
            Node::Dir(Some(sub)) => if top.depth > 0 {
                add_stats(acc, tally(zero_stats(), sub, (top.depth - 1) as nat))
            } else {
                acc
            },
            _ => acc,
        };
        match n {
            Node::Dir(sub) => {
                if top.depth > 0 {
                    let child = Frame { depth: (top.depth - 1) as usize, stats: zero_stats() };
                    assert(visited == counted.push(child));
                    match sub {
                        Some(sub) => {
                            lemma_walk_tallies(visited, sub);
                            let done = walk(visited, sub);
                            assert(done =~= counted.push(Frame { depth: child.depth, stats: tally(zero_stats(), sub, child.depth as nat) }));
                            assert(done.drop_last() =~= counted);
                            assert(next =~= frames.update(frames.len() - 1, Frame { depth: top.depth, stats: with_sub }));
                        },
                        None => {
                            assert(visited.drop_last() =~= counted);
                            assert(next =~= frames.update(frames.len() - 1, Frame { depth: top.depth, stats: with_sub }));
                        },
                    }
                } else {
                    assert(next =~= frames.update(frames.len() - 1, Frame { depth: top.depth, stats: with_sub }));
                }
            },
            _ => {
                assert(next =~= frames.update(frames.len() - 1, Frame { depth: top.depth, stats: with_sub }));
            },
        }
        assert(tally(top.stats, items, top.depth as nat) == tally(with_sub, items.drop_first(), top.depth as nat));
        lemma_walk_tallies(next, items.drop_first());
        assert(next.last() == Frame { depth: top.depth, stats: with_sub });
        assert(next.update(next.len() - 1, Frame { depth: top.depth, stats: tally(with_sub, items.drop_first(), top.depth as nat) })
            =~= frames.update(frames.len() - 1, Frame { depth: top.depth, stats: tally(top.stats, items, top.depth as nat) }));
    }
}

/// A walk started on a directory holding `items` with depth limit `depth`,
/// and read to its end, ends with exactly the tree's recursive stats.
pub proof fn lemma_walk_computes_tree_stats(items: Seq<Node>, depth: usize)
    ensures
        walk(seq![Frame { depth, stats: zero_stats() }], items) == seq![Frame { depth, stats: tree_stats(items, depth as nat) }],
        after_finish(seq![Frame { depth, stats: tree_stats(items, depth as nat) }]) == Seq::<Frame>::empty(),
{
    let start = seq![Frame { depth, stats: zero_stats() }];
    lemma_walk_tallies(start, items);
    assert(start.update(0, Frame { depth, stats: tree_stats(items, depth as nat) }) =~= seq![Frame { depth, stats: tree_stats(items, depth as nat) }]);
    assert(seq![Frame { depth, stats: tree_stats(items, depth as nat) }].drop_last() =~= Seq::<Frame>::empty());
}

/// The items of a directory with every subdirectory's contents forgotten.
pub open spec fn without_contents(items: Seq<Node>) -> Seq<Node> {
    Seq::new(items.len(), |i: int| match items[i] {
        Node::Dir(_) => Node::Dir(None),
        n => n,
    })
}

/// With depth 0 only the direct items of a directory count: what the
/// subdirectories hold makes no difference.
pub proof fn lemma_depth_zero_counts_direct_items(acc: DirStats, items: Seq<Node>)
    ensures
        tally(acc, items, 0) == tally(acc, without_contents(items), 0),
    decreases items.len(),
{
    if items.len() > 0 {
        let stripped = without_contents(items);
        assert(stripped.drop_first() =~= without_contents(items.drop_first()));
        assert(node_kind(stripped[0]) == node_kind(items[0]));
        lemma_depth_zero_counts_direct_items(count_item(acc, node_kind(items[0])), items.drop_first());
    }
}

/// Number of files counted in `items`, `depth` more levels deep (true sum).
pub open spec fn files_in(items: Seq<Node>, depth: nat) -> nat
    decreases items,
{
    if items.len() == 0 {
        0
    } else {
        let here: nat = match items[0] {
            Node::File(_) => 1,
            Node::Dir(Some(sub)) => if depth > 0 { files_in(sub, (depth - 1) as nat) } else { 0 },
            _ => 0,
        };
        here + files_in(items.drop_first(), depth)
    }
}

/// Number of directories counted in `items`, `depth` more levels deep (true sum).
pub open spec fn dirs_in(items: Seq<Node>, depth: nat) -> nat
    decreases items,
{
    if items.len() == 0 {
        0
    } else {
        let here: nat = match items[0] {
            Node::Dir(Some(sub)) => if depth > 0 { 1 + dirs_in(sub, (depth - 1) as nat) } else { 1 },
            Node::Dir(None) => 1,
            _ => 0,
        };
        here + dirs_in(items.drop_first(), depth)
    }
}

/// Total length of the files counted in `items`, `depth` more levels deep
/// (true sum).
pub open spec fn bytes_in(items: Seq<Node>, depth: nat) -> nat
    decreases items,
{
    if items.len() == 0 {
        0
    } else {
        let here: nat = match items[0] {
            Node::File(len) => len as nat,
            Node::Dir(Some(sub)) => if depth > 0 { bytes_in(sub, (depth - 1) as nat) } else { 0 },
            _ => 0,
        };
        here + bytes_in(items.drop_first(), depth)
    }
}

/// 2^64, the modulus of `u64` arithmetic.
pub open spec fn word() -> int {
    0x1_0000_0000_0000_0000
}

proof fn lemma_wrapping_add_is_mod(a: u64, b: u64)
    ensures
        vstd::wrapping::u64_specs::wrapping_add(a, b) as int == (a + b) % word(),
{
    if a + b > u64::MAX {
        vstd::arithmetic::div_mod::lemma_fundamental_div_mod(a + b, word());
        assert((a + b) / word() == 1) by {
            vstd::arithmetic::div_mod::lemma_div_is_ordered(word(), a + b, word());
            vstd::arithmetic::div_mod::lemma_div_by_self(word());
            assert(a + b < 2 * word());
            vstd::arithmetic::div_mod::lemma_div_is_ordered(a + b, 2 * word() - 1, word());
            vstd::arithmetic::div_mod::lemma_div_multiples_vanish_fancy(1, word() - 1, word());
        }
    } else {
        vstd::arithmetic::div_mod::lemma_small_mod((a + b) as nat, word() as nat);
    }
}

proof fn lemma_mod_step(x: int, y: int, z: int)
    requires
        x >= 0,
        y >= 0,
        z >= 0,
    ensures
        ((x + y) % word() + z) % word() == (x + y + z) % word(),
{
    vstd::arithmetic::div_mod::lemma_add_mod_noop(x + y, z, word());
    vstd::arithmetic::div_mod::lemma_mod_twice(x + y, word());
    vstd::arithmetic::div_mod::lemma_small_mod((z % word()) as nat, word() as nat);
    vstd::arithmetic::div_mod::lemma_add_mod_noop((x + y) % word(), z, word());
}

/// The counts that `tally` adds up are the numbers of files and
/// directories and the total file length, in `u64` arithmetic: exact
/// unless they exceed `u64::MAX`, where they wrap.
pub proof fn lemma_tally_sums(acc: DirStats, items: Seq<Node>, depth: nat)
    ensures
        tally(acc, items, depth).files as int == (acc.files + files_in(items, depth)) % word(),
        tally(acc, items, depth).dirs as int == (acc.dirs + dirs_in(items, depth)) % word(),
        tally(acc, items, depth).total_size as int == (acc.total_size + bytes_in(items, depth)) % word(),
    decreases items,
{
    if items.len() == 0 {
        vstd::arithmetic::div_mod::lemma_small_mod(acc.files as nat, word() as nat);
        vstd::arithmetic::div_mod::lemma_small_mod(acc.dirs as nat, word() as nat);
        vstd::arithmetic::div_mod::lemma_small_mod(acc.total_size as nat, word() as nat);
    } else {
        let n = items[0];
        let rest = items.drop_first();
        let counted = count_item(acc, node_kind(n));
        let with_sub = match n {
            Node::Dir(Some(sub)) => if depth > 0 {
                add_stats(counted, tally(zero_stats(), sub, (depth - 1) as nat))
            } else {
                counted
            },
            _ => counted,
        };
        let hf: nat = match n {
            Node::File(_) => 1,
            Node::Dir(Some(sub)) => if depth > 0 { files_in(sub, (depth - 1) as nat) } else { 0 },
            _ => 0,
        };
        let hd: nat = match n {
            Node::Dir(Some(sub)) => if depth > 0 { 1 + dirs_in(sub, (depth - 1) as nat) } else { 1 },
            Node::Dir(None) => 1,
            _ => 0,
        };
        let hb: nat = match n {
            Node::File(len) => len as nat,
            Node::Dir(Some(sub)) => if depth > 0 { bytes_in(sub, (depth - 1) as nat) } else { 0 },
            _ => 0,
        };
        // One step adds the item's own counts, modulo 2^64.
        assert(with_sub.files as int == (acc.files + hf) % word() && with_sub.dirs as int == (acc.dirs + hd) % word()
            && with_sub.total_size as int == (acc.total_size + hb) % word()) by {
            vstd::arithmetic::div_mod::lemma_small_mod(acc.files as nat, word() as nat);
            vstd::arithmetic::div_mod::lemma_small_mod(acc.dirs as nat, word() as nat);
            vstd::arithmetic::div_mod::lemma_small_mod(acc.total_size as nat, word() as nat);
            match n {
                Node::Unreadable => {},
                Node::File(len) => {
                    lemma_wrapping_add_is_mod(acc.files, 1);
                    lemma_wrapping_add_is_mod(acc.total_size, len);
                },
                Node::Dir(sub) => {
                    lemma_wrapping_add_is_mod(acc.dirs, 1);
                    match sub {
                        Some(sub) => if depth > 0 {
                            let st = tally(zero_stats(), sub, (depth - 1) as nat);
                            lemma_tally_sums(zero_stats(), sub, (depth - 1) as nat);
                            lemma_wrapping_add_is_mod(counted.files, st.files);
                            lemma_wrapping_add_is_mod(counted.dirs, st.dirs);
                            lemma_wrapping_add_is_mod(counted.total_size, st.total_size);
                            vstd::arithmetic::div_mod::lemma_add_mod_noop_right(acc.files as int, files_in(sub, (depth - 1) as nat) as int, word());
                            vstd::arithmetic::div_mod::lemma_add_mod_noop_right(acc.total_size as int, bytes_in(sub, (depth - 1) as nat) as int, word());
                            lemma_mod_step(acc.dirs as int, 1, dirs_in(sub, (depth - 1) as nat) as int);
                        } else {
                        },
                        None => {},
                    }
                },
            }
        }
        lemma_tally_sums(with_sub, rest, depth);
        lemma_mod_step(acc.files as int, hf as int, files_in(rest, depth) as int);
        lemma_mod_step(acc.dirs as int, hd as int, dirs_in(rest, depth) as int);
        lemma_mod_step(acc.total_size as int, hb as int, bytes_in(rest, depth) as int);
    }
}

/// A deeper limit only adds deeper items: the numbers of files and
/// directories and the total file length counted in a tree never shrink as
/// the depth limit grows.
pub proof fn lemma_deeper_counts_more(items: Seq<Node>, d1: nat, d2: nat)
    requires
        d1 <= d2,
    ensures
        files_in(items, d1) <= files_in(items, d2),
        dirs_in(items, d1) <= dirs_in(items, d2),
        bytes_in(items, d1) <= bytes_in(items, d2),
    decreases items,
{
    if items.len() > 0 {
        lemma_deeper_counts_more(items.drop_first(), d1, d2);
        match items[0] {
            Node::Dir(Some(sub)) => {
                if d1 > 0 {
                    lemma_deeper_counts_more(sub, (d1 - 1) as nat, (d2 - 1) as nat);
                }
            },
            _ => {},
        }
    }
}

/// The recursive stats of a directory grow with the depth limit, field by
/// field, as long as the counts at the deeper limit fit in a `u64`.
pub proof fn lemma_tree_stats_grow_with_depth(items: Seq<Node>, d1: nat, d2: nat)
    requires
        d1 <= d2,
    ensures
        files_in(items, d2) <= u64::MAX ==> tree_stats(items, d1).files <= tree_stats(items, d2).files,
        dirs_in(items, d2) <= u64::MAX ==> tree_stats(items, d1).dirs <= tree_stats(items, d2).dirs,
        bytes_in(items, d2) <= u64::MAX ==> tree_stats(items, d1).total_size <= tree_stats(items, d2).total_size,
{
    lemma_deeper_counts_more(items, d1, d2);
    lemma_tally_sums(zero_stats(), items, d1);
    lemma_tally_sums(zero_stats(), items, d2);
    if files_in(items, d2) <= u64::MAX {
        vstd::arithmetic::div_mod::lemma_small_mod(files_in(items, d1), word() as nat);
        vstd::arithmetic::div_mod::lemma_small_mod(files_in(items, d2), word() as nat);
    }
    if dirs_in(items, d2) <= u64::MAX {
        vstd::arithmetic::div_mod::lemma_small_mod(dirs_in(items, d1), word() as nat);
        vstd::arithmetic::div_mod::lemma_small_mod(dirs_in(items, d2), word() as nat);
    }
    if bytes_in(items, d2) <= u64::MAX {
        vstd::arithmetic::div_mod::lemma_small_mod(bytes_in(items, d1), word() as nat);
        vstd::arithmetic::div_mod::lemma_small_mod(bytes_in(items, d2), word() as nat);
    }
}

/// In a listing with recursive stats, a directory carries the counts of its
/// own scan one level less deep than the listing's limit; with a limit of 0,
/// and for files, every entry keeps the counts it was listed with. Name and
/// kind never change.
pub proof fn lemma_listed_entry_stats(entries: Seq<Entry>, opts: ScanOptions, stats: Seq<SubStats>, i: int)
    requires
        0 <= i < entries.len(),
        stats.len() == entries.len(),
    ensures
        ({
            let e = enriched(entries, opts, stats)[i];
            &&& e.name == entries[i].name && e.is_dir == entries[i].is_dir
            &&& entries[i].is_dir && opts.max_depth > 0 ==> stats_depth(entries[i], opts) == Some((opts.max_depth - 1) as usize)
            &&& entries[i].is_dir && opts.max_depth > 0 && stats[i] is Counted ==> {
                let st = stats[i]->Counted_0;
                e.size == st.total_size && e.files == st.files && e.dirs == st.dirs
            }
            &&& !(entries[i].is_dir && opts.max_depth > 0) ==> e == entries[i]
        }),
{
}

/// The listed entry `e` comes from `entries[i]`, whose directory tree is
/// `trees[i]`: same name and kind; a directory of a listing with a depth
/// limit carries the counts of its tree one level less deep when its scan
/// gave counts, and every other entry is kept as listed.
pub open spec fn carries_tree_stats(entries: Seq<Entry>, opts: ScanOptions, stats: Seq<SubStats>, trees: Seq<Seq<Node>>, e: Entry, i: int) -> bool {
    &&& 0 <= i < entries.len()
    &&& e.name == entries[i].name && e.is_dir == entries[i].is_dir
    &&& e.is_dir && opts.max_depth > 0 && stats[i] is Counted ==> {
        let st = tree_stats(trees[i], (opts.max_depth - 1) as nat);
        e.files == st.files && e.dirs == st.dirs && e.size == st.total_size
    }
    &&& !(e.is_dir && opts.max_depth > 0 && stats[i] is Counted) ==> e == entries[i]
}

/// A listing filled in by `enrich` from the scans of its directories: when
/// each scan that gave counts read the tree `trees[i]` under `entries[i]`
/// to depth `max_depth - 1`, every listed entry comes from one entry of the
/// level, each once, and a listed directory carries exactly the counts of
/// its own tree at that depth; with a limit of 0 every entry keeps the
/// counts it was listed with.
pub proof fn lemma_listing_carries_tree_stats(
    entries: Seq<Entry>,
    opts: ScanOptions,
    stats: Seq<SubStats>,
    trees: Seq<Seq<Node>>,
    listed: Seq<Entry>,
)
    requires
        stats.len() == entries.len(),
        trees.len() == entries.len(),
        forall|i: int| 0 <= i < entries.len() && #[trigger] stats[i] is Counted
            ==> stats[i]->Counted_0 == tree_stats(trees[i], (opts.max_depth - 1) as nat),
        exists|p: Seq<int>| is_stable_sort(enriched(entries, opts, stats), name_keys(enriched(entries, opts, stats)), listed, p),
    ensures
        exists|p: Seq<int>| #![trigger is_permutation(p, entries.len())]
            is_permutation(p, entries.len()) && listed.len() == entries.len()
            && forall|k: int| 0 <= k < listed.len() ==> carries_tree_stats(entries, opts, stats, trees, #[trigger] listed[k], p[k]),
{
    let target = enriched(entries, opts, stats);
    let p = choose|p: Seq<int>| is_stable_sort(target, name_keys(target), listed, p);
    assert forall|k: int| 0 <= k < listed.len() implies carries_tree_stats(entries, opts, stats, trees, #[trigger] listed[k], p[k]) by {
        let i = p[k];
        assert(0 <= i < entries.len());
        assert(listed[k] == target[i]);
    }
    assert(is_permutation(p, entries.len()));
}

} // verus!
