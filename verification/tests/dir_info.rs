use editor_91to9::dir_info::{
    enrich, needs_stats, sort_entries, DirStats, Entry, Flow, Listing, Probe, ScanCancelled,
    ScanOptions, StatsWalk, SubStats, Visit, DEFAULT_MAX_DEPTH, DEFAULT_MAX_ENTRIES,
};

/// An in-memory directory tree for driving the walk.
enum Item {
    Broken,
    File(&'static str, u64),
    Dir(&'static str, Option<Vec<Item>>),
}

fn probe_of(item: &Item) -> Probe {
    match item {
        Item::Broken => Probe::Unreadable,
        Item::File(name, len) => Probe::Found { name: name.to_string(), is_dir: false, len: *len },
        Item::Dir(name, _) => Probe::Found { name: name.to_string(), is_dir: true, len: 4096 },
    }
}

/// Reads `items` through the walk the way a depth-first reader does;
/// `cancel_after` sets the cancel flag once that many items were read.
fn read_dir(walk: &mut StatsWalk, items: &[Item], reads: &mut usize, cancel_after: usize) -> Option<Result<DirStats, ()>> {
    for item in items {
        *reads += 1;
        let cancelled = *reads > cancel_after;
        match walk.visit(cancelled, probe_of(item)) {
            Visit::Next => {}
            Visit::Enter(name) => {
                let Item::Dir(dir_name, contents) = item else { panic!("only directories are entered") };
                assert_eq!(&name, dir_name);
                match contents {
                    Some(sub) => {
                        if let Some(done) = read_dir(walk, sub, reads, cancel_after) {
                            return Some(done);
                        }
                    }
                    None => walk.enter_failed(),
                }
            }
            Visit::Cancelled => return Some(Err(())),
        }
    }
    walk.finish_dir().map(Ok)
}

fn walk_tree(items: &[Item], depth: usize, cancel_after: usize) -> Result<DirStats, ()> {
    let mut walk = StatsWalk::new(depth);
    let mut reads = 0;
    let result = read_dir(&mut walk, items, &mut reads, cancel_after).expect("the walk ends at the top");
    assert!(!walk.is_active());
    result
}

/// root/{dir1/{f1.txt (10B), sub/{f2.txt (7B)}}, dir2/, a.txt (3B)}
fn sample_tree() -> Vec<Item> {
    vec![
        Item::Dir("dir1", Some(vec![Item::File("f1.txt", 10), Item::Dir("sub", Some(vec![Item::File("f2.txt", 7)]))])),
        Item::Dir("dir2", Some(vec![])),
        Item::File("a.txt", 3),
    ]
}

fn stats(files: u64, dirs: u64, total_size: u64) -> DirStats {
    DirStats { files, dirs, total_size }
}

#[test]
fn walk_counts_whole_tree() {
    assert_eq!(walk_tree(&sample_tree(), DEFAULT_MAX_DEPTH, usize::MAX), Ok(stats(3, 3, 20)));
}

#[test]
fn walk_respects_depth_limit() {
    assert_eq!(walk_tree(&sample_tree(), 0, usize::MAX), Ok(stats(1, 2, 3)));
    assert_eq!(walk_tree(&sample_tree(), 1, usize::MAX), Ok(stats(2, 3, 13)));
}

#[test]
fn walk_skips_unreadable_items_and_dirs() {
    let tree = vec![
        Item::Broken,
        Item::Dir("locked", None),
        Item::File("x", 5),
        Item::Dir("open", Some(vec![Item::Broken, Item::File("y", 1)])),
    ];
    assert_eq!(walk_tree(&tree, 4, usize::MAX), Ok(stats(2, 2, 6)));
}

#[test]
fn walk_cancelled_at_top_fails() {
    assert_eq!(walk_tree(&sample_tree(), DEFAULT_MAX_DEPTH, 0), Err(()));
}

#[test]
fn walk_cancelled_inside_a_subdirectory_is_interrupted() {
    // Reads: a (1), d (2), b (3), c (4, cancelled): the whole count fails,
    // though the top directory has no more items.
    let tree = vec![Item::File("a", 1), Item::Dir("d", Some(vec![Item::File("b", 2), Item::File("c", 3)]))];
    assert_eq!(walk_tree(&tree, 4, 3), Err(()));
}

#[test]
fn walk_sizes_wrap_like_u64() {
    let tree = vec![Item::File("big", u64::MAX), Item::File("one", 2)];
    assert_eq!(walk_tree(&tree, 0, usize::MAX), Ok(stats(2, 0, 1)));
}

fn found(name: &str, is_dir: bool, len: u64) -> Probe {
    Probe::Found { name: name.to_owned(), is_dir, len }
}

fn collect(opts: &ScanOptions, items: Vec<Probe>, cancel_at: Option<usize>) -> Result<Vec<Entry>, ()> {
    let mut listing = Listing::new(opts);
    for (i, item) in items.into_iter().enumerate() {
        match listing.check(cancel_at == Some(i)) {
            Flow::Cancelled => return Err(()),
            Flow::Stop => break,
            Flow::Continue => listing.add(item),
        }
    }
    Ok(listing.into_entries())
}

#[test]
fn default_scan_options() {
    let opts = ScanOptions::default();
    assert_eq!(opts.max_entries, DEFAULT_MAX_ENTRIES);
    assert_eq!(opts.max_depth, DEFAULT_MAX_DEPTH);
    assert_eq!((DEFAULT_MAX_ENTRIES, DEFAULT_MAX_DEPTH), (1000, 16));
}

#[test]
fn listing_basic_entries_have_no_stats() {
    let entries = collect(
        &ScanOptions::default(),
        vec![found("dir1", true, 4096), Probe::Unreadable, found("a.txt", false, 3)],
        None,
    )
    .unwrap();
    assert_eq!(entries.len(), 2);
    assert_eq!((entries[0].size, entries[0].files, entries[0].dirs), (0, 0, 0));
    assert_eq!(entries[1].size, 3);
    assert!(entries[0].is_dir && !entries[1].is_dir);
}

#[test]
fn listing_caps_entries() {
    let items = || vec![found("a.txt", false, 4), found("b.txt", false, 4), found("c.txt", false, 4)];
    let capped = collect(&ScanOptions { max_entries: 2, max_depth: 1 }, items(), None).unwrap();
    assert_eq!(capped.len(), 2);
    let unlimited = collect(&ScanOptions { max_entries: 0, max_depth: 1 }, items(), None).unwrap();
    assert_eq!(unlimited.len(), 3);
}

#[test]
fn listing_cap_counts_readable_entries_only() {
    let items = vec![Probe::Unreadable, found("a", false, 1), Probe::Unreadable, found("b", false, 1), found("c", false, 1)];
    let capped = collect(&ScanOptions { max_entries: 2, max_depth: 0 }, items, None).unwrap();
    let names: Vec<&str> = capped.iter().map(|e| e.name.as_str()).collect();
    assert_eq!(names, ["a", "b"]);
}

#[test]
fn listing_cancelled() {
    let items = vec![found("a", false, 1), found("b", false, 1)];
    assert_eq!(collect(&ScanOptions::default(), items, Some(0)), Err(()));
    let mut listing = Listing::new(&ScanOptions { max_entries: 1, max_depth: 0 });
    listing.add(found("a", false, 1));
    // Cancellation wins over a full listing.
    assert_eq!(listing.check(true), Flow::Cancelled);
    assert_eq!(listing.check(false), Flow::Stop);
}

fn entry(name: &str, is_dir: bool) -> Entry {
    Entry { name: name.to_owned(), is_dir, size: 0, files: 0, dirs: 0 }
}

fn names(entries: &[Entry]) -> Vec<&str> {
    entries.iter().map(|e| e.name.as_str()).collect()
}

#[test]
fn sort_dirs_first_then_case_insensitive_name() {
    let mut entries = vec![entry("a.txt", false), entry("dir2", true), entry("Zeta", false), entry("dir1", true), entry("beta", false)];
    sort_entries(&mut entries);
    assert_eq!(names(&entries), ["dir1", "dir2", "a.txt", "beta", "Zeta"]);
}

#[test]
fn sort_is_stable_for_equal_keys() {
    let mut entries = vec![entry("README", false), entry("b", false), entry("readme", false), entry("ReadMe", false)];
    sort_entries(&mut entries);
    assert_eq!(names(&entries), ["b", "README", "readme", "ReadMe"]);
    let mut empty: Vec<Entry> = Vec::new();
    sort_entries(&mut empty);
    assert!(empty.is_empty());
}

#[test]
fn enrich_fills_stats_of_dirs_and_sorts() {
    let opts = ScanOptions { max_entries: 0, max_depth: 2 };
    let entries = vec![entry("a.txt", false), entry("dir2", true), entry("dir1", true)];
    let wanted: Vec<Option<usize>> = entries.iter().map(|e| needs_stats(e, &opts)).collect();
    assert_eq!(wanted, vec![None, Some(1), Some(1)]);
    let listed = enrich(
        entries,
        &opts,
        vec![SubStats::Counted(stats(9, 9, 9)), SubStats::Unavailable, SubStats::Counted(stats(2, 1, 17))],
    )
    .expect("nothing was cancelled");
    assert_eq!(names(&listed), ["dir1", "dir2", "a.txt"]);
    assert_eq!((listed[0].files, listed[0].dirs, listed[0].size), (2, 1, 17));
    assert_eq!((listed[1].files, listed[1].dirs, listed[1].size), (0, 0, 0));
    // Stats handed for a file are not used.
    assert_eq!((listed[2].files, listed[2].dirs, listed[2].size), (0, 0, 0));
}

#[test]
fn enrich_without_depth_keeps_basic_entries() {
    let opts = ScanOptions { max_entries: 0, max_depth: 0 };
    let entries = vec![entry("d", true)];
    assert_eq!(needs_stats(&entries[0], &opts), None);
    let listed = enrich(entries, &opts, vec![SubStats::Counted(stats(1, 1, 1))]).expect("nothing was cancelled");
    assert_eq!((listed[0].files, listed[0].dirs, listed[0].size), (0, 0, 0));
}

#[test]
fn enrich_fails_when_a_count_was_cancelled() {
    let opts = ScanOptions { max_entries: 0, max_depth: 2 };
    let entries = vec![entry("d1", true), entry("d2", true), entry("f", false)];
    let outcome = enrich(
        entries,
        &opts,
        vec![SubStats::Counted(stats(1, 0, 5)), SubStats::Cancelled, SubStats::Skipped],
    );
    assert_eq!(outcome, Err(ScanCancelled));
}

#[test]
fn deeper_limit_counts_at_least_as_much() {
    let tree = sample_tree();
    let shallow = walk_tree(&tree, 0, usize::MAX).unwrap();
    let deeper = walk_tree(&tree, 1, usize::MAX).unwrap();
    let deepest = walk_tree(&tree, 5, usize::MAX).unwrap();
    for (a, b) in [(shallow, deeper), (deeper, deepest)] {
        assert!(a.files <= b.files && a.dirs <= b.dirs && a.total_size <= b.total_size);
    }
}

/// The level reading without a cancel flag: items are added until the
/// listing is full.
fn collect_unchecked(opts: &ScanOptions, items: Vec<Probe>) -> Vec<Entry> {
    let mut listing = Listing::new(opts);
    for item in items {
        if let Flow::Stop = listing.check(false) {
            break;
        }
        listing.add(item);
    }
    listing.into_entries()
}

#[test]
fn uncancelled_reading_lists_as_the_unchecked_one() {
    let items = || vec![found("b", false, 2), Probe::Unreadable, found("a", true, 0), found("c", false, 1)];
    for max_entries in [0, 1, 2, 5] {
        let opts = ScanOptions { max_entries, max_depth: 0 };
        assert_eq!(collect(&opts, items(), None), Ok(collect_unchecked(&opts, items())));
    }
    // A tree walked with the flag never set counts as the unflagged walk.
    assert_eq!(walk_tree(&sample_tree(), 3, usize::MAX), Ok(stats(3, 3, 20)));
}

#[test]
fn listed_directories_carry_their_own_tree_counts() {
    let opts = ScanOptions { max_entries: 0, max_depth: 2 };
    let tree = sample_tree();
    let entries = vec![entry("a.txt", false), entry("dir2", true), entry("dir1", true)];
    let Item::Dir(_, Some(dir1)) = &tree[0] else { unreachable!() };
    let Item::Dir(_, Some(dir2)) = &tree[1] else { unreachable!() };
    let sub = |items: &[Item]| SubStats::Counted(walk_tree(items, opts.max_depth - 1, usize::MAX).unwrap());
    let listed = enrich(entries, &opts, vec![SubStats::Skipped, sub(dir2), sub(dir1)]).unwrap();
    assert_eq!(names(&listed), ["dir1", "dir2", "a.txt"]);
    // dir1 holds f1.txt (10 B) and sub/ with f2.txt (7 B).
    assert_eq!((listed[0].files, listed[0].dirs, listed[0].size), (2, 1, 17));
    assert_eq!((listed[1].files, listed[1].dirs, listed[1].size), (0, 0, 0));
}
