use gd::daemon::{handle_event, is_excluded};
use gd::dirs::{basename_lower_of, DirEntry};
use gd::fan::DirEvent;
use gd::index::PathIndex;
use gd::scanner::{
    is_excluded_name, keeps_entry, scan_subtree, scan_threads, Scan, ScanKind, ScanResult,
    BATCH_ENTRIES, EXCLUDE_NAMES,
};
use gd::table::Table;

fn dir(path: &str, visits: u64, in_index: bool) -> (String, DirEntry) {
    (
        path.to_string(),
        DirEntry {
            basename_lower: basename_lower_of(path),
            visits,
            selections: 0,
            last_access: 0,
            in_index,
        },
    )
}

fn index(rows: Vec<(String, DirEntry)>) -> PathIndex {
    PathIndex::new(Table::new(rows))
}

fn held(i: &PathIndex) -> Vec<String> {
    let mut out: Vec<String> = (0..i.dirs.len())
        .filter(|k| i.dirs.value(*k).in_index)
        .map(|k| i.dirs.key(k).clone())
        .collect();
    out.sort();
    out
}

#[test]
fn added_directories_are_held() {
    let mut i = index(vec![]);
    assert!(i.is_empty() && !i.has_data());
    i.add("/h/a");
    i.add("/h/a");
    assert!(i.add_if_missing("/h/b"));
    assert!(!i.add_if_missing("/h/b"));
    assert_eq!(i.len(), 2);
    assert!(i.has_data());
    i.remove("/h/a");
    assert_eq!(held(&i), vec!["/h/b"]);
}

#[test]
fn history_survives_leaving_the_index() {
    let mut i = index(vec![dir("/h/a", 3, true), dir("/h/a/b", 0, true), dir("/h/ab", 0, true)]);
    i.remove_subtree("/h/a");
    assert_eq!(held(&i), vec!["/h/ab"]);
    assert_eq!(i.dirs.get("/h/a").unwrap().visits, 3);
    assert!(i.dirs.get("/h/a/b").is_none());
    i.add("/h/a");
    assert_eq!(i.dirs.get("/h/a").unwrap().visits, 3);
}

#[test]
fn rename_moves_the_whole_tree() {
    let mut i = index(vec![
        dir("/h/old", 2, true),
        dir("/h/old/x", 1, true),
        dir("/h/older", 0, true),
        dir("/h/new/x", 9, true),
    ]);
    assert_eq!(i.rename("/h/old", "/h/new"), 2);
    assert_eq!(held(&i), vec!["/h/new", "/h/new/x", "/h/older"]);
    let moved = i.dirs.get("/h/new").unwrap();
    assert_eq!((moved.basename_lower.as_str(), moved.visits), ("new", 2));
    assert_eq!(i.dirs.get("/h/new/x").unwrap().visits, 1);
    assert!(i.dirs.get("/h/old").is_none());
    assert_eq!(i.rename("/h/none", "/h/other"), 0);
}

#[test]
fn events_outside_home_do_nothing() {
    let mut i = index(vec![dir("/h/a", 0, true)]);
    for event in [
        DirEvent::Created("/etc/x".into()),
        DirEvent::Deleted("/".into()),
        DirEvent::Renamed("/etc/x".into(), "/etc/y".into()),
        DirEvent::Created("/home2/x".into()),
    ] {
        assert_eq!(handle_event(&mut i, &event, "/h"), None);
    }
    assert_eq!(held(&i), vec!["/h/a"]);
    assert!(i.dirs.changes().is_empty());
}

#[test]
fn created_directory_is_added_unless_left_out() {
    let mut i = index(vec![]);
    assert_eq!(handle_event(&mut i, &DirEvent::Created("/h/a".into()), "/h"), None);
    handle_event(&mut i, &DirEvent::Created("/h/p/node_modules/x".into()), "/h");
    assert_eq!(held(&i), vec!["/h/a"]);
}

#[test]
fn deleted_directory_takes_its_tree_along() {
    let mut i = index(vec![dir("/h/a", 0, true), dir("/h/a/b", 0, true), dir("/h/c", 0, true)]);
    handle_event(&mut i, &DirEvent::Deleted("/h/a".into()), "/h");
    assert_eq!(held(&i), vec!["/h/c"]);
}

#[test]
fn moved_directory_is_followed() {
    let mut i = index(vec![dir("/h/a", 0, true), dir("/h/a/b", 0, true)]);
    // Known: its rows move.
    let event = DirEvent::Renamed("/h/a".into(), "/h/z".into());
    assert_eq!(handle_event(&mut i, &event, "/h"), None);
    assert_eq!(held(&i), vec!["/h/z", "/h/z/b"]);
    // Unknown: its tree is to be scanned.
    let event = DirEvent::Renamed("/h/unknown".into(), "/h/y".into());
    assert_eq!(handle_event(&mut i, &event, "/h").as_deref(), Some("/h/y"));
    // Into a directory that is left out, or out of the home directory: gone.
    let event = DirEvent::Renamed("/h/z/b".into(), "/h/node_modules/b".into());
    assert_eq!(handle_event(&mut i, &event, "/h"), None);
    assert_eq!(held(&i), vec!["/h/z"]);
    let event = DirEvent::Renamed("/h/z".into(), "/tmp/z".into());
    assert_eq!(handle_event(&mut i, &event, "/h"), None);
    assert!(held(&i).is_empty());
    // Into the home directory: to be scanned, unless left out.
    let event = DirEvent::Renamed("/tmp/z".into(), "/h/z".into());
    assert_eq!(handle_event(&mut i, &event, "/h").as_deref(), Some("/h/z"));
    let event = DirEvent::Renamed("/tmp/z".into(), "/h/.git".into());
    assert_eq!(handle_event(&mut i, &event, "/h"), None);
}

#[test]
fn names_that_are_left_out() {
    assert_eq!(EXCLUDE_NAMES.len(), 24);
    for name in EXCLUDE_NAMES {
        assert!(is_excluded_name(name));
        assert!(is_excluded(&format!("/h/{name}/x")));
        assert!(!keeps_entry(Some(name)));
    }
    assert!(!is_excluded_name("src"));
    assert!(!is_excluded_name("Target"));
    assert!(!is_excluded("/h/my-target/src"));
    assert!(keeps_entry(Some("src")));
    assert!(keeps_entry(None));
}

#[test]
fn threads_are_limited() {
    assert_eq!(scan_threads(None), 2);
    assert_eq!(scan_threads(Some(4)), 4);
    assert_eq!(scan_threads(Some(64)), 8);
}

#[test]
fn full_scan_leaves_what_it_met() {
    let mut i = index(vec![
        dir("/h/kept", 0, true),
        dir("/h/gone", 0, true),
        dir("/h/used", 2, true),
    ]);
    let mut scan = Scan::new(ScanKind::Full);
    scan.begin(&mut i);
    assert!(held(&i).is_empty());
    assert!(!scan.step(&mut i, "/h/kept", true));
    assert!(!scan.step(&mut i, "/h/file", false));
    assert!(!scan.step(&mut i, "/h/fresh", true));
    scan.finish(&mut i);
    let result = scan.result();
    assert_eq!(result, ScanResult { count: 2, aborted: false });
    assert_eq!(held(&i), vec!["/h/fresh", "/h/kept"]);
    assert!(i.dirs.get("/h/gone").is_none());
    assert_eq!(i.dirs.get("/h/used").unwrap().visits, 2);
}

#[test]
fn scan_that_is_cut_short_forgets_nothing() {
    let mut i = index(vec![dir("/h/a", 0, true), dir("/h/b", 0, true)]);
    let mut scan = Scan::new(ScanKind::Full);
    scan.begin(&mut i);
    scan.step(&mut i, "/h/a", true);
    assert!(!scan.checkpoint(true));
    scan.finish(&mut i);
    let result = scan.result();
    assert_eq!(result, ScanResult { count: 1, aborted: true });
    assert_eq!(i.dirs.len(), 2);
    assert_eq!(held(&i), vec!["/h/a"]);
}

#[test]
fn catch_up_counts_what_was_missing() {
    let mut i = index(vec![dir("/h/a", 0, true), dir("/h/b", 7, false)]);
    let mut scan = Scan::new(ScanKind::Catchup);
    scan.begin(&mut i);
    for path in ["/h/a", "/h/b", "/h/c"] {
        scan.step(&mut i, path, true);
    }
    assert!(scan.checkpoint(false));
    scan.finish(&mut i);
    assert_eq!(scan.result(), ScanResult { count: 2, aborted: false });
    assert_eq!(held(&i), vec!["/h/a", "/h/b", "/h/c"]);
    assert_eq!(i.dirs.get("/h/b").unwrap().visits, 7);
    assert!(!i.dirs.changes().contains(&"/h/a".to_string()));
}

#[test]
fn scan_begins_and_ends_part_by_part() {
    let mut parts =
        [index(vec![dir("/h/a", 0, true), dir("/h/b", 3, true)]), index(vec![dir("/h/c", 0, true)])];
    let mut scan = Scan::new(ScanKind::Full);
    assert!(scan.starts_over());
    for part in &mut parts {
        scan.begin(part);
        assert!(held(part).is_empty());
    }
    scan.step(&mut parts[0], "/h/a", true);
    // A directory whose path is no text counts, too.
    assert!(!scan.pass());
    assert!(scan.forgets());
    for part in &mut parts {
        scan.finish(part);
    }
    assert_eq!(scan.result(), ScanResult { count: 2, aborted: false });
    assert_eq!(held(&parts[0]), vec!["/h/a"]);
    assert_eq!((parts[0].dirs.len(), parts[1].dirs.len()), (2, 0));
    let mut catchup = Scan::new(ScanKind::Catchup);
    assert!(!catchup.starts_over() && !catchup.forgets());
    catchup.pass();
    assert_eq!((catchup.count, catchup.pending), (0, 1));
    scan.checkpoint(true);
    assert!(!scan.forgets());
}

#[test]
fn scan_commits_in_batches() {
    let mut i = index(vec![]);
    let mut scan = Scan::new(ScanKind::Catchup);
    scan.begin(&mut i);
    let full: Vec<usize> =
        (1..=2 * BATCH_ENTRIES).filter(|_| scan.step(&mut i, "/h/f", false)).collect();
    assert_eq!(full, vec![2000, 4000]);
}

#[test]
fn subtree_comes_in_whole() {
    let mut i = index(vec![]);
    let dirs = vec!["/h/z".to_string(), "/h/z/a".to_string()];
    assert_eq!(scan_subtree(&mut i, &dirs), 2);
    assert_eq!(held(&i), vec!["/h/z", "/h/z/a"]);
}
