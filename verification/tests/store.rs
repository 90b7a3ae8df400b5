use gd::db::{
    boost_index, last_lower, pattern_of, HistoryEntry, KeyStore, ResultSource, SearchResult,
};
use gd::dirs::{basename_lower_of, in_subtree, subtree_bounds, trim_trailing_slash, DirEntry};
use gd::error::Error;
use gd::table::Table;

const NOW: u64 = 1_000_000;

fn dir(path: &str, visits: u64, selections: u64, last_access: u64, in_index: bool) -> (String, DirEntry) {
    (
        path.to_string(),
        DirEntry {
            basename_lower: basename_lower_of(path),
            visits,
            selections,
            last_access,
            in_index,
        },
    )
}

fn store(dirs: Vec<(String, DirEntry)>) -> KeyStore {
    KeyStore::new(
        Table::new(dirs),
        Table::new(vec![]),
        Table::new(vec![]),
        Table::new(vec![]),
    )
}

fn alive(s: &KeyStore) -> Vec<bool> {
    vec![true; s.dirs.len()]
}

fn found(list: &[SearchResult]) -> Vec<(&str, i128)> {
    list.iter().map(|r| (r.path.as_str(), r.score.units)).collect()
}

fn words(list: &[&str]) -> Vec<String> {
    list.iter().map(|s| s.to_string()).collect()
}

#[test]
fn link_is_found_under_its_alias_until_it_is_removed() {
    let mut s = store(vec![]);
    s.add_link("ed", "/code/editor");
    s.add_link("dl", "/downloads");
    s.add_link("ed", "/code/editor2");
    assert_eq!(s.get_link("ed").as_deref(), Some("/code/editor2"));
    assert_eq!(s.get_link("dl").as_deref(), Some("/downloads"));
    assert_eq!(s.get_link("ED"), None);
    assert_eq!(s.link_count(), 2);
    assert!(s.remove_link("ed").is_ok());
    assert_eq!(s.get_link("ed"), None);
    assert_eq!(s.get_link("dl").as_deref(), Some("/downloads"));
    match s.remove_link("ed") {
        Err(Error::KeyNotFound(key)) => assert_eq!(key, "ed"),
        other => panic!("{other:?}"),
    }
}

#[test]
fn links_are_listed_by_alias() {
    let mut s = store(vec![]);
    s.add_link("b", "/1");
    s.add_link("a", "/2");
    let list = s.list_links();
    assert_eq!(list, vec![("a".to_string(), "/2".to_string()), ("b".to_string(), "/1".to_string())]);
}

#[test]
fn errors_say_what_is_wrong() {
    assert_eq!(Error::KeyNotFound("x".into()).message(), "key 'x' not found");
    assert_eq!(Error::NoMatches("x".into()).message(), "no matches found for 'x'");
    assert_eq!(
        Error::LinkExists("x".into(), "/y".into()).message(),
        "link already exists: 'x' → /y"
    );
}

#[test]
fn setting_is_read_back() {
    let mut s = store(vec![]);
    assert_eq!(s.get_setting("layout"), None);
    s.set_setting("layout", "inline");
    s.set_setting("layout", "traditional");
    assert_eq!(s.get_setting("layout").as_deref(), Some("traditional"));
}

#[test]
fn boost_is_taken_away_by_either_name() {
    let mut s = store(vec![]);
    s.add_boost("/code", 5f64.to_bits());
    s.add_boost("/docs", 2f64.to_bits());
    assert_eq!(s.list_boosts()[0], ("/code".to_string(), 5f64.to_bits()));
    assert!(s.remove_boost("/link-to-code", Some("/code")).is_ok());
    assert!(s.remove_boost("/docs", None).is_ok());
    match s.remove_boost("/docs", Some("/docs")) {
        Err(Error::KeyNotFound(key)) => assert_eq!(key, "/docs"),
        other => panic!("{other:?}"),
    }
}

#[test]
fn boost_counts_for_all_below_it() {
    let boosts = vec![("/a".to_string(), 1), ("/a/b".to_string(), 2)];
    assert_eq!(boost_index(&boosts, "/a/b/c"), Some(0));
    assert_eq!(boost_index(&boosts, "/ab"), None);
    assert_eq!(boost_index(&boosts, "/a"), Some(0));
}

#[test]
fn visits_and_selections_are_counted() {
    let mut s = store(vec![]);
    s.record_visit("/a/b/", NOW);
    s.record_visit("/a/b", NOW + 1);
    s.record_selection("/a/b//", NOW + 2);
    assert_eq!(s.history_count(), 1);
    assert_eq!(
        s.all_history(),
        vec![(
            "/a/b".to_string(),
            HistoryEntry { visits: 2, selections: 1, last_access: NOW + 2 }
        )]
    );
    s.record_visit("/", NOW);
    assert_eq!(s.dirs.get("/").unwrap().visits, 1);
}

#[test]
fn keys_have_no_slash_at_their_end() {
    assert_eq!(trim_trailing_slash("/a/b//"), "/a/b");
    assert_eq!(trim_trailing_slash("/"), "/");
    assert_eq!(trim_trailing_slash("///"), "/");
}

#[test]
fn names_are_kept_in_lowercase() {
    assert_eq!(basename_lower_of("/a/ÄPFEL"), "äpfel");
    assert_eq!(basename_lower_of("/"), "");
    assert_eq!(basename_lower_of("/a/.."), "");
}

#[test]
fn subtree_is_a_range_of_texts() {
    let (lo, hi) = subtree_bounds("/a/b");
    assert_eq!((lo.as_str(), hi.as_str()), ("/a/b/", "/a/b0"));
    assert!(in_subtree("/a/b", "/a/b"));
    assert!(in_subtree("/a/b/c", "/a/b"));
    assert!(!in_subtree("/a/bc", "/a/b"));
    assert!(!in_subtree("/a", "/a/b"));
}

#[test]
fn missing_directory_is_forgotten_unless_it_has_history() {
    let mut s = store(vec![dir("/used", 1, 0, NOW, true), dir("/plain", 0, 0, 0, true)]);
    s.retire_missing_batch(&words(&["/used", "/plain", "/unknown"]));
    assert!(!s.dirs.get("/used").unwrap().in_index);
    assert!(s.dirs.get("/plain").is_none());
    assert_eq!(s.dirs.len(), 1);
    let mut s = store(vec![dir("/plain", 0, 0, 0, true)]);
    s.retire_missing("/plain");
    assert_eq!(s.dirs.len(), 0);
}

#[test]
fn history_is_ranked_by_use() {
    let s = store(vec![
        dir("/x/proj", 900, 0, NOW, false),
        dir("/y/my-proj", 3, 2, NOW, false),
        dir("/z/project", 1, 1, NOW - 700_000, false),
        dir("/w/other", 9, 9, NOW, false),
        dir("/v/proj", 0, 0, NOW, true),
    ]);
    let hits = s.search_history("PROJ", &alive(&s), NOW);
    // 100000 + (2 * 10 + 3), then 100000 + 11 * 0.25 + 0.005, then, a tier below, 900 + 0.01.
    assert_eq!(
        found(&hits),
        vec![
            ("/y/my-proj", 100_023 * 30000),
            ("/z/project", 100_002 * 30000 + 22500 + 150),
            ("/x/proj", 900 * 30000 + 300),
        ]
    );
    assert!(hits.iter().all(|r| r.source == ResultSource::History));
}

#[test]
fn dead_history_is_not_found() {
    let s = store(vec![dir("/x/proj", 9, 0, NOW, false), dir("/y/proj", 1, 0, NOW, false)]);
    let hits = s.search_history("proj", &vec![false, true], NOW);
    assert_eq!(found(&hits), vec![("/y/proj", 30000 + 300)]);
}

#[test]
fn keywords_must_stand_in_order() {
    let s = store(vec![dir("/x/open-web-ui", 1, 0, NOW, false), dir("/x/ui-open", 1, 0, NOW, false)]);
    let hits = s.search_history_multi(&words(&["open", "ui"]), &alive(&s), NOW);
    assert_eq!(found(&hits), vec![("/x/open-web-ui", 30000)]);
    assert_eq!(pattern_of(&words(&["Open", "UI"])), "%open%ui%");
    assert_eq!(last_lower(&words(&["Open", "UI"])), "ui");
    assert_eq!(last_lower(&vec![]), "");
}

#[test]
fn signs_of_a_pattern_count_in_a_query() {
    let s = store(vec![dir("/x/a_b", 1, 0, NOW, false), dir("/x/axb", 1, 0, NOW, false)]);
    assert_eq!(s.search_history("a_b", &alive(&s), NOW).len(), 2);
}

#[test]
fn index_is_searched_by_name() {
    let s = store(vec![
        dir("/h/src", 0, 0, 0, true),
        dir("/h/src/main", 0, 0, 0, true),
        dir("/h/resrc", 5, 0, 0, false),
    ]);
    assert!(s.has_index());
    assert_eq!(s.search_index("src"), vec!["/h/src"]);
    assert_eq!(s.search_index_multi(&words(&["s", "c"])), vec!["/h/src"]);
    assert_eq!(
        s.all_index_entries(),
        vec![
            ("/h/src".to_string(), "src".to_string()),
            ("/h/src/main".to_string(), "main".to_string())
        ]
    );
    assert!(!store(vec![dir("/a", 1, 0, 0, false)]).has_index());
}

#[test]
fn clean_removes_what_is_gone() {
    let mut s = store(vec![
        dir("/gone/used", 1, 0, NOW, true),
        dir("/gone/plain", 0, 0, 0, true),
        dir("/there", 0, 0, 0, true),
    ]);
    s.add_link("b", "/gone/b");
    s.add_link("a", "/gone/a");
    s.add_link("c", "/there");
    let report = s.clean(&vec![false, false, true], &vec![false, false, true]);
    assert_eq!(
        report.removed_links,
        vec![("a".to_string(), "/gone/a".to_string()), ("b".to_string(), "/gone/b".to_string())]
    );
    assert_eq!(report.removed_history, vec!["/gone/used"]);
    assert_eq!((report.removed_index, report.scanned), (1, 3));
    assert_eq!(s.dirs.len(), 1);
    assert_eq!(s.link_count(), 1);
    assert!(s.dirs.changes().contains(&"/gone/plain".to_string()));
    assert!(s.links.changes().contains(&"a".to_string()));
}

#[test]
fn past_data_replaces_rows() {
    let mut s = store(vec![dir("/a", 1, 1, 1, true)]);
    s.migrate(
        &vec![("/b".to_string(), HistoryEntry { visits: 4, selections: 2, last_access: 9 })],
        &vec![("x".to_string(), "/b".to_string())],
        &vec![("/b".to_string(), 5f64.to_bits())],
    );
    assert_eq!(s.dirs.get("/b").unwrap().selections, 2);
    assert_eq!(s.get_link("x").as_deref(), Some("/b"));
    assert_eq!(s.list_boosts().len(), 1);
    assert_eq!(s.dirs.get("/a").unwrap().visits, 1);
}

#[test]
fn table_names_the_keys_that_changed() {
    let mut t: Table<u64> = Table::new(vec![("a".to_string(), 1), ("b".to_string(), 2)]);
    t.upsert("b", 3);
    t.upsert("c", 4);
    assert_eq!(t.remove("a"), 1);
    assert_eq!(t.remove("zz"), 0);
    assert_eq!(t.get("b"), Some(&3));
    assert_eq!(t.get("a"), None);
    assert_eq!(t.find("c"), 1);
    let names = t.changes();
    assert!(names.contains(&"a".to_string()) && names.contains(&"b".to_string()));
    assert!(names.contains(&"c".to_string()));
}
