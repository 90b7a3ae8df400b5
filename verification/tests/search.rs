use gd::db::{Candidate, HistoryEntry, KeyStore, ResultSource, SearchResult};
use gd::dirs::{basename_lower_of, DirEntry};
use gd::fallback::{
    best_of_index, fetch_plan, fuzzy_fallback, join_fallback, join_query, match_name,
    missing_paths, near_distance, resolve_candidates, typo_fallback, Fetch, IndexName,
    CANDIDATE_PROBE_LIMIT, DEPTH_RATIO, FALLBACK_INDEX_LIMIT, FUZZY_TOP, TYPO_TOP,
};
use gd::fuzzy::{
    fuzzy_match_words, has_short_words, keyword_score, plain_text, split_name, Fuzzy,
};
use gd::jump::{
    after_search, apply_cwd_proximity, candidates_of, dedup_results, dir_age_secs, direct_target,
    gather_results, looks_on, no_longer_exists, no_matches, not_a_directory, prune_dead_top, rank_found,
    read_query, resolve_query_path, scan_lines, Next, Query, Search, CHECKED_RESULTS,
    EXIT_CANCELLED, EXIT_NOT_THERE, EXIT_NO_MATCHES,
};
use gd::score::{score_le, Score, TIER_INDEXED, TIER_LINK, TIER_SELECTED, TIER_VISITED};
use gd::table::Table;

const NOW: u64 = 1_000_000;
const POINT: i128 = 30_000;

fn words(list: &[&str]) -> Vec<String> {
    list.iter().map(|s| s.to_string()).collect()
}

fn score(units: i128) -> Score {
    Score { tier: 0, units, num: 0, over: 0 }
}

fn result(path: &str, units: i128) -> SearchResult {
    SearchResult { path: path.to_string(), score: score(units), source: ResultSource::Filesystem }
}

fn names(list: &[SearchResult]) -> Vec<&str> {
    list.iter().map(|r| r.path.as_str()).collect()
}

fn dir(path: &str, visits: u64, selections: u64, in_index: bool) -> (String, DirEntry) {
    (
        path.to_string(),
        DirEntry {
            basename_lower: basename_lower_of(path),
            visits,
            selections,
            last_access: NOW,
            in_index,
        },
    )
}

fn store(dirs: Vec<(String, DirEntry)>) -> KeyStore {
    KeyStore::new(
        Table::new(dirs),
        Table::new(vec![]),
        Table::new(vec![]),
        Table::new(vec![]),
    )
}

fn used(path: &str, visits: u64, selections: u64) -> (String, HistoryEntry) {
    (path.to_string(), HistoryEntry { visits, selections, last_access: NOW })
}

fn name(rowid: i64, basename: &str) -> IndexName {
    IndexName { rowid, basename_lower: basename.to_string() }
}

#[test]
fn slash_makes_a_path_of_a_query() {
    match read_query("../lib") {
        Query::Path(p) => assert_eq!(p, "../lib"),
        other => panic!("{other:?}"),
    }
    match read_query("qwen 協議/foo") {
        Query::Path(p) => assert_eq!(p, "qwen 協議/foo"),
        other => panic!("{other:?}"),
    }
    match read_query("  open   ui ") {
        Query::Words(w) => assert_eq!(w, words(&["open", "ui"])),
        other => panic!("{other:?}"),
    }
}

#[test]
fn relative_path_starts_in_the_current_directory() {
    assert_eq!(resolve_query_path("/tmp", Some("/h")), "/tmp");
    assert_eq!(resolve_query_path("../lib", Some("/h/x")), "/h/x/../lib");
    assert_eq!(resolve_query_path("a/b", None), "a/b");
}

#[test]
fn single_word_may_name_a_link_or_a_local_directory() {
    let some = |s: &str| Some(s.to_string());
    assert_eq!(direct_target(1, some("/l"), true, some("/c/x"), true), some("/l"));
    assert_eq!(direct_target(1, some("/l"), false, some("/c/x"), true), some("/c/x"));
    assert_eq!(direct_target(1, None, false, some("/c/x"), true), some("/c/x"));
    assert_eq!(direct_target(1, None, false, some("/c/x"), false), None);
    assert_eq!(direct_target(2, some("/l"), true, some("/c/x"), true), None);
}

#[test]
fn searches_follow_one_another() {
    assert_eq!(after_search(Search::Names, true), Next::Rank);
    assert_eq!(after_search(Search::Names, false), Next::Try(Search::Fuzzy));
    assert_eq!(after_search(Search::Fuzzy, false), Next::Try(Search::Typo));
    assert_eq!(after_search(Search::Typo, false), Next::GiveUp);
    assert_eq!(after_search(Search::Typo, true), Next::Rank);
    assert_eq!((EXIT_NOT_THERE, EXIT_NO_MATCHES, EXIT_CANCELLED), (1, 3, 130));
}

#[test]
fn failures_are_told() {
    assert_eq!(not_a_directory("x/y"), "gd: not a directory: x/y");
    assert_eq!(no_matches("x"), "gd: no matches for 'x'.");
    assert_eq!(no_longer_exists("/x"), "gd: directory no longer exists: /x");
}

#[test]
fn link_history_and_index_are_gathered() {
    let mut s = store(vec![
        dir("/h/proj", 0, 0, true),
        dir("/h/a/project", 4, 0, true),
        dir("/z/my-proj", 0, 1, false),
    ]);
    s.add_link("proj", "/linked");
    let boosts = vec![("/h/a".to_string(), 5f64.to_bits())];
    let all = gather_results(
        &s,
        &words(&["proj"]),
        true,
        true,
        &vec![true; 3],
        &vec![],
        Some("/h"),
        &boosts,
        NOW,
    );
    let seen: Vec<(&str, ResultSource, Option<usize>)> =
        all.iter().map(|r| (r.result.path.as_str(), r.result.source, r.boost)).collect();
    assert_eq!(
        seen,
        vec![
            ("/linked", ResultSource::Link, None),
            ("/z/my-proj", ResultSource::History, None),
            ("/h/a/project", ResultSource::History, Some(0)),
            ("/h/proj", ResultSource::Filesystem, None),
            ("/h/a/project", ResultSource::Filesystem, Some(0)),
        ]
    );
    // The link is above everything else.
    let tiers: Vec<u8> = all.iter().map(|r| r.result.score.tier).collect();
    assert_eq!(tiers, vec![TIER_LINK, TIER_SELECTED, TIER_VISITED, TIER_INDEXED, TIER_INDEXED]);
    assert_eq!(all[1].result.score.units, 100_010 * POINT);
    assert_eq!(all[2].result.score.units, 4 * POINT + 150);
    assert_eq!(all[3].result.score.units, 5100 * POINT);
    assert_eq!(all[4].result.score.units, 15 * POINT);
}

#[test]
fn without_an_index_the_disk_is_asked() {
    let s = store(vec![]);
    let disk = words(&["/h/x/proj"]);
    let one = gather_results(
        &s, &words(&["proj"]), false, false, &vec![], &disk, Some("/h"), &vec![], NOW,
    );
    assert_eq!(one.len(), 1);
    assert_eq!(one[0].result.score.units, 5005 * POINT);
    // Several keywords never ask the disk.
    let two = gather_results(
        &s, &words(&["my", "proj"]), false, false, &vec![], &disk, Some("/h"), &vec![], NOW,
    );
    assert!(two.is_empty());
}

#[test]
fn dead_link_is_not_gathered() {
    let mut s = store(vec![]);
    s.add_link("x", "/gone");
    let all = gather_results(
        &s, &words(&["x"]), true, false, &vec![], &vec![], None, &vec![], NOW,
    );
    assert!(all.is_empty());
}

#[test]
fn each_path_is_kept_once_where_it_came_first() {
    let list = vec![result("/a", 5), result("/b", 4), result("/a/", 9), result("/a", 1)];
    let kept = dedup_results(list);
    let seen: Vec<(&str, i128)> = kept.iter().map(|r| (r.path.as_str(), r.score.units)).collect();
    assert_eq!(seen, vec![("/a", 5), ("/b", 4)]);
}

#[test]
fn results_are_offered_once_and_best_first() {
    let list = || {
        vec![
            result("/d", 4),
            result("/c/old", 1),
            result("/e", 9),
            result("/c/new", 2),
            result("/d/", 50),
            result("/c/old", 70),
        ]
    };
    // What was touched is told of the first result with a path.
    let mtimes = vec![None, Some(NOW - 10_000), None, Some(NOW - 60), None, Some(NOW)];
    let seen = |list: Vec<SearchResult>| -> Vec<(String, i128)> {
        list.into_iter().map(|r| (r.path, r.score.units)).collect()
    };
    let row = |path: &str, units: i128| (path.to_string(), units);
    assert_eq!(
        seen(rank_found(list(), Some("/c"), &mtimes, NOW, true)),
        vec![
            row("/c/new", 200_000 * POINT),
            row("/c/old", 100_015 * POINT),
            row("/e", 9),
            row("/d", 4),
        ]
    );
    // For several keywords nothing is fresh, and equals stay as they were.
    assert_eq!(
        seen(rank_found(list(), Some("/c"), &mtimes, NOW, false)),
        vec![
            row("/c/old", 100_015 * POINT),
            row("/c/new", 100_015 * POINT),
            row("/e", 9),
            row("/d", 4),
        ]
    );
    assert_eq!(
        seen(rank_found(list(), None, &mtimes, NOW, true)),
        vec![row("/e", 9), row("/d", 4), row("/c/new", 2), row("/c/old", 1)]
    );
    assert!(rank_found(vec![], Some("/c"), &vec![], NOW, true).is_empty());
}

#[test]
fn near_directories_are_lifted() {
    let mut list = vec![result("/c/x", 1), result("/c", 1), result("/d", 1), result("/c/new", 1)];
    let mtimes = vec![Some(NOW - 10_000), None, None, Some(NOW - 60)];
    apply_cwd_proximity(&mut list, "/c", &mtimes, NOW, true);
    let units: Vec<i128> = list.iter().map(|r| r.score.units).collect();
    // 100015 points for what is near, 200000 for what was touched just now.
    assert_eq!(units, vec![100_015 * POINT, 1, 1, 200_000 * POINT]);
    let mut list = vec![result("/c/new", 1)];
    apply_cwd_proximity(&mut list, "/c", &vec![Some(NOW)], NOW, false);
    assert_eq!(list[0].score.units, 100_015 * POINT);
    assert_eq!(dir_age_secs(Some(NOW - 5), NOW), Some(5));
    assert_eq!(dir_age_secs(None, NOW), None);
}

#[test]
fn dead_results_on_top_are_dropped() {
    let list = vec![result("/1", 9), result("/2", 8), result("/3", 7), result("/4", 6)];
    let (kept, dead) = prune_dead_top(list, &vec![false, true, false, false], 1);
    assert_eq!(names(&kept), vec!["/2", "/3", "/4"]);
    assert_eq!(dead, words(&["/1"]));
    let list: Vec<SearchResult> = (0..400).map(|i| result(&format!("/{i}"), 1)).collect();
    let (kept, dead) = prune_dead_top(list, &vec![false; 400], 9);
    assert_eq!((kept.len(), dead.len()), (100, 300));
    let list: Vec<SearchResult> = (0..60).map(|i| result(&format!("/{i}"), 1)).collect();
    let alive: Vec<bool> = (0..60).map(|i| i < 50).collect();
    let (kept, dead) = prune_dead_top(list, &alive, CHECKED_RESULTS);
    assert_eq!((kept.len(), dead.len()), (60, 0));
    assert!(looks_on(&vec![true; 49], CHECKED_RESULTS));
    assert!(!looks_on(&vec![true; 50], CHECKED_RESULTS));
    assert!(looks_on(&vec![false; 299], 9) && !looks_on(&vec![false; 300], 9));
}

#[test]
fn candidates_are_the_results() {
    let list = vec![result("/a", 5)];
    let all: Vec<Candidate> = candidates_of(&list);
    assert_eq!((all[0].path.as_str(), all[0].score.units), ("/a", 5));
}

#[test]
fn disk_scan_is_read_line_by_line() {
    assert_eq!(scan_lines("/a\n /b \n\n/c"), words(&["/a", "/b", "", "/c"]));
    assert!(scan_lines("").is_empty());
}

#[test]
fn matcher_scores_letters_in_order() {
    let mut f = Fuzzy::new();
    let whole = f.score("config", "config").unwrap();
    let loose = f.score("cfg", "config").unwrap();
    assert!(whole > loose && loose > 0);
    assert_eq!(f.score("gfc", "config"), None);
    // Letters match without regard to case.
    assert_eq!(f.score("CONFIG", "config"), Some(whole));
    // A word may be so long that its score just fits.
    let most = "a".repeat(2520);
    assert_eq!(f.score(&most, &most), Some(36 + 2519 * 26));
    let more = "a".repeat(2521);
    assert_eq!(f.score(&more, &more), None);
    // Each word counts for itself.
    let many = "a ".repeat(3000);
    assert_eq!(f.score(&many, "ab"), Some(3000 * 36));
}

#[test]
fn backslashes_may_be_taken_double() {
    let mut f = Fuzzy::new();
    let slashes = |n: usize| format!("ä{}", "\\".repeat(n));
    assert!(has_short_words(&slashes(1259)) && !has_short_words(&slashes(1260)));
    assert!(f.score(&slashes(1259), &slashes(2517)).is_some());
    assert_eq!(f.score(&slashes(1261), &slashes(2521)), None);
    // A backslash keeps a space in its word.
    assert!(!has_short_words(&"a\\ ".repeat(900)) && has_short_words(&"a ".repeat(900)));
}

#[test]
fn small_letters_with_two_faces_match() {
    let mut f = Fuzzy::new();
    assert_eq!(plain_text("ςſ\u{345}aΣꭰᏸ"), "σsaΣᎠᏰ");
    assert!(f.score("σä", "ςσbä").is_some());
    assert_eq!(f.score("σä", "ςσbä"), f.score("σä", "σσbä"));
    assert!(f.score("νικοσ", "νικος").is_some());
}

#[test]
fn names_are_split_into_words() {
    assert_eq!(split_name("open-web_ui.rs v2"), words(&["open", "web", "ui", "rs", "v2"]));
    assert_eq!(split_name("--"), Vec::<String>::new());
}

#[test]
fn keyword_counts_by_match_or_by_edits() {
    assert_eq!(keyword_score(&vec![None, Some(90)], &vec![5, 9], 2), Some(90));
    assert_eq!(keyword_score(&vec![None, None], &vec![5, 1], 2), Some(25));
    assert_eq!(keyword_score(&vec![None], &vec![3], 2), None);
    assert_eq!(keyword_score(&vec![], &vec![], 0), None);
}

#[test]
fn keywords_match_the_words_of_a_name() {
    let mut f = Fuzzy::new();
    let all = fuzzy_match_words(&mut f, &words(&["open", "ui"]), "open-web-ui").unwrap();
    assert_eq!(all.1, 2);
    let some = fuzzy_match_words(&mut f, &words(&["open", "zzzz"]), "open-web-ui").unwrap();
    assert_eq!(some.1, 1);
    assert!(some.0 < all.0);
    assert!(fuzzy_match_words(&mut f, &words(&["zzzz"]), "open-web-ui").is_none());
    // Swapped letters are one edit.
    let typo = fuzzy_match_words(&mut f, &words(&["oepn"]), "open").unwrap();
    assert_eq!(typo, (25, 1));
    assert_eq!(match_name(&mut f, &words(&["oepn"]), "open"), Some((25, 1)));
}

#[test]
fn fuzzy_search_finds_used_and_indexed() {
    let mut f = Fuzzy::new();
    let entries = vec![used("/h/config", 3, 0), used("/gone/config", 1, 1), used("/h/zzz", 9, 9)];
    let index = vec![name(1, "my-config"), name(2, "zzz")];
    let out = fuzzy_fallback(&mut f, &words(&["cnfg"]), &entries, &vec![true, false, true], &index, NOW);
    assert_eq!(names(&out.found), vec!["/h/config"]);
    assert_eq!(out.dead, words(&["/gone/config"]));
    assert_eq!(out.candidates.len(), 1);
    assert_eq!(out.candidates[0].1, 1);
    assert_eq!(out.top, FUZZY_TOP);
    let matched = f.score("cnfg", "config").unwrap() as i128;
    assert_eq!(out.found[0].score.units, 1003 * POINT / 2 + matched * 3);
}

#[test]
fn several_keywords_may_match_in_part_where_a_directory_was_used() {
    let mut f = Fuzzy::new();
    let entries = vec![used("/h/open-ui", 1, 0), used("/h/open", 1, 0)];
    let index = vec![name(1, "open"), name(2, "open-ui")];
    let out = fuzzy_fallback(&mut f, &words(&["open", "ui"]), &entries, &vec![true; 2], &index, NOW);
    assert_eq!(out.found.len(), 2);
    let units = |path: &str| out.found.iter().find(|r| r.path == path).unwrap().score.units;
    assert!(units("/h/open") * 3 < units("/h/open-ui"));
    // Much use does not make up for a keyword.
    let entries = vec![used("/h/open-ui", 1, 0), used("/h/open", 5_000, 0)];
    let out = fuzzy_fallback(&mut f, &words(&["open", "ui"]), &entries, &vec![true; 2], &index, NOW);
    let score_of = |path: &str| out.found.iter().find(|r| r.path == path).unwrap().score;
    assert!(!score_le(&score_of("/h/open-ui"), &score_of("/h/open")));
    let rows: Vec<i64> = out.candidates.iter().map(|c| c.1).collect();
    assert_eq!(rows, vec![2]);
}

#[test]
fn typo_search_allows_few_edits() {
    let entries = vec![used("/h/config", 1, 0), used("/h/cargo", 1, 0)];
    let index = vec![name(7, "confgi"), name(8, "conf")];
    let out = typo_fallback(&words(&["cnofig"]), &entries, &vec![true; 2], &index, NOW);
    assert_eq!(names(&out.found), vec!["/h/config"]);
    let rows: Vec<i64> = out.candidates.iter().map(|c| c.1).collect();
    assert_eq!(rows, vec![7]);
    assert_eq!(out.top, TYPO_TOP);
    assert_eq!(near_distance("config", 6, "cnofig"), Some(1));
    assert_eq!(near_distance("config", 6, "conf"), Some(2));
    assert_eq!(near_distance("config", 6, "con"), None);
    assert_eq!(join_query(&words(&["open", "ui"])), "open-ui");
}

#[test]
fn dead_entries_are_listed() {
    let entries = vec![used("/a", 1, 0), used("/b", 1, 0)];
    assert_eq!(missing_paths(&entries, &vec![true, false]), words(&["/b"]));
}

#[test]
fn paths_of_candidates_are_fetched_in_row_order() {
    match fetch_plan(&vec![(score(1), 9), (score(2), 3)]) {
        Fetch::ByRow(rows) => assert_eq!(rows, vec![3, 9]),
        other => panic!("{other:?}"),
    }
    let many: Vec<(Score, i64)> =
        (0..=CANDIDATE_PROBE_LIMIT as i64).map(|i| (score(1), i)).collect();
    assert!(matches!(fetch_plan(&many), Fetch::Scan));
}

#[test]
fn candidates_gain_by_depth() {
    let boosts = vec![("/h/a".to_string(), 5f64.to_bits())];
    let fetched = vec![(3, "/h/x".to_string()), (4, "/h/a/b".to_string()), (5, "/other".to_string())];
    let out = resolve_candidates(
        &vec![(score(2 * POINT), 4), (score(POINT), 3)],
        &fetched,
        Some("/h"),
        FUZZY_TOP,
        DEPTH_RATIO,
        &boosts,
    );
    let seen: Vec<(&str, i128, Option<usize>)> =
        out.iter().map(|r| (r.result.path.as_str(), r.result.score.units, r.boost)).collect();
    assert_eq!(seen, vec![("/h/x", 11 * POINT, None), ("/h/a/b", 2 * POINT + POINT / 2, Some(0))]);
}

#[test]
fn best_of_the_index_are_kept() {
    let list: Vec<SearchResult> = (0..500).map(|i| result(&format!("/{i}"), i)).collect();
    let best = best_of_index(list);
    assert_eq!(best.len(), FALLBACK_INDEX_LIMIT);
    assert_eq!(best[0].path, "/499");
    assert_eq!(best[199].path, "/300");
    let joined = join_fallback(vec![result("/a", 1)], vec![result("/b", 2)]);
    assert_eq!(names(&joined), vec!["/a", "/b"]);
}
