use gd::db::{ResultSource, SearchResult};
use gd::distance::{damerau_levenshtein, edit_distance_threshold, lowercase_char_len};
use gd::like::{like_matches, wildcard_pattern};
use gd::rank::{sort_results, TopN};
use gd::score::{
    add_likeness, boosted_score, demote, depth_bonus, fuzzy_history_score, fuzzy_index_base,
    history_base, history_points, history_score, index_score, match_quality_tiebreak, score_le,
    score_max, typo_history_score, typo_index_base, Score, TIER_INDEXED, TIER_SELECTED,
    TIER_SELECTED_PART, TIER_VISITED, TIER_VISITED_PART, UNITS,
};
use gd::sorted::{path_sort, text_sort};

/// The number of points that a score stands for.
fn points(s: Score) -> f64 {
    (s.units as f64 + s.num as f64 / (s.over as f64 + 1.0)) / UNITS as f64
}

fn near(a: f64, b: f64) {
    assert!((a - b).abs() <= 1e-9 * a.abs().max(1.0), "{a} {b}");
}

fn whole(units: i128) -> Score {
    Score { tier: 0, units, num: 0, over: 0 }
}

fn result(path: &str, units: i128) -> SearchResult {
    SearchResult { path: path.to_string(), score: whole(units), source: ResultSource::Filesystem }
}

#[test]
fn use_counts_by_tiers() {
    assert_eq!(history_points(0, 7, 70), 490);
    assert_eq!(history_points(2, 3, 100), 10_002_300);
    assert_eq!(history_base(0, 7, 70), 100_490);
    assert_eq!(history_base(2, 3, 100), 10_002_300);
    assert_eq!(history_points(0, 200_000, 100), 20_000_000);
    assert_eq!(history_base(0, 200_000, 100), 20_100_000);
    assert_eq!(history_score(0, 7, 70, "src", "src").tier, TIER_VISITED);
    assert_eq!(history_score(1, 7, 70, "src", "src").tier, TIER_SELECTED);
    assert_eq!(index_score("src", "src", None).tier, TIER_INDEXED);
}

#[test]
fn name_only_breaks_ties() {
    assert_eq!(match_quality_tiebreak("src", "src"), 10);
    assert_eq!(match_quality_tiebreak("srcs", "src"), 5);
    assert_eq!(match_quality_tiebreak("my-src", "src"), 0);
    near(points(history_score(1, 0, 25, "src", "src")), 100_000.0 + 2.5 + 0.01);
    near(points(history_score(0, 3, 70, "srcs", "src")), 2.1 + 0.005);
}

#[test]
fn selected_once_beats_never_selected() {
    let picked = history_score(1, 0, 25, "xsrcx", "src");
    for visits in [1, 90_000, 200_000, u64::MAX] {
        assert!(above(picked, history_score(0, visits, 100, "src", "src")));
    }
    for depth in [None, Some(0), Some(1), Some(2)] {
        assert!(above(picked, index_score("src", "src", depth)));
    }
}

#[test]
fn visited_once_beats_every_indexed_name() {
    let visited = history_score(0, 1, 25, "xsrcx", "src");
    for depth in [None, Some(0), Some(1), Some(3), Some(9)] {
        assert!(above(visited, index_score("src", "src", depth)));
    }
}

#[test]
fn index_counts_name_and_depth() {
    near(points(index_score("src", "src", None)), 5000.0);
    near(points(index_score("srcs", "src", Some(1))), 110.0);
    near(points(index_score("asrc", "src", Some(2))), 5.1);
    near(points(index_score("asrc", "src", Some(3))), 0.1 + 10.0 / 3.0);
    near(points(index_score("asrc", "src", Some(4))), 0.1);
    // The home directory itself counts like what lies right below it.
    near(points(index_score("asrc", "src", Some(0))), 100.1);
    assert_eq!(index_score("src", "src", Some(0)), index_score("src", "src", Some(1)));
}

#[test]
fn loose_matches_count_use_first() {
    near(points(fuzzy_history_score(0, 4, 50, 120)), (1000.0 + 2.0) * 0.5 + 120.0 * 0.0001);
    near(points(fuzzy_history_score(1, 1, 100, 0)), (100_000.0 + 11.0) * 0.5);
    near(points(typo_history_score(0, 4, 50, 1, 5)), 1002.0 * 0.3 + 0.8 * 0.0001);
    near(points(fuzzy_index_base(120)), 1.2);
    near(points(typo_index_base(1, 5)), 8.0);
}

#[test]
fn likeness_is_a_share_of_the_scale() {
    near(points(add_likeness(0, 300_000, 2, 8)), 7.5);
    near(points(add_likeness(30_000, 300_000, 0, 8)), 11.0);
}

#[test]
fn missing_keywords_cost_the_square() {
    let visited = fuzzy_history_score(0, 4, 50, 120);
    near(points(demote(visited, false, 1, 3)), points(visited) / 9.0);
    near(points(demote(visited, false, 2, 3)), points(visited) * 4.0 / 9.0);
    assert_eq!(demote(visited, false, 3, 3), visited);
    let selected = fuzzy_history_score(2, 4, 50, 120);
    near(points(demote(selected, true, 1, 3)), points(selected) / 9.0);
    near(points(demote(selected, true, 1, 2)), points(selected) / 4.0);
    assert_eq!(demote(selected, true, 2, 2), selected);
}

#[test]
fn full_match_beats_a_partial_one_of_its_tier() {
    // A hundred thousand selections do not make up for a keyword.
    let full = fuzzy_history_score(1, 0, 25, 1);
    let partial = demote(fuzzy_history_score(100_000, 0, 100, 400), true, 9, 10);
    assert_eq!((full.tier, partial.tier), (TIER_SELECTED, TIER_SELECTED_PART));
    assert!(above(full, partial));
    near(points(partial), (1_100_000.0 * 0.5 + 0.04) * 0.81);
    let full = fuzzy_history_score(0, 1, 25, 1);
    let partial = demote(fuzzy_history_score(0, 5_000, 100, 400), false, 1, 2);
    assert_eq!((full.tier, partial.tier), (TIER_VISITED, TIER_VISITED_PART));
    assert!(above(full, partial));
    // In part, too, more use comes first.
    let less = demote(fuzzy_history_score(0, 3_000, 100, 0), false, 1, 2);
    let more = demote(fuzzy_history_score(0, 4_000, 100, 0), false, 1, 2);
    assert!(above(more, less));
    near(points(less), 500.0);
    near(points(more), 625.0);
}

#[test]
fn partial_match_stays_above_the_next_tier() {
    // One keyword of ten, selected once, against the most visits and the best match.
    let selected = demote(fuzzy_history_score(1, 0, 25, 1), true, 1, 10);
    near(points(selected), 500.012501);
    assert!(above(selected, fuzzy_history_score(0, u64::MAX, 100, u64::MAX)));
    let visited = demote(fuzzy_history_score(0, 1, 25, 1), false, 1, 10);
    near(points(visited), 5.001251);
    assert!(above(visited, depth_bonus(fuzzy_index_base(u64::MAX), Some(1), 300_000, 30_000)));
    assert!(above(demote(fuzzy_history_score(2, 0, 25, 1), true, 1, 10), selected));
    assert!(above(demote(fuzzy_history_score(0, 2, 25, 1), false, 1, 10), visited));
    assert!(above(typo_history_score(1, 0, 25, 2, 5), typo_history_score(0, u64::MAX, 100, 0, 5)));
}

#[test]
fn match_adds_less_than_a_visit() {
    near(points(fuzzy_history_score(0, 4, 50, 1_249)), 501.0 + 0.1249);
    assert_eq!(fuzzy_history_score(0, 4, 50, 1_249), fuzzy_history_score(0, 4, 50, u64::MAX));
    assert!(above(fuzzy_history_score(0, 5, 25, 0), fuzzy_history_score(0, 4, 25, u64::MAX)));
    // Many visits are told apart, whatever the name.
    let (a, b) = (history_score(0, 30_000, 100, "xsrc", "src"), history_score(0, 20_000, 100, "src", "src"));
    assert!(above(a, b));
}

#[test]
fn boost_moves_a_score_up() {
    let indexed = index_score("src", "src", Some(1));
    let five = boosted_score(indexed, indexed.units * 5, 0, 0);
    assert_eq!((five.tier, five.units), (TIER_VISITED, 25_500 * UNITS));
    assert!(above(five, history_score(0, 4, 100, "src", "src")));
    let little = boosted_score(indexed, indexed.units + 1, 0, 0);
    assert_eq!(little.tier, TIER_INDEXED);
    let visited = history_score(0, 30_000, 100, "src", "src");
    assert_eq!(boosted_score(visited, visited.units * 5, 0, 0).tier, TIER_SELECTED);
    // It never moves one down.
    let selected = history_score(1, 0, 100, "src", "src");
    assert_eq!(boosted_score(selected, 1, 0, 0).tier, TIER_SELECTED);
}

#[test]
fn more_keywords_come_first() {
    for (selections, selected) in [(0, false), (3, true)] {
        let base = fuzzy_history_score(selections, 9, 70, 200);
        for count in 1..5 {
            let fewer = demote(base, selected, count, 5);
            let more = demote(base, selected, count + 1, 5);
            assert!(above(more, fewer));
        }
    }
}

#[test]
fn shallow_directories_gain() {
    near(points(depth_bonus(whole(30_000), Some(0), 300_000, 30_000)), 11.0);
    near(points(depth_bonus(whole(30_000), Some(1), 300_000, 30_000)), 11.0);
    near(points(depth_bonus(whole(30_000), Some(2), 300_000, 30_000)), 1.5);
    near(points(depth_bonus(whole(30_000), Some(3), 300_000, 30_000)), 1.0 + 1.0 / 3.0);
    near(points(depth_bonus(whole(30_000), Some(4), 300_000, 30_000)), 1.0);
    near(points(depth_bonus(whole(30_000), None, 300_000, 30_000)), 1.0);
}

#[test]
fn scores_compare_with_their_fractions() {
    let third = Score { tier: 0, units: 1, num: 1, over: 2 };
    let half = Score { tier: 0, units: 1, num: 1, over: 1 };
    assert!(score_le(&third, &half) && !score_le(&half, &third));
    assert_eq!(score_max(third, half), half);
    assert_eq!(score_max(half, third), half);
}

#[test]
fn results_are_sorted_and_ties_keep_their_order() {
    let sorted = sort_results(vec![
        result("a", 1),
        result("b", 3),
        result("c", 1),
        result("d", 2),
    ]);
    let order: Vec<&str> = sorted.iter().map(|r| r.path.as_str()).collect();
    assert_eq!(order, vec!["b", "d", "a", "c"]);
}

#[test]
fn best_are_kept() {
    let mut top = TopN::new(2);
    for (i, path) in ["a", "b", "c", "d", "e"].iter().enumerate() {
        top.push(result(path, (i % 3) as i128));
    }
    let kept: Vec<String> = top.into_vec().into_iter().map(|r| r.path).collect();
    assert_eq!(kept, vec!["c", "b"]);
}

#[test]
fn edits_are_counted() {
    assert_eq!(damerau_levenshtein("config", "cnfig"), 1);
    assert_eq!(damerau_levenshtein("config", "confgi"), 1);
    assert_eq!(damerau_levenshtein("abc", "xyz"), 3);
    assert_eq!(damerau_levenshtein("", "abc"), 3);
    assert_eq!(damerau_levenshtein("Config", "cONFIG"), 0);
    // No part is edited twice.
    assert_eq!(damerau_levenshtein("ca", "abc"), 3);
    assert_eq!(damerau_levenshtein("文件", "文建"), 1);
    assert_eq!(lowercase_char_len("İ"), 2);
    assert_eq!(lowercase_char_len("Ab文"), 3);
}

#[test]
fn longer_keywords_may_be_further_off() {
    for (word, edits) in [("", 0), ("ab", 0), ("abc", 1), ("abcd", 1), ("abcde", 2), ("文件", 0)] {
        assert_eq!(edit_distance_threshold(word), edits);
    }
}

#[test]
fn patterns_match_as_in_the_database() {
    assert!(like_matches("%b%", "abc"));
    assert!(!like_matches("b%", "abc"));
    assert!(like_matches("a_c", "abc"));
    assert!(like_matches("%A%", "bab"));
    assert!(!like_matches("%Ä%", "ä"));
    assert!(like_matches("%", ""));
    assert!(!like_matches("_", ""));
    assert!(like_matches("%a%b%", "xaxbx"));
    assert!(!like_matches("%b%a%", "xaxbx"));
    assert_eq!(wildcard_pattern(&vec!["a".to_string(), "b".to_string()]), "%a%b%");
    assert_eq!(wildcard_pattern(&vec![]), "%%");
}

#[test]
fn lists_are_sorted_by_key() {
    let rows = |list: &[&str]| -> Vec<(String, u64)> {
        list.iter().enumerate().map(|(i, s)| (s.to_string(), i as u64)).collect()
    };
    let keys = |list: Vec<(String, u64)>| -> Vec<String> { list.into_iter().map(|r| r.0).collect() };
    assert_eq!(keys(text_sort(rows(&["b", "a", "/a b", "/a/b"]))), vec!["/a b", "/a/b", "a", "b"]);
    assert_eq!(keys(path_sort(rows(&["/a b", "/a/b", "/a"]))), vec!["/a", "/a/b", "/a b"]);
}

fn above(a: Score, b: Score) -> bool {
    score_le(&b, &a) && !score_le(&a, &b)
}

#[test]
fn more_use_comes_first_whatever_the_match() {
    assert!(above(history_score(3, 0, 100, "xsrc", "src"), history_score(2, 9, 100, "src", "src")));
    assert!(above(fuzzy_history_score(0, 5, 25, 0), fuzzy_history_score(0, 4, 25, 1200)));
}

#[test]
fn used_directories_come_before_indexed_ones() {
    let indexed = depth_bonus(fuzzy_index_base(2000), Some(1), 300_000, 30_000);
    assert!(above(fuzzy_history_score(0, 1, 25, 1), indexed));
    let typo = depth_bonus(typo_index_base(0, 5), Some(1), 150_000, 30_000);
    assert!(above(typo_history_score(0, 1, 25, 2, 5), typo));
}

#[test]
fn current_directory_beats_one_choice_but_not_two() {
    let floor = Score { tier: TIER_SELECTED, ..whole(gd::score::CWD_PROXIMITY) };
    let fresh = Score { tier: TIER_SELECTED, ..whole(gd::score::FRESH_TIER) };
    assert!(above(floor, history_score(1, 4, 100, "src", "src")));
    assert!(above(history_score(2, 0, 100, "xsrc", "src"), floor));
    assert!(above(fresh, history_score(900, 900, 100, "src", "src")));
    // Both floors are reached by use alone.
    assert!(above(floor, history_score(1, 49, 25, "src", "src")));
    assert!(!above(floor, history_score(1, 50, 25, "src", "src")));
    assert!(above(fresh, history_score(9_999, 9, 100, "src", "src")));
    assert!(!above(fresh, history_score(10_000, 0, 100, "xsrc", "src")));
}

#[test]
fn distance_is_the_same_both_ways() {
    for (a, b) in [("config", "cnofig"), ("", "ab"), ("ca", "abc"), ("文件", "件文")] {
        assert_eq!(damerau_levenshtein(a, b), damerau_levenshtein(b, a));
        assert!(damerau_levenshtein(a, b) >= a.chars().count().abs_diff(b.chars().count()));
        assert_eq!(damerau_levenshtein(a, a), 0);
        let upper = a.to_uppercase();
        assert_eq!(damerau_levenshtein(&upper, b), damerau_levenshtein(a, b));
    }
}
