//! What the searches promise of their results, whatever is stored.

use crate::db::{
    first_boost,
    history_hits,
    index_hits,
    keyword_pattern,
    last_keyword,
    lowered,
    Found,
    HistoryEntry,
    KeyStore,
    ResultSource,
};
use crate::dirs::{base_of, Rows};
use crate::distance::edits;
use crate::fallback::{
    base_score,
    entry_matches,
    entry_scores,
    full_candidates,
    home_depth,
    hyphened,
    indexed_matches,
    indexed_scores,
    longer_len,
    loose_candidates,
    loose_hits,
    missing,
    name_distance,
    near,
    only_keyword,
    partial_hits,
    resolved,
    shown_name,
    typo_candidates,
    typo_hits,
    used_found,
    with_boost,
    ScoredFound,
    FALLBACK_INDEX_LIMIT,
};
use crate::frecency::{decay, elapsed};
use crate::fuzzy::{fits, law_words_match, lemma_sum_fits, points_on, words_match};
use crate::jump::{
    deduped,
    gathered_from,
    law_lifted,
    live_count,
    looked_at,
    nearby,
    occurs,
    place_found,
    pruned,
    pruned_paths,
    seen_from,
    touched,
};
use crate::like::{in_order, law_wildcard, like, plain, wildcard};
use crate::path::parts;
use crate::picked::{lemma_picked_found, lemma_picked_pair, lemma_picked_same, picked};
use crate::rank::{first, law_ranked, ranked};
use crate::score::{
    alike,
    base_points,
    deepened,
    fresh_floor,
    larger,
    law_full_above_partial,
    law_match_breaks_ties,
    law_more_keywords_first,
    law_name_breaks_ties,
    law_nearer_first,
    law_selected_above_visited,
    law_use_before_likeness,
    law_use_before_match,
    law_use_before_match_in_part,
    law_use_before_name,
    le,
    lemma_base_units,
    lemma_le_total,
    less,
    loose_use_score,
    near_floor,
    partial_use_score,
    typo_use_score,
    use_score,
    whole,
    Score,
    MAX_KEYWORDS,
    MAX_MATCH,
};
use crate::table::{lemma_place, lookup, place, unique};
use crate::text::lowercase;
use vstd::prelude::*;

verus! {

/// Whether a path is among some results, with the given source.
pub open spec fn among(hits: Seq<Found>, path: Seq<char>, source: ResultSource) -> bool {
    exists|i: int|
        0 <= i < hits.len() && (#[trigger] hits[i]).path == path && hits[i].source == source
}

/// Whether a row is among some candidates.
pub open spec fn row_among(candidates: Seq<(Score, i64)>, rowid: i64) -> bool {
    exists|i: int| 0 <= i < candidates.len() && (#[trigger] candidates[i]).1 == rowid
}

/// Whether one directory was used more than another: it was selected and the other was
/// not; or both were, or neither was, their last use counts for the same, and it was
/// used more often, where a selection counts like ten visits.
pub open spec fn used_more(a: HistoryEntry, b: HistoryEntry, now: u64) -> bool {
    ||| a.selections > 0 && b.selections == 0
    ||| {
        &&& a.selections > 0 <==> b.selections > 0
        &&& decay(elapsed(a.last_access, now)) == decay(elapsed(b.last_access, now))
        &&& a.selections * 10 + a.visits > b.selections * 10 + b.visits
    }
}

/// A row under a key that stands once is the one that is looked up.
pub proof fn lemma_row_is<T>(rows: Seq<(Seq<char>, T)>, k: int)
    requires
        unique(rows),
        0 <= k < rows.len(),
    ensures
        lookup(rows, rows[k].0) == Some(rows[k].1),
        place(rows, rows[k].0) == k,
{
    let key = rows[k].0;
    lemma_place(rows, key);
    let p = place(rows, key);
    if p > k {
        assert(rows[k].0 != key);
    } else if p < k {
        assert(rows[p].0 != rows[k].0);
    }
}

// ---- loose matches of one keyword ----

/// What becomes of an entry whose name has a loose score.
spec fn loose_pick(
    entries: Seq<(Seq<char>, HistoryEntry)>,
    alive: Seq<bool>,
    scores: Seq<Option<u32>>,
    now: u64,
) -> spec_fn(int) -> Option<Found> {
    |k: int|
        match scores[k] {
            Some(s) => if alive[k] && s > 0 {
                Some(
                    used_found(
                        entries[k].0,
                        loose_use_score(
                            entries[k].1.selections as int,
                            entries[k].1.visits as int,
                            decay(elapsed(entries[k].1.last_access, now)),
                            s as int,
                        ),
                    ),
                )
            } else {
                None
            },
            None => None,
        }
}

/// The loose matches are picked entry by entry.
proof fn lemma_loose_picked(
    entries: Seq<(Seq<char>, HistoryEntry)>,
    alive: Seq<bool>,
    scores: Seq<Option<u32>>,
    now: u64,
)
    requires
        alive.len() == entries.len(),
        scores.len() == entries.len(),
    ensures
        loose_hits(entries, alive, scores, now) == picked(
            entries.len() as int,
            loose_pick(entries, alive, scores, now),
        ),
    decreases entries.len(),
{
    if entries.len() > 0 {
        let (e, a, s) = (entries.drop_last(), alive.drop_last(), scores.drop_last());
        lemma_loose_picked(e, a, s, now);
        lemma_picked_same(
            e.len() as int,
            loose_pick(e, a, s, now),
            loose_pick(entries, alive, scores, now),
        );
    }
}

/// Law: for one keyword the fuzzy fallback finds a used directory exactly where it is
/// there and its name fits loosely, whatever its counts; and everything that it finds
/// among what was used says so.
pub proof fn law_fuzzy_finds(
    entries: Seq<(Seq<char>, HistoryEntry)>,
    alive: Seq<bool>,
    keyword: Seq<char>,
    now: u64,
    path: Seq<char>,
)
    requires
        alive.len() == entries.len(),
    ensures
        ({
            let hits = loose_hits(entries, alive, entry_scores(keyword, entries), now);
            &&& among(hits, path, ResultSource::History) <==> exists|k: int|
                0 <= k < entries.len() && (#[trigger] entries[k]).0 == path && alive[k] && (fits(
                    keyword,
                    shown_name(path),
                ) matches Some(s) && s > 0)
            &&& forall|i: int|
                0 <= i < hits.len() ==> (#[trigger] hits[i]).source == ResultSource::History
        }),
{
    let scores = entry_scores(keyword, entries);
    let hits = loose_hits(entries, alive, scores, now);
    let n = entries.len() as int;
    let pick = loose_pick(entries, alive, scores, now);
    lemma_loose_picked(entries, alive, scores, now);
    assert forall|i: int| 0 <= i < hits.len() implies (#[trigger] hits[i]).source
        == ResultSource::History by {
        let (k, _) = lemma_picked_pair(n, pick, i, i);
    }
    if among(hits, path, ResultSource::History) {
        let i = choose|i: int|
            0 <= i < hits.len() && (#[trigger] hits[i]).path == path && hits[i].source
                == ResultSource::History;
        let (k, _) = lemma_picked_pair(n, pick, i, i);
        assert(entries[k].0 == path);
    }
    if exists|k: int|
        0 <= k < entries.len() && (#[trigger] entries[k]).0 == path && alive[k] && (fits(
            keyword,
            shown_name(path),
        ) matches Some(s) && s > 0) {
        let k = choose|k: int|
            0 <= k < entries.len() && (#[trigger] entries[k]).0 == path && alive[k] && (fits(
                keyword,
                shown_name(path),
            ) matches Some(s) && s > 0);
        let i = lemma_picked_found(n, pick, k);
        assert(hits[i].path == path);
    }
}

/// Law: of two used directories that the fuzzy fallback finds for one keyword, the one
/// that was used more scores above the other, however well each name fits; of two that
/// were used alike, the one whose name fits better does, as far as the fit counts. Both
/// score above every indexed name, and they stand in the order of the entries.
pub proof fn law_fuzzy_order(
    entries: Seq<(Seq<char>, HistoryEntry)>,
    alive: Seq<bool>,
    keyword: Seq<char>,
    now: u64,
    names: Seq<(i64, Seq<char>)>,
    i: int,
    j: int,
)
    requires
        unique(entries),
        alive.len() == entries.len(),
        0 <= i < loose_hits(entries, alive, entry_scores(keyword, entries), now).len(),
        0 <= j < loose_hits(entries, alive, entry_scores(keyword, entries), now).len(),
    ensures
        ({
            let hits = loose_hits(entries, alive, entry_scores(keyword, entries), now);
            let a = lookup(entries, hits[i].path);
            let b = lookup(entries, hits[j].path);
            let fit_a = fits(keyword, shown_name(hits[i].path));
            let fit_b = fits(keyword, shown_name(hits[j].path));
            let candidates = loose_candidates(names, indexed_scores(keyword, names));
            &&& a is Some && b is Some && fit_a is Some && fit_b is Some
            &&& used_more(a.unwrap(), b.unwrap(), now) ==> less(hits[j].score, hits[i].score)
            &&& a.unwrap() == b.unwrap() && fit_b.unwrap() < fit_a.unwrap() <= MAX_MATCH ==> less(
                hits[j].score,
                hits[i].score,
            )
            &&& i < j ==> place(entries, hits[i].path) < place(entries, hits[j].path)
            &&& forall|k: int, depth: Option<int>, top: int, ratio: int|
                0 <= k < candidates.len() ==> less(
                    #[trigger] deepened(candidates[k].0, depth, top, ratio),
                    hits[i].score,
                )
        }),
{
    let scores = entry_scores(keyword, entries);
    let hits = loose_hits(entries, alive, scores, now);
    let n = entries.len() as int;
    let pick = loose_pick(entries, alive, scores, now);
    lemma_loose_picked(entries, alive, scores, now);
    let (x, _) = lemma_picked_pair(n, pick, i, i);
    let (y, _) = lemma_picked_pair(n, pick, j, j);
    if i < j {
        let (p, q) = lemma_picked_pair(n, pick, i, j);
        lemma_row_is(entries, p);
        lemma_row_is(entries, q);
    }
    lemma_row_is(entries, x);
    lemma_row_is(entries, y);
    let (a, b) = (entries[x].1, entries[y].1);
    let (s, t) = (scores[x].unwrap(), scores[y].unwrap());
    if used_more(a, b, now) {
        if a.selections > 0 && b.selections == 0 {
        } else {
            law_use_before_match(
                a.selections,
                a.visits,
                s as u64,
                b.selections,
                b.visits,
                t as u64,
                elapsed(a.last_access, now),
            );
        }
    }
    if a == b && t < s <= MAX_MATCH {
        law_match_breaks_ties(
            a.selections,
            a.visits,
            elapsed(a.last_access, now),
            s as u64,
            t as u64,
        );
    }
    let candidates = loose_candidates(names, indexed_scores(keyword, names));
    assert forall|k: int, depth: Option<int>, top: int, ratio: int|
        0 <= k < candidates.len() implies less(
        #[trigger] deepened(candidates[k].0, depth, top, ratio),
        hits[i].score,
    ) by {
        lemma_candidates_indexed(names, indexed_scores(keyword, names), k);
    }
}

/// What becomes of an indexed name with a loose score.
spec fn name_pick(names: Seq<(i64, Seq<char>)>, scores: Seq<Option<u32>>) -> spec_fn(
    int,
) -> Option<(Score, i64)> {
    |k: int|
        match scores[k] {
            Some(s) => if s > 0 {
                Some((whole(s * 300), names[k].0))
            } else {
                None
            },
            None => None,
        }
}

/// The loose matches of indexed names are picked name by name.
proof fn lemma_names_picked(names: Seq<(i64, Seq<char>)>, scores: Seq<Option<u32>>)
    requires
        scores.len() == names.len(),
    ensures
        loose_candidates(names, scores) == picked(names.len() as int, name_pick(names, scores)),
    decreases names.len(),
{
    if names.len() > 0 {
        let (e, s) = (names.drop_last(), scores.drop_last());
        lemma_names_picked(e, s);
        lemma_picked_same(e.len() as int, name_pick(e, s), name_pick(names, scores));
    }
}

/// A loosely matching indexed name is in the lowest tier.
proof fn lemma_candidates_indexed(
    names: Seq<(i64, Seq<char>)>,
    scores: Seq<Option<u32>>,
    k: int,
)
    requires
        scores.len() == names.len(),
        0 <= k < loose_candidates(names, scores).len(),
    ensures
        loose_candidates(names, scores)[k].0.tier == 0,
{
    lemma_names_picked(names, scores);
    let (x, _) = lemma_picked_pair(names.len() as int, name_pick(names, scores), k, k);
}

/// Law: for one keyword a row of the index is a candidate of the fuzzy fallback exactly
/// where its name fits loosely; of two candidates the one whose name fits better counts
/// for more.
pub proof fn law_fuzzy_candidates(
    names: Seq<(i64, Seq<char>)>,
    keyword: Seq<char>,
    rowid: i64,
    x: int,
    y: int,
)
    ensures
        ({
            let candidates = loose_candidates(names, indexed_scores(keyword, names));
            &&& row_among(candidates, rowid) <==> exists|k: int|
                0 <= k < names.len() && (#[trigger] names[k]).0 == rowid && (fits(
                    keyword,
                    names[k].1,
                ) matches Some(s) && s > 0)
            &&& 0 <= x < y < candidates.len() ==> exists|p: int, q: int|
                0 <= p < q < names.len() && (#[trigger] names[p]).0 == candidates[x].1 && (
                #[trigger] names[q]).0 == candidates[y].1 && (fits(keyword, names[p].1).unwrap()
                    < fits(keyword, names[q].1).unwrap() <==> less(
                    candidates[x].0,
                    candidates[y].0,
                ))
        }),
{
    let scores = indexed_scores(keyword, names);
    let candidates = loose_candidates(names, scores);
    let n = names.len() as int;
    let pick = name_pick(names, scores);
    lemma_names_picked(names, scores);
    if row_among(candidates, rowid) {
        let i = choose|i: int|
            0 <= i < candidates.len() && (#[trigger] candidates[i]).1 == rowid;
        let (k, _) = lemma_picked_pair(n, pick, i, i);
        assert(names[k].0 == rowid);
    }
    if exists|k: int|
        0 <= k < names.len() && (#[trigger] names[k]).0 == rowid && (fits(keyword, names[k].1)
            matches Some(s) && s > 0) {
        let k = choose|k: int|
            0 <= k < names.len() && (#[trigger] names[k]).0 == rowid && (fits(keyword, names[k].1)
                matches Some(s) && s > 0);
        let i = lemma_picked_found(n, pick, k);
        assert(candidates[i].1 == rowid);
    }
    if 0 <= x < y < candidates.len() {
        let (p, q) = lemma_picked_pair(n, pick, x, y);
        assert(names[p].0 == candidates[x].1 && names[q].0 == candidates[y].1);
    }
}

// ---- loose matches of several keywords ----

/// What becomes of an entry that keywords earned something on.
spec fn part_pick(
    entries: Seq<(Seq<char>, HistoryEntry)>,
    alive: Seq<bool>,
    matches: Seq<Option<(int, int)>>,
    total: int,
    now: u64,
) -> spec_fn(int) -> Option<Found> {
    |k: int|
        match matches[k] {
            Some((sum, count)) => if alive[k] {
                Some(
                    used_found(
                        entries[k].0,
                        partial_use_score(
                            entries[k].1.selections as int,
                            entries[k].1.visits as int,
                            decay(elapsed(entries[k].1.last_access, now)),
                            sum,
                            count,
                            total,
                        ),
                    ),
                )
            } else {
                None
            },
            None => None,
        }
}

/// The matches of several keywords are picked entry by entry.
proof fn lemma_part_picked(
    entries: Seq<(Seq<char>, HistoryEntry)>,
    alive: Seq<bool>,
    matches: Seq<Option<(int, int)>>,
    total: int,
    now: u64,
)
    requires
        alive.len() == entries.len(),
        matches.len() == entries.len(),
    ensures
        partial_hits(entries, alive, matches, total, now) == picked(
            entries.len() as int,
            part_pick(entries, alive, matches, total, now),
        ),
    decreases entries.len(),
{
    if entries.len() > 0 {
        let (e, a, m) = (entries.drop_last(), alive.drop_last(), matches.drop_last());
        lemma_part_picked(e, a, m, total, now);
        lemma_picked_same(
            e.len() as int,
            part_pick(e, a, m, total, now),
            part_pick(entries, alive, matches, total, now),
        );
    }
}

/// Law: for several keywords the fuzzy fallback finds a used directory exactly where it
/// is there and at least one of the keywords earns something on its name, whatever its
/// counts.
pub proof fn law_fuzzy_finds_in_part(
    entries: Seq<(Seq<char>, HistoryEntry)>,
    alive: Seq<bool>,
    keywords: Seq<Seq<char>>,
    now: u64,
    path: Seq<char>,
)
    requires
        alive.len() == entries.len(),
    ensures
        ({
            let hits = partial_hits(
                entries,
                alive,
                entry_matches(keywords, entries),
                keywords.len() as int,
                now,
            );
            &&& among(hits, path, ResultSource::History) <==> exists|k: int|
                0 <= k < entries.len() && (#[trigger] entries[k]).0 == path && alive[k] && exists|
                    w: int,
                |
                    0 <= w < keywords.len() && points_on(#[trigger] keywords[w], shown_name(path))
                        is Some
            &&& forall|i: int|
                0 <= i < hits.len() ==> (#[trigger] hits[i]).source == ResultSource::History
        }),
{
    let matches = entry_matches(keywords, entries);
    let total = keywords.len() as int;
    let hits = partial_hits(entries, alive, matches, total, now);
    let n = entries.len() as int;
    let pick = part_pick(entries, alive, matches, total, now);
    lemma_part_picked(entries, alive, matches, total, now);
    law_words_match(keywords, shown_name(path), Seq::empty());
    assert forall|i: int| 0 <= i < hits.len() implies (#[trigger] hits[i]).source
        == ResultSource::History by {
        let (k, _) = lemma_picked_pair(n, pick, i, i);
    }
    if among(hits, path, ResultSource::History) {
        let i = choose|i: int|
            0 <= i < hits.len() && (#[trigger] hits[i]).path == path && hits[i].source
                == ResultSource::History;
        let (k, _) = lemma_picked_pair(n, pick, i, i);
        assert(entries[k].0 == path);
        assert(matches[k] == words_match(keywords, shown_name(path)));
    }
    let matched = exists|w: int|
        0 <= w < keywords.len() && points_on(#[trigger] keywords[w], shown_name(path)) is Some;
    if matched && exists|k: int|
        0 <= k < entries.len() && (#[trigger] entries[k]).0 == path && alive[k] {
        let k = choose|k: int|
            0 <= k < entries.len() && (#[trigger] entries[k]).0 == path && alive[k];
        assert(matches[k] == words_match(keywords, shown_name(path)));
        let i = lemma_picked_found(n, pick, k);
        assert(hits[i].path == path);
    }
}

/// Law: of two used directories that the fuzzy fallback finds for several keywords, one
/// that was selected scores above one that was not; where both were, or neither was, one
/// that all keywords match scores above one that fewer match; where as many match, the
/// one that was used more scores above the other; and of two that were used alike and
/// whose matches are worth the same, the one that more keywords match does.
pub proof fn law_fuzzy_order_in_part(
    entries: Seq<(Seq<char>, HistoryEntry)>,
    alive: Seq<bool>,
    keywords: Seq<Seq<char>>,
    now: u64,
    i: int,
    j: int,
)
    requires
        unique(entries),
        alive.len() == entries.len(),
        0 < keywords.len() <= MAX_KEYWORDS,
        0 <= i < partial_hits(
            entries,
            alive,
            entry_matches(keywords, entries),
            keywords.len() as int,
            now,
        ).len(),
        0 <= j < partial_hits(
            entries,
            alive,
            entry_matches(keywords, entries),
            keywords.len() as int,
            now,
        ).len(),
    ensures
        ({
            let hits = partial_hits(
                entries,
                alive,
                entry_matches(keywords, entries),
                keywords.len() as int,
                now,
            );
            let a = lookup(entries, hits[i].path);
            let b = lookup(entries, hits[j].path);
            let m = words_match(keywords, shown_name(hits[i].path));
            let n = words_match(keywords, shown_name(hits[j].path));
            &&& a is Some && b is Some && m is Some && n is Some
            &&& a.unwrap().selections > 0 && b.unwrap().selections == 0 ==> less(
                hits[j].score,
                hits[i].score,
            )
            &&& (a.unwrap().selections > 0 <==> b.unwrap().selections > 0) && n.unwrap().1
                < m.unwrap().1 == keywords.len() ==> less(hits[j].score, hits[i].score)
            &&& used_more(a.unwrap(), b.unwrap(), now) && n.unwrap().1 == m.unwrap().1 ==> less(
                hits[j].score,
                hits[i].score,
            )
            &&& a.unwrap() == b.unwrap() && n.unwrap().0 == m.unwrap().0 && n.unwrap().1
                < m.unwrap().1 ==> less(hits[j].score, hits[i].score)
            &&& i < j ==> place(entries, hits[i].path) < place(entries, hits[j].path)
        }),
{
    let matches = entry_matches(keywords, entries);
    let total = keywords.len() as int;
    let hits = partial_hits(entries, alive, matches, total, now);
    let size = entries.len() as int;
    let pick = part_pick(entries, alive, matches, total, now);
    lemma_part_picked(entries, alive, matches, total, now);
    let (x, _) = lemma_picked_pair(size, pick, i, i);
    let (y, _) = lemma_picked_pair(size, pick, j, j);
    if i < j {
        let (p, q) = lemma_picked_pair(size, pick, i, j);
        lemma_row_is(entries, p);
        lemma_row_is(entries, q);
    }
    lemma_row_is(entries, x);
    lemma_row_is(entries, y);
    law_words_match(keywords, shown_name(entries[x].0), Seq::empty());
    law_words_match(keywords, shown_name(entries[y].0), Seq::empty());
    let (a, b) = (entries[x].1, entries[y].1);
    let (m, n) = (matches[x].unwrap(), matches[y].unwrap());
    assert(m == words_match(keywords, shown_name(entries[x].0)).unwrap());
    assert(n == words_match(keywords, shown_name(entries[y].0)).unwrap());
    lemma_sum_fits(keywords, shown_name(entries[x].0));
    lemma_sum_fits(keywords, shown_name(entries[y].0));
    let (s, t) = (m.0 as u64, n.0 as u64);
    if a.selections > 0 && b.selections == 0 {
        law_selected_above_visited(
            a.selections,
            a.visits,
            elapsed(a.last_access, now),
            s,
            m.1,
            0,
            0,
            b.visits,
            elapsed(b.last_access, now),
            t,
            n.1,
            0,
            0,
            total,
        );
    } else if a.selections > 0 <==> b.selections > 0 {
        if n.1 < m.1 && m.1 == total {
            law_full_above_partial(
                a.selections,
                a.visits,
                elapsed(a.last_access, now),
                s,
                b.selections,
                b.visits,
                elapsed(b.last_access, now),
                t,
                n.1,
                total,
            );
        }
        if used_more(a, b, now) && n.1 == m.1 {
            law_use_before_match_in_part(
                a.selections,
                a.visits,
                s,
                b.selections,
                b.visits,
                t,
                elapsed(a.last_access, now),
                m.1,
                total,
            );
        }
        if a == b && m.0 == n.0 && n.1 < m.1 {
            law_more_keywords_first(
                a.selections,
                a.visits,
                elapsed(a.last_access, now),
                s,
                n.1,
                m.1,
                total,
            );
        }
    }
}

/// What becomes of an indexed name that keywords earned something on.
spec fn full_pick(
    names: Seq<(i64, Seq<char>)>,
    matches: Seq<Option<(int, int)>>,
    total: int,
) -> spec_fn(int) -> Option<(Score, i64)> {
    |k: int|
        match matches[k] {
            Some((sum, count)) => if count >= total {
                Some((whole(sum * 300), names[k].0))
            } else {
                None
            },
            None => None,
        }
}

/// The full matches of indexed names are picked name by name.
proof fn lemma_full_picked(
    names: Seq<(i64, Seq<char>)>,
    matches: Seq<Option<(int, int)>>,
    total: int,
)
    requires
        matches.len() == names.len(),
    ensures
        full_candidates(names, matches, total) == picked(
            names.len() as int,
            full_pick(names, matches, total),
        ),
    decreases names.len(),
{
    if names.len() > 0 {
        let (e, m) = (names.drop_last(), matches.drop_last());
        lemma_full_picked(e, m, total);
        lemma_picked_same(e.len() as int, full_pick(e, m, total), full_pick(names, matches, total));
    }
}

/// Law: for several keywords a row of the index is a candidate of the fuzzy fallback
/// exactly where each of the keywords earns something on its name; all candidates are in
/// the lowest tier.
pub proof fn law_full_candidates(
    names: Seq<(i64, Seq<char>)>,
    keywords: Seq<Seq<char>>,
    rowid: i64,
)
    requires
        keywords.len() > 0,
    ensures
        ({
            let candidates = full_candidates(
                names,
                indexed_matches(keywords, names),
                keywords.len() as int,
            );
            &&& row_among(candidates, rowid) <==> exists|k: int|
                0 <= k < names.len() && (#[trigger] names[k]).0 == rowid && forall|w: int|
                    0 <= w < keywords.len() ==> points_on(#[trigger] keywords[w], names[k].1)
                        is Some
            &&& forall|i: int| 0 <= i < candidates.len() ==> (#[trigger] candidates[i]).0.tier == 0
        }),
{
    let matches = indexed_matches(keywords, names);
    let total = keywords.len() as int;
    let candidates = full_candidates(names, matches, total);
    let n = names.len() as int;
    let pick = full_pick(names, matches, total);
    lemma_full_picked(names, matches, total);
    assert forall|i: int| 0 <= i < candidates.len() implies (#[trigger] candidates[i]).0.tier
        == 0 by {
        let (k, _) = lemma_picked_pair(n, pick, i, i);
    }
    if row_among(candidates, rowid) {
        let i = choose|i: int|
            0 <= i < candidates.len() && (#[trigger] candidates[i]).1 == rowid;
        let (k, _) = lemma_picked_pair(n, pick, i, i);
        law_words_match(keywords, names[k].1, Seq::empty());
        assert(names[k].0 == rowid);
    }
    if exists|k: int|
        0 <= k < names.len() && (#[trigger] names[k]).0 == rowid && forall|w: int|
            0 <= w < keywords.len() ==> points_on(#[trigger] keywords[w], names[k].1) is Some {
        let k = choose|k: int|
            0 <= k < names.len() && (#[trigger] names[k]).0 == rowid && forall|w: int|
                0 <= w < keywords.len() ==> points_on(#[trigger] keywords[w], names[k].1) is Some;
        law_words_match(keywords, names[k].1, Seq::empty());
        assert(points_on(keywords[0], names[k].1) is Some);
        let i = lemma_picked_found(n, pick, k);
        assert(candidates[i].1 == rowid);
    }
}

// ---- names a few edits away ----

/// How many edits a name may be from a query of `len` characters.
pub open spec fn edits_allowed(len: int) -> int {
    if len <= 2 {
        0
    } else if len <= 4 {
        1
    } else {
        2
    }
}

/// What becomes of an entry whose name is compared with a query.
spec fn typo_pick(
    entries: Seq<(Seq<char>, HistoryEntry)>,
    alive: Seq<bool>,
    query: Seq<char>,
    now: u64,
) -> spec_fn(int) -> Option<Found> {
    |k: int|
        if alive[k] && near(query, shown_name(entries[k].0)) {
            Some(
                used_found(
                    entries[k].0,
                    typo_use_score(
                        entries[k].1.selections as int,
                        entries[k].1.visits as int,
                        decay(elapsed(entries[k].1.last_access, now)),
                        name_distance(query, shown_name(entries[k].0)),
                        longer_len(query, shown_name(entries[k].0)),
                    ),
                ),
            )
        } else {
            None
        }
}

/// The near names are picked entry by entry.
proof fn lemma_typo_picked(
    entries: Seq<(Seq<char>, HistoryEntry)>,
    alive: Seq<bool>,
    query: Seq<char>,
    now: u64,
)
    requires
        alive.len() == entries.len(),
    ensures
        typo_hits(entries, alive, query, now) == picked(
            entries.len() as int,
            typo_pick(entries, alive, query, now),
        ),
    decreases entries.len(),
{
    if entries.len() > 0 {
        let (e, a) = (entries.drop_last(), alive.drop_last());
        lemma_typo_picked(e, a, query, now);
        lemma_picked_same(
            e.len() as int,
            typo_pick(e, a, query, now),
            typo_pick(entries, alive, query, now),
        );
    }
}

/// Law: the typo fallback finds a used directory exactly where it is there and its name
/// is few enough edits from the query, without regard to case, whatever its counts.
pub proof fn law_typo_finds(
    entries: Seq<(Seq<char>, HistoryEntry)>,
    alive: Seq<bool>,
    query: Seq<char>,
    now: u64,
    path: Seq<char>,
)
    requires
        alive.len() == entries.len(),
    ensures
        ({
            let hits = typo_hits(entries, alive, query, now);
            &&& among(hits, path, ResultSource::History) <==> exists|k: int|
                0 <= k < entries.len() && (#[trigger] entries[k]).0 == path && alive[k] && edits(
                    lowercase(query),
                    lowercase(shown_name(path)),
                ) <= edits_allowed(query.len() as int)
            &&& forall|i: int|
                0 <= i < hits.len() ==> (#[trigger] hits[i]).source == ResultSource::History
        }),
{
    let hits = typo_hits(entries, alive, query, now);
    let n = entries.len() as int;
    let pick = typo_pick(entries, alive, query, now);
    lemma_typo_picked(entries, alive, query, now);
    assert forall|i: int| 0 <= i < hits.len() implies (#[trigger] hits[i]).source
        == ResultSource::History by {
        let (k, _) = lemma_picked_pair(n, pick, i, i);
    }
    if among(hits, path, ResultSource::History) {
        let i = choose|i: int|
            0 <= i < hits.len() && (#[trigger] hits[i]).path == path && hits[i].source
                == ResultSource::History;
        let (k, _) = lemma_picked_pair(n, pick, i, i);
        assert(entries[k].0 == path);
    }
    if exists|k: int|
        0 <= k < entries.len() && (#[trigger] entries[k]).0 == path && alive[k] && edits(
            lowercase(query),
            lowercase(shown_name(path)),
        ) <= edits_allowed(query.len() as int) {
        let k = choose|k: int|
            0 <= k < entries.len() && (#[trigger] entries[k]).0 == path && alive[k] && edits(
                lowercase(query),
                lowercase(shown_name(path)),
            ) <= edits_allowed(query.len() as int);
        let i = lemma_picked_found(n, pick, k);
        assert(hits[i].path == path);
    }
}

/// Law: of two used directories that the typo fallback finds, the one that was used more
/// scores above the other, however near each name is: one that was selected above one
/// that was not, and of two that were used in the same way and equally long ago the one
/// with more selections or visits. Of two that were used alike, the one with the nearer
/// name does, where the names are as long as each other. They stand in the order of the
/// entries.
pub proof fn law_typo_order(
    entries: Seq<(Seq<char>, HistoryEntry)>,
    alive: Seq<bool>,
    query: Seq<char>,
    now: u64,
    i: int,
    j: int,
)
    requires
        unique(entries),
        alive.len() == entries.len(),
        0 <= i < typo_hits(entries, alive, query, now).len(),
        0 <= j < typo_hits(entries, alive, query, now).len(),
        query.len() <= usize::MAX,
        forall|k: int|
            0 <= k < entries.len() ==> 0 <= name_distance(
                query,
                shown_name((#[trigger] entries[k]).0),
            ) <= usize::MAX && longer_len(query, shown_name(entries[k].0)) <= usize::MAX,
    ensures
        ({
            let hits = typo_hits(entries, alive, query, now);
            let a = lookup(entries, hits[i].path);
            let b = lookup(entries, hits[j].path);
            let (x, y) = (shown_name(hits[i].path), shown_name(hits[j].path));
            &&& a is Some && b is Some
            &&& used_more(a.unwrap(), b.unwrap(), now) ==> less(hits[j].score, hits[i].score)
            &&& a.unwrap() == b.unwrap() && longer_len(query, x) == longer_len(query, y)
                && name_distance(query, x) < name_distance(query, y) <= longer_len(query, y)
                ==> less(hits[j].score, hits[i].score)
            &&& i < j ==> place(entries, hits[i].path) < place(entries, hits[j].path)
        }),
{
    let hits = typo_hits(entries, alive, query, now);
    let n = entries.len() as int;
    let pick = typo_pick(entries, alive, query, now);
    lemma_typo_picked(entries, alive, query, now);
    let (x, _) = lemma_picked_pair(n, pick, i, i);
    let (y, _) = lemma_picked_pair(n, pick, j, j);
    if i < j {
        let (p, q) = lemma_picked_pair(n, pick, i, j);
        lemma_row_is(entries, p);
        lemma_row_is(entries, q);
    }
    lemma_row_is(entries, x);
    lemma_row_is(entries, y);
    let (a, b) = (entries[x].1, entries[y].1);
    let (u, v) = (shown_name(entries[x].0), shown_name(entries[y].0));
    let (d, e) = (name_distance(query, u), name_distance(query, v));
    let (l, m) = (longer_len(query, u), longer_len(query, v));
    if used_more(a, b, now) {
        if a.selections > 0 && b.selections == 0 {
        } else {
            law_use_before_likeness(
                a.selections,
                a.visits,
                d as usize,
                l as usize,
                b.selections,
                b.visits,
                e as usize,
                m as usize,
                elapsed(a.last_access, now),
            );
        }
    }
    if a == b && l == m && d < e <= m {
        lemma_base_units(a.selections, a.visits, elapsed(a.last_access, now));
        law_nearer_first(
            base_points(
                a.selections as int,
                a.visits as int,
                decay(elapsed(a.last_access, now)),
            ) * 90,
            3,
            d,
            e,
            m,
        );
    }
}

/// What becomes of an indexed name that is compared with a query.
spec fn near_pick(names: Seq<(i64, Seq<char>)>, query: Seq<char>) -> spec_fn(int) -> Option<
    (Score, i64),
> {
    |k: int|
        if near(query, names[k].1) {
            Some(
                (
                    alike(
                        0,
                        300000,
                        name_distance(query, names[k].1),
                        longer_len(query, names[k].1),
                    ),
                    names[k].0,
                ),
            )
        } else {
            None
        }
}

/// The near indexed names are picked name by name.
proof fn lemma_near_picked(names: Seq<(i64, Seq<char>)>, query: Seq<char>)
    ensures
        typo_candidates(names, query) == picked(names.len() as int, near_pick(names, query)),
    decreases names.len(),
{
    if names.len() > 0 {
        let e = names.drop_last();
        lemma_near_picked(e, query);
        lemma_picked_same(e.len() as int, near_pick(e, query), near_pick(names, query));
    }
}

/// Law: a row of the index is a candidate of the typo fallback exactly where its name is
/// few enough edits from the query; all candidates are in the lowest tier, and of two
/// names as long as each other the nearer one counts for more.
pub proof fn law_typo_candidates(
    names: Seq<(i64, Seq<char>)>,
    query: Seq<char>,
    rowid: i64,
    x: int,
    y: int,
)
    ensures
        ({
            let candidates = typo_candidates(names, query);
            &&& row_among(candidates, rowid) <==> exists|k: int|
                0 <= k < names.len() && (#[trigger] names[k]).0 == rowid && edits(
                    lowercase(query),
                    lowercase(names[k].1),
                ) <= edits_allowed(query.len() as int)
            &&& forall|i: int| 0 <= i < candidates.len() ==> (#[trigger] candidates[i]).0.tier == 0
            &&& 0 <= x < y < candidates.len() ==> exists|p: int, q: int|
                0 <= p < q < names.len() && (#[trigger] names[p]).0 == candidates[x].1 && (
                #[trigger] names[q]).0 == candidates[y].1 && {
                    let (d, e) = (name_distance(query, names[p].1), name_distance(query, names[q].1));
                    let l = longer_len(query, names[p].1);
                    l == longer_len(query, names[q].1) && l <= usize::MAX && 0 <= d && 0 <= e && d
                        <= l && e <= l ==> (d < e ==> less(candidates[y].0, candidates[x].0)) && (e
                        < d ==> less(candidates[x].0, candidates[y].0))
                }
        }),
{
    let candidates = typo_candidates(names, query);
    let n = names.len() as int;
    let pick = near_pick(names, query);
    lemma_near_picked(names, query);
    assert forall|i: int| 0 <= i < candidates.len() implies (#[trigger] candidates[i]).0.tier
        == 0 by {
        let (k, _) = lemma_picked_pair(n, pick, i, i);
    }
    if row_among(candidates, rowid) {
        let i = choose|i: int|
            0 <= i < candidates.len() && (#[trigger] candidates[i]).1 == rowid;
        let (k, _) = lemma_picked_pair(n, pick, i, i);
        assert(names[k].0 == rowid);
    }
    if exists|k: int|
        0 <= k < names.len() && (#[trigger] names[k]).0 == rowid && edits(
            lowercase(query),
            lowercase(names[k].1),
        ) <= edits_allowed(query.len() as int) {
        let k = choose|k: int|
            0 <= k < names.len() && (#[trigger] names[k]).0 == rowid && edits(
                lowercase(query),
                lowercase(names[k].1),
            ) <= edits_allowed(query.len() as int);
        let i = lemma_picked_found(n, pick, k);
        assert(candidates[i].1 == rowid);
    }
    if 0 <= x < y < candidates.len() {
        let (p, q) = lemma_picked_pair(n, pick, x, y);
        assert(names[p].0 == candidates[x].1 && names[q].0 == candidates[y].1);
        let (d, e) = (name_distance(query, names[p].1), name_distance(query, names[q].1));
        let l = longer_len(query, names[p].1);
        if l == longer_len(query, names[q].1) && l <= usize::MAX && 0 <= d <= l && 0 <= e <= l {
            if d < e {
                law_nearer_first(0, 300000, d, e, l);
            } else if e < d {
                law_nearer_first(0, 300000, e, d, l);
            }
        }
    }
}

// ---- what is gone ----

/// What becomes of an entry that may be gone.
spec fn gone_pick(entries: Seq<(Seq<char>, HistoryEntry)>, alive: Seq<bool>) -> spec_fn(
    int,
) -> Option<Seq<char>> {
    |k: int|
        if alive[k] {
            None
        } else {
            Some(entries[k].0)
        }
}

/// What is gone is picked entry by entry.
proof fn lemma_gone_picked(entries: Seq<(Seq<char>, HistoryEntry)>, alive: Seq<bool>)
    requires
        alive.len() == entries.len(),
    ensures
        missing(entries, alive) == picked(entries.len() as int, gone_pick(entries, alive)),
    decreases entries.len(),
{
    if entries.len() > 0 {
        let (e, a) = (entries.drop_last(), alive.drop_last());
        lemma_gone_picked(e, a);
        lemma_picked_same(e.len() as int, gone_pick(e, a), gone_pick(entries, alive));
    }
}

/// Law: the fallbacks give up a used directory exactly where it is not there any more.
pub proof fn law_missing(
    entries: Seq<(Seq<char>, HistoryEntry)>,
    alive: Seq<bool>,
    path: Seq<char>,
)
    requires
        alive.len() == entries.len(),
    ensures
        missing(entries, alive).contains(path) <==> exists|k: int|
            0 <= k < entries.len() && (#[trigger] entries[k]).0 == path && !alive[k],
{
    let list = missing(entries, alive);
    let n = entries.len() as int;
    let pick = gone_pick(entries, alive);
    lemma_gone_picked(entries, alive);
    if list.contains(path) {
        let i = choose|i: int| 0 <= i < list.len() && list[i] == path;
        let (k, _) = lemma_picked_pair(n, pick, i, i);
        assert(entries[k].0 == path);
    }
    if exists|k: int| 0 <= k < entries.len() && (#[trigger] entries[k]).0 == path && !alive[k] {
        let k = choose|k: int|
            0 <= k < entries.len() && (#[trigger] entries[k]).0 == path && !alive[k];
        let i = lemma_picked_found(n, pick, k);
        assert(list[i] == path);
    }
}

// ---- search by name ----

/// The keywords that names are searched for: a query without any is an empty one.
pub open spec fn asked(keywords: Seq<Seq<char>>) -> Seq<Seq<char>> {
    if keywords.len() == 0 {
        seq![Seq::empty()]
    } else {
        keywords
    }
}

/// Whether a path is among some results, with the given source.
pub open spec fn lists(r: Seq<ScoredFound>, path: Seq<char>, source: ResultSource) -> bool {
    exists|i: int|
        0 <= i < r.len() && (#[trigger] r[i]).found.path == path && r[i].found.source == source
}

/// What becomes of a row in a search of the history.
spec fn used_pick(
    rows: Rows,
    alive: Seq<bool>,
    pattern: Seq<char>,
    query: Seq<char>,
    now: u64,
) -> spec_fn(int) -> Option<Found> {
    |k: int|
        if like(pattern, rows[k].1.basename) && (rows[k].1.visits > 0 || rows[k].1.selections > 0)
            && alive[k] {
            Some(
                Found {
                    path: rows[k].0,
                    score: use_score(
                        rows[k].1.selections as int,
                        rows[k].1.visits as int,
                        decay(elapsed(rows[k].1.last_access, now)),
                        rows[k].1.basename,
                        query,
                    ),
                    source: ResultSource::History,
                },
            )
        } else {
            None
        }
}

/// A search of the history picks row by row.
proof fn lemma_used_picked(
    rows: Rows,
    alive: Seq<bool>,
    pattern: Seq<char>,
    query: Seq<char>,
    now: u64,
)
    requires
        alive.len() == rows.len(),
    ensures
        history_hits(rows, alive, pattern, query, now) == picked(
            rows.len() as int,
            used_pick(rows, alive, pattern, query, now),
        ),
    decreases rows.len(),
{
    if rows.len() > 0 {
        let (e, a) = (rows.drop_last(), alive.drop_last());
        lemma_used_picked(e, a, pattern, query, now);
        lemma_picked_same(
            e.len() as int,
            used_pick(e, a, pattern, query, now),
            used_pick(rows, alive, pattern, query, now),
        );
    }
}

/// What becomes of a row in a search of the index.
spec fn place_pick(rows: Rows, pattern: Seq<char>) -> spec_fn(int) -> Option<Seq<char>> {
    |k: int|
        if rows[k].1.in_index && like(pattern, rows[k].1.basename) {
            Some(rows[k].0)
        } else {
            None
        }
}

/// A search of the index picks row by row.
proof fn lemma_places_picked(rows: Rows, pattern: Seq<char>)
    ensures
        index_hits(rows, pattern) == picked(rows.len() as int, place_pick(rows, pattern)),
    decreases rows.len(),
{
    if rows.len() > 0 {
        let e = rows.drop_last();
        lemma_places_picked(e, pattern);
        lemma_picked_same(e.len() as int, place_pick(e, pattern), place_pick(rows, pattern));
    }
}

/// What is searched for, whatever the number of keywords.
proof fn lemma_asked(keywords: Seq<Seq<char>>)
    ensures
        asked(keywords) == if keywords.len() <= 1 {
            seq![only_keyword(keywords)]
        } else {
            keywords
        },
        asked(keywords).len() > 0,
        last_keyword(asked(keywords)) == lowercase(asked(keywords).last()),
        keyword_pattern(asked(keywords)) == wildcard(lowered(asked(keywords))),
{
    if keywords.len() == 1 {
        assert(keywords =~= seq![only_keyword(keywords)]);
    }
}

/// A result of the ranked history is one of a row that fits.
proof fn lemma_ranked_row(
    rows: Rows,
    alive: Seq<bool>,
    pattern: Seq<char>,
    query: Seq<char>,
    now: u64,
    i: int,
) -> (k: int)
    requires
        alive.len() == rows.len(),
        0 <= i < ranked(history_hits(rows, alive, pattern, query, now)).len(),
    ensures
        0 <= k < rows.len(),
        used_pick(rows, alive, pattern, query, now)(k) == Some(
            ranked(history_hits(rows, alive, pattern, query, now))[i],
        ),
{
    broadcast use vstd::seq_lib::group_to_multiset_ensures;

    let hits = history_hits(rows, alive, pattern, query, now);
    let list = ranked(hits);
    law_ranked(hits);
    assert(list.contains(list[i]));
    assert(list.to_multiset().count(list[i]) > 0);
    assert(hits.contains(list[i]));
    let h = choose|h: int| 0 <= h < hits.len() && hits[h] == list[i];
    lemma_used_picked(rows, alive, pattern, query, now);
    let (k, _) = lemma_picked_pair(
        rows.len() as int,
        used_pick(rows, alive, pattern, query, now),
        h,
        h,
    );
    k
}

/// The result of a row that fits is in the ranked history.
proof fn lemma_row_ranked(
    rows: Rows,
    alive: Seq<bool>,
    pattern: Seq<char>,
    query: Seq<char>,
    now: u64,
    k: int,
) -> (i: int)
    requires
        alive.len() == rows.len(),
        0 <= k < rows.len(),
        used_pick(rows, alive, pattern, query, now)(k) is Some,
    ensures
        0 <= i < ranked(history_hits(rows, alive, pattern, query, now)).len(),
        used_pick(rows, alive, pattern, query, now)(k) == Some(
            ranked(history_hits(rows, alive, pattern, query, now))[i],
        ),
{
    broadcast use vstd::seq_lib::group_to_multiset_ensures;

    let hits = history_hits(rows, alive, pattern, query, now);
    let list = ranked(hits);
    law_ranked(hits);
    lemma_used_picked(rows, alive, pattern, query, now);
    let h = lemma_picked_found(rows.len() as int, used_pick(rows, alive, pattern, query, now), k);
    assert(hits.contains(hits[h]));
    assert(hits.to_multiset().count(hits[h]) > 0);
    assert(list.contains(hits[h]));
    choose|i: int| 0 <= i < list.len() && list[i] == hits[h]
}

/// Law: where something is indexed, a search by name finds, for any number of keywords,
/// a directory by its place exactly where the index holds it and its name holds the
/// keywords one after the other; and by its history exactly where it was used, is still
/// there, and its name holds them. Whether it has history makes no difference to the
/// first, nor whether it is indexed to the second.
pub proof fn law_name_search_finds(
    store: KeyStore,
    keywords: Seq<Seq<char>>,
    has_index: bool,
    link_alive: bool,
    alive: Seq<bool>,
    scanned: Seq<Seq<char>>,
    home: Option<Seq<char>>,
    boosts: Seq<(Seq<char>, u64)>,
    now: u64,
    path: Seq<char>,
)
    requires
        alive.len() == store.dirs.rows().len(),
    ensures
        ({
            let rows = store.dirs.rows();
            let words = lowered(asked(keywords));
            let r = gathered_from(
                store,
                keywords,
                has_index,
                link_alive,
                alive,
                scanned,
                home,
                boosts,
                now,
            );
            &&& has_index ==> (lists(r, path, ResultSource::Filesystem) <==> exists|k: int|
                0 <= k < rows.len() && (#[trigger] rows[k]).0 == path && rows[k].1.in_index && like(
                    wildcard(words),
                    rows[k].1.basename,
                ))
            &&& lists(r, path, ResultSource::History) <==> exists|k: int|
                0 <= k < rows.len() && (#[trigger] rows[k]).0 == path && (rows[k].1.visits > 0
                    || rows[k].1.selections > 0) && alive[k] && like(
                    wildcard(words),
                    rows[k].1.basename,
                )
            &&& (forall|w: int| 0 <= w < words.len() ==> plain(#[trigger] words[w])) ==> forall|
                name: Seq<char>,
            | #[trigger]
                like(wildcard(words), name) <==> in_order(words, name)
        }),
{
    let rows = store.dirs.rows();
    let words = lowered(asked(keywords));
    let pattern = wildcard(words);
    let query = last_keyword(asked(keywords));
    let r = gathered_from(
        store,
        keywords,
        has_index,
        link_alive,
        alive,
        scanned,
        home,
        boosts,
        now,
    );
    lemma_asked(keywords);
    let link = if keywords.len() <= 1 && link_alive {
        lookup(store.links.rows(), only_keyword(keywords))
    } else {
        None
    };
    let before = if link is Some {
        1int
    } else {
        0
    };
    let history = ranked(history_hits(rows, alive, pattern, query, now));
    let n = history.len() as int;
    assert(forall|i: int|
        before <= i < before + n ==> (#[trigger] r[i]).found == history[i - before]);
    if has_index {
        let places = index_hits(rows, pattern);
        let size = rows.len() as int;
        let pick = place_pick(rows, pattern);
        lemma_places_picked(rows, pattern);
        assert(r.len() == before + n + places.len());
        assert(forall|i: int|
            before + n <= i < r.len() ==> (#[trigger] r[i]).found.path == places[i - before - n]
                && r[i].found.source == ResultSource::Filesystem);
        if lists(r, path, ResultSource::Filesystem) {
            let i = choose|i: int|
                0 <= i < r.len() && (#[trigger] r[i]).found.path == path && r[i].found.source
                    == ResultSource::Filesystem;
            if before <= i < before + n {
                let k = lemma_ranked_row(rows, alive, pattern, query, now, i - before);
            } else if i >= before + n {
                let (k, _) = lemma_picked_pair(size, pick, i - before - n, i - before - n);
                assert(rows[k].0 == path);
            }
        }
        if exists|k: int|
            0 <= k < rows.len() && (#[trigger] rows[k]).0 == path && rows[k].1.in_index && like(
                pattern,
                rows[k].1.basename,
            ) {
            let k = choose|k: int|
                0 <= k < rows.len() && (#[trigger] rows[k]).0 == path && rows[k].1.in_index && like(
                    pattern,
                    rows[k].1.basename,
                );
            let i = lemma_picked_found(size, pick, k);
            assert(r[before + n + i].found.path == path);
        }
    }
    if lists(r, path, ResultSource::History) {
        let i = choose|i: int|
            0 <= i < r.len() && (#[trigger] r[i]).found.path == path && r[i].found.source
                == ResultSource::History;
        assert(before <= i < before + n);
        let k = lemma_ranked_row(rows, alive, pattern, query, now, i - before);
        assert(rows[k].0 == path);
    }
    if exists|k: int|
        0 <= k < rows.len() && (#[trigger] rows[k]).0 == path && (rows[k].1.visits > 0
            || rows[k].1.selections > 0) && alive[k] && like(pattern, rows[k].1.basename) {
        let k = choose|k: int|
            0 <= k < rows.len() && (#[trigger] rows[k]).0 == path && (rows[k].1.visits > 0
                || rows[k].1.selections > 0) && alive[k] && like(pattern, rows[k].1.basename);
        let i = lemma_row_ranked(rows, alive, pattern, query, now, k);
        assert(r[before + i].found.path == path);
    }
    if forall|w: int| 0 <= w < words.len() ==> plain(#[trigger] words[w]) {
        assert forall|name: Seq<char>| #[trigger]
            like(pattern, name) <==> in_order(words, name) by {
            law_wildcard(words, name);
        }
    }
}

/// Law: a search by name puts the directory of a live link of that very name first, for
/// one keyword only, and above all else; what was used comes before what is only found
/// by its place, and scores above it. Among what was used, what was selected scores above
/// what was not, and then the counts decide, each weighed by how long ago the last use
/// was. Every result but the link has the first boost that its path lies in.
pub proof fn law_name_search_order(
    store: KeyStore,
    keywords: Seq<Seq<char>>,
    has_index: bool,
    link_alive: bool,
    alive: Seq<bool>,
    scanned: Seq<Seq<char>>,
    home: Option<Seq<char>>,
    boosts: Seq<(Seq<char>, u64)>,
    now: u64,
    i: int,
    j: int,
)
    requires
        unique(store.dirs.rows()),
        alive.len() == store.dirs.rows().len(),
        0 <= i < gathered_from(
            store,
            keywords,
            has_index,
            link_alive,
            alive,
            scanned,
            home,
            boosts,
            now,
        ).len(),
        0 <= j < gathered_from(
            store,
            keywords,
            has_index,
            link_alive,
            alive,
            scanned,
            home,
            boosts,
            now,
        ).len(),
    ensures
        ({
            let rows = store.dirs.rows();
            let r = gathered_from(
                store,
                keywords,
                has_index,
                link_alive,
                alive,
                scanned,
                home,
                boosts,
                now,
            );
            let (a, b) = (r[i].found, r[j].found);
            let linked = keywords.len() <= 1 && link_alive && lookup(
                store.links.rows(),
                asked(keywords)[0],
            ) is Some;
            let (d, e) = (lookup(rows, a.path), lookup(rows, b.path));
            &&& a.source == ResultSource::Link <==> linked && i == 0
            &&& a.source == ResultSource::Link ==> lookup(store.links.rows(), asked(keywords)[0])
                == Some(a.path) && r[i].boost is None
            &&& a.source != ResultSource::Link ==> r[i].boost == first_boost(boosts, a.path)
            &&& a.source == ResultSource::Link && i != j ==> less(b.score, a.score)
            &&& a.source == ResultSource::History && b.source == ResultSource::Filesystem ==> i < j
                && less(b.score, a.score)
            &&& a.source == ResultSource::History && b.source == ResultSource::History && i < j
                ==> le(b.score, a.score)
            &&& a.source == ResultSource::History && b.source == ResultSource::History ==> ({
                &&& d is Some && e is Some
                &&& d.unwrap().selections > 0 && e.unwrap().selections == 0 ==> less(
                    b.score,
                    a.score,
                )
                &&& (d.unwrap().selections > 0 <==> e.unwrap().selections > 0) && (
                d.unwrap().selections * 10 + d.unwrap().visits) * decay(
                    elapsed(d.unwrap().last_access, now),
                ) > (e.unwrap().selections * 10 + e.unwrap().visits) * decay(
                    elapsed(e.unwrap().last_access, now),
                ) ==> less(b.score, a.score)
                &&& d.unwrap().selections == e.unwrap().selections && d.unwrap().visits
                    == e.unwrap().visits && d.unwrap().last_access == e.unwrap().last_access
                    && d.unwrap().basename == lowercase(asked(keywords).last())
                    && e.unwrap().basename != lowercase(asked(keywords).last()) ==> less(
                    b.score,
                    a.score,
                )
            })
        }),
{
    let rows = store.dirs.rows();
    let pattern = keyword_pattern(asked(keywords));
    let query = last_keyword(asked(keywords));
    let r = gathered_from(
        store,
        keywords,
        has_index,
        link_alive,
        alive,
        scanned,
        home,
        boosts,
        now,
    );
    lemma_asked(keywords);
    let link = if keywords.len() <= 1 && link_alive {
        lookup(store.links.rows(), only_keyword(keywords))
    } else {
        None
    };
    let before = if link is Some {
        1int
    } else {
        0
    };
    let hits = history_hits(rows, alive, pattern, query, now);
    let history = ranked(hits);
    let n = history.len() as int;
    law_ranked(hits);
    assert(forall|x: int|
        before <= x < before + n ==> (#[trigger] r[x]) == with_boost(history[x - before], boosts));
    assert(forall|x: int|
        before + n <= x < r.len() ==> (#[trigger] r[x]).found.source == ResultSource::Filesystem
            && r[x].found.score.tier == 0 && r[x].boost == first_boost(
            boosts,
            r[x].found.path,
        ));
    if before <= i < before + n {
        let x = lemma_ranked_row(rows, alive, pattern, query, now, i - before);
        lemma_row_is(rows, x);
        if before <= j < before + n {
            let y = lemma_ranked_row(rows, alive, pattern, query, now, j - before);
            lemma_row_is(rows, y);
            let (d, e) = (rows[x].1, rows[y].1);
            if (d.selections > 0 && e.selections == 0) || ((d.selections > 0 <==> e.selections > 0)
                && (d.selections * 10 + d.visits) * decay(elapsed(d.last_access, now)) > (
            e.selections * 10 + e.visits) * decay(elapsed(e.last_access, now))) {
                law_use_before_name(
                    d.selections,
                    d.visits,
                    elapsed(d.last_access, now),
                    d.basename,
                    e.selections,
                    e.visits,
                    elapsed(e.last_access, now),
                    e.basename,
                    query,
                );
            }
            if d.selections == e.selections && d.visits == e.visits && d.last_access
                == e.last_access && d.basename == query && e.basename != query {
                law_name_breaks_ties(
                    d.selections,
                    d.visits,
                    elapsed(d.last_access, now),
                    d.basename,
                    e.basename,
                    query,
                );
            }
            if i < j {
                assert(le(history[j - before].score, history[i - before].score));
            }
        }
    } else if i < before && before <= j < before + n {
        let y = lemma_ranked_row(rows, alive, pattern, query, now, j - before);
    }
}

/// Law: what a search by name finds by its place stands in the order of the rows, or of
/// the scan of the disk where nothing is indexed and there is one keyword. The very name
/// scores above every other, and of two with the same name the one nearer to the home
/// directory does, down to three levels.
pub proof fn law_name_search_places(
    store: KeyStore,
    keywords: Seq<Seq<char>>,
    has_index: bool,
    link_alive: bool,
    alive: Seq<bool>,
    scanned: Seq<Seq<char>>,
    home: Option<Seq<char>>,
    boosts: Seq<(Seq<char>, u64)>,
    now: u64,
    i: int,
    j: int,
)
    requires
        unique(store.dirs.rows()),
        alive.len() == store.dirs.rows().len(),
        0 <= i < gathered_from(
            store,
            keywords,
            has_index,
            link_alive,
            alive,
            scanned,
            home,
            boosts,
            now,
        ).len(),
        0 <= j < gathered_from(
            store,
            keywords,
            has_index,
            link_alive,
            alive,
            scanned,
            home,
            boosts,
            now,
        ).len(),
        gathered_from(
            store,
            keywords,
            has_index,
            link_alive,
            alive,
            scanned,
            home,
            boosts,
            now,
        )[i].found.source == ResultSource::Filesystem,
        gathered_from(
            store,
            keywords,
            has_index,
            link_alive,
            alive,
            scanned,
            home,
            boosts,
            now,
        )[j].found.source == ResultSource::Filesystem,
    ensures
        ({
            let rows = store.dirs.rows();
            let r = gathered_from(
                store,
                keywords,
                has_index,
                link_alive,
                alive,
                scanned,
                home,
                boosts,
                now,
            );
            let (a, b) = (r[i].found, r[j].found);
            let last = lowercase(asked(keywords).last());
            &&& has_index && i < j ==> place(rows, a.path) < place(rows, b.path)
            &&& !has_index ==> keywords.len() <= 1 && r.len() >= scanned.len() && i >= r.len()
                - scanned.len() && a.path == scanned[i - (r.len() - scanned.len())]
            &&& base_of(a.path) == last && base_of(b.path) != last ==> less(b.score, a.score)
            &&& base_of(a.path) == base_of(b.path) ==> match (
                home_depth(a.path, home),
                home_depth(b.path, home),
            ) {
                (Some(d), Some(e)) => 0 <= d < e && e > 1 && d <= 3 ==> less(b.score, a.score),
                (Some(d), None) => 0 <= d <= 3 ==> less(b.score, a.score),
                _ => true,
            }
        }),
{
    let rows = store.dirs.rows();
    let pattern = keyword_pattern(asked(keywords));
    let query = last_keyword(asked(keywords));
    let r = gathered_from(
        store,
        keywords,
        has_index,
        link_alive,
        alive,
        scanned,
        home,
        boosts,
        now,
    );
    lemma_asked(keywords);
    let link = if keywords.len() <= 1 && link_alive {
        lookup(store.links.rows(), only_keyword(keywords))
    } else {
        None
    };
    let before = if link is Some {
        1int
    } else {
        0
    };
    let history = ranked(history_hits(rows, alive, pattern, query, now));
    let n = history.len() as int;
    let places = if has_index {
        index_hits(rows, pattern)
    } else if keywords.len() <= 1 {
        scanned
    } else {
        Seq::empty()
    };
    if before <= i < before + n {
        let x = lemma_ranked_row(rows, alive, pattern, query, now, i - before);
    }
    if before <= j < before + n {
        let x = lemma_ranked_row(rows, alive, pattern, query, now, j - before);
    }
    assert(r.len() == before + n + places.len());
    assert(r[i].found == place_found(places[i - before - n], query, home));
    assert(r[j].found == place_found(places[j - before - n], query, home));
    if has_index && i < j {
        lemma_places_picked(rows, pattern);
        let (p, q) = lemma_picked_pair(
            rows.len() as int,
            place_pick(rows, pattern),
            i - before - n,
            j - before - n,
        );
        lemma_row_is(rows, p);
        lemma_row_is(rows, q);
    }
}

// ---- what is offered ----

/// What becomes of a result when repetitions are dropped.
spec fn first_pick(list: Seq<Found>) -> spec_fn(int) -> Option<Found> {
    |k: int|
        if occurs(list.take(k), list[k].path) {
            None
        } else {
            Some(list[k])
        }
}

/// Repetitions are dropped result by result.
proof fn lemma_first_picked(list: Seq<Found>)
    ensures
        deduped(list) == picked(list.len() as int, first_pick(list)),
    decreases list.len(),
{
    if list.len() > 0 {
        let front = list.drop_last();
        lemma_first_picked(front);
        assert forall|k: int| 0 <= k < front.len() implies #[trigger] first_pick(front)(k)
            == first_pick(list)(k) by {
            assert(front.take(k) =~= list.take(k));
        }
        lemma_picked_same(front.len() as int, first_pick(front), first_pick(list));
        assert(list.take(list.len() - 1) =~= front);
    }
}

/// Whether a result is the first of its path.
pub open spec fn first_of_path(list: Seq<Found>, k: int) -> bool {
    0 <= k < list.len() && forall|m: int|
        0 <= m < k ==> parts((#[trigger] list[m]).path) != parts(list[k].path)
}

/// Whether a result is the first of its path, told by what comes before.
proof fn lemma_first_of_path(list: Seq<Found>, k: int)
    requires
        0 <= k < list.len(),
    ensures
        first_of_path(list, k) <==> !occurs(list.take(k), list[k].path),
{
    let front = list.take(k);
    if occurs(front, list[k].path) {
        let m = choose|m: int|
            0 <= m < front.len() && crate::path::same((#[trigger] front[m]).path, list[k].path);
        assert(parts(list[m].path) == parts(list[k].path));
    } else {
        assert forall|m: int| 0 <= m < k implies parts((#[trigger] list[m]).path) != parts(
            list[k].path,
        ) by {
            if parts(list[m].path) == parts(list[k].path) {
                assert(crate::path::same(front[m].path, list[k].path));
            }
        }
    }
}

/// Law: of the results with one path the first is kept, as it is, and no other; what is
/// kept stays in order.
pub proof fn law_first_is_kept(list: Seq<Found>, k: int, i: int, j: int)
    ensures
        first_of_path(list, k) ==> deduped(list).contains(list[k]),
        0 <= i < j < deduped(list).len() ==> exists|x: int, y: int|
            0 <= x < y < list.len() && #[trigger] first_of_path(list, x)
                && #[trigger] first_of_path(list, y) && deduped(list)[i] == list[x] && deduped(
                list,
            )[j] == list[y],
        0 <= i < deduped(list).len() ==> exists|x: int| #[trigger]
            first_of_path(list, x) && deduped(list)[i] == list[x],
{
    let n = list.len() as int;
    let pick = first_pick(list);
    lemma_first_picked(list);
    if first_of_path(list, k) {
        lemma_first_of_path(list, k);
        let at = lemma_picked_found(n, pick, k);
        assert(deduped(list)[at] == list[k]);
    }
    if 0 <= i < deduped(list).len() {
        let (x, _) = lemma_picked_pair(n, pick, i, i);
        lemma_first_of_path(list, x);
    }
    if 0 <= i < j < deduped(list).len() {
        let (x, y) = lemma_picked_pair(n, pick, i, j);
        lemma_first_of_path(list, x);
        lemma_first_of_path(list, y);
        assert(first_of_path(list, x) && first_of_path(list, y));
    }
}

/// When the directory of the first result with a path was last touched.
proof fn lemma_touched(found: Seq<Found>, mtimes: Seq<Option<u64>>, k: int)
    requires
        mtimes.len() == found.len(),
        first_of_path(found, k),
    ensures
        touched(found, mtimes, found[k].path) == mtimes[k],
    decreases found.len(),
{
    let front = found.drop_last();
    let path = found[k].path;
    if k < front.len() {
        assert(crate::path::same(front[k].path, path));
        assert(occurs(front, path));
        assert(first_of_path(front, k)) by {
            assert forall|m: int| 0 <= m < k implies parts((#[trigger] front[m]).path) != parts(
                front[k].path,
            ) by {
                assert(parts(found[m].path) != parts(found[k].path));
            }
        }
        lemma_touched(front, mtimes.drop_last(), k);
    } else {
        lemma_first_of_path(found, k);
        assert(found.take(k) =~= front);
    }
}

/// Law: what is offered is, of each path that was found, the first result, as it counts
/// for someone in the current directory, and nothing else; the best comes first, and no
/// path comes twice.
pub proof fn law_offered(
    found: Seq<Found>,
    cwd: Option<Seq<char>>,
    mtimes: Seq<Option<u64>>,
    now: u64,
    single: bool,
    k: int,
    i: int,
    j: int,
)
    requires
        mtimes.len() == found.len(),
    ensures
        ({
            let r = ranked(nearby(found, cwd, mtimes, now, single));
            &&& first_of_path(found, k) ==> r.contains(
                seen_from(found[k], cwd, mtimes[k], now, single),
            )
            &&& 0 <= i < r.len() ==> exists|x: int| #[trigger]
                first_of_path(found, x) && r[i] == seen_from(found[x], cwd, mtimes[x], now, single)
            &&& 0 <= i < j < r.len() ==> le(r[j].score, r[i].score)
            &&& r.len() == deduped(found).len()
        }),
{
    broadcast use vstd::seq_lib::group_to_multiset_ensures;

    let near = nearby(found, cwd, mtimes, now, single);
    let r = ranked(near);
    law_ranked(near);
    law_first_is_kept(found, k, 0, 0);
    if first_of_path(found, k) {
        let at = choose|at: int|
            0 <= at < deduped(found).len() && deduped(found)[at] == found[k];
        lemma_touched(found, mtimes, k);
        let it = seen_from(found[k], cwd, mtimes[k], now, single);
        assert(near[at] == it);
        assert(near.to_multiset().count(it) > 0);
        assert(r.contains(it));
    }
    if 0 <= i < r.len() {
        assert(r.contains(r[i]));
        assert(r.to_multiset().count(r[i]) > 0);
        assert(near.contains(r[i]));
        let at = choose|at: int| 0 <= at < near.len() && near[at] == r[i];
        law_first_is_kept(found, k, at, 0);
        let x = choose|x: int| #[trigger]
            first_of_path(found, x) && deduped(found)[at] == found[x];
        lemma_touched(found, mtimes, x);
    }
}

/// Law: what lies below the current directory counts for as much as its own score, the
/// floor for what is near, and the floor for what is fresh, whichever is most; fresh is
/// what was touched within five minutes, for a single keyword. All else counts as it is.
pub proof fn law_seen_from(
    a: Found,
    cwd: Option<Seq<char>>,
    mtime: Option<u64>,
    now: u64,
    single: bool,
)
    ensures
        ({
            let b = seen_from(a, cwd, mtime, now, single);
            let below = cwd is Some && parts(cwd.unwrap()).is_prefix_of(parts(a.path)) && parts(
                a.path,
            ) != parts(cwd.unwrap());
            let fresh = single && (mtime matches Some(t) && t <= now && now - t <= 300);
            &&& b.path == a.path && b.source == a.source
            &&& !below ==> b == a
            &&& below ==> ({
                &&& le(a.score, b.score) && le(near_floor(), b.score)
                &&& fresh ==> le(fresh_floor(), b.score)
                &&& b.score == a.score || b.score == near_floor() || (fresh && b.score
                    == fresh_floor())
            })
        }),
{
    if let Some(dir) = cwd {
        law_lifted(a, a, dir, mtime, now, single);
        let near = larger(a.score, near_floor());
        lemma_le_total(near, fresh_floor());
        lemma_le_total(a.score, near_floor());
        lemma_le_total(fresh_floor(), fresh_floor());
    }
}

// ---- what is looked at on the disk ----

/// What becomes of a result when dead ones are dropped.
spec fn live_pick(list: Seq<Found>, alive: Seq<bool>, k: int) -> spec_fn(int) -> Option<Found> {
    |i: int|
        if looked_at(alive, i, k) && !alive[i] {
            None
        } else {
            Some(list[i])
        }
}

/// Dead results are dropped result by result.
proof fn lemma_live_picked(list: Seq<Found>, alive: Seq<bool>, k: int)
    ensures
        pruned(list, alive, k) == picked(list.len() as int, live_pick(list, alive, k)),
    decreases list.len(),
{
    if list.len() > 0 {
        let front = list.drop_last();
        lemma_live_picked(front, alive, k);
        lemma_picked_same(
            front.len() as int,
            live_pick(front, alive, k),
            live_pick(list, alive, k),
        );
    }
}

/// What becomes of a result whose path may be given up.
spec fn dead_pick(list: Seq<Found>, alive: Seq<bool>, k: int) -> spec_fn(int) -> Option<
    Seq<char>,
> {
    |i: int|
        if looked_at(alive, i, k) && !alive[i] {
            Some(list[i].path)
        } else {
            None
        }
}

/// The paths of dead results are given up result by result.
proof fn lemma_dead_picked(list: Seq<Found>, alive: Seq<bool>, k: int)
    ensures
        pruned_paths(list, alive, k) == picked(list.len() as int, dead_pick(list, alive, k)),
    decreases list.len(),
{
    if list.len() > 0 {
        let front = list.drop_last();
        lemma_dead_picked(front, alive, k);
        lemma_picked_same(
            front.len() as int,
            dead_pick(front, alive, k),
            dead_pick(list, alive, k),
        );
    }
}

/// Law: a result is dropped, and its path given up, exactly where it was looked at and is
/// gone: among the first three hundred, as long as fewer than `k` before it are there. All
/// others are kept, in order.
pub proof fn law_pruned(list: Seq<Found>, alive: Seq<bool>, k: int, i: int, x: int, y: int)
    requires
        0 <= i < list.len(),
    ensures
        ({
            let dropped = i < alive.len() && !alive[i] && i < 300 && live_count(alive.take(i)) < k;
            &&& dropped ==> pruned_paths(list, alive, k).contains(list[i].path)
            &&& !dropped ==> pruned(list, alive, k).contains(list[i])
            &&& pruned(list, alive, k).len() + pruned_paths(list, alive, k).len() == list.len()
            &&& 0 <= x < y < pruned(list, alive, k).len() ==> exists|p: int, q: int|
                0 <= p < q < list.len() && pruned(list, alive, k)[x] == #[trigger] list[p]
                    && pruned(list, alive, k)[y] == #[trigger] list[q]
        }),
{
    let n = list.len() as int;
    lemma_live_picked(list, alive, k);
    lemma_dead_picked(list, alive, k);
    lemma_pruned_len(list, alive, k);
    if looked_at(alive, i, k) && !alive[i] {
        let at = lemma_picked_found(n, dead_pick(list, alive, k), i);
        assert(pruned_paths(list, alive, k)[at] == list[i].path);
    } else {
        let at = lemma_picked_found(n, live_pick(list, alive, k), i);
        assert(pruned(list, alive, k)[at] == list[i]);
    }
    if 0 <= x < y < pruned(list, alive, k).len() {
        let (p, q) = lemma_picked_pair(n, live_pick(list, alive, k), x, y);
        assert(pruned(list, alive, k)[x] == list[p] && pruned(list, alive, k)[y] == list[q]);
    }
}

/// Every result is kept or given up.
proof fn lemma_pruned_len(list: Seq<Found>, alive: Seq<bool>, k: int)
    ensures
        pruned(list, alive, k).len() + pruned_paths(list, alive, k).len() == list.len(),
    decreases list.len(),
{
    if list.len() > 0 {
        lemma_pruned_len(list.drop_last(), alive, k);
    }
}

/// Law: as many of some flags are set as there were before, and one more where the next
/// is.
pub proof fn law_live_count(alive: Seq<bool>, next: bool)
    ensures
        live_count(alive.push(next)) == live_count(alive) + if next {
            1int
        } else {
            0
        },
        live_count(Seq::empty()) == 0,
{
    assert(alive.push(next).drop_last() =~= alive);
}

// ---- the index in the fallbacks ----

/// What a row's name is worth is what its last candidate says.
proof fn lemma_base_score(candidates: Seq<(Score, i64)>, rowid: i64)
    ensures
        base_score(candidates, rowid) is Some <==> row_among(candidates, rowid),
        base_score(candidates, rowid) matches Some(s) ==> exists|c: int|
            0 <= c < candidates.len() && #[trigger] candidates[c] == (s, rowid),
    decreases candidates.len(),
{
    if candidates.len() > 0 {
        let front = candidates.drop_last();
        lemma_base_score(front, rowid);
        let n = candidates.len() - 1;
        if candidates.last().1 == rowid {
            assert(candidates[n] == (candidates.last().0, rowid));
        } else {
            if row_among(front, rowid) {
                let c = choose|c: int| 0 <= c < front.len() && (#[trigger] front[c]).1 == rowid;
                assert(candidates[c].1 == rowid);
            }
            if row_among(candidates, rowid) {
                let c = choose|c: int|
                    0 <= c < candidates.len() && (#[trigger] candidates[c]).1 == rowid;
                assert(front[c].1 == rowid);
            }
            if let Some(s) = base_score(front, rowid) {
                let c = choose|c: int|
                    0 <= c < front.len() && #[trigger] front[c] == (s, rowid);
                assert(candidates[c] == (s, rowid));
            }
        }
    }
}

/// What becomes of a path that was fetched.
spec fn fetched_pick(
    candidates: Seq<(Score, i64)>,
    fetched: Seq<(i64, Seq<char>)>,
    home: Option<Seq<char>>,
    top: int,
    ratio: int,
    boosts: Seq<(Seq<char>, u64)>,
) -> spec_fn(int) -> Option<ScoredFound> {
    |k: int|
        match base_score(candidates, fetched[k].0) {
            Some(base) => Some(
                with_boost(
                    Found {
                        path: fetched[k].1,
                        score: deepened(base, home_depth(fetched[k].1, home), top, ratio),
                        source: ResultSource::Filesystem,
                    },
                    boosts,
                ),
            ),
            None => None,
        }
}

/// The candidates with their paths are picked path by path.
proof fn lemma_fetched_picked(
    candidates: Seq<(Score, i64)>,
    fetched: Seq<(i64, Seq<char>)>,
    home: Option<Seq<char>>,
    top: int,
    ratio: int,
    boosts: Seq<(Seq<char>, u64)>,
)
    ensures
        resolved(candidates, fetched, home, top, ratio, boosts) == picked(
            fetched.len() as int,
            fetched_pick(candidates, fetched, home, top, ratio, boosts),
        ),
    decreases fetched.len(),
{
    if fetched.len() > 0 {
        let f = fetched.drop_last();
        lemma_fetched_picked(candidates, f, home, top, ratio, boosts);
        lemma_picked_same(
            f.len() as int,
            fetched_pick(candidates, f, home, top, ratio, boosts),
            fetched_pick(candidates, fetched, home, top, ratio, boosts),
        );
    }
}

/// Law: a path that was fetched is among the results exactly where its row is a candidate;
/// it says that it was found by its place, has the first boost that it lies in, and counts
/// for what its row counts for, by its depth below the home directory. They stand in the
/// order in which they were fetched.
pub proof fn law_resolved(
    candidates: Seq<(Score, i64)>,
    fetched: Seq<(i64, Seq<char>)>,
    home: Option<Seq<char>>,
    top: int,
    ratio: int,
    boosts: Seq<(Seq<char>, u64)>,
    path: Seq<char>,
    i: int,
    j: int,
)
    ensures
        ({
            let r = resolved(candidates, fetched, home, top, ratio, boosts);
            &&& lists(r, path, ResultSource::Filesystem) <==> exists|k: int|
                0 <= k < fetched.len() && (#[trigger] fetched[k]).1 == path && row_among(
                    candidates,
                    fetched[k].0,
                )
            &&& 0 <= i < r.len() ==> r[i].found.source == ResultSource::Filesystem && r[i].boost
                == first_boost(boosts, r[i].found.path) && exists|k: int, c: int|
                0 <= k < fetched.len() && 0 <= c < candidates.len() && (#[trigger] fetched[k]).1
                    == r[i].found.path && (#[trigger] candidates[c]).1 == fetched[k].0
                    && r[i].found.score == deepened(
                    candidates[c].0,
                    home_depth(r[i].found.path, home),
                    top,
                    ratio,
                )
            &&& 0 <= i < j < r.len() ==> exists|x: int, y: int|
                0 <= x < y < fetched.len() && (#[trigger] fetched[x]).1 == r[i].found.path && (
                #[trigger] fetched[y]).1 == r[j].found.path
        }),
{
    let r = resolved(candidates, fetched, home, top, ratio, boosts);
    let n = fetched.len() as int;
    let pick = fetched_pick(candidates, fetched, home, top, ratio, boosts);
    lemma_fetched_picked(candidates, fetched, home, top, ratio, boosts);
    if lists(r, path, ResultSource::Filesystem) {
        let at = choose|at: int|
            0 <= at < r.len() && (#[trigger] r[at]).found.path == path && r[at].found.source
                == ResultSource::Filesystem;
        let (k, _) = lemma_picked_pair(n, pick, at, at);
        lemma_base_score(candidates, fetched[k].0);
        assert(fetched[k].1 == path);
    }
    if exists|k: int|
        0 <= k < fetched.len() && (#[trigger] fetched[k]).1 == path && row_among(
            candidates,
            fetched[k].0,
        ) {
        let k = choose|k: int|
            0 <= k < fetched.len() && (#[trigger] fetched[k]).1 == path && row_among(
                candidates,
                fetched[k].0,
            );
        lemma_base_score(candidates, fetched[k].0);
        let at = lemma_picked_found(n, pick, k);
        assert(r[at].found.path == path);
    }
    if 0 <= i < r.len() {
        let (k, _) = lemma_picked_pair(n, pick, i, i);
        lemma_base_score(candidates, fetched[k].0);
        let base = base_score(candidates, fetched[k].0).unwrap();
        let c = choose|c: int|
            0 <= c < candidates.len() && #[trigger] candidates[c] == (base, fetched[k].0);
        assert(fetched[k].1 == r[i].found.path && candidates[c].1 == fetched[k].0);
    }
    if 0 <= i < j < r.len() {
        let (x, y) = lemma_picked_pair(n, pick, i, j);
        assert(fetched[x].1 == r[i].found.path && fetched[y].1 == r[j].found.path);
    }
}

/// Law: nearness to the home directory never takes anything from a score, and of two
/// depths the lesser never adds less.
pub proof fn law_deepened(base: Score, near: int, far: int, top: int, ratio: int)
    requires
        0 <= base.units <= 0x4000_0000_0000_0000_0000_0000_0000_0000,
        0 <= near <= far,
        0 <= ratio <= 2 * top <= 0x4000_0000_0000_0000,
    ensures
        le(base, deepened(base, Some(far), top, ratio)),
        le(deepened(base, Some(far), top, ratio), deepened(base, Some(near), top, ratio)),
        near <= 1 && top > 0 ==> less(base, deepened(base, Some(near), top, ratio)),
        near <= 3 && ratio >= 3 && top > 0 ==> less(base, deepened(base, Some(near), top, ratio)),
        deepened(base, None, top, ratio) == base,
{
    lemma_le_total(base, base);
}

/// Law: the home directory itself is at no depth, and what lies in it is as deep as it has
/// more components; what does not lie in it has no depth.
pub proof fn law_home_depth(path: Seq<char>, home: Seq<char>)
    ensures
        home_depth(home, Some(home)) == Some(0int),
        home_depth(path, Some(home)) is Some <==> parts(home).is_prefix_of(parts(path)),
        home_depth(path, Some(home)) matches Some(d) ==> d + parts(home).len() == parts(path).len(),
        home_depth(path, None) is None,
{
    assert(parts(home).is_prefix_of(parts(home)));
}

/// Law: of what the index gives, the fallbacks offer the best two hundred, best first:
/// nothing that is left out scores above anything that is offered, and nothing is left out
/// where there are no more than that.
pub proof fn law_best_of_index(list: Seq<Found>, k: int, i: int, j: int)
    ensures
        ({
            let r = first(ranked(list), FALLBACK_INDEX_LIMIT as int);
            &&& r.len() == if list.len() < 200 {
                list.len()
            } else {
                200
            }
            &&& 0 <= i < j < r.len() ==> le(r[j].score, r[i].score)
            &&& 0 <= i < r.len() ==> list.contains(r[i])
            &&& 0 <= k < list.len() && !r.contains(list[k]) && 0 <= i < r.len() ==> le(
                list[k].score,
                r[i].score,
            )
        }),
{
    broadcast use vstd::seq_lib::group_to_multiset_ensures;

    law_ranked(list);
    let all = ranked(list);
    let r = first(all, FALLBACK_INDEX_LIMIT as int);
    if 0 <= i < r.len() {
        assert(all.contains(all[i]));
        assert(all.to_multiset().count(all[i]) > 0);
        assert(list.contains(all[i]));
        if 0 <= k < list.len() && !r.contains(list[k]) {
            assert(list.contains(list[k]));
            assert(list.to_multiset().count(list[k]) > 0);
            assert(all.contains(list[k]));
            let at = choose|at: int| 0 <= at < all.len() && all[at] == list[k];
            if at < r.len() {
                assert(r[at] == list[k]);
            }
            assert(le(all[at].score, all[i].score));
        }
    }
}

/// Law: one keyword is compared as it is; a further one goes behind the others with a
/// hyphen between.
pub proof fn law_hyphened(keywords: Seq<Seq<char>>, more: Seq<char>)
    ensures
        hyphened(seq![more]) == more,
        keywords.len() > 0 ==> hyphened(keywords.push(more)) == hyphened(keywords) + seq!['-']
            + more,
{
    assert(keywords.push(more).drop_last() =~= keywords);
    assert(seq![more].last() == more);
}

} // verus!
