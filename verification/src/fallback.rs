//! What is looked for when no name holds the keywords: names that fit them loosely,
//! and names a few edits away.

use crate::db::{boost_index, first_boost, Found, HistoryEntry, ResultSource, SearchResult};
use crate::distance::{
    damerau_levenshtein,
    edit_distance_threshold,
    edits,
    law_length_filter,
    lowercase_char_len,
    most,
    threshold,
};
use crate::frecency::{decay, decay_since, elapsed};
use crate::fuzzy::{fits, fuzzy_match_words, words_match, Fuzzy};
use crate::path::{depth_below, file_name, name_of, opt_view, parts, within};
use crate::rank::{first, ranked, TopN};
use crate::score::{
    alike,
    deepened,
    demote,
    depth_bonus,
    fuzzy_history_score,
    fuzzy_index_base,
    loose_use_score,
    opt_depth,
    partial_use_score,
    typo_history_score,
    typo_index_base,
    typo_use_score,
    whole,
    Score,
    MAX_KEYWORDS,
};
use crate::sorted::reverse_into;
use crate::text::{
    byte_len,
    join,
    joined,
    lemma_texts_push,
    lemma_views_push,
    lowercase,
    texts,
    utf8_len,
    views,
};
use std::collections::HashMap;
use vstd::prelude::*;

verus! {

broadcast use vstd::std_specs::hash::group_hash_axioms;

/// The name that a path shows: its last component, or nothing where that is no name.
pub open spec fn shown_name(path: Seq<char>) -> Seq<char> {
    match name_of(path) {
        Some(name) => name,
        None => Seq::empty(),
    }
}

/// The name that a path shows.
pub fn name_or_empty(path: &str) -> (r: String)
    ensures
        r@ == shown_name(path@),
{
    match file_name(path) {
        Some(name) => name,
        None => String::new(),
    }
}

/// How many levels a path lies below the home directory, where it lies in it.
pub open spec fn home_depth(path: Seq<char>, home: Option<Seq<char>>) -> Option<int> {
    match home {
        Some(h) => if within(path, h) {
            Some(parts(path).len() - parts(h).len())
        } else {
            None
        },
        None => None,
    }
}

/// How many levels a path lies below the home directory, where it lies in it.
pub fn depth_from_home(path: &str, home: Option<&str>) -> (r: Option<usize>)
    ensures
        opt_depth(r) == home_depth(path@, opt_view(home)),
{
    match home {
        Some(h) => depth_below(path, h),
        None => None,
    }
}

/// A result and the boost that counts for it, as its place in the list of boosts.
#[derive(Debug)]
pub struct Scored {
    pub result: SearchResult,
    pub boost: Option<usize>,
}

/// What is said of a result and its boost.
pub struct ScoredFound {
    pub found: Found,
    pub boost: Option<int>,
}

impl View for Scored {
    type V = ScoredFound;

    open spec fn view(&self) -> ScoredFound {
        ScoredFound { found: self.result@, boost: opt_depth(self.boost) }
    }
}

/// A result with the boost that counts for its path.
pub open spec fn with_boost(found: Found, boosts: Seq<(Seq<char>, u64)>) -> ScoredFound {
    ScoredFound { found, boost: first_boost(boosts, found.path) }
}

/// A result for which no boost counts.
pub open spec fn unboosted(found: Found) -> ScoredFound {
    ScoredFound { found, boost: None }
}

// ---- loose matches among what was used ----

/// The used directories that are gone, in order.
pub open spec fn missing(
    entries: Seq<(Seq<char>, HistoryEntry)>,
    alive: Seq<bool>,
) -> Seq<Seq<char>>
    decreases entries.len(),
{
    if entries.len() == 0 || entries.len() != alive.len() {
        Seq::empty()
    } else {
        let front = missing(entries.drop_last(), alive.drop_last());
        if alive.last() {
            front
        } else {
            front.push(entries.last().0)
        }
    }
}

/// The used directories that are gone, in order.
pub fn missing_paths(entries: &Vec<(String, HistoryEntry)>, alive: &Vec<bool>) -> (r: Vec<String>)
    requires
        alive@.len() == entries@.len(),
    ensures
        texts(r@) == missing(views(entries@), alive@),
{
    let ghost all = views(entries@);
    let mut out: Vec<String> = Vec::new();
    let mut i: usize = 0;
    assert(all.take(0) =~= Seq::empty());
    assert(texts(out@) =~= missing(all.take(0), alive@.take(0)));
    while i < entries.len()
        invariant
            all == views(entries@),
            alive@.len() == all.len(),
            i <= all.len(),
            texts(out@) == missing(all.take(i as int), alive@.take(i as int)),
        decreases all.len() - i,
    {
        assert(all.take(i + 1).drop_last() =~= all.take(i as int));
        assert(alive@.take(i + 1).drop_last() =~= alive@.take(i as int));
        assert(all.take(i + 1).last() == entries@[i as int]@);
        if !alive[i] {
            let path = entries[i].0.clone();
            proof {
                lemma_texts_push(out@, path);
            }
            out.push(path);
        }
        i = i + 1;
    }
    assert(all.take(all.len() as int) =~= all);
    assert(alive@.take(all.len() as int) =~= alive@);
    out
}

/// A used directory with the given score.
pub open spec fn used_found(path: Seq<char>, score: Score) -> Found {
    Found { path, score, source: ResultSource::History }
}

/// The used directories that are there and whose loose score is above nothing.
pub open spec fn loose_hits(
    entries: Seq<(Seq<char>, HistoryEntry)>,
    alive: Seq<bool>,
    scores: Seq<Option<u32>>,
    now: u64,
) -> Seq<Found>
    decreases entries.len(),
{
    if entries.len() == 0 || entries.len() != alive.len() || entries.len() != scores.len() {
        Seq::empty()
    } else {
        let front = loose_hits(entries.drop_last(), alive.drop_last(), scores.drop_last(), now);
        let (path, e) = entries.last();
        match scores.last() {
            Some(s) => if alive.last() && s > 0 {
                front.push(
                    used_found(
                        path,
                        loose_use_score(
                            e.selections as int,
                            e.visits as int,
                            decay(elapsed(e.last_access, now)),
                            s as int,
                        ),
                    ),
                )
            } else {
                front
            },
            None => front,
        }
    }
}

/// The used directories that match loosely, from the score of each name.
pub fn fuzzy_history(
    entries: &Vec<(String, HistoryEntry)>,
    alive: &Vec<bool>,
    scores: &Vec<Option<u32>>,
    now: u64,
) -> (r: Vec<SearchResult>)
    requires
        alive@.len() == entries@.len(),
        scores@.len() == entries@.len(),
    ensures
        views(r@) == loose_hits(views(entries@), alive@, scores@, now),
{
    let ghost all = views(entries@);
    let mut out: Vec<SearchResult> = Vec::new();
    let mut i: usize = 0;
    assert(all.take(0) =~= Seq::empty());
    assert(views(out@) =~= loose_hits(all.take(0), alive@.take(0), scores@.take(0), now));
    while i < entries.len()
        invariant
            all == views(entries@),
            alive@.len() == all.len(),
            scores@.len() == all.len(),
            i <= all.len(),
            views(out@) == loose_hits(
                all.take(i as int),
                alive@.take(i as int),
                scores@.take(i as int),
                now,
            ),
        decreases all.len() - i,
    {
        assert(all.take(i + 1).drop_last() =~= all.take(i as int));
        assert(alive@.take(i + 1).drop_last() =~= alive@.take(i as int));
        assert(scores@.take(i + 1).drop_last() =~= scores@.take(i as int));
        assert(all.take(i + 1).last() == entries@[i as int]@);
        if let Some(s) = scores[i] {
            if alive[i] && s > 0 {
                let e = entries[i].1;
                let hit = SearchResult {
                    path: entries[i].0.clone(),
                    score: fuzzy_history_score(
                        e.selections,
                        e.visits,
                        decay_since(e.last_access, now),
                        s as u64,
                    ),
                    source: ResultSource::History,
                };
                proof {
                    lemma_views_push(out@, hit);
                }
                out.push(hit);
            }
        }
        i = i + 1;
    }
    assert(all.take(all.len() as int) =~= all);
    assert(alive@.take(all.len() as int) =~= alive@);
    assert(scores@.take(all.len() as int) =~= scores@);
    out
}

/// The loose score of the name of each entry.
pub open spec fn entry_scores<T>(query: Seq<char>, entries: Seq<(Seq<char>, T)>) -> Seq<Option<u32>> {
    Seq::new(entries.len(), |i: int| fits(query, shown_name(entries[i].0)))
}

/// Scores the name of each used directory.
pub fn score_history(fuzzy: &mut Fuzzy, query: &str, entries: &Vec<(String, HistoryEntry)>) -> (r:
    Vec<Option<u32>>)
    ensures
        r@ == entry_scores(query@, views(entries@)),
{
    let mut out: Vec<Option<u32>> = Vec::new();
    let mut i: usize = 0;
    while i < entries.len()
        invariant
            i <= entries@.len(),
            out@.len() == i,
            forall|k: int|
                0 <= k < i ==> #[trigger] out@[k] == fits(query@, shown_name(entries@[k].0@)),
        decreases entries@.len() - i,
    {
        let name = name_or_empty(entries[i].0.as_str());
        out.push(fuzzy.score(query, name.as_str()));
        i = i + 1;
    }
    assert(out@ =~= entry_scores(query@, views(entries@)));
    out
}

/// What keywords earn on a name, as far as it matches: a sum and a count.
pub open spec fn match_view(m: Option<(u64, usize)>) -> Option<(int, int)> {
    match m {
        Some((sum, count)) => Some((sum as int, count as int)),
        None => None,
    }
}

/// What keywords earn on some names.
pub open spec fn match_views(list: Seq<Option<(u64, usize)>>) -> Seq<Option<(int, int)>> {
    Seq::new(list.len(), |i: int| match_view(list[i]))
}

/// What the keywords earn on the name of each entry.
pub open spec fn entry_matches<T>(
    keywords: Seq<Seq<char>>,
    entries: Seq<(Seq<char>, T)>,
) -> Seq<Option<(int, int)>> {
    Seq::new(entries.len(), |i: int| words_match(keywords, shown_name(entries[i].0)))
}

/// The used directories that are there and match a part of `total` keywords, demoted
/// by the square of that part within their tier.
pub open spec fn partial_hits(
    entries: Seq<(Seq<char>, HistoryEntry)>,
    alive: Seq<bool>,
    matches: Seq<Option<(int, int)>>,
    total: int,
    now: u64,
) -> Seq<Found>
    decreases entries.len(),
{
    if entries.len() == 0 || entries.len() != alive.len() || entries.len() != matches.len() {
        Seq::empty()
    } else {
        let front = partial_hits(
            entries.drop_last(),
            alive.drop_last(),
            matches.drop_last(),
            total,
            now,
        );
        let (path, e) = entries.last();
        match matches.last() {
            Some((sum, count)) => if alive.last() {
                front.push(
                    used_found(
                        path,
                        partial_use_score(
                            e.selections as int,
                            e.visits as int,
                            decay(elapsed(e.last_access, now)),
                            sum,
                            count,
                            total,
                        ),
                    ),
                )
            } else {
                front
            },
            None => front,
        }
    }
}

/// The used directories that match some of `total` keywords, from what the keywords
/// earn on each name.
pub fn fuzzy_history_multi(
    entries: &Vec<(String, HistoryEntry)>,
    alive: &Vec<bool>,
    matches: &Vec<Option<(u64, usize)>>,
    total: usize,
    now: u64,
) -> (r: Vec<SearchResult>)
    requires
        alive@.len() == entries@.len(),
        matches@.len() == entries@.len(),
        0 < total <= MAX_KEYWORDS,
        forall|i: int|
            0 <= i < matches@.len() ==> (#[trigger] matches@[i] matches Some(m) ==> m.1 <= total),
    ensures
        views(r@) == partial_hits(
            views(entries@),
            alive@,
            match_views(matches@),
            total as int,
            now,
        ),
{
    let ghost all = views(entries@);
    let ghost earned = match_views(matches@);
    let mut out: Vec<SearchResult> = Vec::new();
    let mut i: usize = 0;
    assert(all.take(0) =~= Seq::empty());
    assert(views(out@) =~= partial_hits(
        all.take(0),
        alive@.take(0),
        earned.take(0),
        total as int,
        now,
    ));
    while i < entries.len()
        invariant
            all == views(entries@),
            earned == match_views(matches@),
            alive@.len() == all.len(),
            matches@.len() == all.len(),
            0 < total <= MAX_KEYWORDS,
            forall|i: int|
                0 <= i < matches@.len() ==> (#[trigger] matches@[i] matches Some(m) ==> m.1
                    <= total),
            i <= all.len(),
            views(out@) == partial_hits(
                all.take(i as int),
                alive@.take(i as int),
                earned.take(i as int),
                total as int,
                now,
            ),
        decreases all.len() - i,
    {
        assert(all.take(i + 1).drop_last() =~= all.take(i as int));
        assert(alive@.take(i + 1).drop_last() =~= alive@.take(i as int));
        assert(earned.take(i + 1).drop_last() =~= earned.take(i as int));
        assert(earned.take(i + 1).last() == match_view(matches@[i as int]));
        assert(all.take(i + 1).last() == entries@[i as int]@);
        if let Some((sum, count)) = matches[i] {
            if alive[i] {
                let e = entries[i].1;
                let base = fuzzy_history_score(
                    e.selections,
                    e.visits,
                    decay_since(e.last_access, now),
                    sum,
                );
                let hit = SearchResult {
                    path: entries[i].0.clone(),
                    score: demote(base, e.selections > 0, count, total),
                    source: ResultSource::History,
                };
                proof {
                    lemma_views_push(out@, hit);
                }
                out.push(hit);
            }
        }
        i = i + 1;
    }
    assert(all.take(all.len() as int) =~= all);
    assert(alive@.take(all.len() as int) =~= alive@);
    assert(earned.take(all.len() as int) =~= earned);
    out
}

/// What the keywords earn on one name.
pub fn match_name(fuzzy: &mut Fuzzy, keywords: &Vec<String>, name: &str) -> (r: Option<
    (u64, usize),
>)
    requires
        keywords@.len() <= MAX_KEYWORDS,
    ensures
        match_view(r) == words_match(texts(keywords@), name@),
        r matches Some(m) ==> m.1 <= keywords@.len(),
{
    match fuzzy_match_words(fuzzy, keywords, name) {
        Some((sum, count)) => {
            assert(count * 0xffff_ffff <= 0x40_0000 * 0xffff_ffff);
            Some((sum as u64, count))
        },
        None => None,
    }
}

/// What the keywords earn on the name of each used directory.
pub fn match_history(
    fuzzy: &mut Fuzzy,
    keywords: &Vec<String>,
    entries: &Vec<(String, HistoryEntry)>,
) -> (r: Vec<Option<(u64, usize)>>)
    requires
        keywords@.len() <= MAX_KEYWORDS,
    ensures
        match_views(r@) == entry_matches(texts(keywords@), views(entries@)),
        forall|i: int|
            0 <= i < r@.len() ==> (#[trigger] r@[i] matches Some(m) ==> m.1 <= keywords@.len()),
{
    let mut out: Vec<Option<(u64, usize)>> = Vec::new();
    let mut i: usize = 0;
    while i < entries.len()
        invariant
            keywords@.len() <= MAX_KEYWORDS,
            i <= entries@.len(),
            out@.len() == i,
            forall|k: int|
                0 <= k < i ==> match_view(#[trigger] out@[k]) == words_match(
                    texts(keywords@),
                    shown_name(entries@[k].0@),
                ),
            forall|k: int|
                0 <= k < i ==> (#[trigger] out@[k] matches Some(m) ==> m.1 <= keywords@.len()),
        decreases entries@.len() - i,
    {
        let name = name_or_empty(entries[i].0.as_str());
        out.push(match_name(fuzzy, keywords, name.as_str()));
        i = i + 1;
    }
    assert(match_views(out@) =~= entry_matches(texts(keywords@), views(entries@)));
    out
}

// ---- names a few edits away ----

/// How far a name is from the query, without regard to case.
pub open spec fn name_distance(query: Seq<char>, name: Seq<char>) -> int {
    edits(lowercase(query), lowercase(name))
}

/// Whether a name is near enough to the query to count as meant.
pub open spec fn near(query: Seq<char>, name: Seq<char>) -> bool {
    name_distance(query, name) <= threshold(query.len() as int)
}

/// The number of bytes of the longer of two texts.
pub open spec fn longer_len(query: Seq<char>, name: Seq<char>) -> int {
    most(utf8_len(query) as int, utf8_len(name) as int)
}

/// How far a name is from the query, where it is near enough. `query_len` is the length
/// of the query in lowercase: names whose length differs too much are not compared.
pub fn near_distance(query: &str, query_len: usize, name: &str) -> (r: Option<usize>)
    requires
        query_len == lowercase(query@).len(),
    ensures
        match r {
            Some(d) => near(query@, name@) && d == name_distance(query@, name@),
            None => !near(query@, name@),
        },
{
    let max_dist: usize = edit_distance_threshold(query);
    let name_len: usize = lowercase_char_len(name);
    let apart: usize = if name_len >= query_len {
        name_len - query_len
    } else {
        query_len - name_len
    };
    if apart > max_dist {
        proof {
            law_length_filter(lowercase(query@), lowercase(name@), max_dist as int);
        }
        return None;
    }
    let dist: usize = damerau_levenshtein(query, name);
    if dist <= max_dist {
        Some(dist)
    } else {
        None
    }
}

/// The number of bytes of the longer of two texts.
fn longer(query: &str, name: &str) -> (r: usize)
    ensures
        r == longer_len(query@, name@),
{
    let a: usize = byte_len(query);
    let b: usize = byte_len(name);
    if a >= b {
        a
    } else {
        b
    }
}

/// The used directories that are there and whose name is near the query.
pub open spec fn typo_hits(
    entries: Seq<(Seq<char>, HistoryEntry)>,
    alive: Seq<bool>,
    query: Seq<char>,
    now: u64,
) -> Seq<Found>
    decreases entries.len(),
{
    if entries.len() == 0 || entries.len() != alive.len() {
        Seq::empty()
    } else {
        let front = typo_hits(entries.drop_last(), alive.drop_last(), query, now);
        let (path, e) = entries.last();
        let name = shown_name(path);
        if alive.last() && near(query, name) {
            front.push(
                used_found(
                    path,
                    typo_use_score(
                        e.selections as int,
                        e.visits as int,
                        decay(elapsed(e.last_access, now)),
                        name_distance(query, name),
                        longer_len(query, name),
                    ),
                ),
            )
        } else {
            front
        }
    }
}

/// The query that names are compared with: the keywords with `-` between them.
pub open spec fn hyphened(keywords: Seq<Seq<char>>) -> Seq<char> {
    joined(keywords, seq!['-'])
}

/// The query that names are compared with.
pub fn join_query(keywords: &Vec<String>) -> (r: String)
    ensures
        r@ == hyphened(texts(keywords@)),
{
    proof {
        reveal_strlit("-");
        assert("-"@ =~= seq!['-']);
    }
    join(keywords, "-")
}

/// The used directories whose name is a few edits from the query.
pub fn typo_history(
    entries: &Vec<(String, HistoryEntry)>,
    alive: &Vec<bool>,
    query: &str,
    now: u64,
) -> (r: Vec<SearchResult>)
    requires
        alive@.len() == entries@.len(),
    ensures
        views(r@) == typo_hits(views(entries@), alive@, query@, now),
{
    let query_len: usize = lowercase_char_len(query);
    let ghost all = views(entries@);
    let mut out: Vec<SearchResult> = Vec::new();
    let mut i: usize = 0;
    assert(all.take(0) =~= Seq::empty());
    assert(views(out@) =~= typo_hits(all.take(0), alive@.take(0), query@, now));
    while i < entries.len()
        invariant
            query_len == lowercase(query@).len(),
            all == views(entries@),
            alive@.len() == all.len(),
            i <= all.len(),
            views(out@) == typo_hits(all.take(i as int), alive@.take(i as int), query@, now),
        decreases all.len() - i,
    {
        assert(all.take(i + 1).drop_last() =~= all.take(i as int));
        assert(alive@.take(i + 1).drop_last() =~= alive@.take(i as int));
        assert(all.take(i + 1).last() == entries@[i as int]@);
        if alive[i] {
            let name = name_or_empty(entries[i].0.as_str());
            if let Some(dist) = near_distance(query, query_len, name.as_str()) {
                let e = entries[i].1;
                let hit = SearchResult {
                    path: entries[i].0.clone(),
                    score: typo_history_score(
                        e.selections,
                        e.visits,
                        decay_since(e.last_access, now),
                        dist,
                        longer(query, name.as_str()),
                    ),
                    source: ResultSource::History,
                };
                proof {
                    lemma_views_push(out@, hit);
                }
                out.push(hit);
            }
        }
        i = i + 1;
    }
    assert(all.take(all.len() as int) =~= all);
    assert(alive@.take(all.len() as int) =~= alive@);
    out
}

// ---- the index, in two steps: first the names, then the paths ----

/// How many indexed directories the fallbacks offer at most.
pub const FALLBACK_INDEX_LIMIT: usize = 200;

/// Up to how many candidates their paths are fetched one by one.
pub const CANDIDATE_PROBE_LIMIT: usize = 20000;

/// The name of an indexed directory, and the number of its row.
#[derive(Debug)]
pub struct IndexName {
    pub rowid: i64,
    pub basename_lower: String,
}

impl View for IndexName {
    type V = (i64, Seq<char>);

    open spec fn view(&self) -> (i64, Seq<char>) {
        (self.rowid, self.basename_lower@)
    }
}

/// Whether a base score leaves room for what is added to it.
pub open spec fn roomy(score: Score) -> bool {
    0 <= score.units <= 0x4000_0000_0000_0000_0000_0000_0000_0000
}

/// The indexed names whose loose score is above nothing, with what their names are worth.
pub open spec fn loose_candidates(
    names: Seq<(i64, Seq<char>)>,
    scores: Seq<Option<u32>>,
) -> Seq<(Score, i64)>
    decreases names.len(),
{
    if names.len() == 0 || names.len() != scores.len() {
        Seq::empty()
    } else {
        let front = loose_candidates(names.drop_last(), scores.drop_last());
        match scores.last() {
            Some(s) => if s > 0 {
                front.push((whole(s * 300), names.last().0))
            } else {
                front
            },
            None => front,
        }
    }
}

/// The indexed names that all of `total` keywords match.
pub open spec fn full_candidates(
    names: Seq<(i64, Seq<char>)>,
    matches: Seq<Option<(int, int)>>,
    total: int,
) -> Seq<(Score, i64)>
    decreases names.len(),
{
    if names.len() == 0 || names.len() != matches.len() {
        Seq::empty()
    } else {
        let front = full_candidates(names.drop_last(), matches.drop_last(), total);
        match matches.last() {
            Some((sum, count)) => if count >= total {
                front.push((whole(sum * 300), names.last().0))
            } else {
                front
            },
            None => front,
        }
    }
}

/// The indexed names that are near the query.
pub open spec fn typo_candidates(names: Seq<(i64, Seq<char>)>, query: Seq<char>) -> Seq<
    (Score, i64),
>
    decreases names.len(),
{
    if names.len() == 0 {
        Seq::empty()
    } else {
        let front = typo_candidates(names.drop_last(), query);
        let (rowid, name) = names.last();
        if near(query, name) {
            front.push(
                (alike(0, 300000, name_distance(query, name), longer_len(query, name)), rowid),
            )
        } else {
            front
        }
    }
}

/// The indexed names that match loosely, from the score of each.
pub fn fuzzy_index(names: &Vec<IndexName>, scores: &Vec<Option<u32>>) -> (r: Vec<(Score, i64)>)
    requires
        scores@.len() == names@.len(),
    ensures
        r@ == loose_candidates(views(names@), scores@),
        forall|i: int| 0 <= i < r@.len() ==> roomy((#[trigger] r@[i]).0),
{
    let ghost all = views(names@);
    let mut out: Vec<(Score, i64)> = Vec::new();
    let mut i: usize = 0;
    assert(all.take(0) =~= Seq::empty());
    assert(out@ =~= loose_candidates(all.take(0), scores@.take(0)));
    while i < names.len()
        invariant
            all == views(names@),
            scores@.len() == all.len(),
            i <= all.len(),
            out@ == loose_candidates(all.take(i as int), scores@.take(i as int)),
            forall|k: int| 0 <= k < out@.len() ==> roomy((#[trigger] out@[k]).0),
        decreases all.len() - i,
    {
        assert(all.take(i + 1).drop_last() =~= all.take(i as int));
        assert(scores@.take(i + 1).drop_last() =~= scores@.take(i as int));
        assert(all.take(i + 1).last() == names@[i as int]@);
        if let Some(s) = scores[i] {
            if s > 0 {
                out.push((fuzzy_index_base(s as u64), names[i].rowid));
            }
        }
        i = i + 1;
    }
    assert(all.take(all.len() as int) =~= all);
    assert(scores@.take(all.len() as int) =~= scores@);
    out
}

/// The indexed names that all of `total` keywords match, from what the keywords earn on
/// each.
pub fn fuzzy_index_multi(
    names: &Vec<IndexName>,
    matches: &Vec<Option<(u64, usize)>>,
    total: usize,
) -> (r: Vec<(Score, i64)>)
    requires
        matches@.len() == names@.len(),
    ensures
        r@ == full_candidates(views(names@), match_views(matches@), total as int),
        forall|i: int| 0 <= i < r@.len() ==> roomy((#[trigger] r@[i]).0),
{
    let ghost all = views(names@);
    let ghost earned = match_views(matches@);
    let mut out: Vec<(Score, i64)> = Vec::new();
    let mut i: usize = 0;
    assert(all.take(0) =~= Seq::empty());
    assert(out@ =~= full_candidates(all.take(0), earned.take(0), total as int));
    while i < names.len()
        invariant
            all == views(names@),
            earned == match_views(matches@),
            matches@.len() == all.len(),
            i <= all.len(),
            out@ == full_candidates(all.take(i as int), earned.take(i as int), total as int),
            forall|k: int| 0 <= k < out@.len() ==> roomy((#[trigger] out@[k]).0),
        decreases all.len() - i,
    {
        assert(all.take(i + 1).drop_last() =~= all.take(i as int));
        assert(earned.take(i + 1).drop_last() =~= earned.take(i as int));
        assert(earned.take(i + 1).last() == match_view(matches@[i as int]));
        assert(all.take(i + 1).last() == names@[i as int]@);
        if let Some((sum, count)) = matches[i] {
            if count >= total {
                out.push((fuzzy_index_base(sum), names[i].rowid));
            }
        }
        i = i + 1;
    }
    assert(all.take(all.len() as int) =~= all);
    assert(earned.take(all.len() as int) =~= earned);
    out
}

/// The loose score of each indexed name.
pub open spec fn indexed_scores(query: Seq<char>, names: Seq<(i64, Seq<char>)>) -> Seq<
    Option<u32>,
> {
    Seq::new(names.len(), |i: int| fits(query, names[i].1))
}

/// What the keywords earn on each indexed name.
pub open spec fn indexed_matches(
    keywords: Seq<Seq<char>>,
    names: Seq<(i64, Seq<char>)>,
) -> Seq<Option<(int, int)>> {
    Seq::new(names.len(), |i: int| words_match(keywords, names[i].1))
}

/// The loose score of each indexed name.
pub fn score_names(fuzzy: &mut Fuzzy, query: &str, names: &Vec<IndexName>) -> (r: Vec<Option<u32>>)
    ensures
        r@ == indexed_scores(query@, views(names@)),
{
    let mut out: Vec<Option<u32>> = Vec::new();
    let mut i: usize = 0;
    while i < names.len()
        invariant
            i <= names@.len(),
            out@.len() == i,
            forall|k: int|
                0 <= k < i ==> #[trigger] out@[k] == fits(query@, names@[k].basename_lower@),
        decreases names@.len() - i,
    {
        out.push(fuzzy.score(query, names[i].basename_lower.as_str()));
        i = i + 1;
    }
    assert(out@ =~= indexed_scores(query@, views(names@)));
    out
}

/// What the keywords earn on each indexed name.
pub fn match_names(fuzzy: &mut Fuzzy, keywords: &Vec<String>, names: &Vec<IndexName>) -> (r: Vec<
    Option<(u64, usize)>,
>)
    requires
        keywords@.len() <= MAX_KEYWORDS,
    ensures
        match_views(r@) == indexed_matches(texts(keywords@), views(names@)),
{
    let mut out: Vec<Option<(u64, usize)>> = Vec::new();
    let mut i: usize = 0;
    while i < names.len()
        invariant
            keywords@.len() <= MAX_KEYWORDS,
            i <= names@.len(),
            out@.len() == i,
            forall|k: int|
                0 <= k < i ==> match_view(#[trigger] out@[k]) == words_match(
                    texts(keywords@),
                    names@[k].basename_lower@,
                ),
        decreases names@.len() - i,
    {
        out.push(match_name(fuzzy, keywords, names[i].basename_lower.as_str()));
        i = i + 1;
    }
    assert(match_views(out@) =~= indexed_matches(texts(keywords@), views(names@)));
    out
}

/// The indexed names that are a few edits from the query.
pub fn typo_index(names: &Vec<IndexName>, query: &str) -> (r: Vec<(Score, i64)>)
    ensures
        r@ == typo_candidates(views(names@), query@),
        forall|i: int| 0 <= i < r@.len() ==> roomy((#[trigger] r@[i]).0),
{
    let query_len: usize = lowercase_char_len(query);
    let ghost all = views(names@);
    let mut out: Vec<(Score, i64)> = Vec::new();
    let mut i: usize = 0;
    assert(all.take(0) =~= Seq::empty());
    assert(out@ =~= typo_candidates(all.take(0), query@));
    while i < names.len()
        invariant
            query_len == lowercase(query@).len(),
            all == views(names@),
            i <= all.len(),
            out@ == typo_candidates(all.take(i as int), query@),
            forall|k: int| 0 <= k < out@.len() ==> roomy((#[trigger] out@[k]).0),
        decreases all.len() - i,
    {
        assert(all.take(i + 1).drop_last() =~= all.take(i as int));
        assert(all.take(i + 1).last() == names@[i as int]@);
        let name = names[i].basename_lower.as_str();
        if let Some(dist) = near_distance(query, query_len, name) {
            out.push((typo_index_base(dist, longer(query, name)), names[i].rowid));
        }
        i = i + 1;
    }
    assert(all.take(all.len() as int) =~= all);
    out
}

/// How the paths of the candidates are fetched.
#[derive(Debug)]
pub enum Fetch {
    /// One by one, by these row numbers in ascending order.
    ByRow(Vec<i64>),
    /// All paths of the index, in row order.
    Scan,
}

/// The row numbers of the candidates.
pub open spec fn rowids(candidates: Seq<(Score, i64)>) -> Seq<i64> {
    Seq::new(candidates.len(), |i: int| candidates[i].1)
}

/// Whether numbers do not fall.
pub open spec fn rising(list: Seq<i64>) -> bool {
    forall|i: int, j: int| 0 <= i <= j < list.len() ==> #[trigger] list[i] <= #[trigger] list[j]
}

/// Merges two rising lists.
fn merge_rows(a: &Vec<i64>, b: &Vec<i64>) -> (r: Vec<i64>)
    requires
        rising(a@),
        rising(b@),
    ensures
        rising(r@),
        r@.to_multiset() == a@.to_multiset().add(b@.to_multiset()),
{
    broadcast use vstd::seq_lib::group_to_multiset_ensures;

    let mut out: Vec<i64> = Vec::new();
    let mut i: usize = 0;
    let mut j: usize = 0;
    proof {
        assert(a@.take(0) =~= Seq::empty());
        assert(b@.take(0) =~= Seq::empty());
        assert(out@.to_multiset() =~= a@.take(0).to_multiset().add(b@.take(0).to_multiset()));
    }
    while i < a.len() || j < b.len()
        invariant
            rising(a@),
            rising(b@),
            i <= a@.len(),
            j <= b@.len(),
            rising(out@),
            out@.to_multiset() == a@.take(i as int).to_multiset().add(
                b@.take(j as int).to_multiset(),
            ),
            out@.len() > 0 && i < a@.len() ==> out@.last() <= a@[i as int],
            out@.len() > 0 && j < b@.len() ==> out@.last() <= b@[j as int],
        decreases a@.len() - i + b@.len() - j,
    {
        broadcast use vstd::seq_lib::group_to_multiset_ensures;

        let ghost before = out@;
        if j >= b.len() || (i < a.len() && a[i] <= b[j]) {
            assert(a@.take(i + 1) =~= a@.take(i as int).push(a@[i as int]));
            out.push(a[i]);
            assert(out@.to_multiset() =~= a@.take(i + 1).to_multiset().add(
                b@.take(j as int).to_multiset(),
            ));
            i = i + 1;
        } else {
            assert(b@.take(j + 1) =~= b@.take(j as int).push(b@[j as int]));
            out.push(b[j]);
            assert(out@.to_multiset() =~= a@.take(i as int).to_multiset().add(
                b@.take(j + 1).to_multiset(),
            ));
            j = j + 1;
        }
        assert forall|x: int, y: int| 0 <= x <= y < out@.len() implies #[trigger] out@[x]
            <= #[trigger] out@[y] by {
            if y == before.len() && x < before.len() {
                assert(before[x] <= before[before.len() - 1]);
            } else if y < before.len() {
                assert(before[x] <= before[y]);
            }
        }
    }
    assert(a@.take(a@.len() as int) =~= a@);
    assert(b@.take(b@.len() as int) =~= b@);
    out
}

/// Puts row numbers in ascending order.
fn sort_rows(list: Vec<i64>) -> (r: Vec<i64>)
    ensures
        rising(r@),
        r@.to_multiset() == list@.to_multiset(),
    decreases list@.len(),
{
    if list.len() <= 1 {
        return list;
    }
    let ghost all = list@;
    let mut front = list;
    let mid: usize = front.len() / 2;
    let back = front.split_off(mid);
    proof {
        assert(front@ + back@ =~= all);
        vstd::seq_lib::lemma_multiset_commutative(front@, back@);
    }
    let a = sort_rows(front);
    let b = sort_rows(back);
    merge_rows(&a, &b)
}

/// How to fetch the paths of the candidates: a few one by one, in row order, many by a
/// scan of the index.
pub fn fetch_plan(candidates: &Vec<(Score, i64)>) -> (r: Fetch)
    ensures
        match r {
            Fetch::ByRow(rows) => candidates@.len() <= CANDIDATE_PROBE_LIMIT && rising(rows@)
                && rows@.to_multiset() == rowids(candidates@).to_multiset(),
            Fetch::Scan => candidates@.len() > CANDIDATE_PROBE_LIMIT,
        },
{
    if candidates.len() > CANDIDATE_PROBE_LIMIT {
        return Fetch::Scan;
    }
    let mut rows: Vec<i64> = Vec::new();
    let mut i: usize = 0;
    while i < candidates.len()
        invariant
            i <= candidates@.len(),
            rows@.len() == i,
            forall|k: int| 0 <= k < i ==> #[trigger] rows@[k] == candidates@[k].1,
        decreases candidates@.len() - i,
    {
        rows.push(candidates[i].1);
        i = i + 1;
    }
    assert(rows@ =~= rowids(candidates@));
    Fetch::ByRow(sort_rows(rows))
}

/// What the name of a row's directory is worth: that of the last candidate of that row.
pub open spec fn base_score(candidates: Seq<(Score, i64)>, rowid: i64) -> Option<Score>
    decreases candidates.len(),
{
    if candidates.len() == 0 {
        None
    } else if candidates.last().1 == rowid {
        Some(candidates.last().0)
    } else {
        base_score(candidates.drop_last(), rowid)
    }
}

/// The candidates with their paths: what their names are worth and what their depth
/// adds to it, with the boosts that count for them.
pub open spec fn resolved(
    candidates: Seq<(Score, i64)>,
    fetched: Seq<(i64, Seq<char>)>,
    home: Option<Seq<char>>,
    top: int,
    ratio: int,
    boosts: Seq<(Seq<char>, u64)>,
) -> Seq<ScoredFound>
    decreases fetched.len(),
{
    if fetched.len() == 0 {
        Seq::empty()
    } else {
        let front = resolved(candidates, fetched.drop_last(), home, top, ratio, boosts);
        let (rowid, path) = fetched.last();
        match base_score(candidates, rowid) {
            Some(base) => front.push(
                with_boost(
                    Found {
                        path,
                        score: deepened(base, home_depth(path, home), top, ratio),
                        source: ResultSource::Filesystem,
                    },
                    boosts,
                ),
            ),
            None => front,
        }
    }
}

/// The base scores by row number.
fn base_scores(candidates: &Vec<(Score, i64)>) -> (r: HashMap<i64, Score>)
    ensures
        forall|rowid: i64|
            match base_score(candidates@, rowid) {
                Some(s) => #[trigger] r@.contains_key(rowid) && r@[rowid] == s,
                None => !r@.contains_key(rowid),
            },
{
    let mut map: HashMap<i64, Score> = HashMap::new();
    let mut i: usize = 0;
    assert(candidates@.take(0) =~= Seq::empty());
    while i < candidates.len()
        invariant
            i <= candidates@.len(),
            forall|rowid: i64|
                match base_score(candidates@.take(i as int), rowid) {
                    Some(s) => #[trigger] map@.contains_key(rowid) && map@[rowid] == s,
                    None => !map@.contains_key(rowid),
                },
        decreases candidates@.len() - i,
    {
        assert(candidates@.take(i + 1).drop_last() =~= candidates@.take(i as int));
        let (score, rowid) = candidates[i];
        let ghost before = map@;
        map.insert(rowid, score);
        assert forall|other: i64|
            match base_score(candidates@.take(i + 1), other) {
                Some(s) => #[trigger] map@.contains_key(other) && map@[other] == s,
                None => !map@.contains_key(other),
            } by {
            assert(before.contains_key(other) || !before.contains_key(other));
        }
        i = i + 1;
    }
    assert(candidates@.take(candidates@.len() as int) =~= candidates@);
    map
}

/// The base score of a row's candidate leaves room where those of all candidates do.
proof fn lemma_base_roomy(candidates: Seq<(Score, i64)>, rowid: i64)
    requires
        forall|i: int| 0 <= i < candidates.len() ==> roomy((#[trigger] candidates[i]).0),
    ensures
        base_score(candidates, rowid) matches Some(s) ==> roomy(s),
    decreases candidates.len(),
{
    if candidates.len() > 0 {
        let front = candidates.drop_last();
        assert(roomy(candidates[candidates.len() - 1].0));
        assert(forall|i: int| 0 <= i < front.len() ==> #[trigger] front[i] == candidates[i]);
        lemma_base_roomy(front, rowid);
    }
}

/// Scores the candidates whose paths were fetched, in the order in which they were.
pub fn resolve_candidates(
    candidates: &Vec<(Score, i64)>,
    fetched: &Vec<(i64, String)>,
    home: Option<&str>,
    top: u64,
    ratio: u64,
    boosts: &Vec<(String, u64)>,
) -> (r: Vec<Scored>)
    requires
        forall|i: int| 0 <= i < candidates@.len() ==> roomy((#[trigger] candidates@[i]).0),
    ensures
        views(r@) == resolved(
            candidates@,
            views(fetched@),
            opt_view(home),
            top as int,
            ratio as int,
            views(boosts@),
        ),
{
    let base = base_scores(candidates);
    let ghost all = views(fetched@);
    let mut out: Vec<Scored> = Vec::new();
    let mut i: usize = 0;
    assert(all.take(0) =~= Seq::empty());
    assert(views(out@) =~= resolved(
        candidates@,
        all.take(0),
        opt_view(home),
        top as int,
        ratio as int,
        views(boosts@),
    ));
    while i < fetched.len()
        invariant
            forall|i: int| 0 <= i < candidates@.len() ==> roomy((#[trigger] candidates@[i]).0),
            forall|rowid: i64|
                match base_score(candidates@, rowid) {
                    Some(s) => #[trigger] base@.contains_key(rowid) && base@[rowid] == s,
                    None => !base@.contains_key(rowid),
                },
            all == views(fetched@),
            i <= all.len(),
            views(out@) == resolved(
                candidates@,
                all.take(i as int),
                opt_view(home),
                top as int,
                ratio as int,
                views(boosts@),
            ),
        decreases all.len() - i,
    {
        assert(all.take(i + 1).drop_last() =~= all.take(i as int));
        assert(all.take(i + 1).last() == fetched@[i as int]@);
        let rowid: i64 = fetched[i].0;
        assert(base@.contains_key(rowid) || !base@.contains_key(rowid));
        if let Some(b) = base.get(&rowid) {
            proof {
                lemma_base_roomy(candidates@, rowid);
            }
            let path = fetched[i].1.clone();
            let depth = depth_from_home(path.as_str(), home);
            let score = depth_bonus(*b, depth, top, ratio);
            let boost = boost_index(boosts, path.as_str());
            let next = Scored {
                result: SearchResult { path, score, source: ResultSource::Filesystem },
                boost,
            };
            proof {
                lemma_views_push(out@, next);
            }
            out.push(next);
        }
        i = i + 1;
    }
    assert(all.take(all.len() as int) =~= all);
    out
}

/// The best of the results that the index gives in the fallbacks, best first.
pub fn best_of_index(results: Vec<SearchResult>) -> (r: Vec<SearchResult>)
    ensures
        views(r@) == first(ranked(views(results@)), FALLBACK_INDEX_LIMIT as int),
{
    let ghost all = views(results@);
    let mut results = results;
    let mut queue: Vec<SearchResult> = Vec::new();
    reverse_into(&mut results, &mut queue);
    let mut top = TopN::new(FALLBACK_INDEX_LIMIT);
    assert(top.pushed() + views(queue@).reverse() =~= all);
    while queue.len() > 0
        invariant
            top.wf(),
            top.limit() == FALLBACK_INDEX_LIMIT,
            top.pushed() + views(queue@).reverse() == all,
        decreases queue@.len(),
    {
        let ghost b = views(queue@);
        let hit = queue.pop().unwrap();
        proof {
            assert(b =~= views(queue@).push(hit@));
            assert(b.reverse() =~= seq![hit@] + views(queue@).reverse());
            assert(top.pushed().push(hit@) + views(queue@).reverse() =~= top.pushed()
                + b.reverse());
        }
        top.push(hit);
    }
    assert(top.pushed() =~= all);
    top.into_vec()
}

// ---- the fallbacks ----

/// What one level below the home directory adds to a loose match, in units.
pub const FUZZY_TOP: u64 = 300000;

/// What one level below the home directory adds to a near match, in units.
pub const TYPO_TOP: u64 = 150000;

/// What the next two levels share, in units.
pub const DEPTH_RATIO: u64 = 30000;

/// What a fallback finds before the paths of the indexed candidates are fetched.
#[derive(Debug)]
pub struct Fallback {
    /// The used directories that match.
    pub found: Vec<SearchResult>,
    /// The used directories that are gone.
    pub dead: Vec<String>,
    /// The indexed names that match, by row.
    pub candidates: Vec<(Score, i64)>,
    /// What one level below the home directory adds.
    pub top: u64,
}

/// The first keyword, or nothing where there is none.
pub open spec fn only_keyword(keywords: Seq<Seq<char>>) -> Seq<char> {
    if keywords.len() == 0 {
        Seq::empty()
    } else {
        keywords[0]
    }
}

/// The first keyword, or nothing where there is none.
pub fn first_keyword(keywords: &Vec<String>) -> (r: String)
    ensures
        r@ == only_keyword(texts(keywords@)),
{
    if keywords.len() == 0 {
        String::new()
    } else {
        keywords[0].clone()
    }
}

/// Looks for names that fit the keywords loosely. A used directory may match a part of
/// several keywords; an indexed one must match them all. `alive` says of each entry
/// whether its directory is there; `names` are those of the index.
pub fn fuzzy_fallback(
    fuzzy: &mut Fuzzy,
    keywords: &Vec<String>,
    entries: &Vec<(String, HistoryEntry)>,
    alive: &Vec<bool>,
    names: &Vec<IndexName>,
    now: u64,
) -> (r: Fallback)
    requires
        alive@.len() == entries@.len(),
        keywords@.len() <= MAX_KEYWORDS,
    ensures
        keywords@.len() <= 1 ==> views(r.found@) == loose_hits(
            views(entries@),
            alive@,
            entry_scores(only_keyword(texts(keywords@)), views(entries@)),
            now,
        ),
        keywords@.len() > 1 ==> views(r.found@) == partial_hits(
            views(entries@),
            alive@,
            entry_matches(texts(keywords@), views(entries@)),
            keywords@.len() as int,
            now,
        ),
        keywords@.len() <= 1 ==> r.candidates@ == loose_candidates(
            views(names@),
            indexed_scores(only_keyword(texts(keywords@)), views(names@)),
        ),
        keywords@.len() > 1 ==> r.candidates@ == full_candidates(
            views(names@),
            indexed_matches(texts(keywords@), views(names@)),
            keywords@.len() as int,
        ),
        texts(r.dead@) == missing(views(entries@), alive@),
        r.top == FUZZY_TOP,
        forall|i: int| 0 <= i < r.candidates@.len() ==> roomy((#[trigger] r.candidates@[i]).0),
{
    let dead = missing_paths(entries, alive);
    if keywords.len() <= 1 {
        let query = first_keyword(keywords);
        let scores = score_history(fuzzy, query.as_str(), entries);
        let found = fuzzy_history(entries, alive, &scores, now);
        let indexed = score_names(fuzzy, query.as_str(), names);
        let candidates = fuzzy_index(names, &indexed);
        Fallback { found, dead, candidates, top: FUZZY_TOP }
    } else {
        let matches = match_history(fuzzy, keywords, entries);
        assert(matches@.len() == match_views(matches@).len());
        let found = fuzzy_history_multi(entries, alive, &matches, keywords.len(), now);
        let indexed = match_names(fuzzy, keywords, names);
        assert(indexed@.len() == match_views(indexed@).len());
        let candidates = fuzzy_index_multi(names, &indexed, keywords.len());
        Fallback { found, dead, candidates, top: FUZZY_TOP }
    }
}

/// Looks for names a few edits from the keywords, which are joined with `-`.
pub fn typo_fallback(
    keywords: &Vec<String>,
    entries: &Vec<(String, HistoryEntry)>,
    alive: &Vec<bool>,
    names: &Vec<IndexName>,
    now: u64,
) -> (r: Fallback)
    requires
        alive@.len() == entries@.len(),
    ensures
        views(r.found@) == typo_hits(
            views(entries@),
            alive@,
            hyphened(texts(keywords@)),
            now,
        ),
        r.candidates@ == typo_candidates(views(names@), hyphened(texts(keywords@))),
        texts(r.dead@) == missing(views(entries@), alive@),
        r.top == TYPO_TOP,
        forall|i: int| 0 <= i < r.candidates@.len() ==> roomy((#[trigger] r.candidates@[i]).0),
{
    let dead = missing_paths(entries, alive);
    let query = join_query(keywords);
    let found = typo_history(entries, alive, query.as_str(), now);
    let candidates = typo_index(names, query.as_str());
    Fallback { found, dead, candidates, top: TYPO_TOP }
}

/// What a fallback finds in all: the used directories, then the best of the index.
pub fn join_fallback(found: Vec<SearchResult>, indexed: Vec<SearchResult>) -> (r: Vec<
    SearchResult,
>)
    ensures
        views(r@) == views(found@) + first(ranked(views(indexed@)), FALLBACK_INDEX_LIMIT as int),
{
    let mut all = found;
    let mut best = best_of_index(indexed);
    let ghost (a, b) = (views(all@), views(best@));
    all.append(&mut best);
    assert(views(all@) =~= a + b);
    all
}

} // verus!
