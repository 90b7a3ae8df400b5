//! From a query to the directory that is meant.

use crate::db::{
    boost_index,
    history_hits,
    index_hits,
    keyword_pattern,
    last_keyword,
    last_lower,
    single,
    Candidate,
    Found,
    KeyStore,
    ResultSource,
    SearchResult,
};
use crate::dirs::{base_of, basename_lower_of};
use crate::fallback::{
    depth_from_home,
    first_keyword,
    home_depth,
    only_keyword,
    unboosted,
    with_boost,
    Scored,
    ScoredFound,
};
use crate::path::{
    components,
    join_path,
    joined_path,
    opt_view,
    parts,
    path_starts_with,
    same,
    same_path,
    within,
};
use crate::rank::{ranked, sort_results};
use crate::score::{
    fresh_floor,
    index_score,
    larger,
    le,
    lemma_le_total,
    lemma_le_transitive,
    link_score,
    near_floor,
    place_score,
    score_max,
    Score,
    CWD_PROXIMITY,
    FRESH_TIER,
    TIER_LINK,
    TIER_SELECTED,
};
use crate::sorted::reverse_into;
use crate::table::lookup;
use crate::text::{
    concat2,
    contains_char,
    from_chars,
    lemma_line_end,
    lemma_line_some,
    lemma_texts_push,
    line_end,
    lemma_views_push,
    split_whitespace,
    texts,
    to_chars,
    trim,
    trimmed,
    views,
    words,
};
use std::collections::HashMap;
use vstd::prelude::*;
use vstd::string::*;

verus! {

broadcast use vstd::std_specs::hash::group_hash_axioms;

// ---- search by name ----

/// What an indexed directory is worth in a search by name.
pub open spec fn place_found(
    path: Seq<char>,
    query: Seq<char>,
    home: Option<Seq<char>>,
) -> Found {
    Found {
        path,
        score: place_score(base_of(path), query, home_depth(path, home)),
        source: ResultSource::Filesystem,
    }
}

/// What a search by name brings together: the directory of a link of that very name,
/// then those found by their history, then those found by their place.
pub open spec fn gathered(
    link: Option<Seq<char>>,
    history: Seq<Found>,
    places: Seq<Seq<char>>,
    query: Seq<char>,
    home: Option<Seq<char>>,
    boosts: Seq<(Seq<char>, u64)>,
) -> Seq<ScoredFound> {
    let linked = match link {
        Some(path) => seq![
            unboosted(Found { path, score: link_score(), source: ResultSource::Link }),
        ],
        None => Seq::empty(),
    };
    linked + Seq::new(history.len(), |i: int| with_boost(history[i], boosts)) + Seq::new(
        places.len(),
        |i: int| with_boost(place_found(places[i], query, home), boosts),
    )
}

/// What a search by name finds in the store.
pub open spec fn gathered_from(
    store: KeyStore,
    keywords: Seq<Seq<char>>,
    has_index: bool,
    link_alive: bool,
    alive: Seq<bool>,
    scanned: Seq<Seq<char>>,
    home: Option<Seq<char>>,
    boosts: Seq<(Seq<char>, u64)>,
    now: u64,
) -> Seq<ScoredFound> {
    let searched = if keywords.len() <= 1 {
        seq![only_keyword(keywords)]
    } else {
        keywords
    };
    let pattern = keyword_pattern(searched);
    let query = last_keyword(searched);
    let link = if keywords.len() <= 1 && link_alive {
        lookup(store.links.rows(), only_keyword(keywords))
    } else {
        None
    };
    let history = ranked(history_hits(store.dirs.rows(), alive, pattern, query, now));
    let places = if has_index {
        index_hits(store.dirs.rows(), pattern)
    } else if keywords.len() <= 1 {
        scanned
    } else {
        Seq::empty()
    };
    gathered(link, history, places, query, home, boosts)
}

/// Searches the store by name. `has_index` says whether anything at all is indexed,
/// `link_alive` whether the directory of a link of that name is there, `alive`, row by
/// row, whether a directory is there, and `scanned` holds what a scan of the disk
/// found, which counts for a single keyword where nothing is indexed.
pub fn gather_results(
    store: &KeyStore,
    keywords: &Vec<String>,
    has_index: bool,
    link_alive: bool,
    alive: &Vec<bool>,
    scanned: &Vec<String>,
    home: Option<&str>,
    boosts: &Vec<(String, u64)>,
    now: u64,
) -> (r: Vec<Scored>)
    requires
        alive@.len() == store.dirs.rows().len(),
    ensures
        views(r@) == gathered_from(
            *store,
            texts(keywords@),
            has_index,
            link_alive,
            alive@,
            texts(scanned@),
            opt_view(home),
            views(boosts@),
            now,
        ),
{
    let one = keywords.len() <= 1;
    let only = first_keyword(keywords);
    let first_only = single(only.as_str());
    let searched = if one {
        &first_only
    } else {
        keywords
    };
    let query = last_lower(searched);
    let mut out: Vec<Scored> = Vec::new();
    assert(views(out@) =~= Seq::empty());
    let ghost mut link: Option<Seq<char>> = None;
    if one && link_alive {
        if let Some(path) = store.get_link(only.as_str()) {
            proof {
                link = Some(path@);
            }
            let hit = Scored {
                result: SearchResult {
                    path,
                    score: Score { tier: TIER_LINK, units: 0, num: 0, over: 0 },
                    source: ResultSource::Link,
                },
                boost: None,
            };
            proof {
                lemma_views_push(out@, hit);
            }
            out.push(hit);
        }
    }
    let ghost linked = views(out@);
    assert(linked =~= match link {
        Some(path) => seq![
            unboosted(Found { path, score: link_score(), source: ResultSource::Link }),
        ],
        None => Seq::empty(),
    });
    let history = store.search_history_multi(searched, alive, now);
    let ghost from_history = views(history@);
    let ghost second = Seq::new(
        from_history.len(),
        |i: int| with_boost(from_history[i], views(boosts@)),
    );
    let mut history = history;
    // Taken from the end, so turned round first.
    let mut queue: Vec<SearchResult> = Vec::new();
    reverse_into(&mut history, &mut queue);
    let ghost mut done: int = 0;
    assert(linked + second.take(0) =~= linked);
    while queue.len() > 0
        invariant
            0 <= done,
            done + queue@.len() == from_history.len(),
            views(queue@).reverse() == from_history.skip(done),
            second == Seq::new(
                from_history.len(),
                |i: int| with_boost(from_history[i], views(boosts@)),
            ),
            views(out@) == linked + second.take(done),
        decreases queue@.len(),
    {
        let ghost b = views(queue@);
        let hit = queue.pop().unwrap();
        proof {
            assert(b =~= views(queue@).push(hit@));
            assert(b.reverse() =~= seq![hit@] + views(queue@).reverse());
            assert(from_history.skip(done)[0] == hit@);
            assert(from_history.skip(done).skip(1) =~= from_history.skip(done + 1));
            assert((seq![hit@] + views(queue@).reverse()).skip(1) =~= views(queue@).reverse());
        }
        let boost = boost_index(boosts, hit.path.as_str());
        let next = Scored { result: hit, boost };
        proof {
            lemma_views_push(out@, next);
            assert(second.take(done + 1) =~= second.take(done).push(next@));
            assert(linked + second.take(done + 1) =~= (linked + second.take(done)).push(next@));
            done = done + 1;
        }
        out.push(next);
    }
    assert(second.take(done) =~= second);
    let indexed: Vec<String> = if has_index {
        store.search_index_multi(searched)
    } else {
        Vec::new()
    };
    assert(texts(Seq::<String>::empty()) =~= Seq::empty());
    let places: &Vec<String> = if has_index || !one {
        &indexed
    } else {
        scanned
    };
    let ghost found = texts(places@);
    let ghost third = Seq::new(
        found.len(),
        |i: int| with_boost(place_found(found[i], query@, opt_view(home)), views(boosts@)),
    );
    let ghost before = linked + second;
    let mut i: usize = 0;
    assert(before + third.take(0) =~= before);
    while i < places.len()
        invariant
            found == texts(places@),
            i <= found.len(),
            third == Seq::new(
                found.len(),
                |i: int| with_boost(place_found(found[i], query@, opt_view(home)), views(boosts@)),
            ),
            views(out@) == before + third.take(i as int),
        decreases found.len() - i,
    {
        let path = places[i].clone();
        let basename = basename_lower_of(path.as_str());
        let depth = depth_from_home(path.as_str(), home);
        let score = index_score(basename.as_str(), query.as_str(), depth);
        let boost = boost_index(boosts, path.as_str());
        let next = Scored {
            result: SearchResult { path, score, source: ResultSource::Filesystem },
            boost,
        };
        proof {
            lemma_views_push(out@, next);
            assert(third.take(i + 1) =~= third.take(i as int).push(next@));
            assert(before + third.take(i + 1) =~= (before + third.take(i as int)).push(next@));
        }
        out.push(next);
        i = i + 1;
    }
    assert(third.take(found.len() as int) =~= third);
    out
}


// ---- from what was found to what is offered ----

/// The results without those whose path was there before.
pub open spec fn deduped(list: Seq<Found>) -> Seq<Found>
    decreases list.len(),
{
    if list.len() == 0 {
        list
    } else {
        let front = deduped(list.drop_last());
        if occurs(list.drop_last(), list.last().path) {
            front
        } else {
            front.push(list.last())
        }
    }
}

/// Whether a path is among those of the results.
pub open spec fn occurs(list: Seq<Found>, path: Seq<char>) -> bool {
    exists|i: int| 0 <= i < list.len() && same((#[trigger] list[i]).path, path)
}

/// A number from a number and a character.
spec fn mixed(h: u64, c: int) -> u64 {
    ((h * 1099511628211 + c) % 0x1_0000_0000_0000_0000) as u64
}

/// A number from a number and a text.
spec fn mixed_text(h: u64, s: Seq<char>) -> u64
    decreases s.len(),
{
    if s.len() == 0 {
        h
    } else {
        mixed(mixed_text(h, s.drop_last()), s.last() as int)
    }
}

/// A number for a list of components.
spec fn mixed_parts(list: Seq<Seq<char>>) -> u64
    decreases list.len(),
{
    if list.len() == 0 {
        0
    } else {
        mixed(mixed_text(mixed_parts(list.drop_last()), list.last()), 0x11_0000)
    }
}

/// A number from a number and a character.
fn mix(h: u64, c: u32) -> (r: u64)
    ensures
        r == mixed(h, c as int),
{
    let m: u128 = h as u128 * 1099511628211 + c as u128;
    (m % 0x1_0000_0000_0000_0000) as u64
}

/// The number of a character.
fn code_point(c: char) -> (r: u32)
    ensures
        r as int == c as int,
{
    c as u32
}

/// A number for a path: the same for all paths with the same components.
fn path_number(path: &str) -> (r: u64)
    ensures
        r == mixed_parts(parts(path@)),
{
    let list = components(path);
    let ghost all = parts(path@);
    let mut h: u64 = 0;
    let mut i: usize = 0;
    assert(all.take(0) =~= Seq::empty());
    while i < list.len()
        invariant
            texts(list@) == all,
            i <= list@.len(),
            h == mixed_parts(all.take(i as int)),
        decreases list@.len() - i,
    {
        let part = to_chars(list[i].as_str());
        let ghost start = h;
        let mut j: usize = 0;
        assert(part@.take(0) =~= Seq::empty());
        while j < part.len()
            invariant
                j <= part@.len(),
                h == mixed_text(start, part@.take(j as int)),
            decreases part@.len() - j,
        {
            assert(part@.take(j + 1).drop_last() =~= part@.take(j as int));
            assert(part@.take(j + 1).last() == part@[j as int]);
            h = mix(h, code_point(part[j]));
            j = j + 1;
        }
        assert(part@.take(part@.len() as int) =~= part@);
        assert(all.take(i + 1).drop_last() =~= all.take(i as int));
        assert(all.take(i + 1).last() == part@);
        h = mix(h, 0x11_0000);
        i = i + 1;
    }
    assert(all.take(all.len() as int) =~= all);
    h
}

/// A path is among the results exactly where it is among those without repetitions.
proof fn lemma_deduped(list: Seq<Found>, path: Seq<char>)
    ensures
        occurs(list, path) <==> occurs(deduped(list), path),
    decreases list.len(),
{
    if list.len() > 0 {
        let front = list.drop_last();
        let last = list.last();
        lemma_deduped(front, path);
        lemma_deduped(front, last.path);
        assert(forall|i: int| 0 <= i < front.len() ==> #[trigger] front[i] == list[i]);
        let part = deduped(front);
        let all = deduped(list);
        if occurs(list, path) {
            let i = choose|i: int| 0 <= i < list.len() && same((#[trigger] list[i]).path, path);
            if i < front.len() {
                assert(same(front[i].path, path));
                assert(occurs(part, path));
                let j = choose|j: int| 0 <= j < part.len() && same((#[trigger] part[j]).path, path);
                assert(all[j] == part[j]);
            } else if occurs(front, last.path) {
                assert(occurs(part, last.path));
                let j = choose|j: int|
                    0 <= j < part.len() && same((#[trigger] part[j]).path, last.path);
                assert(same(all[j].path, path));
            } else {
                assert(all[part.len() as int] == last);
            }
        }
        if occurs(all, path) {
            let j = choose|j: int| 0 <= j < all.len() && same((#[trigger] all[j]).path, path);
            if j < part.len() {
                assert(same(part[j].path, path));
                let i = choose|i: int|
                    0 <= i < front.len() && same((#[trigger] front[i]).path, path);
                assert(same(list[i].path, path));
            } else {
                assert(same(list[list.len() - 1].path, path));
            }
        }
    }
}

/// Law: without repetitions no path is there twice, and every path that was there still
/// is.
pub proof fn law_deduped(list: Seq<Found>)
    ensures
        forall|i: int, j: int|
            0 <= i < j < deduped(list).len() ==> !same(
                (#[trigger] deduped(list)[i]).path,
                (#[trigger] deduped(list)[j]).path,
            ),
        forall|path: Seq<char>|
            #![trigger occurs(list, path)]
            occurs(list, path) <==> occurs(deduped(list), path),
    decreases list.len(),
{
    assert forall|path: Seq<char>|
        #![trigger occurs(list, path)]
        occurs(list, path) <==> occurs(deduped(list), path) by {
        lemma_deduped(list, path);
    }
    if list.len() > 0 {
        let front = list.drop_last();
        law_deduped(front);
        lemma_deduped(front, list.last().path);
        let part = deduped(front);
        let all = deduped(list);
        assert forall|i: int, j: int| 0 <= i < j < all.len() implies !same(
            (#[trigger] all[i]).path,
            (#[trigger] all[j]).path,
        ) by {
            if j < part.len() {
                assert(!same(part[i].path, part[j].path));
            } else if same(all[i].path, all[j].path) {
                assert(same(part[i].path, list.last().path));
                assert(occurs(part, list.last().path));
            }
        }
    }
}

/// Whether `seen` leads from the number of each path to where its result stands, and
/// nowhere else.
spec fn leads(out: Seq<Found>, seen: Map<u64, Vec<usize>>) -> bool {
    &&& forall|k: int|
        0 <= k < out.len() ==> #[trigger] seen.contains_key(mixed_parts(parts(out[k].path)))
            && listed(seen[mixed_parts(parts(out[k].path))]@, k)
    &&& forall|n: u64| #[trigger] seen.contains_key(n) ==> all_below(seen[n]@, out.len() as int)
}

/// Whether a place is in a list.
spec fn listed(places: Seq<usize>, k: int) -> bool {
    exists|j: int| 0 <= j < places.len() && #[trigger] places[j] == k
}

/// Whether all places in a list are below a bound.
spec fn all_below(places: Seq<usize>, bound: int) -> bool {
    forall|j: int| 0 <= j < places.len() ==> #[trigger] places[j] < bound
}

/// Whether a path is among those of the results at the given places.
fn among(out: &Vec<SearchResult>, places: &Vec<usize>, path: &str) -> (r: bool)
    requires
        all_below(places@, out@.len() as int),
    ensures
        r ==> occurs(views(out@), path@),
        !r ==> forall|j: int|
            0 <= j < places@.len() ==> !same(
                views(out@)[(#[trigger] places@[j]) as int].path,
                path@,
            ),
{
    let mut i: usize = 0;
    while i < places.len()
        invariant
            all_below(places@, out@.len() as int),
            i <= places@.len(),
            forall|j: int|
                0 <= j < i ==> !same(views(out@)[(#[trigger] places@[j]) as int].path, path@),
        decreases places@.len() - i,
    {
        let at: usize = places[i];
        assert(views(out@)[at as int].path == out@[at as int].path@);
        if same_path(out[at].path.as_str(), path) {
            return true;
        }
        i = i + 1;
    }
    false
}

/// A path that is not among the results with its number is not among the results.
proof fn lemma_not_among(out: Seq<Found>, seen: Map<u64, Vec<usize>>, path: Seq<char>)
    requires
        leads(out, seen),
        seen.contains_key(mixed_parts(parts(path))) ==> forall|j: int|
            0 <= j < seen[mixed_parts(parts(path))]@.len() ==> !same(
                out[(#[trigger] seen[mixed_parts(parts(path))]@[j]) as int].path,
                path,
            ),
    ensures
        !occurs(out, path),
{
    if occurs(out, path) {
        let k = choose|k: int| 0 <= k < out.len() && same((#[trigger] out[k]).path, path);
        let n = mixed_parts(parts(path));
        assert(seen.contains_key(mixed_parts(parts(out[k].path))));
        let places = seen[n]@;
        assert(listed(places, k));
        let j = choose|j: int| 0 <= j < places.len() && #[trigger] places[j] == k;
        assert(!same(out[places[j] as int].path, path));
    }
}

/// The places stay right when a result is added and its place is noted.
proof fn lemma_leads_push(
    out: Seq<Found>,
    seen: Map<u64, Vec<usize>>,
    hit: Found,
    list: Vec<usize>,
    later: Map<u64, Vec<usize>>,
)
    requires
        leads(out, seen),
        later == seen.insert(mixed_parts(parts(hit.path)), list),
        list@.len() > 0,
        list@.last() == out.len(),
        list@.drop_last() == if seen.contains_key(mixed_parts(parts(hit.path))) {
            seen[mixed_parts(parts(hit.path))]@
        } else {
            Seq::empty()
        },
    ensures
        leads(out.push(hit), later),
{
    let number = mixed_parts(parts(hit.path));
    let all = out.push(hit);
    let fewer = list@.drop_last();
    assert forall|k: int| 0 <= k < all.len() implies #[trigger] later.contains_key(
        mixed_parts(parts(all[k].path)),
    ) && listed(later[mixed_parts(parts(all[k].path))]@, k) by {
        if k < out.len() {
            assert(all[k] == out[k]);
            let n = mixed_parts(parts(out[k].path));
            assert(seen.contains_key(n));
            if n == number {
                assert(listed(fewer, k));
                let j = choose|j: int| 0 <= j < fewer.len() && #[trigger] fewer[j] == k;
                assert(list@[j] == k);
            }
        } else {
            assert(list@[list@.len() - 1] == k);
        }
    }
    assert forall|n: u64| #[trigger] later.contains_key(n) implies all_below(
        later[n]@,
        all.len() as int,
    ) by {
        if n == number {
            assert forall|j: int| 0 <= j < list@.len() implies #[trigger] list@[j] < all.len() by {
                if j < fewer.len() {
                    assert(list@[j] == fewer[j]);
                    assert(seen.contains_key(number));
                    assert(all_below(seen[number]@, out.len() as int));
                }
            }
        } else {
            assert(seen.contains_key(n));
            assert(all_below(seen[n]@, out.len() as int));
            assert forall|j: int| 0 <= j < later[n]@.len() implies #[trigger] later[n]@[j]
                < all.len() by {
                assert(seen[n]@[j] < out.len());
            }
        }
    }
}

/// Drops each result whose path was there before.
pub fn dedup_results(results: Vec<SearchResult>) -> (r: Vec<SearchResult>)
    ensures
        views(r@) == deduped(views(results@)),
{
    let ghost all = views(results@);
    let mut results = results;
    let mut queue: Vec<SearchResult> = Vec::new();
    reverse_into(&mut results, &mut queue);
    let mut out: Vec<SearchResult> = Vec::new();
    // Under the number of a path: where the results with that number stand.
    let mut seen: HashMap<u64, Vec<usize>> = HashMap::new();
    let ghost mut done: Seq<Found> = Seq::empty();
    assert(views(out@) =~= deduped(done));
    assert(done + views(queue@).reverse() =~= all);
    while queue.len() > 0
        invariant
            done + views(queue@).reverse() == all,
            views(out@) == deduped(done),
            leads(views(out@), seen@),
        decreases queue@.len(),
    {
        let ghost b = views(queue@);
        let hit = queue.pop().unwrap();
        let ghost next = done.push(hit@);
        proof {
            assert(b =~= views(queue@).push(hit@));
            assert(b.reverse() =~= seq![hit@] + views(queue@).reverse());
            assert(next + views(queue@).reverse() =~= done + b.reverse());
            assert(next.drop_last() =~= done);
            lemma_deduped(done, hit.path@);
            done = next;
        }
        let number: u64 = path_number(hit.path.as_str());
        assert(seen@.contains_key(number) ==> all_below(seen@[number]@, out@.len() as int));
        let known = match seen.get(&number) {
            Some(places) => among(&out, places, hit.path.as_str()),
            None => false,
        };
        if !known {
            proof {
                lemma_not_among(views(out@), seen@, hit.path@);
            }
            let ghost before = seen@;
            let mut places: Vec<usize> = match seen.remove(&number) {
                Some(list) => list,
                None => Vec::new(),
            };
            let ghost fewer = places@;
            places.push(out.len());
            assert(places@.drop_last() =~= fewer);
            let ghost list = places;
            seen.insert(number, places);
            proof {
                assert(seen@ =~= before.insert(number, list));
                lemma_leads_push(views(out@), before, hit@, list, seen@);
                lemma_views_push(out@, hit);
            }
            out.push(hit);
        }
    }
    assert(done =~= all);
    out
}

/// How recently a directory must have been touched to count as fresh, in seconds.
pub const FRESH_WINDOW_SECS: u64 = 300;

/// The seconds since a directory was last touched; nothing where that is not known or
/// lies in the future.
pub open spec fn age(mtime: Option<u64>, now: u64) -> Option<int> {
    match mtime {
        Some(t) => if t <= now {
            Some(now - t)
        } else {
            None
        },
        None => None,
    }
}

/// The seconds since a directory was last touched.
pub fn dir_age_secs(mtime: Option<u64>, now: u64) -> (r: Option<u64>)
    ensures
        match r {
            Some(a) => age(mtime, now) == Some(a as int),
            None => age(mtime, now) is None,
        },
{
    match mtime {
        Some(t) => if t <= now {
            Some(now - t)
        } else {
            None
        },
        None => None,
    }
}

/// A result as it counts for someone who is in the directory `cwd`: what lies below it
/// is lifted to a floor, and what was touched there minutes ago, for a single keyword,
/// to a higher one.
pub open spec fn lifted(
    found: Found,
    cwd: Seq<char>,
    mtime: Option<u64>,
    now: u64,
    single: bool,
) -> Found {
    if !same(found.path, cwd) && within(found.path, cwd) {
        let near = larger(found.score, near_floor());
        let score = match age(mtime, now) {
            Some(a) => if single && a <= FRESH_WINDOW_SECS {
                larger(near, fresh_floor())
            } else {
                near
            },
            None => near,
        };
        Found { score, ..found }
    } else {
        found
    }
}

/// Law: nothing ranks lower for someone who is near it. What lies below the current
/// directory is at its floor or above, all else is as before, and of two results below
/// it, touched at one time, the better stays the better.
pub proof fn law_lifted(
    a: Found,
    b: Found,
    cwd: Seq<char>,
    mtime: Option<u64>,
    now: u64,
    single: bool,
)
    ensures
        le(a.score, lifted(a, cwd, mtime, now, single).score),
        lifted(a, cwd, mtime, now, single) == (Found {
            score: lifted(a, cwd, mtime, now, single).score,
            ..a
        }),
        within(a.path, cwd) && !same(a.path, cwd) ==> le(
            near_floor(),
            lifted(a, cwd, mtime, now, single).score,
        ),
        !within(a.path, cwd) || same(a.path, cwd) ==> lifted(a, cwd, mtime, now, single) == a,
        within(a.path, cwd) && !same(a.path, cwd) && within(b.path, cwd) && !same(b.path, cwd)
            && le(a.score, b.score) ==> le(
            lifted(a, cwd, mtime, now, single).score,
            lifted(b, cwd, mtime, now, single).score,
        ),
{
    let near = near_floor();
    let fresh = fresh_floor();
    lemma_larger(a.score, near);
    lemma_larger(b.score, near);
    let (x, y) = (larger(a.score, near), larger(b.score, near));
    lemma_larger(x, fresh);
    lemma_larger(y, fresh);
    lemma_le_transitive(a.score, x, larger(x, fresh));
    lemma_le_transitive(near, x, larger(x, fresh));
    lemma_le_total(a.score, a.score);
    if le(a.score, b.score) {
        lemma_larger_grows(a.score, b.score, near);
        lemma_larger_grows(x, y, fresh);
    }
}

/// The larger of two scores is at least each of them.
proof fn lemma_larger(a: Score, b: Score)
    ensures
        le(a, larger(a, b)),
        le(b, larger(a, b)),
{
    lemma_le_total(a, b);
    lemma_le_total(a, a);
    lemma_le_total(b, b);
}

/// A larger score stays the larger when both are raised to a floor.
proof fn lemma_larger_grows(a: Score, b: Score, floor: Score)
    requires
        le(a, b),
    ensures
        le(larger(a, floor), larger(b, floor)),
{
    lemma_larger(a, floor);
    lemma_larger(b, floor);
    lemma_le_transitive(a, b, larger(b, floor));
}

/// Lifts the results below the current directory. `mtimes` says when each directory was
/// last touched.
pub fn apply_cwd_proximity(
    results: &mut Vec<SearchResult>,
    cwd: &str,
    mtimes: &Vec<Option<u64>>,
    now: u64,
    single: bool,
)
    requires
        mtimes@.len() == old(results)@.len(),
    ensures
        final(results)@.len() == old(results)@.len(),
        forall|i: int|
            0 <= i < final(results)@.len() ==> (#[trigger] final(results)@[i])@ == lifted(
                old(results)@[i]@,
                cwd@,
                mtimes@[i],
                now,
                single,
            ),
{
    let ghost before = results@;
    let mut i: usize = 0;
    while i < results.len()
        invariant
            results@.len() == before.len(),
            mtimes@.len() == before.len(),
            i <= before.len(),
            forall|k: int|
                0 <= k < i ==> (#[trigger] results@[k])@ == lifted(
                    before[k]@,
                    cwd@,
                    mtimes@[k],
                    now,
                    single,
                ),
            forall|k: int| i <= k < before.len() ==> #[trigger] results@[k] == before[k],
        decreases before.len() - i,
    {
        let path = results[i].path.clone();
        let source = results[i].source;
        let mut score = results[i].score;
        if !same_path(path.as_str(), cwd) && path_starts_with(path.as_str(), cwd) {
            score = score_max(score, Score { tier: TIER_SELECTED, units: CWD_PROXIMITY, num: 0, over: 0 });
            if let Some(a) = dir_age_secs(mtimes[i], now) {
                if single && a <= FRESH_WINDOW_SECS {
                    score = score_max(score, Score { tier: TIER_SELECTED, units: FRESH_TIER, num: 0, over: 0 });
                }
            }
        }
        results.set(i, SearchResult { path, score, source });
        i = i + 1;
    }
}

/// A result as it counts for someone whose current directory is `cwd`, where that is
/// known.
pub open spec fn seen_from(
    found: Found,
    cwd: Option<Seq<char>>,
    mtime: Option<u64>,
    now: u64,
    single: bool,
) -> Found {
    match cwd {
        Some(dir) => lifted(found, dir, mtime, now, single),
        None => found,
    }
}

/// When the directory at `path` was last touched, as `mtimes` says for the first result
/// with that path.
pub open spec fn touched(
    found: Seq<Found>,
    mtimes: Seq<Option<u64>>,
    path: Seq<char>,
) -> Option<u64>
    decreases found.len(),
{
    if found.len() == 0 || mtimes.len() != found.len() {
        None
    } else if occurs(found.drop_last(), path) {
        touched(found.drop_last(), mtimes.drop_last(), path)
    } else {
        mtimes.last()
    }
}

/// The results without repetitions, as they count for someone in `cwd`.
pub open spec fn nearby(
    found: Seq<Found>,
    cwd: Option<Seq<char>>,
    mtimes: Seq<Option<u64>>,
    now: u64,
    single: bool,
) -> Seq<Found> {
    Seq::new(
        deduped(found).len(),
        |i: int|
            seen_from(
                deduped(found)[i],
                cwd,
                touched(found, mtimes, deduped(found)[i].path),
                now,
                single,
            ),
    )
}

/// All results as they count for someone in `cwd`.
spec fn all_seen_from(
    found: Seq<Found>,
    cwd: Option<Seq<char>>,
    mtimes: Seq<Option<u64>>,
    now: u64,
    single: bool,
) -> Seq<Found> {
    Seq::new(found.len(), |i: int| seen_from(found[i], cwd, mtimes[i], now, single))
}

/// Lists with the same paths hold the same paths.
proof fn lemma_occurs(a: Seq<Found>, b: Seq<Found>, path: Seq<char>)
    requires
        a.len() == b.len(),
        forall|i: int| 0 <= i < a.len() ==> (#[trigger] a[i]).path == (#[trigger] b[i]).path,
    ensures
        occurs(a, path) == occurs(b, path),
{
    if occurs(a, path) {
        let i = choose|i: int| 0 <= i < a.len() && same((#[trigger] a[i]).path, path);
        assert(same(b[i].path, path));
    }
    if occurs(b, path) {
        let i = choose|i: int| 0 <= i < b.len() && same((#[trigger] b[i]).path, path);
        assert(same(a[i].path, path));
    }
}

/// It makes no difference whether repetitions are dropped before or after the results
/// are seen from `cwd`.
proof fn lemma_nearby(
    found: Seq<Found>,
    cwd: Option<Seq<char>>,
    mtimes: Seq<Option<u64>>,
    now: u64,
    single: bool,
)
    requires
        mtimes.len() == found.len(),
    ensures
        deduped(all_seen_from(found, cwd, mtimes, now, single)) == nearby(
            found,
            cwd,
            mtimes,
            now,
            single,
        ),
    decreases found.len(),
{
    let all = all_seen_from(found, cwd, mtimes, now, single);
    let near = nearby(found, cwd, mtimes, now, single);
    if found.len() > 0 {
        let front = found.drop_last();
        let times = mtimes.drop_last();
        let last = found.last();
        lemma_nearby(front, cwd, times, now, single);
        let part = nearby(front, cwd, times, now, single);
        assert(all.drop_last() =~= all_seen_from(front, cwd, times, now, single));
        assert(all.last().path == last.path);
        lemma_occurs(all.drop_last(), front, last.path);
        assert forall|i: int| 0 <= i < deduped(front).len() implies #[trigger] part[i]
            == near[i] by {
            let path = deduped(front)[i].path;
            assert(same(deduped(front)[i].path, path));
            lemma_deduped(front, path);
            assert(deduped(found)[i] == deduped(front)[i]);
        }
        if occurs(front, last.path) {
            assert(deduped(all) =~= near);
        } else {
            assert(deduped(found).last() == last);
            assert(deduped(all) =~= near);
        }
    } else {
        assert(deduped(all) =~= near);
    }
}

/// The results in the order in which they are offered: without repetitions, as they
/// count for someone in `cwd`, best first. `mtimes` says when each directory was last
/// touched.
pub fn rank_found(
    found: Vec<SearchResult>,
    cwd: Option<&str>,
    mtimes: &Vec<Option<u64>>,
    now: u64,
    single: bool,
) -> (r: Vec<SearchResult>)
    requires
        mtimes@.len() == found@.len(),
    ensures
        views(r@) == ranked(nearby(views(found@), opt_view(cwd), mtimes@, now, single)),
{
    let ghost all = views(found@);
    let mut found = found;
    if let Some(dir) = cwd {
        apply_cwd_proximity(&mut found, dir, mtimes, now, single);
    }
    proof {
        assert(views(found@) =~= all_seen_from(all, opt_view(cwd), mtimes@, now, single));
        lemma_nearby(all, opt_view(cwd), mtimes@, now, single);
    }
    sort_results(dedup_results(found))
}

/// How many of the best results are looked at on the disk before they are offered.
pub const CHECKED_RESULTS: usize = 50;

/// How many results are looked at on the disk at most.
pub const MAX_PRUNE_STATS: usize = 300;

/// How many of the flags are set.
pub open spec fn live_count(alive: Seq<bool>) -> int
    decreases alive.len(),
{
    if alive.len() == 0 {
        0
    } else {
        live_count(alive.drop_last()) + if alive.last() {
            1int
        } else {
            0int
        }
    }
}

/// Whether result `i` is looked at: until `k` are found to be there, or as many as may
/// be were looked at.
pub open spec fn looked_at(alive: Seq<bool>, i: int, k: int) -> bool {
    0 <= i < alive.len() && i < MAX_PRUNE_STATS && live_count(alive.take(i)) < k
}

/// Whether the next result is to be looked at, after those of which `alive` says whether
/// they are there.
pub fn looks_on(alive: &Vec<bool>, k: usize) -> (r: bool)
    ensures
        r == (alive@.len() < MAX_PRUNE_STATS && live_count(alive@) < k),
        forall|next: bool| r == #[trigger] looked_at(alive@.push(next), alive@.len() as int, k as int),
{
    let mut live: usize = 0;
    let mut i: usize = 0;
    assert(alive@.take(0) =~= Seq::empty());
    while i < alive.len()
        invariant
            i <= alive@.len(),
            live <= i,
            live == live_count(alive@.take(i as int)),
        decreases alive@.len() - i,
    {
        assert(alive@.take(i + 1).drop_last() =~= alive@.take(i as int));
        if alive[i] {
            live = live + 1;
        }
        i = i + 1;
    }
    assert(alive@.take(alive@.len() as int) =~= alive@);
    assert(forall|next: bool|
        #![trigger alive@.push(next)]
        alive@.push(next).take(alive@.len() as int) =~= alive@);
    alive.len() < MAX_PRUNE_STATS && live < k
}

/// The results without those that were looked at and are gone.
pub open spec fn pruned(list: Seq<Found>, alive: Seq<bool>, k: int) -> Seq<Found>
    decreases list.len(),
{
    if list.len() == 0 {
        list
    } else {
        let i = list.len() - 1;
        let front = pruned(list.drop_last(), alive, k);
        if looked_at(alive, i, k) && !alive[i] {
            front
        } else {
            front.push(list.last())
        }
    }
}

/// The paths of the results that were looked at and are gone.
pub open spec fn pruned_paths(list: Seq<Found>, alive: Seq<bool>, k: int) -> Seq<Seq<char>>
    decreases list.len(),
{
    if list.len() == 0 {
        Seq::empty()
    } else {
        let i = list.len() - 1;
        let front = pruned_paths(list.drop_last(), alive, k);
        if looked_at(alive, i, k) && !alive[i] {
            front.push(list.last().path)
        } else {
            front
        }
    }
}

/// Drops, among the first results, those that are gone, and gives their paths. `alive`
/// says of the results, from the first on, whether they are there; what it says nothing
/// of is kept.
pub fn prune_dead_top(results: Vec<SearchResult>, alive: &Vec<bool>, k: usize) -> (r: (
    Vec<SearchResult>,
    Vec<String>,
))
    ensures
        views(r.0@) == pruned(views(results@), alive@, k as int),
        texts(r.1@) == pruned_paths(views(results@), alive@, k as int),
{
    let ghost all = views(results@);
    let mut results = results;
    let mut queue: Vec<SearchResult> = Vec::new();
    reverse_into(&mut results, &mut queue);
    let mut kept: Vec<SearchResult> = Vec::new();
    let mut dead: Vec<String> = Vec::new();
    let mut live: usize = 0;
    let mut i: usize = 0;
    let ghost mut done: Seq<Found> = Seq::empty();
    proof {
        assert(views(kept@) =~= pruned(done, alive@, k as int));
        assert(texts(dead@) =~= pruned_paths(done, alive@, k as int));
        assert(done + views(queue@).reverse() =~= all);
        assert(alive@.take(0) =~= Seq::empty());
    }
    while queue.len() > 0
        invariant
            done + views(queue@).reverse() == all,
            views(kept@) == pruned(done, alive@, k as int),
            texts(dead@) == pruned_paths(done, alive@, k as int),
            i <= alive@.len(),
            live <= i,
            i < alive@.len() ==> i == done.len(),
            i == alive@.len() ==> i <= done.len(),
            live == live_count(alive@.take(i as int)),
        decreases queue@.len(),
    {
        let ghost b = views(queue@);
        let hit = queue.pop().unwrap();
        let ghost next = done.push(hit@);
        proof {
            assert(b =~= views(queue@).push(hit@));
            assert(b.reverse() =~= seq![hit@] + views(queue@).reverse());
            assert(next + views(queue@).reverse() =~= done + b.reverse());
            assert(next.drop_last() =~= done);
        }
        let looked = i < alive.len() && i < MAX_PRUNE_STATS && live < k;
        assert(looked == looked_at(alive@, done.len() as int, k as int));
        if looked && !alive[i] {
            proof {
                lemma_texts_push(dead@, hit.path);
            }
            dead.push(hit.path);
        } else {
            proof {
                lemma_views_push(kept@, hit);
            }
            kept.push(hit);
        }
        if i < alive.len() {
            assert(alive@.take(i + 1).drop_last() =~= alive@.take(i as int));
            if alive[i] {
                live = live + 1;
            }
            i = i + 1;
        }
        proof {
            done = next;
        }
    }
    assert(done =~= all);
    (kept, dead)
}

/// What the picker is given.
pub fn candidates_of(results: &Vec<SearchResult>) -> (r: Vec<Candidate>)
    ensures
        views(r@) == views(results@),
{
    let mut out: Vec<Candidate> = Vec::new();
    let mut i: usize = 0;
    while i < results.len()
        invariant
            i <= results@.len(),
            out@.len() == i,
            forall|k: int| 0 <= k < i ==> (#[trigger] out@[k])@ == results@[k]@,
        decreases results@.len() - i,
    {
        let r = &results[i];
        out.push(Candidate { path: r.path.clone(), score: r.score, source: r.source });
        i = i + 1;
    }
    assert(views(out@) =~= views(results@));
    out
}

// ---- the course of a jump ----

/// What a query is.
#[derive(Debug)]
pub enum Query {
    /// The path of a directory.
    Path(String),
    /// Keywords to search for.
    Words(Vec<String>),
}

/// Reads a query: what holds a slash is a path, all else is keywords.
pub fn read_query(query: &str) -> (r: Query)
    ensures
        match r {
            Query::Path(path) => query@.contains('/') && path@ == query@,
            Query::Words(list) => !query@.contains('/') && texts(list@) == words(query@),
        },
{
    if contains_char(query, '/') {
        Query::Path(query.to_owned())
    } else {
        Query::Words(split_whitespace(query))
    }
}

/// The directory that a path in a query stands for, seen from `cwd`.
pub fn resolve_query_path(path: &str, cwd: Option<&str>) -> (r: String)
    ensures
        r@ == joined_path(
            match cwd {
                Some(c) => c@,
                None => Seq::empty(),
            },
            path@,
        ),
{
    match cwd {
        Some(c) => join_path(c, path),
        None => join_path(String::new().as_str(), path),
    }
}

/// Where a query of at most one keyword leads without a search: to the directory of a
/// link of that name, where it is there, else to a directory of that name in the
/// current one.
pub fn direct_target(
    keywords: usize,
    link: Option<String>,
    link_alive: bool,
    local: Option<String>,
    local_is_dir: bool,
) -> (r: Option<String>)
    ensures
        r == if keywords > 1 {
            None
        } else if link is Some && link_alive {
            link
        } else if local is Some && local_is_dir {
            local
        } else {
            None
        },
{
    if keywords > 1 {
        return None;
    }
    if link_alive && link.is_some() {
        return link;
    }
    if local_is_dir {
        return local;
    }
    None
}

/// The searches, in the order in which they are tried.
#[derive(Clone, Copy, PartialEq, Eq, Structural, Debug)]
pub enum Search {
    Names,
    Fuzzy,
    Typo,
}

/// What to do after a search.
#[derive(Clone, Copy, PartialEq, Eq, Structural, Debug)]
pub enum Next {
    /// Rank what was found.
    Rank,
    /// Try another search.
    Try(Search),
    /// Say that nothing was found.
    GiveUp,
}

/// What to do after a search that found something or nothing.
pub fn after_search(search: Search, found: bool) -> (r: Next)
    ensures
        r == if found {
            Next::Rank
        } else {
            match search {
                Search::Names => Next::Try(Search::Fuzzy),
                Search::Fuzzy => Next::Try(Search::Typo),
                Search::Typo => Next::GiveUp,
            }
        },
{
    if found {
        return Next::Rank;
    }
    match search {
        Search::Names => Next::Try(Search::Fuzzy),
        Search::Fuzzy => Next::Try(Search::Typo),
        Search::Typo => Next::GiveUp,
    }
}

/// The exit code where a directory is not there.
pub const EXIT_NOT_THERE: i32 = 1;

/// The exit code where nothing was found.
pub const EXIT_NO_MATCHES: i32 = 3;

/// The exit code where the picker was left without a choice.
pub const EXIT_CANCELLED: i32 = 130;

/// What is said where a path is no directory.
pub fn not_a_directory(query: &str) -> (r: String)
    ensures
        r@ == "gd: not a directory: "@ + query@,
{
    concat2("gd: not a directory: ", query)
}

/// What is said where nothing was found.
pub fn no_matches(query: &str) -> (r: String)
    ensures
        r@ == "gd: no matches for '"@ + query@ + "'."@,
{
    let mut out = concat2("gd: no matches for '", query);
    out.append("'.");
    out
}

/// What is said where the chosen directory is gone.
pub fn no_longer_exists(path: &str) -> (r: String)
    ensures
        r@ == "gd: directory no longer exists: "@ + path@,
{
    concat2("gd: directory no longer exists: ", path)
}

/// The paths in the output of a scan of the disk: one on each line, without the white
/// space around it.
pub fn scan_lines(output: &str) -> (r: Vec<String>)
    ensures
        texts(r@) == trimmed_lines(output@, 0),
{
    let cs = to_chars(output);
    let mut out: Vec<String> = Vec::new();
    let mut at: usize = 0;
    assert(texts(out@) + trimmed_lines(output@, 0) =~= trimmed_lines(output@, 0));
    while at < cs.len()
        invariant
            cs@ == output@,
            at <= cs@.len(),
            texts(out@) + trimmed_lines(output@, at as int) == trimmed_lines(output@, 0),
        decreases cs@.len() - at,
    {
        let from: usize = at;
        while at < cs.len() && cs[at] != '\n'
            invariant
                cs@ == output@,
                from <= at <= cs@.len(),
                line_end(output@, from as int) == line_end(output@, at as int),
            decreases cs@.len() - at,
        {
            at = at + 1;
        }
        let line = trim(from_chars(&cs, from, at).as_str());
        proof {
            lemma_texts_push(out@, line);
        }
        let ghost before = texts(out@);
        out.push(line);
        if at < cs.len() {
            at = at + 1;
        }
        assert(texts(out@) + trimmed_lines(output@, at as int) =~= before + trimmed_lines(
            output@,
            from as int,
        ));
    }
    assert(trimmed_lines(output@, at as int) =~= Seq::empty());
    assert(texts(out@) =~= trimmed_lines(output@, 0));
    out
}

/// The lines from `at` on, without the white space around them.
pub open spec fn trimmed_lines(s: Seq<char>, at: int) -> Seq<Seq<char>>
    decreases s.len() - at,
{
    if at < 0 || at >= s.len() {
        Seq::empty()
    } else {
        let end = line_end(s, at);
        if at <= end < s.len() {
            seq![trimmed(s.subrange(at, end))] + trimmed_lines(s, end + 1)
        } else {
            seq![trimmed(s.subrange(at, s.len() as int))]
        }
    }
}

/// The lines behind a text do not depend on it.
proof fn lemma_lines_shift(a: Seq<char>, b: Seq<char>, at: int)
    requires
        0 <= at <= b.len(),
    ensures
        trimmed_lines(a + b, a.len() + at) == trimmed_lines(b, at),
    decreases b.len() + 1 - at,
{
    let all = a + b;
    let n = a.len() as int;
    if at < b.len() {
        lemma_line_some(b, at);
        let e = line_end(b, at);
        assert forall|k: int| n + at <= k < n + e implies #[trigger] all[k] != '\n' by {
            assert(all[k] == b[k - n]);
        }
        if e < b.len() {
            assert(all[n + e] == b[e]);
        }
        lemma_line_end(all, n + at, n + e);
        assert(all.subrange(n + at, n + e) =~= b.subrange(at, e));
        if e < b.len() {
            lemma_lines_shift(a, b, e + 1);
            assert(trimmed_lines(all, n + at) == seq![trimmed(all.subrange(n + at, n + e))]
                + trimmed_lines(all, n + e + 1));
        }
    }
}

/// Law: what a scanner prints is read line by line, in order, each line without the white
/// space around it, whether the last one is ended or not.
pub proof fn law_trimmed_lines(line: Seq<char>, rest: Seq<char>)
    requires
        forall|k: int| 0 <= k < line.len() ==> #[trigger] line[k] != '\n',
    ensures
        trimmed_lines(line + seq!['\n'] + rest, 0) == seq![trimmed(line)] + trimmed_lines(rest, 0),
        line.len() > 0 ==> trimmed_lines(line, 0) == seq![trimmed(line)],
        trimmed_lines(Seq::empty(), 0).len() == 0,
{
    let all = line + seq!['\n'] + rest;
    let n = line.len() as int;
    assert forall|k: int| 0 <= k < n implies #[trigger] all[k] != '\n' by {
        assert(all[k] == line[k]);
    }
    assert(all[n] == '\n');
    lemma_line_end(all, 0, n);
    assert(all.subrange(0, n) =~= line);
    lemma_lines_shift(line + seq!['\n'], rest, 0);
    lemma_line_end(line, 0, n);
    assert(line.subrange(0, n) =~= line);
}

} // verus!
