//! What is stored of directories, links, boosts and settings, and how it is searched.

use crate::dirs::{
    all_retired,
    any_indexed,
    base_of,
    basename_lower_of,
    count_history,
    has_indexed,
    history_size,
    picked,
    retire,
    retired,
    used,
    visited,
    DirEntry,
    DirInfo,
    Rows,
};
use crate::error::Error;
use crate::frecency::{decay, decay_since, elapsed};
use crate::like::{like, like_matches, wildcard, wildcard_pattern};
use crate::path::{path_starts_with, within};
use crate::rank::{ranked, sort_results};
use crate::score::{history_score, use_score, Score};
use crate::sorted::{path_ascending, path_sort, path_sorted, text_sort, text_sorted};
use crate::table::{
    law_replaced,
    law_without,
    lemma_lookup_push,
    lemma_place,
    lemma_place_is,
    lookup,
    place,
    planned,
    replaced,
    unique,
    without,
    Change,
    Table,
};
use crate::text::{lemma_texts_push, lemma_views_push, lowercase, texts, views};
use vstd::prelude::*;

verus! {

/// Where a result comes from.
#[derive(Clone, Copy, PartialEq, Eq, Structural, Debug)]
pub enum ResultSource {
    Link,
    History,
    Filesystem,
}

/// A directory that matched, with its score.
#[derive(Debug)]
pub struct SearchResult {
    pub path: String,
    pub score: Score,
    pub source: ResultSource,
}

/// What a search result says.
pub struct Found {
    pub path: Seq<char>,
    pub score: Score,
    pub source: ResultSource,
}

impl View for SearchResult {
    type V = Found;

    open spec fn view(&self) -> Found {
        Found { path: self.path@, score: self.score, source: self.source }
    }
}

/// A directory that the picker offers.
#[derive(Debug)]
pub struct Candidate {
    pub path: String,
    pub score: Score,
    pub source: ResultSource,
}

impl View for Candidate {
    type V = Found;

    open spec fn view(&self) -> Found {
        Found { path: self.path@, score: self.score, source: self.source }
    }
}

/// What is kept of a directory's past use.
#[derive(Clone, Copy, PartialEq, Eq, Structural, Debug)]
pub struct HistoryEntry {
    pub visits: u64,
    pub selections: u64,
    pub last_access: u64,
}

impl View for HistoryEntry {
    type V = HistoryEntry;

    open spec fn view(&self) -> HistoryEntry {
        *self
    }
}

/// What a clean-up removed.
#[derive(Debug)]
pub struct CleanReport {
    /// The links, by alias, whose directory is gone.
    pub removed_links: Vec<(String, String)>,
    /// The directories with history that are gone.
    pub removed_history: Vec<String>,
    /// How many directories without history are gone.
    pub removed_index: usize,
    /// How many directories were looked at.
    pub scanned: usize,
}

/// All that is stored. The multiplier of a boost is held as the bits of a
/// floating-point number, which nothing here looks into.
pub struct KeyStore {
    pub dirs: Table<DirEntry>,
    pub links: Table<String>,
    pub boosts: Table<u64>,
    pub settings: Table<String>,
}

// ---- what the searches find ----

/// The lowercase forms of a list of texts.
pub open spec fn lowered(list: Seq<Seq<char>>) -> Seq<Seq<char>> {
    Seq::new(list.len(), |i: int| lowercase(list[i]))
}

/// The pattern of the names in which the keywords occur one after the other.
pub open spec fn keyword_pattern(keywords: Seq<Seq<char>>) -> Seq<char> {
    wildcard(lowered(keywords))
}

/// The lowercase form of the last keyword, or nothing where there is none.
pub open spec fn last_keyword(keywords: Seq<Seq<char>>) -> Seq<char> {
    if keywords.len() == 0 {
        Seq::empty()
    } else {
        lowercase(keywords.last())
    }
}

/// The directories with history whose name fits the pattern and that are still
/// there, in row order, each with its score.
pub open spec fn history_hits(
    rows: Rows,
    alive: Seq<bool>,
    pattern: Seq<char>,
    query: Seq<char>,
    now: u64,
) -> Seq<Found>
    decreases rows.len(),
{
    if rows.len() == 0 || rows.len() != alive.len() {
        Seq::empty()
    } else {
        let front = history_hits(rows.drop_last(), alive.drop_last(), pattern, query, now);
        let d = rows.last().1;
        if like(pattern, d.basename) && used(d) && alive.last() {
            front.push(
                Found {
                    path: rows.last().0,
                    score: use_score(
                        d.selections as int,
                        d.visits as int,
                        decay(elapsed(d.last_access, now)),
                        d.basename,
                        query,
                    ),
                    source: ResultSource::History,
                },
            )
        } else {
            front
        }
    }
}

/// The indexed directories whose name fits the pattern, in row order.
pub open spec fn index_hits(rows: Rows, pattern: Seq<char>) -> Seq<Seq<char>>
    decreases rows.len(),
{
    if rows.len() == 0 {
        Seq::empty()
    } else {
        let front = index_hits(rows.drop_last(), pattern);
        if rows.last().1.in_index && like(pattern, rows.last().1.basename) {
            front.push(rows.last().0)
        } else {
            front
        }
    }
}

/// The indexed directories with their names, in row order.
pub open spec fn index_entries(rows: Rows) -> Seq<(Seq<char>, Seq<char>)>
    decreases rows.len(),
{
    if rows.len() == 0 {
        Seq::empty()
    } else {
        let front = index_entries(rows.drop_last());
        if rows.last().1.in_index {
            front.push((rows.last().0, rows.last().1.basename))
        } else {
            front
        }
    }
}

/// The past use of the directories that have any, in row order.
pub open spec fn histories(rows: Rows) -> Seq<(Seq<char>, HistoryEntry)>
    decreases rows.len(),
{
    if rows.len() == 0 {
        Seq::empty()
    } else {
        let front = histories(rows.drop_last());
        let d = rows.last().1;
        if used(d) {
            front.push(
                (
                    rows.last().0,
                    HistoryEntry {
                        visits: d.visits,
                        selections: d.selections,
                        last_access: d.last_access,
                    },
                ),
            )
        } else {
            front
        }
    }
}

/// Which of the boosts is the first that `path` lies in.
pub open spec fn first_boost(boosts: Seq<(Seq<char>, u64)>, path: Seq<char>) -> Option<int>
    decreases boosts.len(),
{
    if boosts.len() == 0 {
        None
    } else {
        match first_boost(boosts.drop_last(), path) {
            Some(i) => Some(i),
            None => if within(path, boosts.last().0) {
                Some(boosts.len() - 1)
            } else {
                None
            },
        }
    }
}

/// The rows whose flag is not set.
pub open spec fn dead_rows<T>(rows: Seq<(Seq<char>, T)>, alive: Seq<bool>) -> Seq<(Seq<char>, T)>
    decreases rows.len(),
{
    if rows.len() == 0 || rows.len() != alive.len() {
        Seq::empty()
    } else if alive.last() {
        dead_rows(rows.drop_last(), alive.drop_last())
    } else {
        dead_rows(rows.drop_last(), alive.drop_last()).push(rows.last())
    }
}

/// The rows whose flag is set.
pub open spec fn live_rows<T>(rows: Seq<(Seq<char>, T)>, alive: Seq<bool>) -> Seq<(Seq<char>, T)>
    decreases rows.len(),
{
    if rows.len() == 0 || rows.len() != alive.len() {
        Seq::empty()
    } else if alive.last() {
        live_rows(rows.drop_last(), alive.drop_last()).push(rows.last())
    } else {
        live_rows(rows.drop_last(), alive.drop_last())
    }
}

/// The paths of the rows with history.
pub open spec fn used_paths(rows: Rows) -> Seq<Seq<char>>
    decreases rows.len(),
{
    if rows.len() == 0 {
        Seq::empty()
    } else if used(rows.last().1) {
        used_paths(rows.drop_last()).push(rows.last().0)
    } else {
        used_paths(rows.drop_last())
    }
}

/// The rows after past uses from elsewhere have replaced them one by one.
pub open spec fn migrated_dirs(rows: Rows, list: Seq<(Seq<char>, HistoryEntry)>) -> Rows
    decreases list.len(),
{
    if list.len() == 0 {
        rows
    } else {
        let (path, e) = list.last();
        replaced(
            migrated_dirs(rows, list.drop_last()),
            path,
            DirInfo {
                basename: base_of(path),
                visits: e.visits,
                selections: e.selections,
                last_access: e.last_access,
                in_index: false,
            },
        )
    }
}

/// The rows after others have replaced them one by one.
pub open spec fn migrated<T>(rows: Seq<(Seq<char>, T)>, list: Seq<(Seq<char>, T)>) -> Seq<
    (Seq<char>, T),
>
    decreases list.len(),
{
    if list.len() == 0 {
        rows
    } else {
        replaced(migrated(rows, list.drop_last()), list.last().0, list.last().1)
    }
}

/// The lowercase forms of a list of texts.
pub fn to_lower_all(list: &Vec<String>) -> (r: Vec<String>)
    ensures
        texts(r@) == lowered(texts(list@)),
{
    let mut out: Vec<String> = Vec::new();
    let mut i: usize = 0;
    while i < list.len()
        invariant
            i <= list@.len(),
            out@.len() == i,
            forall|k: int| 0 <= k < i ==> (#[trigger] out@[k])@ == lowercase(list@[k]@),
        decreases list@.len() - i,
    {
        out.push(list[i].as_str().to_lowercase());
        i = i + 1;
    }
    assert(texts(out@) =~= lowered(texts(list@)));
    out
}

/// The pattern of the names in which the keywords occur one after the other.
pub fn pattern_of(keywords: &Vec<String>) -> (r: String)
    ensures
        r@ == keyword_pattern(texts(keywords@)),
{
    wildcard_pattern(&to_lower_all(keywords))
}

/// The lowercase form of the last keyword, or nothing where there is none.
pub fn last_lower(keywords: &Vec<String>) -> (r: String)
    ensures
        r@ == last_keyword(texts(keywords@)),
{
    if keywords.len() == 0 {
        String::new()
    } else {
        keywords[keywords.len() - 1].as_str().to_lowercase()
    }
}

/// A list that holds the one text.
pub fn single(query: &str) -> (r: Vec<String>)
    ensures
        texts(r@) == seq![query@],
{
    let mut out: Vec<String> = Vec::new();
    out.push(query.to_owned());
    assert(texts(out@) =~= seq![query@]);
    out
}

/// Which of the boosts is the first that `path` lies in.
pub fn boost_index(boosts: &Vec<(String, u64)>, path: &str) -> (r: Option<usize>)
    ensures
        match r {
            Some(i) => first_boost(views(boosts@), path@) == Some(i as int) && i < boosts@.len(),
            None => first_boost(views(boosts@), path@) is None,
        },
{
    let ghost all = views(boosts@);
    let mut i: usize = 0;
    assert(all.take(0) =~= Seq::empty());
    while i < boosts.len()
        invariant
            all == views(boosts@),
            i <= all.len(),
            first_boost(all.take(i as int), path@) is None,
        decreases all.len() - i,
    {
        assert(all.take(i + 1).drop_last() =~= all.take(i as int));
        assert(all.take(i + 1).last() == boosts@[i as int]@);
        if path_starts_with(path, boosts[i].0.as_str()) {
            proof {
                lemma_first_boost(all, i + 1, path@);
            }
            return Some(i);
        }
        i = i + 1;
    }
    assert(all.take(all.len() as int) =~= all);
    None
}

/// A boost that is first among the first ones is first among all.
proof fn lemma_first_boost(boosts: Seq<(Seq<char>, u64)>, n: int, path: Seq<char>)
    requires
        0 <= n <= boosts.len(),
        first_boost(boosts.take(n), path) is Some,
    ensures
        first_boost(boosts, path) == first_boost(boosts.take(n), path),
    decreases boosts.len(),
{
    if n < boosts.len() {
        assert(boosts.drop_last().take(n) =~= boosts.take(n));
        lemma_first_boost(boosts.drop_last(), n, path);
    } else {
        assert(boosts.take(n) =~= boosts);
    }
}

/// Law: the boost that counts for a path is one it lies in, and it lies in none
/// before it; where none counts, it lies in none.
pub proof fn law_first_boost(boosts: Seq<(Seq<char>, u64)>, path: Seq<char>)
    ensures
        match first_boost(boosts, path) {
            Some(i) => 0 <= i < boosts.len() && within(path, boosts[i].0) && forall|k: int|
                0 <= k < i ==> !within(path, (#[trigger] boosts[k]).0),
            None => forall|k: int|
                0 <= k < boosts.len() ==> !within(path, (#[trigger] boosts[k]).0),
        },
    decreases boosts.len(),
{
    if boosts.len() > 0 {
        let front = boosts.drop_last();
        law_first_boost(front, path);
        assert(forall|k: int| 0 <= k < front.len() ==> #[trigger] front[k] == boosts[k]);
        match first_boost(front, path) {
            Some(i) => {
                assert(front[i] == boosts[i]);
                assert forall|k: int| 0 <= k < i implies !within(
                    path,
                    (#[trigger] boosts[k]).0,
                ) by {
                    assert(!within(path, front[k].0));
                }
            },
            None => {
                assert forall|k: int| 0 <= k < boosts.len() - 1 implies !within(
                    path,
                    (#[trigger] boosts[k]).0,
                ) by {
                    assert(!within(path, front[k].0));
                }
            },
        }
    }
}

impl KeyStore {
    /// A store of the given rows.
    pub fn new(
        dirs: Table<DirEntry>,
        links: Table<String>,
        boosts: Table<u64>,
        settings: Table<String>,
    ) -> (r: Self)
        ensures
            r.dirs == dirs,
            r.links == links,
            r.boosts == boosts,
            r.settings == settings,
    {
        KeyStore { dirs, links, boosts, settings }
    }

    // ---- links ----

    /// Makes `alias` stand for `path`.
    pub fn add_link(&mut self, alias: &str, path: &str)
        ensures
            final(self).links.rows() == replaced(old(self).links.rows(), alias@, path@),
            old(self).links.leads_to(&final(self).links),
            final(self).dirs == old(self).dirs,
            final(self).boosts == old(self).boosts,
            final(self).settings == old(self).settings,
    {
        self.links.replace(alias, path.to_owned());
    }

    /// Makes `alias` stand for nothing; an error where it stood for nothing.
    pub fn remove_link(&mut self, alias: &str) -> (r: Result<(), Error>)
        ensures
            match r {
                Ok(_) => lookup(old(self).links.rows(), alias@) is Some,
                Err(Error::KeyNotFound(key)) => key@ == alias@ && lookup(
                    old(self).links.rows(),
                    alias@,
                ) is None,
                Err(_) => false,
            },
            final(self).links.rows() == without(old(self).links.rows(), alias@),
            old(self).links.leads_to(&final(self).links),
            final(self).dirs == old(self).dirs,
            final(self).boosts == old(self).boosts,
            final(self).settings == old(self).settings,
    {
        if self.links.remove(alias) == 0 {
            return Err(Error::KeyNotFound(alias.to_owned()));
        }
        Ok(())
    }

    /// What `alias` stands for.
    pub fn get_link(&self, alias: &str) -> (r: Option<String>)
        ensures
            match r {
                Some(path) => lookup(self.links.rows(), alias@) == Some(path@),
                None => lookup(self.links.rows(), alias@) is None,
            },
    {
        match self.links.get(alias) {
            Some(path) => Some(path.clone()),
            None => None,
        }
    }

    /// All links, by alias.
    pub fn list_links(&self) -> (r: Vec<(String, String)>)
        ensures
            views(r@) == text_sorted(self.links.rows()),
    {
        let mut list: Vec<(String, String)> = Vec::new();
        let mut i: usize = 0;
        while i < self.links.len()
            invariant
                i <= self.links.rows().len(),
                list@.len() == i,
                forall|k: int| 0 <= k < i ==> (#[trigger] list@[k])@ == self.links.rows()[k],
            decreases self.links.rows().len() - i,
        {
            list.push((self.links.key(i).clone(), self.links.value(i).clone()));
            i = i + 1;
        }
        assert(views(list@) =~= self.links.rows());
        text_sort(list)
    }

    /// The number of links.
    pub fn link_count(&self) -> (r: usize)
        ensures
            r == self.links.rows().len(),
    {
        self.links.len()
    }

    // ---- settings ----

    /// The value of a setting.
    pub fn get_setting(&self, key: &str) -> (r: Option<String>)
        ensures
            match r {
                Some(v) => lookup(self.settings.rows(), key@) == Some(v@),
                None => lookup(self.settings.rows(), key@) is None,
            },
    {
        match self.settings.get(key) {
            Some(v) => Some(v.clone()),
            None => None,
        }
    }

    /// Gives a setting its value.
    pub fn set_setting(&mut self, key: &str, value: &str)
        ensures
            final(self).settings.rows() == replaced(old(self).settings.rows(), key@, value@),
            old(self).settings.leads_to(&final(self).settings),
            final(self).dirs == old(self).dirs,
            final(self).links == old(self).links,
            final(self).boosts == old(self).boosts,
    {
        self.settings.replace(key, value.to_owned());
    }

    // ---- boosts ----

    /// Gives the directories below `path` a multiplier.
    pub fn add_boost(&mut self, path: &str, multiplier: u64)
        ensures
            final(self).boosts.rows() == replaced(old(self).boosts.rows(), path@, multiplier),
            old(self).boosts.leads_to(&final(self).boosts),
            final(self).dirs == old(self).dirs,
            final(self).links == old(self).links,
            final(self).settings == old(self).settings,
    {
        self.boosts.replace(path, multiplier);
    }

    /// Takes a multiplier away: that of `path` as it is written, else that of the
    /// directory it stands for, where that is known; an error where there is neither.
    pub fn remove_boost(&mut self, path: &str, canonical: Option<&str>) -> (r: Result<(), Error>)
        ensures
            ({
                let rows = old(self).boosts.rows();
                let written = lookup(rows, path@) is Some;
                let resolved = canonical is Some && lookup(
                    without(rows, path@),
                    canonical.unwrap()@,
                ) is Some;
                &&& match r {
                    Ok(_) => written || resolved,
                    Err(Error::KeyNotFound(key)) => key@ == path@ && !written && !resolved,
                    Err(_) => false,
                }
                &&& final(self).boosts.rows() == if !written && canonical is Some {
                    without(without(rows, path@), canonical.unwrap()@)
                } else {
                    without(rows, path@)
                }
            }),
            old(self).boosts.leads_to(&final(self).boosts),
            final(self).dirs == old(self).dirs,
            final(self).links == old(self).links,
            final(self).settings == old(self).settings,
    {
        let ghost before = self.boosts;
        if self.boosts.remove(path) > 0 {
            return Ok(());
        }
        let ghost middle = self.boosts;
        if let Some(c) = canonical {
            let gone: usize = self.boosts.remove(c);
            proof {
                Table::lemma_leads_on(&before, &middle, &self.boosts);
            }
            if gone > 0 {
                return Ok(());
            }
        }
        Err(Error::KeyNotFound(path.to_owned()))
    }

    /// All boosts, in path order.
    pub fn list_boosts(&self) -> (r: Vec<(String, u64)>)
        ensures
            views(r@) == path_sorted(text_sorted(self.boosts.rows())),
    {
        let mut list: Vec<(String, u64)> = Vec::new();
        let mut i: usize = 0;
        while i < self.boosts.len()
            invariant
                i <= self.boosts.rows().len(),
                list@.len() == i,
                forall|k: int| 0 <= k < i ==> (#[trigger] list@[k])@ == self.boosts.rows()[k],
            decreases self.boosts.rows().len() - i,
        {
            list.push((self.boosts.key(i).clone(), *self.boosts.value(i)));
            i = i + 1;
        }
        assert(views(list@) =~= self.boosts.rows());
        path_sort(text_sort(list))
    }

    // ---- history ----

    /// Records that `path` was entered at `now`.
    pub fn record_visit(&mut self, path: &str, now: u64)
        ensures
            final(self).dirs.rows() == visited(old(self).dirs.rows(), path@, now),
            old(self).dirs.leads_to(&final(self).dirs),
            final(self).links == old(self).links,
            final(self).boosts == old(self).boosts,
            final(self).settings == old(self).settings,
    {
        crate::dirs::record_visit(&mut self.dirs, path, now);
    }

    /// Records that `path` was picked at `now`.
    pub fn record_selection(&mut self, path: &str, now: u64)
        ensures
            final(self).dirs.rows() == picked(old(self).dirs.rows(), path@, now),
            old(self).dirs.leads_to(&final(self).dirs),
            final(self).links == old(self).links,
            final(self).boosts == old(self).boosts,
            final(self).settings == old(self).settings,
    {
        crate::dirs::record_selection(&mut self.dirs, path, now);
    }

    /// Takes a missing directory out of the index, and forgets it where it has no
    /// history.
    pub fn retire_missing(&mut self, path: &str)
        ensures
            final(self).dirs.rows() == retired(old(self).dirs.rows(), path@),
            old(self).dirs.leads_to(&final(self).dirs),
            final(self).links == old(self).links,
            final(self).boosts == old(self).boosts,
            final(self).settings == old(self).settings,
    {
        retire(&mut self.dirs, path);
    }

    /// Takes missing directories out of the index, and forgets those without history.
    pub fn retire_missing_batch(&mut self, paths: &Vec<String>)
        ensures
            final(self).dirs.rows() == all_retired(old(self).dirs.rows(), texts(paths@)),
            old(self).dirs.leads_to(&final(self).dirs),
            final(self).links == old(self).links,
            final(self).boosts == old(self).boosts,
            final(self).settings == old(self).settings,
    {
        let ghost start = self.dirs;
        let ghost all = texts(paths@);
        let mut i: usize = 0;
        assert(all.take(0) =~= Seq::empty());
        assert(start.changed() =~= start.changed().take(start.changed().len() as int));
        while i < paths.len()
            invariant
                all == texts(paths@),
                i <= all.len(),
                self.dirs.rows() == all_retired(start.rows(), all.take(i as int)),
                start.leads_to(&self.dirs),
                self.links == old(self).links,
                self.boosts == old(self).boosts,
                self.settings == old(self).settings,
            decreases all.len() - i,
        {
            assert(all.take(i + 1).drop_last() =~= all.take(i as int));
            assert(all.take(i + 1).last() == paths@[i as int]@);
            let ghost middle = self.dirs;
            retire(&mut self.dirs, paths[i].as_str());
            proof {
                Table::lemma_leads_on(&start, &middle, &self.dirs);
            }
            i = i + 1;
        }
        assert(all.take(all.len() as int) =~= all);
    }

    /// The used directories whose name holds `query`, best first. `alive` says, row
    /// by row, whether the directory is still there.
    pub fn search_history(&self, query: &str, alive: &Vec<bool>, now: u64) -> (r: Vec<
        SearchResult,
    >)
        requires
            alive@.len() == self.dirs.rows().len(),
        ensures
            views(r@) == ranked(
                history_hits(
                    self.dirs.rows(),
                    alive@,
                    keyword_pattern(seq![query@]),
                    lowercase(query@),
                    now,
                ),
            ),
    {
        self.search_history_multi(&single(query), alive, now)
    }

    /// The used directories in whose name the keywords occur one after the other,
    /// best first.
    pub fn search_history_multi(&self, keywords: &Vec<String>, alive: &Vec<bool>, now: u64) -> (r:
        Vec<SearchResult>)
        requires
            alive@.len() == self.dirs.rows().len(),
        ensures
            views(r@) == ranked(
                history_hits(
                    self.dirs.rows(),
                    alive@,
                    keyword_pattern(texts(keywords@)),
                    last_keyword(texts(keywords@)),
                    now,
                ),
            ),
    {
        let pattern = pattern_of(keywords);
        let query = last_lower(keywords);
        let ghost rows = self.dirs.rows();
        let mut out: Vec<SearchResult> = Vec::new();
        let mut i: usize = 0;
        assert(rows.take(0) =~= Seq::empty());
        assert(views(out@) =~= history_hits(rows.take(0), alive@.take(0), pattern@, query@, now));
        while i < self.dirs.len()
            invariant
                rows == self.dirs.rows(),
                alive@.len() == rows.len(),
                i <= rows.len(),
                views(out@) == history_hits(
                    rows.take(i as int),
                    alive@.take(i as int),
                    pattern@,
                    query@,
                    now,
                ),
            decreases rows.len() - i,
        {
            assert(rows.take(i + 1).drop_last() =~= rows.take(i as int));
            assert(alive@.take(i + 1).drop_last() =~= alive@.take(i as int));
            let d = self.dirs.value(i);
            if like_matches(pattern.as_str(), d.basename_lower.as_str()) && d.has_history()
                && alive[i] {
                let factor: u64 = decay_since(d.last_access, now);
                let hit = SearchResult {
                    path: self.dirs.key(i).clone(),
                    score: history_score(
                        d.selections,
                        d.visits,
                        factor,
                        d.basename_lower.as_str(),
                        query.as_str(),
                    ),
                    source: ResultSource::History,
                };
                proof {
                    lemma_views_push(out@, hit);
                }
                out.push(hit);
            }
            i = i + 1;
        }
        assert(rows.take(rows.len() as int) =~= rows);
        assert(alive@.take(rows.len() as int) =~= alive@);
        sort_results(out)
    }

    /// The past use of the directories that have any, in path order.
    pub fn all_history(&self) -> (r: Vec<(String, HistoryEntry)>)
        ensures
            views(r@) == path_sorted(histories(self.dirs.rows())),
            path_ascending(views(r@)),
    {
        let ghost rows = self.dirs.rows();
        let mut out: Vec<(String, HistoryEntry)> = Vec::new();
        let mut i: usize = 0;
        assert(rows.take(0) =~= Seq::empty());
        assert(views(out@) =~= histories(rows.take(0)));
        while i < self.dirs.len()
            invariant
                rows == self.dirs.rows(),
                i <= rows.len(),
                views(out@) == histories(rows.take(i as int)),
            decreases rows.len() - i,
        {
            assert(rows.take(i + 1).drop_last() =~= rows.take(i as int));
            let d = self.dirs.value(i);
            if d.has_history() {
                let entry = (
                    self.dirs.key(i).clone(),
                    HistoryEntry {
                        visits: d.visits,
                        selections: d.selections,
                        last_access: d.last_access,
                    },
                );
                proof {
                    lemma_views_push(out@, entry);
                }
                out.push(entry);
            }
            i = i + 1;
        }
        assert(rows.take(rows.len() as int) =~= rows);
        path_sort(out)
    }

    /// The number of directories with history.
    pub fn history_count(&self) -> (r: usize)
        ensures
            r == history_size(self.dirs.rows()),
    {
        count_history(&self.dirs)
    }

    // ---- the index ----

    /// Whether the index holds anything.
    pub fn has_index(&self) -> (r: bool)
        ensures
            r == any_indexed(self.dirs.rows()),
    {
        has_indexed(&self.dirs)
    }

    /// The indexed directories whose name holds `query`.
    pub fn search_index(&self, query: &str) -> (r: Vec<String>)
        ensures
            texts(r@) == index_hits(self.dirs.rows(), keyword_pattern(seq![query@])),
    {
        self.search_index_multi(&single(query))
    }

    /// The indexed directories in whose name the keywords occur one after the other.
    pub fn search_index_multi(&self, keywords: &Vec<String>) -> (r: Vec<String>)
        ensures
            texts(r@) == index_hits(self.dirs.rows(), keyword_pattern(texts(keywords@))),
    {
        let pattern = pattern_of(keywords);
        let ghost rows = self.dirs.rows();
        let mut out: Vec<String> = Vec::new();
        let mut i: usize = 0;
        assert(rows.take(0) =~= Seq::empty());
        assert(texts(out@) =~= index_hits(rows.take(0), pattern@));
        while i < self.dirs.len()
            invariant
                rows == self.dirs.rows(),
                i <= rows.len(),
                texts(out@) == index_hits(rows.take(i as int), pattern@),
            decreases rows.len() - i,
        {
            assert(rows.take(i + 1).drop_last() =~= rows.take(i as int));
            let d = self.dirs.value(i);
            if d.in_index && like_matches(pattern.as_str(), d.basename_lower.as_str()) {
                let path = self.dirs.key(i).clone();
                proof {
                    lemma_texts_push(out@, path);
                }
                out.push(path);
            }
            i = i + 1;
        }
        assert(rows.take(rows.len() as int) =~= rows);
        out
    }

    /// The indexed directories with their names.
    pub fn all_index_entries(&self) -> (r: Vec<(String, String)>)
        ensures
            views(r@) == index_entries(self.dirs.rows()),
    {
        let ghost rows = self.dirs.rows();
        let mut out: Vec<(String, String)> = Vec::new();
        let mut i: usize = 0;
        assert(rows.take(0) =~= Seq::empty());
        assert(views(out@) =~= index_entries(rows.take(0)));
        while i < self.dirs.len()
            invariant
                rows == self.dirs.rows(),
                i <= rows.len(),
                views(out@) == index_entries(rows.take(i as int)),
            decreases rows.len() - i,
        {
            assert(rows.take(i + 1).drop_last() =~= rows.take(i as int));
            let d = self.dirs.value(i);
            if d.in_index {
                let entry = (self.dirs.key(i).clone(), d.basename_lower.clone());
                proof {
                    lemma_views_push(out@, entry);
                }
                out.push(entry);
            }
            i = i + 1;
        }
        assert(rows.take(rows.len() as int) =~= rows);
        out
    }

    // ---- clean-up ----

    /// Removes the links and the directories that are gone. `links_alive` and
    /// `dirs_alive` say, row by row, what is still there.
    pub fn clean(&mut self, links_alive: &Vec<bool>, dirs_alive: &Vec<bool>) -> (r: CleanReport)
        requires
            links_alive@.len() == old(self).links.rows().len(),
            dirs_alive@.len() == old(self).dirs.rows().len(),
        ensures
            views(r.removed_links@) == text_sorted(
                dead_rows(old(self).links.rows(), links_alive@),
            ),
            texts(r.removed_history@) == used_paths(dead_rows(old(self).dirs.rows(), dirs_alive@)),
            r.removed_index + r.removed_history@.len() == dead_rows(
                old(self).dirs.rows(),
                dirs_alive@,
            ).len(),
            r.scanned == old(self).dirs.rows().len(),
            final(self).links.rows() == live_rows(old(self).links.rows(), links_alive@),
            final(self).dirs.rows() == live_rows(old(self).dirs.rows(), dirs_alive@),
            old(self).links.leads_to(&final(self).links),
            old(self).dirs.leads_to(&final(self).dirs),
            final(self).boosts == old(self).boosts,
            final(self).settings == old(self).settings,
    {
        let ghost link_rows = self.links.rows();
        let mut gone: Vec<(String, String)> = Vec::new();
        let mut plan: Vec<Change<String>> = Vec::new();
        let mut i: usize = 0;
        assert(link_rows.take(0) =~= Seq::empty());
        assert(views(gone@) =~= dead_rows(link_rows.take(0), links_alive@.take(0)));
        assert(planned(link_rows.take(0), views(plan@)) =~= live_rows(
            link_rows.take(0),
            links_alive@.take(0),
        ));
        while i < self.links.len()
            invariant
                link_rows == self.links.rows(),
                links_alive@.len() == link_rows.len(),
                i <= link_rows.len(),
                plan@.len() == i,
                views(gone@) == dead_rows(link_rows.take(i as int), links_alive@.take(i as int)),
                planned(link_rows.take(i as int), views(plan@)) == live_rows(
                    link_rows.take(i as int),
                    links_alive@.take(i as int),
                ),
            decreases link_rows.len() - i,
        {
            assert(link_rows.take(i + 1).drop_last() =~= link_rows.take(i as int));
            assert(links_alive@.take(i + 1).drop_last() =~= links_alive@.take(i as int));
            let change: Change<String> = if links_alive[i] {
                Change::Keep
            } else {
                let row = (self.links.key(i).clone(), self.links.value(i).clone());
                proof {
                    lemma_views_push(gone@, row);
                }
                gone.push(row);
                Change::Delete
            };
            proof {
                lemma_views_push(plan@, change);
                assert(views(plan@).push(change@).drop_last() =~= views(plan@));
            }
            plan.push(change);
            i = i + 1;
        }
        assert(link_rows.take(link_rows.len() as int) =~= link_rows);
        assert(links_alive@.take(link_rows.len() as int) =~= links_alive@);
        self.links.apply(plan);
        let removed_links = text_sort(gone);

        let ghost rows = self.dirs.rows();
        let mut removed_history: Vec<String> = Vec::new();
        let mut removed_index: usize = 0;
        let mut plan: Vec<Change<DirEntry>> = Vec::new();
        let mut i: usize = 0;
        assert(rows.take(0) =~= Seq::empty());
        assert(texts(removed_history@) =~= used_paths(
            dead_rows(rows.take(0), dirs_alive@.take(0)),
        ));
        assert(planned(rows.take(0), views(plan@)) =~= live_rows(
            rows.take(0),
            dirs_alive@.take(0),
        ));
        while i < self.dirs.len()
            invariant
                rows == self.dirs.rows(),
                rows == old(self).dirs.rows(),
                self.dirs == old(self).dirs,
                self.boosts == old(self).boosts,
                self.settings == old(self).settings,
                self.links.rows() == live_rows(old(self).links.rows(), links_alive@),
                old(self).links.leads_to(&self.links),
                dirs_alive@.len() == rows.len(),
                i <= rows.len(),
                plan@.len() == i,
                removed_index + removed_history@.len() == dead_rows(
                    rows.take(i as int),
                    dirs_alive@.take(i as int),
                ).len(),
                removed_index + removed_history@.len() <= i,
                texts(removed_history@) == used_paths(
                    dead_rows(rows.take(i as int), dirs_alive@.take(i as int)),
                ),
                planned(rows.take(i as int), views(plan@)) == live_rows(
                    rows.take(i as int),
                    dirs_alive@.take(i as int),
                ),
            decreases rows.len() - i,
        {
            assert(rows.take(i + 1).drop_last() =~= rows.take(i as int));
            assert(dirs_alive@.take(i + 1).drop_last() =~= dirs_alive@.take(i as int));
            let ghost dead = dead_rows(rows.take(i as int), dirs_alive@.take(i as int));
            let change: Change<DirEntry> = if dirs_alive[i] {
                Change::Keep
            } else {
                proof {
                    let more = dead.push(rows[i as int]);
                    assert(more.drop_last() =~= dead);
                }
                if self.dirs.value(i).has_history() {
                    let path = self.dirs.key(i).clone();
                    proof {
                        lemma_texts_push(removed_history@, path);
                    }
                    removed_history.push(path);
                } else {
                    removed_index = removed_index + 1;
                }
                Change::Delete
            };
            proof {
                lemma_views_push(plan@, change);
                assert(views(plan@).push(change@).drop_last() =~= views(plan@));
            }
            plan.push(change);
            i = i + 1;
        }
        assert(rows.take(rows.len() as int) =~= rows);
        assert(dirs_alive@.take(rows.len() as int) =~= dirs_alive@);
        let scanned: usize = self.dirs.len();
        self.dirs.apply(plan);
        CleanReport { removed_links, removed_history, removed_index, scanned }
    }

    // ---- taking over what was stored elsewhere ----

    /// Takes over past uses, links and boosts, each in place of what is under its key.
    pub fn migrate(
        &mut self,
        history: &Vec<(String, HistoryEntry)>,
        links: &Vec<(String, String)>,
        boosts: &Vec<(String, u64)>,
    )
        ensures
            final(self).dirs.rows() == migrated_dirs(old(self).dirs.rows(), views(history@)),
            final(self).links.rows() == migrated(old(self).links.rows(), views(links@)),
            final(self).boosts.rows() == migrated(old(self).boosts.rows(), views(boosts@)),
            old(self).dirs.leads_to(&final(self).dirs),
            old(self).links.leads_to(&final(self).links),
            old(self).boosts.leads_to(&final(self).boosts),
            final(self).settings == old(self).settings,
    {
        let ghost start = *self;
        let ghost (h, l, b) = (views(history@), views(links@), views(boosts@));
        proof {
            assert(h.take(0) =~= Seq::empty());
            assert(l.take(0) =~= Seq::empty());
            assert(b.take(0) =~= Seq::empty());
            assert(start.dirs.changed() =~= start.dirs.changed().take(
                start.dirs.changed().len() as int,
            ));
            assert(start.links.changed() =~= start.links.changed().take(
                start.links.changed().len() as int,
            ));
            assert(start.boosts.changed() =~= start.boosts.changed().take(
                start.boosts.changed().len() as int,
            ));
        }
        let mut i: usize = 0;
        while i < history.len()
            invariant
                h == views(history@),
                i <= h.len(),
                self.dirs.rows() == migrated_dirs(start.dirs.rows(), h.take(i as int)),
                start.dirs.leads_to(&self.dirs),
                self.links == start.links,
                self.boosts == start.boosts,
                self.settings == start.settings,
            decreases h.len() - i,
        {
            assert(h.take(i + 1).drop_last() =~= h.take(i as int));
            assert(h.take(i + 1).last() == history@[i as int]@);
            let path = history[i].0.as_str();
            let e = history[i].1;
            let entry = DirEntry {
                basename_lower: basename_lower_of(path),
                visits: e.visits,
                selections: e.selections,
                last_access: e.last_access,
                in_index: false,
            };
            let ghost middle = self.dirs;
            self.dirs.replace(path, entry);
            proof {
                Table::lemma_leads_on(&start.dirs, &middle, &self.dirs);
            }
            i = i + 1;
        }
        assert(h.take(h.len() as int) =~= h);
        let ghost after_history = *self;
        let mut i: usize = 0;
        while i < links.len()
            invariant
                l == views(links@),
                i <= l.len(),
                self.links.rows() == migrated(start.links.rows(), l.take(i as int)),
                start.links.leads_to(&self.links),
                self.dirs == after_history.dirs,
                self.boosts == start.boosts,
                self.settings == start.settings,
            decreases l.len() - i,
        {
            assert(l.take(i + 1).drop_last() =~= l.take(i as int));
            assert(l.take(i + 1).last() == links@[i as int]@);
            let ghost middle = self.links;
            self.links.replace(links[i].0.as_str(), links[i].1.clone());
            proof {
                Table::lemma_leads_on(&start.links, &middle, &self.links);
            }
            i = i + 1;
        }
        assert(l.take(l.len() as int) =~= l);
        let ghost after_links = *self;
        let mut i: usize = 0;
        while i < boosts.len()
            invariant
                b == views(boosts@),
                i <= b.len(),
                self.boosts.rows() == migrated(start.boosts.rows(), b.take(i as int)),
                start.boosts.leads_to(&self.boosts),
                self.dirs == after_history.dirs,
                self.links == after_links.links,
                self.settings == start.settings,
            decreases b.len() - i,
        {
            assert(b.take(i + 1).drop_last() =~= b.take(i as int));
            assert(b.take(i + 1).last() == boosts@[i as int]@);
            let ghost middle = self.boosts;
            self.boosts.replace(boosts[i].0.as_str(), boosts[i].1);
            proof {
                Table::lemma_leads_on(&start.boosts, &middle, &self.boosts);
            }
            i = i + 1;
        }
        assert(b.take(b.len() as int) =~= b);
    }
}

/// Whether a row is found by its history.
pub open spec fn history_fits(row: (Seq<char>, DirInfo), alive: bool, pattern: Seq<char>) -> bool {
    like(pattern, row.1.basename) && used(row.1) && alive
}

/// Whether a row is found in the index.
pub open spec fn index_fits(row: (Seq<char>, DirInfo), pattern: Seq<char>) -> bool {
    row.1.in_index && like(pattern, row.1.basename)
}

/// Law: a search of the history finds a directory exactly where it was used, its name
/// fits, and it is still there.
pub proof fn law_history_search(
    rows: Rows,
    alive: Seq<bool>,
    pattern: Seq<char>,
    query: Seq<char>,
    now: u64,
    path: Seq<char>,
)
    requires
        alive.len() == rows.len(),
    ensures
        (exists|i: int|
            0 <= i < history_hits(rows, alive, pattern, query, now).len() && (
            #[trigger] history_hits(rows, alive, pattern, query, now)[i]).path == path) <==> (
        exists|j: int|
            0 <= j < rows.len() && #[trigger] history_fits(rows[j], alive[j], pattern) && rows[j].0
                == path),
    decreases rows.len(),
{
    if rows.len() > 0 {
        let front = rows.drop_last();
        let flags = alive.drop_last();
        let part = history_hits(front, flags, pattern, query, now);
        let all = history_hits(rows, alive, pattern, query, now);
        let n = rows.len() - 1;
        law_history_search(front, flags, pattern, query, now, path);
        if exists|i: int| 0 <= i < all.len() && (#[trigger] all[i]).path == path {
            let i = choose|i: int| 0 <= i < all.len() && (#[trigger] all[i]).path == path;
            if i < part.len() {
                assert(part[i].path == path);
                let j = choose|j: int|
                    0 <= j < front.len() && #[trigger] history_fits(front[j], flags[j], pattern)
                        && front[j].0 == path;
                assert(history_fits(rows[j], alive[j], pattern));
            } else {
                assert(history_fits(rows[n], alive[n], pattern));
            }
        }
        if exists|j: int|
            0 <= j < rows.len() && #[trigger] history_fits(rows[j], alive[j], pattern) && rows[j].0
                == path {
            let j = choose|j: int|
                0 <= j < rows.len() && #[trigger] history_fits(rows[j], alive[j], pattern)
                    && rows[j].0 == path;
            if j < n {
                assert(history_fits(front[j], flags[j], pattern));
                let i = choose|i: int| 0 <= i < part.len() && (#[trigger] part[i]).path == path;
                assert(all[i] == part[i]);
            } else {
                assert(all[part.len() as int].path == path);
            }
        }
    }
}

/// Law: a search of the index finds a directory exactly where the index holds it and
/// its name fits.
pub proof fn law_index_search(rows: Rows, pattern: Seq<char>, path: Seq<char>)
    ensures
        index_hits(rows, pattern).contains(path) <==> (exists|j: int|
            0 <= j < rows.len() && #[trigger] index_fits(rows[j], pattern) && rows[j].0 == path),
    decreases rows.len(),
{
    if rows.len() > 0 {
        let front = rows.drop_last();
        let part = index_hits(front, pattern);
        let all = index_hits(rows, pattern);
        let n = rows.len() - 1;
        law_index_search(front, pattern, path);
        if all.contains(path) {
            let i = choose|i: int| 0 <= i < all.len() && all[i] == path;
            if i < part.len() {
                assert(part[i] == path);
                let j = choose|j: int|
                    0 <= j < front.len() && #[trigger] index_fits(front[j], pattern) && front[j].0
                        == path;
                assert(index_fits(rows[j], pattern));
            } else {
                assert(index_fits(rows[n], pattern));
            }
        }
        if exists|j: int|
            0 <= j < rows.len() && #[trigger] index_fits(rows[j], pattern) && rows[j].0 == path {
            let j = choose|j: int|
                0 <= j < rows.len() && #[trigger] index_fits(rows[j], pattern) && rows[j].0 == path;
            if j < n {
                assert(index_fits(front[j], pattern));
                let i = choose|i: int| 0 <= i < part.len() && part[i] == path;
                assert(all[i] == path);
            } else {
                assert(all[part.len() as int] == path);
            }
        }
    }
}

/// Law: an alias stands for what it was last made to stand for, until it is removed;
/// other aliases do not change.
pub proof fn law_links(
    rows: Seq<(Seq<char>, Seq<char>)>,
    alias: Seq<char>,
    path: Seq<char>,
    other: Seq<char>,
)
    ensures
        lookup(replaced(rows, alias, path), alias) == Some(path),
        lookup(without(replaced(rows, alias, path), alias), alias) is None,
        other != alias ==> lookup(replaced(rows, alias, path), other) == lookup(rows, other),
        other != alias ==> lookup(without(rows, alias), other) == lookup(rows, other),
{
    law_replaced(rows, alias, path, alias);
    law_replaced(rows, alias, path, other);
    law_without(replaced(rows, alias, path), alias, alias);
    law_without(rows, alias, other);
}

/// Law: a boost is the one last given to its directory, until it is taken away; other
/// boosts do not change.
pub proof fn law_boosts(
    rows: Seq<(Seq<char>, u64)>,
    path: Seq<char>,
    multiplier: u64,
    other: Seq<char>,
)
    ensures
        lookup(replaced(rows, path, multiplier), path) == Some(multiplier),
        lookup(without(replaced(rows, path, multiplier), path), path) is None,
        other != path ==> lookup(replaced(rows, path, multiplier), other) == lookup(rows, other),
        other != path ==> lookup(without(rows, path), other) == lookup(rows, other),
{
    law_replaced(rows, path, multiplier, path);
    law_replaced(rows, path, multiplier, other);
    law_without(replaced(rows, path, multiplier), path, path);
    law_without(rows, path, other);
}

/// Law: a clean-up removes exactly what is gone and changes nothing of the rest; no key
/// comes to stand twice.
pub proof fn law_clean<T>(rows: Seq<(Seq<char>, T)>, alive: Seq<bool>, key: Seq<char>)
    requires
        unique(rows),
        alive.len() == rows.len(),
    ensures
        unique(live_rows(rows, alive)),
        live_rows(rows, alive).len() + dead_rows(rows, alive).len() == rows.len(),
        lookup(rows, key) is None ==> lookup(live_rows(rows, alive), key) is None,
        lookup(rows, key) is Some ==> lookup(live_rows(rows, alive), key) == if alive[place(
            rows,
            key,
        )] {
            lookup(rows, key)
        } else {
            None
        },
    decreases rows.len(),
{
    if rows.len() > 0 {
        let front = rows.drop_last();
        let flags = alive.drop_last();
        let last = rows.last();
        assert(forall|k: int| 0 <= k < front.len() ==> #[trigger] front[k] == rows[k]);
        law_clean(front, flags, key);
        law_clean(front, flags, last.0);
        lemma_place(front, last.0);
        if lookup(front, last.0) is Some {
            assert(rows[place(front, last.0)].0 != rows[rows.len() - 1].0);
        }
        lemma_place(live_rows(front, flags), last.0);
        assert(rows =~= front.push(last));
        lemma_lookup_push(front, last, key);
        lemma_lookup_push(live_rows(front, flags), last, key);
        lemma_place(front, key);
        lemma_place(rows, key);
        if lookup(front, key) is Some {
            lemma_place_is(rows, key, place(front, key));
            assert(rows[place(front, key)].0 != rows[rows.len() - 1].0);
        }
    }
}

/// Law: the history tells of a directory exactly where it was entered or picked, with its
/// own counts and date; the index tells of it exactly where the index holds it, under its
/// own name.
pub proof fn law_histories(
    rows: Rows,
    path: Seq<char>,
    visits: u64,
    selections: u64,
    last_access: u64,
    name: Seq<char>,
)
    ensures
        histories(rows).contains((path, HistoryEntry { visits, selections, last_access }))
            <==> exists|k: int|
            0 <= k < rows.len() && (#[trigger] rows[k]).0 == path && rows[k].1.visits == visits
                && rows[k].1.selections == selections && rows[k].1.last_access == last_access && (
            visits > 0 || selections > 0),
        index_entries(rows).contains((path, name)) <==> exists|k: int|
            0 <= k < rows.len() && (#[trigger] rows[k]).0 == path && rows[k].1.in_index
                && rows[k].1.basename == name,
        used_paths(rows).contains(path) <==> exists|k: int|
            0 <= k < rows.len() && (#[trigger] rows[k]).0 == path && (rows[k].1.visits > 0
                || rows[k].1.selections > 0),
    decreases rows.len(),
{
    if rows.len() > 0 {
        let front = rows.drop_last();
        let last = rows.last();
        let n = rows.len() - 1;
        law_histories(front, path, visits, selections, last_access, name);
        assert(rows[n] == last);
        assert(forall|k: int| 0 <= k < n ==> #[trigger] front[k] == rows[k]);
        assert(forall|k: int| 0 <= k < n ==> front[k] == #[trigger] rows[k]);
        let e = HistoryEntry {
            visits: last.1.visits,
            selections: last.1.selections,
            last_access: last.1.last_access,
        };
        lemma_push_contains(
            histories(front),
            (last.0, e),
            (path, HistoryEntry { visits, selections, last_access }),
        );
        lemma_push_contains(index_entries(front), (last.0, last.1.basename), (path, name));
        lemma_push_contains(used_paths(front), last.0, path);
    }
}

/// What a list with one more element holds.
proof fn lemma_push_contains<T>(list: Seq<T>, x: T, y: T)
    ensures
        list.push(x).contains(y) <==> list.contains(y) || x == y,
{
    let all = list.push(x);
    if list.contains(y) {
        let i = choose|i: int| 0 <= i < list.len() && list[i] == y;
        assert(all[i] == y);
    }
    if x == y {
        assert(all[list.len() as int] == y);
    }
    if all.contains(y) && x != y {
        let i = choose|i: int| 0 <= i < all.len() && all[i] == y;
        assert(list[i] == y);
    }
}

/// Law: of some rows, those are told as gone whose flag is not set, and no others.
pub proof fn law_dead_rows<T>(rows: Seq<(Seq<char>, T)>, alive: Seq<bool>, row: (Seq<char>, T))
    requires
        alive.len() == rows.len(),
    ensures
        dead_rows(rows, alive).contains(row) <==> exists|k: int|
            0 <= k < rows.len() && #[trigger] rows[k] == row && !alive[k],
        live_rows(rows, alive).contains(row) <==> exists|k: int|
            0 <= k < rows.len() && #[trigger] rows[k] == row && alive[k],
    decreases rows.len(),
{
    if rows.len() > 0 {
        let front = rows.drop_last();
        let flags = alive.drop_last();
        let n = rows.len() - 1;
        law_dead_rows(front, flags, row);
        assert(rows[n] == rows.last());
        assert(forall|k: int| 0 <= k < n ==> #[trigger] front[k] == rows[k] && flags[k] == alive[k]);
        assert(forall|k: int| 0 <= k < n ==> front[k] == #[trigger] rows[k] && flags[k] == alive[k]);
        lemma_push_contains(dead_rows(front, flags), rows.last(), row);
        lemma_push_contains(live_rows(front, flags), rows.last(), row);
    }
}

/// Law: of what comes over from elsewhere the last entry under a key counts, and a key
/// under which nothing comes keeps what it had.
pub proof fn law_migrated<T>(
    rows: Seq<(Seq<char>, T)>,
    list: Seq<(Seq<char>, T)>,
    more: (Seq<char>, T),
    key: Seq<char>,
)
    ensures
        migrated(rows, Seq::empty()) == rows,
        lookup(migrated(rows, list.push(more)), key) == if key == more.0 {
            Some(more.1)
        } else {
            lookup(migrated(rows, list), key)
        },
{
    assert(list.push(more).drop_last() =~= list);
    law_replaced(migrated(rows, list), more.0, more.1, key);
}

/// Law: of past uses that come over from elsewhere the last one of a directory counts, with
/// its counts and date, under the directory's own name and outside the index; others keep
/// theirs.
pub proof fn law_migrated_dirs(
    rows: Rows,
    list: Seq<(Seq<char>, HistoryEntry)>,
    path: Seq<char>,
    e: HistoryEntry,
    key: Seq<char>,
)
    ensures
        migrated_dirs(rows, Seq::empty()) == rows,
        lookup(migrated_dirs(rows, list.push((path, e))), key) == if key == path {
            Some(
                DirInfo {
                    basename: base_of(path),
                    visits: e.visits,
                    selections: e.selections,
                    last_access: e.last_access,
                    in_index: false,
                },
            )
        } else {
            lookup(migrated_dirs(rows, list), key)
        },
{
    assert(list.push((path, e)).drop_last() =~= list);
    law_replaced(
        migrated_dirs(rows, list),
        path,
        DirInfo {
            basename: base_of(path),
            visits: e.visits,
            selections: e.selections,
            last_access: e.last_access,
            in_index: false,
        },
        key,
    );
}

} // verus!
