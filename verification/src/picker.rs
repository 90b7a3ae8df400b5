//! The picker: which candidates it shows, in which rows, and what each key does.

use crate::db::{Candidate, Found, ResultSource};
use crate::fuzzy::{fits, Fuzzy};
use crate::path::opt_view;
use crate::text::{contains, from_chars, lowercase, occurs_in, str_eq, to_chars, views};
use vstd::prelude::*;
use vstd::string::*;

verus! {

/// How far the path in the marked row moves at a time, in columns.
pub const H_SCROLL_STEP: usize = 8;

/// What a key leads to.
#[derive(Debug)]
pub enum Action {
    /// The directory is chosen.
    Select(String),
    /// The picker is left without a choice.
    Cancel,
    /// The picker goes on.
    Continue,
}

/// What a key leads to.
pub enum Outcome {
    Select(Seq<char>),
    Cancel,
    Continue,
}

impl View for Action {
    type V = Outcome;

    open spec fn view(&self) -> Outcome {
        match self {
            Action::Select(path) => Outcome::Select(path@),
            Action::Cancel => Outcome::Cancel,
            Action::Continue => Outcome::Continue,
        }
    }
}

/// How the picker arranges its candidates.
#[derive(Clone, Copy, PartialEq, Eq, Structural, Debug)]
pub enum LayoutMode {
    /// In a block at the prompt, the best on top.
    Inline,
    /// The best on the middle line, the others above and below it in turn.
    Centered,
    /// The whole screen, the best on top.
    Traditional,
}

impl Default for LayoutMode {
    /// The layout where nothing is said of it.
    fn default() -> (r: Self)
        ensures
            r == LayoutMode::Inline,
    {
        LayoutMode::Inline
    }
}

impl LayoutMode {
    /// The layout that a stored value names.
    pub fn from_setting(value: Option<&str>) -> (r: Self)
        ensures
            r == match opt_view(value) {
                Some(s) => if s == "centered"@ {
                    LayoutMode::Centered
                } else if s == "traditional"@ {
                    LayoutMode::Traditional
                } else {
                    LayoutMode::Inline
                },
                None => LayoutMode::Inline,
            },
    {
        match value {
            Some(s) => {
                if str_eq(s, "centered") {
                    LayoutMode::Centered
                } else if str_eq(s, "traditional") {
                    LayoutMode::Traditional
                } else {
                    LayoutMode::Inline
                }
            },
            None => LayoutMode::Inline,
        }
    }

    /// Whether the picker stands at the prompt rather than on the whole screen.
    pub fn is_inline(self) -> (r: bool)
        ensures
            r == (self == LayoutMode::Inline),
    {
        match self {
            LayoutMode::Inline => true,
            _ => false,
        }
    }
}

/// A candidate as the picker holds it.
#[derive(Debug)]
pub struct CandidateView {
    pub path: String,
    /// Whether its directory is there.
    pub valid: bool,
    pub source: ResultSource,
}

/// What the picker holds of a candidate.
pub struct CandidateInfo {
    pub path: Seq<char>,
    pub valid: bool,
    pub source: ResultSource,
}

impl View for CandidateView {
    type V = CandidateInfo;

    open spec fn view(&self) -> CandidateInfo {
        CandidateInfo { path: self.path@, valid: self.valid, source: self.source }
    }
}

// ---- the spread ----

/// The rank that stands at place `p` of a spread of `n`: the best in the middle, the
/// second above it, the third below it, and so on outward.
pub open spec fn spread_rank(n: int, p: int) -> int {
    if p < n / 2 {
        2 * (n / 2 - p) - 1
    } else {
        2 * (p - n / 2)
    }
}

/// The place at which a rank stands.
pub open spec fn spread_place(n: int, rank: int) -> int {
    if rank % 2 == 1 {
        n / 2 - (rank + 1) / 2
    } else {
        n / 2 + rank / 2
    }
}

/// A list by rank, spread out from the middle.
pub open spec fn spread(list: Seq<usize>) -> Seq<usize> {
    Seq::new(list.len(), |p: int| list[spread_rank(list.len() as int, p)])
}

/// Law: a spread shows every rank once: places and ranks answer each other one for one;
/// the best stands in the middle.
pub proof fn law_spread(n: int, p: int, rank: int)
    requires
        0 <= p < n,
        0 <= rank < n,
    ensures
        0 <= spread_rank(n, p) < n,
        0 <= spread_place(n, rank) < n,
        spread_place(n, spread_rank(n, p)) == p,
        spread_rank(n, spread_place(n, rank)) == rank,
        spread_rank(n, n / 2) == 0,
{
}

/// Spreads a list by rank out from the middle. Gives it with the place of the best.
pub fn build_spread(filtered: &Vec<usize>) -> (r: (Vec<usize>, usize))
    ensures
        r.0@ == spread(filtered@),
        r.1 == filtered@.len() as int / 2,
{
    let n: usize = filtered.len();
    let center: usize = n / 2;
    let mut out: Vec<usize> = Vec::new();
    let mut p: usize = 0;
    while p < n
        invariant
            n == filtered@.len(),
            center == n as int / 2,
            p <= n,
            out@.len() == p,
            forall|k: int|
                0 <= k < p ==> #[trigger] out@[k] == filtered@[spread_rank(n as int, k)],
        decreases n - p,
    {
        proof {
            law_spread(n as int, p as int, 0);
        }
        let rank: usize = if p < center {
            let up: usize = center - p;
            up + (up - 1)
        } else {
            let down: usize = p - center;
            down + down
        };
        out.push(filtered[rank]);
        p = p + 1;
    }
    assert(out@ =~= spread(filtered@));
    (out, center)
}

// ---- the state ----

/// The state of the picker.
pub struct App {
    pub query: String,
    pub all_candidates: Vec<CandidateView>,
    /// The candidates that pass the filter, best first.
    pub filtered: Vec<usize>,
    /// The same as they are drawn, from top to bottom.
    pub order: Vec<usize>,
    /// Which of them is marked.
    pub cursor: usize,
    /// Which of them is drawn first, where the list is drawn from the top.
    pub scroll_offset: usize,
    pub viewport_size: usize,
    pub mode: LayoutMode,
    pub filter_mode: bool,
    pub filter_query: String,
    /// By how many columns the path in the marked row is moved.
    pub h_scroll: usize,
    /// By how many it can be moved, as the last drawing found it.
    pub sel_max_hscroll: usize,
    pub matcher: Fuzzy,
}

/// The state of the picker.
#[verifier::ext_equal]
pub struct AppState {
    pub query: Seq<char>,
    pub all: Seq<CandidateInfo>,
    pub filtered: Seq<usize>,
    pub order: Seq<usize>,
    pub cursor: usize,
    pub scroll_offset: usize,
    pub viewport_size: usize,
    pub mode: LayoutMode,
    pub filter_mode: bool,
    pub filter_query: Seq<char>,
    pub h_scroll: usize,
    pub sel_max_hscroll: usize,
}

impl View for App {
    type V = AppState;

    open spec fn view(&self) -> AppState {
        AppState {
            query: self.query@,
            all: views(self.all_candidates@),
            filtered: self.filtered@,
            order: self.order@,
            cursor: self.cursor,
            scroll_offset: self.scroll_offset,
            viewport_size: self.viewport_size,
            mode: self.mode,
            filter_mode: self.filter_mode,
            filter_query: self.filter_query@,
            h_scroll: self.h_scroll,
            sel_max_hscroll: self.sel_max_hscroll,
        }
    }
}

/// The order in which a list by rank is drawn.
pub open spec fn arranged(list: Seq<usize>, mode: LayoutMode) -> Seq<usize> {
    match mode {
        LayoutMode::Centered => spread(list),
        _ => list,
    }
}

impl AppState {
    /// The candidates that pass are there and in order; they are drawn in the order of
    /// the mode; the mark is on one of them; where the list is drawn from the top, the
    /// marked one is in the window.
    pub open spec fn wf(self) -> bool {
        &&& forall|i: int|
            0 <= i < self.filtered.len() ==> #[trigger] self.filtered[i] < self.all.len()
        &&& forall|i: int, j: int|
            0 <= i < j < self.filtered.len() ==> #[trigger] self.filtered[i]
                < #[trigger] self.filtered[j]
        &&& self.order == arranged(self.filtered, self.mode)
        &&& self.order.len() == 0 ==> self.cursor == 0
        &&& self.order.len() > 0 ==> self.cursor < self.order.len()
        &&& self.mode != LayoutMode::Centered && self.viewport_size > 0 ==> self.scroll_offset
            <= self.cursor < self.scroll_offset + self.viewport_size
    }
}

/// The numbers below `n` for which `keep` holds, in order.
pub open spec fn kept_below(n: int, keep: spec_fn(int) -> bool) -> Seq<usize>
    decreases n,
{
    if n <= 0 {
        Seq::empty()
    } else {
        let front = kept_below(n - 1, keep);
        if keep(n - 1) {
            front.push((n - 1) as usize)
        } else {
            front
        }
    }
}

/// Whether a path passes a filter: it fits it loosely, or holds it without regard to
/// case.
pub open spec fn passes(score: Option<u32>, path: Seq<char>, filter: Seq<char>) -> bool {
    (score matches Some(s) && s > 0) || occurs_in(lowercase(path), lowercase(filter))
}

/// Which candidates pass a filter; without one all do.
pub open spec fn passing(all: Seq<CandidateInfo>, filter: Seq<char>) -> Seq<usize> {
    kept_below(
        all.len() as int,
        |i: int|
            filter.len() == 0 || passes(fits(filter, all[i].path), all[i].path, filter),
    )
}

/// The place of the mark in a freshly drawn list.
pub open spec fn first_mark(list: Seq<usize>, mode: LayoutMode) -> usize {
    match mode {
        LayoutMode::Centered => (list.len() as int / 2) as usize,
        _ => 0,
    }
}

/// The state after the list has been drawn afresh.
pub open spec fn rebuilt(s: AppState) -> AppState {
    AppState {
        order: arranged(s.filtered, s.mode),
        cursor: first_mark(s.filtered, s.mode),
        scroll_offset: 0,
        h_scroll: 0,
        ..s
    }
}

/// The state after the filter has been set to `filter`.
pub open spec fn refiltered(s: AppState, filter: Seq<char>) -> AppState {
    rebuilt(AppState { filter_query: filter, filtered: passing(s.all, filter), ..s })
}

/// The start of a window of `size` that holds `cursor`, moved as little as can be.
pub open spec fn window_start(cursor: int, start: int, size: int) -> int {
    if cursor < start {
        cursor
    } else if cursor >= start + size {
        cursor + 1 - size
    } else {
        start
    }
}

/// The state after the mark has moved up.
pub open spec fn moved_up(s: AppState) -> AppState {
    let total = s.order.len() as int;
    let t = AppState { h_scroll: 0, ..s };
    let up = if s.cursor > 0 {
        (s.cursor - 1) as usize
    } else {
        0
    };
    match s.mode {
        LayoutMode::Centered => AppState { cursor: up, ..t },
        LayoutMode::Traditional => if total == 0 {
            t
        } else if s.cursor == 0 {
            AppState {
                cursor: (total - 1) as usize,
                scroll_offset: if total > s.viewport_size {
                    (total - s.viewport_size) as usize
                } else {
                    0
                },
                ..t
            }
        } else {
            AppState {
                cursor: up,
                scroll_offset: if up < s.scroll_offset {
                    up
                } else {
                    s.scroll_offset
                },
                ..t
            }
        },
        LayoutMode::Inline => AppState {
            cursor: up,
            scroll_offset: window_start(
                up as int,
                s.scroll_offset as int,
                s.viewport_size as int,
            ) as usize,
            ..t
        },
    }
}

/// The state after the mark has moved down.
pub open spec fn moved_down(s: AppState) -> AppState {
    let total = s.order.len() as int;
    let t = AppState { h_scroll: 0, ..s };
    let more = s.cursor + 1 < total;
    let down = if more {
        (s.cursor + 1) as usize
    } else {
        s.cursor
    };
    match s.mode {
        LayoutMode::Centered => AppState { cursor: down, ..t },
        LayoutMode::Traditional => if total == 0 {
            t
        } else if more {
            AppState {
                cursor: down,
                scroll_offset: if down >= s.scroll_offset + s.viewport_size {
                    (down + 1 - s.viewport_size) as usize
                } else {
                    s.scroll_offset
                },
                ..t
            }
        } else {
            AppState { cursor: 0, scroll_offset: 0, ..t }
        },
        LayoutMode::Inline => if more {
            AppState {
                cursor: down,
                scroll_offset: window_start(
                    down as int,
                    s.scroll_offset as int,
                    s.viewport_size as int,
                ) as usize,
                ..t
            }
        } else {
            t
        },
    }
}

/// The state after the marked path has moved to show more of its start.
pub open spec fn scrolled_left(s: AppState) -> AppState {
    AppState {
        h_scroll: if s.h_scroll + H_SCROLL_STEP <= s.sel_max_hscroll {
            (s.h_scroll + H_SCROLL_STEP) as usize
        } else {
            s.sel_max_hscroll
        },
        ..s
    }
}

/// The state after the marked path has moved back to its end.
pub open spec fn scrolled_right(s: AppState) -> AppState {
    AppState {
        h_scroll: if s.h_scroll >= H_SCROLL_STEP {
            (s.h_scroll - H_SCROLL_STEP) as usize
        } else {
            0
        },
        ..s
    }
}

/// The state after the filter has been left.
pub open spec fn filter_left(s: AppState) -> AppState {
    if s.filter_mode {
        refiltered(AppState { filter_mode: false, ..s }, Seq::empty())
    } else {
        s
    }
}

/// What choosing the marked candidate leads to: its directory, where that is there.
pub open spec fn chosen(s: AppState) -> Outcome {
    if s.cursor < s.order.len() && s.all[s.order[s.cursor as int] as int].valid {
        Outcome::Select(s.all[s.order[s.cursor as int] as int].path)
    } else {
        Outcome::Continue
    }
}

/// The filter without its last character.
pub open spec fn shortened(s: Seq<char>) -> Seq<char> {
    if s.len() > 0 {
        s.drop_last()
    } else {
        s
    }
}

/// A key.
#[derive(Clone, Copy, PartialEq, Eq, Structural, Debug)]
pub enum Key {
    Esc,
    Enter,
    Backspace,
    Up,
    Down,
    Left,
    Right,
    Char(char),
    Other,
}

/// What a key does, and what it leads to.
pub open spec fn pressed(s: AppState, key: Key, control: bool) -> (AppState, Outcome) {
    if control {
        if key == Key::Char('c') {
            (s, Outcome::Cancel)
        } else if key == Key::Char('u') && s.filter_mode {
            (refiltered(s, Seq::empty()), Outcome::Continue)
        } else {
            (s, Outcome::Continue)
        }
    } else if s.filter_mode {
        match key {
            Key::Esc => (filter_left(s), Outcome::Continue),
            Key::Enter => (s, chosen(s)),
            Key::Backspace => (refiltered(s, shortened(s.filter_query)), Outcome::Continue),
            Key::Char(c) => (refiltered(s, s.filter_query.push(c)), Outcome::Continue),
            Key::Up => (moved_up(s), Outcome::Continue),
            Key::Down => (moved_down(s), Outcome::Continue),
            Key::Left => (scrolled_left(s), Outcome::Continue),
            Key::Right => (scrolled_right(s), Outcome::Continue),
            Key::Other => (s, Outcome::Continue),
        }
    } else {
        match key {
            Key::Esc => (s, Outcome::Cancel),
            Key::Enter => (s, chosen(s)),
            Key::Up => (moved_up(s), Outcome::Continue),
            Key::Down => (moved_down(s), Outcome::Continue),
            Key::Left => (scrolled_left(s), Outcome::Continue),
            Key::Right => (scrolled_right(s), Outcome::Continue),
            Key::Char(c) => if c == 'k' {
                (moved_up(s), Outcome::Continue)
            } else if c == 'j' {
                (moved_down(s), Outcome::Continue)
            } else if c == 'h' {
                (scrolled_left(s), Outcome::Continue)
            } else if c == 'l' {
                (scrolled_right(s), Outcome::Continue)
            } else if c == '/' {
                (AppState { filter_mode: true, ..s }, Outcome::Continue)
            } else {
                (s, Outcome::Continue)
            },
            _ => (s, Outcome::Continue),
        }
    }
}

/// The picker as it opens.
pub open spec fn opened(
    query: Seq<char>,
    candidates: Seq<Found>,
    alive: Seq<bool>,
    viewport_size: usize,
    mode: LayoutMode,
) -> AppState {
    let all = Seq::new(
        candidates.len(),
        |i: int|
            CandidateInfo {
                path: candidates[i].path,
                valid: alive[i],
                source: candidates[i].source,
            },
    );
    let listed = passing(all, Seq::empty());
    AppState {
        query,
        all,
        filtered: listed,
        order: arranged(listed, mode),
        cursor: first_mark(listed, mode),
        scroll_offset: 0,
        viewport_size,
        mode,
        filter_mode: false,
        filter_query: Seq::empty(),
        h_scroll: 0,
        sel_max_hscroll: 0,
    }
}

/// The candidate in row `i` of the order, and whether it is marked.
pub open spec fn row_at(s: AppState, i: int) -> Option<(bool, CandidateInfo)> {
    if 0 <= i < s.order.len() {
        Some((i == s.cursor, s.all[s.order[i] as int]))
    } else {
        None
    }
}

/// What is drawn in a row of the window.
pub open spec fn window_row(s: AppState, row: int) -> Option<(bool, CandidateInfo)> {
    match s.mode {
        LayoutMode::Centered => row_at(s, s.cursor + row - s.viewport_size as int / 2),
        _ => row_at(s, s.scroll_offset + row),
    }
}

/// A row with the view of its candidate.
pub open spec fn row_view(row: Option<(bool, &CandidateView)>) -> Option<(bool, CandidateInfo)> {
    match row {
        Some((marked, c)) => Some((marked, c@)),
        None => None,
    }
}

/// The rank of the marked candidate, counted from one; nothing where there is none.
pub open spec fn rank_of(s: AppState) -> int {
    if s.cursor < s.order.len() {
        match s.filtered.index_of_first(s.order[s.cursor as int]) {
            Some(i) => i + 1,
            None => 0,
        }
    } else {
        0
    }
}

/// Law: where there is a marked candidate it has a rank, and it is the one of that rank.
pub proof fn law_rank(s: AppState)
    requires
        s.wf(),
        s.order.len() > 0,
    ensures
        0 < rank_of(s) <= s.filtered.len(),
        s.filtered[rank_of(s) - 1] == s.order[s.cursor as int],
{
    let n = s.filtered.len() as int;
    let marked = s.order[s.cursor as int];
    law_spread(n, s.cursor as int, 0);
    match s.mode {
        LayoutMode::Centered => {
            assert(s.filtered[spread_rank(n, s.cursor as int)] == marked);
        },
        _ => {
            assert(s.filtered[s.cursor as int] == marked);
        },
    }
    s.filtered.index_of_first_ensures(marked);
}

/// What is kept is in order and below the bound.
proof fn lemma_kept_below(n: int, keep: spec_fn(int) -> bool)
    requires
        0 <= n <= usize::MAX,
    ensures
        forall|i: int| 0 <= i < kept_below(n, keep).len() ==> #[trigger] kept_below(n, keep)[i] < n,
        forall|i: int, j: int|
            0 <= i < j < kept_below(n, keep).len() ==> #[trigger] kept_below(n, keep)[i]
                < #[trigger] kept_below(n, keep)[j],
        kept_below(n, keep).len() <= n,
    decreases n,
{
    if n > 0 {
        lemma_kept_below(n - 1, keep);
    }
}

/// Law: of the candidates a filter passes exactly those that fit it or hold it, and
/// they keep their ranks.
pub proof fn law_filter(all: Seq<CandidateInfo>, filter: Seq<char>, i: usize)
    requires
        all.len() <= usize::MAX,
        filter.len() > 0,
    ensures
        passing(all, filter).contains(i) <==> i < all.len() && passes(
            fits(filter, all[i as int].path),
            all[i as int].path,
            filter,
        ),
{
    lemma_kept(
        all.len() as int,
        |k: int|
            filter.len() == 0 || passes(fits(filter, all[k].path), all[k].path, filter),
        i,
    );
}

/// What is kept is what holds below the bound.
proof fn lemma_kept(n: int, keep: spec_fn(int) -> bool, i: usize)
    requires
        0 <= n <= usize::MAX,
    ensures
        kept_below(n, keep).contains(i) <==> i < n && keep(i as int),
    decreases n,
{
    if n > 0 {
        lemma_kept(n - 1, keep, i);
        let front = kept_below(n - 1, keep);
        let all = kept_below(n, keep);
        if front.contains(i) {
            let k = choose|k: int| 0 <= k < front.len() && front[k] == i;
            assert(all[k] == i);
        }
        if keep(n - 1) {
            assert(all[front.len() as int] == (n - 1) as usize);
            if all.contains(i) && i != (n - 1) as usize {
                let k = choose|k: int| 0 <= k < all.len() && all[k] == i;
                assert(front[k] == i);
            }
        }
    }
}

/// Law: every key leaves the picker in order: the mark on a candidate that passes, and
/// in the window.
pub proof fn law_pressed_keeps_order(s: AppState, key: Key, control: bool)
    requires
        s.wf(),
        s.all.len() <= usize::MAX,
    ensures
        pressed(s, key, control).0.wf(),
        pressed(s, key, control).0.all == s.all,
{
    lemma_refiltered(s, Seq::empty());
    lemma_refiltered(AppState { filter_mode: false, ..s }, Seq::empty());
    lemma_refiltered(s, shortened(s.filter_query));
    if let Key::Char(c) = key {
        lemma_refiltered(s, s.filter_query.push(c));
    }
    lemma_order_len(s);
}

/// The list is drawn with as many entries as it has, and has no more than there are
/// candidates.
proof fn lemma_order_len(s: AppState)
    requires
        s.wf(),
    ensures
        s.order.len() == s.filtered.len(),
        s.order.len() <= s.all.len(),
{
    let n = s.filtered.len() as int;
    if n > 0 {
        lemma_rising(s.filtered, n - 1);
        assert(s.filtered[n - 1] < s.all.len());
    }
}

/// Numbers that rise are at least as large as their places.
proof fn lemma_rising(list: Seq<usize>, i: int)
    requires
        0 <= i < list.len(),
        forall|i: int, j: int| 0 <= i < j < list.len() ==> #[trigger] list[i] < #[trigger] list[j],
    ensures
        list[i] >= i,
    decreases i,
{
    if i > 0 {
        lemma_rising(list, i - 1);
        assert(list[i - 1] < list[i]);
    }
}

/// A fresh list is in order.
proof fn lemma_refiltered(s: AppState, filter: Seq<char>)
    requires
        s.all.len() <= usize::MAX,
    ensures
        refiltered(s, filter).wf(),
        refiltered(s, filter).all == s.all,
        passing(s.all, filter).len() <= s.all.len(),
{
    let all = s.all;
    lemma_kept_below(
        all.len() as int,
        |i: int|
            filter.len() == 0 || passes(fits(filter, all[i].path), all[i].path, filter),
    );
}

/// Law: in the centered layout the marked candidate is always on the middle line; in
/// the others it is always in the window.
pub proof fn law_mark_is_drawn(s: AppState)
    requires
        s.wf(),
        s.viewport_size > 0,
        s.order.len() > 0,
    ensures
        s.mode == LayoutMode::Centered ==> window_row(s, s.viewport_size as int / 2) == row_at(
            s,
            s.cursor as int,
        ),
        s.mode != LayoutMode::Centered ==> 0 <= s.cursor - s.scroll_offset < s.viewport_size
            && window_row(s, s.cursor - s.scroll_offset) == row_at(s, s.cursor as int),
        row_at(s, s.cursor as int) matches Some(row) && row.0,
{
}

/// Law: the picker opens on the best candidate.
pub proof fn law_opens_on_best(
    query: Seq<char>,
    candidates: Seq<Found>,
    alive: Seq<bool>,
    viewport_size: usize,
    mode: LayoutMode,
)
    requires
        0 < candidates.len() <= usize::MAX,
    ensures
        ({
            let s = opened(query, candidates, alive, viewport_size, mode);
            s.wf() && s.order[s.cursor as int] == 0
        }),
{
    let s = opened(query, candidates, alive, viewport_size, mode);
    lemma_refiltered(s, Seq::empty());
    let keep = |i: int|
        Seq::<char>::empty().len() == 0 || passes(
            fits(Seq::empty(), s.all[i].path),
            s.all[i].path,
            Seq::empty(),
        );
    lemma_all_kept(s.all.len() as int, keep);
    law_spread(s.all.len() as int, 0, 0);
}

/// Whether what is listed is what passes the filter.
pub open spec fn lists_what_passes(s: AppState) -> bool {
    s.filtered == passing(s.all, s.filter_query)
}

/// Law: at all times the picker lists exactly what passes its filter: it does when it
/// opens, and no key changes that, nor the candidates, the query, the layout or the
/// window's size.
pub proof fn law_lists_what_passes(
    s: AppState,
    key: Key,
    control: bool,
    query: Seq<char>,
    candidates: Seq<Found>,
    alive: Seq<bool>,
    viewport_size: usize,
    mode: LayoutMode,
)
    requires
        lists_what_passes(s),
    ensures
        lists_what_passes(opened(query, candidates, alive, viewport_size, mode)),
        ({
            let t = pressed(s, key, control).0;
            &&& lists_what_passes(t)
            &&& t.all == s.all && t.query == s.query && t.mode == s.mode && t.viewport_size
                == s.viewport_size && t.sel_max_hscroll == s.sel_max_hscroll
        }),
{
}

/// The candidate that stands in a row of the order.
proof fn lemma_row_rank(s: AppState, i: int) -> (rank: int)
    requires
        s.wf(),
        0 <= i < s.order.len(),
    ensures
        0 <= rank < s.filtered.len(),
        s.order[i] == s.filtered[rank],
        s.mode == LayoutMode::Centered ==> rank == spread_rank(s.filtered.len() as int, i),
        s.mode != LayoutMode::Centered ==> rank == i,
{
    let n = s.filtered.len() as int;
    match s.mode {
        LayoutMode::Centered => {
            law_spread(n, i, 0);
            spread_rank(n, i)
        },
        _ => i,
    }
}

/// Law: every candidate that passes the filter is in exactly one row, and no other is in
/// any; without a filter all pass. From the top the rows go by rank; in the centered
/// layout the better of two candidates never stands further from the middle.
pub proof fn law_rows(s: AppState, k: int, i: int, j: int)
    requires
        s.wf(),
        lists_what_passes(s),
        s.all.len() <= usize::MAX,
        0 <= k < s.all.len(),
        0 <= i < j < s.order.len(),
    ensures
        (exists|row: int| 0 <= row < s.order.len() && #[trigger] s.order[row] == k) <==> (
        s.filter_query.len() == 0 || (fits(s.filter_query, s.all[k].path) matches Some(f) && f > 0)
            || occurs_in(lowercase(s.all[k].path), lowercase(s.filter_query))),
        s.order[i] != s.order[j],
        s.mode != LayoutMode::Centered ==> s.order[i] < s.order[j],
        s.mode == LayoutMode::Centered ==> ({
            let middle = s.order.len() as int / 2;
            let (a, b) = (
                if i < middle {
                    middle - i
                } else {
                    i - middle
                },
                if j < middle {
                    middle - j
                } else {
                    j - middle
                },
            );
            (a < b ==> s.order[i] < s.order[j]) && (b < a ==> s.order[j] < s.order[i]) && (a == b
                ==> s.order[i] < s.order[j])
        }),
{
    let keep = |k: int|
        s.filter_query.len() == 0 || passes(
            fits(s.filter_query, s.all[k].path),
            s.all[k].path,
            s.filter_query,
        );
    let n = s.filtered.len() as int;
    lemma_kept(s.all.len() as int, keep, k as usize);
    assert(s.filtered == kept_below(s.all.len() as int, keep)) by {
        assert(passing(s.all, s.filter_query) == kept_below(s.all.len() as int, keep)) by {
            lemma_kept_same(
                s.all.len() as int,
                |i: int|
                    s.filter_query.len() == 0 || passes(
                        fits(s.filter_query, s.all[i].path),
                        s.all[i].path,
                        s.filter_query,
                    ),
                keep,
            );
        }
    }
    lemma_order_len(s);
    if exists|row: int| 0 <= row < s.order.len() && #[trigger] s.order[row] == k {
        let row = choose|row: int| 0 <= row < s.order.len() && #[trigger] s.order[row] == k;
        let rank = lemma_row_rank(s, row);
        assert(s.filtered[rank] == k as usize);
        assert(s.filtered.contains(k as usize));
    }
    if s.filtered.contains(k as usize) {
        let rank = choose|rank: int| 0 <= rank < n && s.filtered[rank] == k as usize;
        match s.mode {
            LayoutMode::Centered => {
                law_spread(n, 0, rank);
                assert(s.order[spread_place(n, rank)] == k);
            },
            _ => {
                assert(s.order[rank] == k);
            },
        }
    }
    let (x, y) = (lemma_row_rank(s, i), lemma_row_rank(s, j));
    if x < y {
        assert(s.filtered[x] < s.filtered[y]);
    } else if y < x {
        assert(s.filtered[y] < s.filtered[x]);
    }
}

/// What is kept below a bound depends on nothing above it.
proof fn lemma_kept_same(n: int, a: spec_fn(int) -> bool, b: spec_fn(int) -> bool)
    requires
        forall|i: int| 0 <= i < n ==> #[trigger] a(i) == b(i),
    ensures
        kept_below(n, a) == kept_below(n, b),
    decreases n,
{
    if n > 0 {
        lemma_kept_same(n - 1, a, b);
        assert(a(n - 1) == b(n - 1));
    }
}

/// Law: Enter chooses what is drawn as marked: a path is chosen exactly where a row of the
/// window is drawn as marked with that path and its directory is there, in every layout
/// and under every filter. It changes nothing else, and no other key chooses anything.
pub proof fn law_enter_chooses_the_mark(s: AppState, key: Key, control: bool, path: Seq<char>)
    requires
        s.wf(),
        s.viewport_size > 0,
    ensures
        pressed(s, Key::Enter, false).0 == s,
        pressed(s, Key::Enter, false).1 == Outcome::Select(path) <==> exists|row: int|
            0 <= row < s.viewport_size && (#[trigger] window_row(s, row) matches Some((marked, c))
                && marked && c.valid && c.path == path),
        pressed(s, Key::Enter, false).1 is Select || pressed(s, Key::Enter, false).1 is Continue,
        pressed(s, key, control).1 is Select ==> key == Key::Enter && !control,
{
    let at = if s.mode == LayoutMode::Centered {
        s.viewport_size as int / 2
    } else {
        s.cursor - s.scroll_offset
    };
    if pressed(s, Key::Enter, false).1 == Outcome::Select(path) {
        assert(0 <= at < s.viewport_size);
        assert(window_row(s, at) matches Some((marked, c)) && marked && c.valid && c.path == path);
    }
}

/// Law: what is in a row of the window is in that row of the list, counted from where the
/// window starts: at the scrolled row, or in the centered layout as many rows before the
/// mark as make half the window. The row is drawn as marked exactly where the mark is.
pub proof fn law_window(s: AppState, row: int)
    requires
        s.wf(),
        0 <= row < s.viewport_size,
    ensures
        ({
            let i = row + if s.mode == LayoutMode::Centered {
                s.cursor - s.viewport_size as int / 2
            } else {
                s.scroll_offset as int
            };
            window_row(s, row) == if 0 <= i < s.order.len() {
                Some((i == s.cursor, s.all[s.order[i] as int]))
            } else {
                None
            }
        }),
{
}

/// Law: the picker is left without a choice by Control-C, and by Escape unless a filter is
/// being typed; in that case Escape gives up the filter, and all candidates are listed
/// again.
pub proof fn law_leaves(s: AppState, key: Key, control: bool)
    requires
        s.all.len() <= usize::MAX,
    ensures
        pressed(s, key, control).1 is Cancel <==> (control && key == Key::Char('c')) || (!control
            && key == Key::Esc && !s.filter_mode),
        s.filter_mode ==> ({
            let t = pressed(s, Key::Esc, false).0;
            !t.filter_mode && t.filter_query.len() == 0 && t.filtered.len() == s.all.len()
        }),
        s.filter_mode ==> ({
            let t = pressed(s, Key::Char('u'), true).0;
            t.filter_mode && t.filter_query.len() == 0 && t.filtered.len() == s.all.len()
        }),
        !s.filter_mode ==> pressed(s, Key::Char('/'), false).0 == (AppState {
            filter_mode: true,
            ..s
        }),
{
    let keep = |i: int|
        Seq::<char>::empty().len() == 0 || passes(
            fits(Seq::empty(), s.all[i].path),
            s.all[i].path,
            Seq::empty(),
        );
    lemma_all_kept(s.all.len() as int, keep);
}

/// Law: a character that is typed into the filter goes to its end, and Backspace takes the
/// last one away again; each time the mark goes back to the best of what passes.
pub proof fn law_typing(s: AppState, c: char)
    requires
        s.wf(),
        s.all.len() <= usize::MAX,
        s.filter_mode,
        lists_what_passes(s),
    ensures
        ({
            let t = pressed(s, Key::Char(c), false).0;
            let u = pressed(t, Key::Backspace, false).0;
            &&& t.filter_query == s.filter_query.push(c) && t.filter_mode
            &&& u.filter_query == s.filter_query && u.filtered == s.filtered && u.order == s.order
                && u.filter_mode
            &&& t.filtered.len() > 0 ==> t.order[t.cursor as int] == t.filtered[0]
            &&& t.h_scroll == 0
        }),
{
    let t = pressed(s, Key::Char(c), false).0;
    assert(s.filter_query.push(c).drop_last() =~= s.filter_query);
    lemma_refiltered(s, s.filter_query.push(c));
    lemma_spread_best(t.filtered);
}

/// The best of a spread stands in its middle.
proof fn lemma_spread_best(list: Seq<usize>)
    ensures
        list.len() > 0 ==> spread(list)[list.len() as int / 2] == list[0],
{
    if list.len() > 0 {
        law_spread(list.len() as int, 0, 0);
    }
}

/// Law: Down moves the mark to the next row and Up back to the one before, whether by
/// arrow or by letter, with or without a filter. At its ends the list that fills the
/// screen from the top goes round; in the other layouts the mark stays. Moving the mark
/// shows the start of its row again and changes nothing of what is listed.
pub proof fn law_moves(s: AppState)
    requires
        s.wf(),
        s.order.len() > 0,
        s.all.len() <= usize::MAX,
    ensures
        ({
            let n = s.order.len() as int;
            let down = pressed(s, Key::Down, false).0;
            let up = pressed(s, Key::Up, false).0;
            let round = s.mode == LayoutMode::Traditional;
            &&& down.cursor == if s.cursor + 1 < n {
                s.cursor + 1
            } else if round {
                0
            } else {
                s.cursor as int
            }
            &&& up.cursor == if s.cursor > 0 {
                s.cursor - 1
            } else if round {
                n - 1
            } else {
                0
            }
            &&& s.cursor + 1 < n || round ==> pressed(down, Key::Up, false).0.cursor == s.cursor
            &&& s.cursor > 0 || round ==> pressed(up, Key::Down, false).0.cursor == s.cursor
            &&& down.h_scroll == 0 && up.h_scroll == 0
            &&& down.order == s.order && up.order == s.order && down.filtered == s.filtered
                && up.filtered == s.filtered && down.filter_query == s.filter_query
                && up.filter_query == s.filter_query && down.filter_mode == s.filter_mode
                && up.filter_mode == s.filter_mode
            &&& !s.filter_mode ==> pressed(s, Key::Char('j'), false) == pressed(s, Key::Down, false)
                && pressed(s, Key::Char('k'), false) == pressed(s, Key::Up, false)
        }),
{
    lemma_order_len(s);
}

/// Law: Left and Right move the marked path by as many columns as each other, and never
/// beyond its ends; they change nothing else.
pub proof fn law_scrolls(s: AppState)
    requires
        s.h_scroll <= s.sel_max_hscroll,
    ensures
        ({
            let left = pressed(s, Key::Left, false).0;
            let right = pressed(s, Key::Right, false).0;
            &&& s.h_scroll <= left.h_scroll <= s.sel_max_hscroll
            &&& right.h_scroll <= s.h_scroll
            &&& s.h_scroll < s.sel_max_hscroll ==> s.h_scroll < left.h_scroll
            &&& s.h_scroll > 0 ==> right.h_scroll < s.h_scroll
            &&& s.h_scroll + H_SCROLL_STEP <= s.sel_max_hscroll ==> pressed(
                left,
                Key::Right,
                false,
            ).0.h_scroll == s.h_scroll
            &&& left == (AppState { h_scroll: left.h_scroll, ..s })
            &&& right == (AppState { h_scroll: right.h_scroll, ..s })
        }),
{
}

/// Law: the picker opens on the best candidate, with nothing filtered out, and Enter at
/// once chooses it where its directory is there.
pub proof fn law_opens(
    query: Seq<char>,
    candidates: Seq<Found>,
    alive: Seq<bool>,
    viewport_size: usize,
    mode: LayoutMode,
)
    requires
        0 < candidates.len() <= usize::MAX,
        alive.len() == candidates.len(),
    ensures
        ({
            let s = opened(query, candidates, alive, viewport_size, mode);
            &&& s.order.len() == candidates.len() && s.all.len() == candidates.len()
            &&& s.query == query && s.mode == mode && !s.filter_mode && s.filter_query.len() == 0
            &&& forall|k: int|
                0 <= k < candidates.len() ==> (#[trigger] s.all[k]).path == candidates[k].path
                    && s.all[k].valid == alive[k] && s.all[k].source == candidates[k].source
            &&& alive[0] ==> pressed(s, Key::Enter, false).1 == Outcome::Select(candidates[0].path)
            &&& !alive[0] ==> pressed(s, Key::Enter, false).1 == Outcome::Continue
        }),
{
    law_opens_on_best(query, candidates, alive, viewport_size, mode);
    let s = opened(query, candidates, alive, viewport_size, mode);
    let keep = |i: int|
        Seq::<char>::empty().len() == 0 || passes(
            fits(Seq::empty(), s.all[i].path),
            s.all[i].path,
            Seq::empty(),
        );
    lemma_all_kept(s.all.len() as int, keep);
}

/// Where all is kept, each stands at its own number.
proof fn lemma_all_kept(n: int, keep: spec_fn(int) -> bool)
    requires
        0 <= n <= usize::MAX,
        forall|i: int| #[trigger] keep(i),
    ensures
        kept_below(n, keep).len() == n,
        forall|i: int| 0 <= i < n ==> #[trigger] kept_below(n, keep)[i] == i,
    decreases n,
{
    if n > 0 {
        lemma_all_kept(n - 1, keep);
    }
}

/// Whether a path passes a filter, from its loose score.
pub fn passes_filter(score: Option<u32>, path: &str, filter: &str) -> (r: bool)
    ensures
        r == passes(score, path@, filter@),
{
    if let Some(s) = score {
        if s > 0 {
            return true;
        }
    }
    contains(path.to_lowercase().as_str(), filter.to_lowercase().as_str())
}

impl App {
    /// Whether the state is in order.
    pub open spec fn wf(&self) -> bool {
        self@.wf()
    }

    /// Opens the picker. `alive` says of each candidate whether its directory is there.
    pub fn new(
        query: String,
        candidates: &Vec<Candidate>,
        alive: &Vec<bool>,
        viewport_size: usize,
        mode: LayoutMode,
    ) -> (r: Self)
        requires
            alive@.len() == candidates@.len(),
        ensures
            r@ == opened(query@, views(candidates@), alive@, viewport_size, mode),
            r.wf(),
    {
        let mut all: Vec<CandidateView> = Vec::new();
        let mut i: usize = 0;
        while i < candidates.len()
            invariant
                alive@.len() == candidates@.len(),
                i <= candidates@.len(),
                all@.len() == i,
                forall|k: int|
                    0 <= k < i ==> (#[trigger] all@[k])@ == (CandidateInfo {
                        path: candidates@[k]@.path,
                        valid: alive@[k],
                        source: candidates@[k]@.source,
                    }),
            decreases candidates@.len() - i,
        {
            let c = &candidates[i];
            all.push(CandidateView { path: c.path.clone(), valid: alive[i], source: c.source });
            i = i + 1;
        }
        let ghost start = opened(query@, views(candidates@), alive@, viewport_size, mode);
        assert(views(all@) =~= start.all);
        let mut app = App {
            query,
            all_candidates: all,
            filtered: Vec::new(),
            order: Vec::new(),
            cursor: 0,
            scroll_offset: 0,
            viewport_size,
            mode,
            filter_mode: false,
            filter_query: String::new(),
            h_scroll: 0,
            sel_max_hscroll: 0,
            matcher: Fuzzy::new(),
        };
        app.refilter();
        app
    }

    /// Draws the list afresh.
    fn rebuild_view(&mut self)
        ensures
            final(self)@ == rebuilt(old(self)@),
    {
        match self.mode {
            LayoutMode::Centered => {
                let (order, center) = build_spread(&self.filtered);
                self.order = order;
                self.cursor = center;
            },
            _ => {
                let mut order: Vec<usize> = Vec::new();
                let mut i: usize = 0;
                while i < self.filtered.len()
                    invariant
                        i <= self.filtered@.len(),
                        order@ == self.filtered@.take(i as int),
                        self@ == old(self)@,
                    decreases self.filtered@.len() - i,
                {
                    order.push(self.filtered[i]);
                    assert(self.filtered@.take(i + 1) =~= self.filtered@.take(i as int).push(
                        self.filtered@[i as int],
                    ));
                    i = i + 1;
                }
                assert(self.filtered@.take(self.filtered@.len() as int) =~= self.filtered@);
                self.order = order;
                self.cursor = 0;
            },
        }
        self.scroll_offset = 0;
        self.h_scroll = 0;
    }

    /// Filters the candidates afresh.
    fn refilter(&mut self)
        ensures
            final(self)@ == refiltered(old(self)@, old(self)@.filter_query),
            final(self).wf(),
    {
        let ghost all = views(self.all_candidates@);
        let ghost filter = self.filter_query@;
        let ghost keep = |i: int|
            filter.len() == 0 || passes(fits(filter, all[i].path), all[i].path, filter);
        let empty = self.filter_query.as_str().is_empty();
        let mut kept: Vec<usize> = Vec::new();
        let mut i: usize = 0;
        assert(kept@ =~= kept_below(0, keep));
        while i < self.all_candidates.len()
            invariant
                self@ == old(self)@,
                all == views(self.all_candidates@),
                filter == self.filter_query@,
                empty == (filter.len() == 0),
                keep == (|i: int|
                    filter.len() == 0 || passes(fits(filter, all[i].path), all[i].path, filter)),
                i <= all.len(),
                kept@ == kept_below(i as int, keep),
            decreases all.len() - i,
        {
            assert(all[i as int].path == self.all_candidates@[i as int].path@);
            let path = self.all_candidates[i].path.clone();
            let pass = if empty {
                true
            } else {
                let score = self.matcher.score(self.filter_query.as_str(), path.as_str());
                passes_filter(score, path.as_str(), self.filter_query.as_str())
            };
            assert(pass == keep(i as int));
            if pass {
                kept.push(i);
            }
            i = i + 1;
        }
        assert(kept@ == passing(all, filter));
        self.filtered = kept;
        self.rebuild_view();
        proof {
            assert(self.all_candidates@.len() == self.all_candidates.len());
            lemma_refiltered(old(self)@, filter);
            assert(self@ =~= refiltered(old(self)@, filter));
        }
    }

    /// Shows more of the start of the marked path.
    pub fn hscroll_left(&mut self)
        ensures
            final(self)@ == scrolled_left(old(self)@),
            old(self).wf() ==> final(self).wf(),
    {
        self.h_scroll = if self.h_scroll < self.sel_max_hscroll && self.sel_max_hscroll
            - self.h_scroll >= H_SCROLL_STEP {
            self.h_scroll + H_SCROLL_STEP
        } else {
            self.sel_max_hscroll
        };
    }

    /// Goes back to the end of the marked path.
    pub fn hscroll_right(&mut self)
        ensures
            final(self)@ == scrolled_right(old(self)@),
            old(self).wf() ==> final(self).wf(),
    {
        self.h_scroll = if self.h_scroll >= H_SCROLL_STEP {
            self.h_scroll - H_SCROLL_STEP
        } else {
            0
        };
    }

    /// Notes by how many columns the marked path can be moved.
    pub fn set_max_hscroll(&mut self, columns: usize)
        ensures
            final(self)@ == (AppState { sel_max_hscroll: columns, ..old(self)@ }),
            old(self).wf() ==> final(self).wf(),
    {
        self.sel_max_hscroll = columns;
    }

    /// How many candidates pass the filter.
    pub fn total_matches(&self) -> (r: usize)
        ensures
            r == self@.filtered.len(),
    {
        self.filtered.len()
    }

    /// The rank of the marked candidate, counted from one; nothing where there is none.
    pub fn selected_rank(&self) -> (r: u128)
        ensures
            r == rank_of(self@),
    {
        if self.cursor >= self.order.len() {
            return 0;
        }
        let marked: usize = self.order[self.cursor];
        let mut i: usize = 0;
        while i < self.filtered.len()
            invariant
                self.cursor < self.order@.len(),
                marked == self.order@[self.cursor as int],
                i <= self.filtered@.len(),
                forall|k: int| 0 <= k < i ==> #[trigger] self.filtered@[k] != marked,
            decreases self.filtered@.len() - i,
        {
            if self.filtered[i] == marked {
                proof {
                    self.filtered@.index_of_first_ensures(marked);
                }
                return i as u128 + 1;
            }
            i = i + 1;
        }
        proof {
            self.filtered@.index_of_first_ensures(marked);
        }
        0
    }

    /// How many rows of the window hold a candidate, where it is drawn from the top.
    pub fn visible_count(&self) -> (r: usize)
        ensures
            r == if self@.order.len() <= self@.scroll_offset {
                0
            } else if self@.order.len() - self@.scroll_offset < self@.viewport_size {
                self@.order.len() - self@.scroll_offset
            } else {
                self@.viewport_size as int
            },
    {
        let n: usize = self.order.len();
        if n <= self.scroll_offset {
            0
        } else if n - self.scroll_offset < self.viewport_size {
            n - self.scroll_offset
        } else {
            self.viewport_size
        }
    }

    /// What is drawn in each row of the window, from top to bottom.
    pub fn visible_rows(&self) -> (r: Vec<Option<(bool, &CandidateView)>>)
        requires
            self.wf(),
        ensures
            r@.len() == self@.viewport_size,
            forall|row: int|
                0 <= row < r@.len() ==> row_view(#[trigger] r@[row]) == window_row(self@, row),
    {
        match self.mode {
            LayoutMode::Centered => self.rows_centered(),
            _ => self.rows_traditional(),
        }
    }

    /// The candidate in row `i` of the order, and whether it is marked.
    fn row(&self, i: usize) -> (r: Option<(bool, &CandidateView)>)
        requires
            self.wf(),
        ensures
            row_view(r) == row_at(self@, i as int),
    {
        if i < self.order.len() {
            proof {
                let n = self.filtered@.len() as int;
                law_spread(n, i as int, 0);
                match self.mode {
                    LayoutMode::Centered => {
                        assert(self.order@[i as int] == self.filtered@[spread_rank(n, i as int)]);
                    },
                    _ => {
                        assert(self.order@[i as int] == self.filtered@[i as int]);
                    },
                }
            }
            let c = &self.all_candidates[self.order[i]];
            assert(c@ == self@.all[self.order@[i as int] as int]);
            Some((i == self.cursor, c))
        } else {
            None
        }
    }

    /// The rows of the centered layout: the marked candidate on the middle line.
    fn rows_centered(&self) -> (r: Vec<Option<(bool, &CandidateView)>>)
        requires
            self.wf(),
            self@.mode == LayoutMode::Centered,
        ensures
            r@.len() == self@.viewport_size,
            forall|row: int|
                0 <= row < r@.len() ==> row_view(#[trigger] r@[row]) == window_row(self@, row),
    {
        let center: usize = self.viewport_size / 2;
        let mut out: Vec<Option<(bool, &CandidateView)>> = Vec::new();
        let mut row: usize = 0;
        while row < self.viewport_size
            invariant
                self.wf(),
                self@.mode == LayoutMode::Centered,
                center == self@.viewport_size as int / 2,
                row <= self@.viewport_size,
                out@.len() == row,
                forall|k: int|
                    0 <= k < row ==> row_view(#[trigger] out@[k]) == window_row(self@, k),
            decreases self@.viewport_size - row,
        {
            let slot = if row >= center {
                let below: usize = row - center;
                if below < self.order.len() && self.cursor < self.order.len() - below {
                    self.row(self.cursor + below)
                } else {
                    None
                }
            } else {
                let above: usize = center - row;
                if self.cursor >= above {
                    self.row(self.cursor - above)
                } else {
                    None
                }
            };
            out.push(slot);
            row = row + 1;
        }
        out
    }

    /// The rows of the layouts that are drawn from the top.
    fn rows_traditional(&self) -> (r: Vec<Option<(bool, &CandidateView)>>)
        requires
            self.wf(),
            self@.mode != LayoutMode::Centered,
        ensures
            r@.len() == self@.viewport_size,
            forall|row: int|
                0 <= row < r@.len() ==> row_view(#[trigger] r@[row]) == window_row(self@, row),
    {
        let mut out: Vec<Option<(bool, &CandidateView)>> = Vec::new();
        let mut row: usize = 0;
        while row < self.viewport_size
            invariant
                self.wf(),
                self@.mode != LayoutMode::Centered,
                row <= self@.viewport_size,
                out@.len() == row,
                forall|k: int|
                    0 <= k < row ==> row_view(#[trigger] out@[k]) == window_row(self@, k),
            decreases self@.viewport_size - row,
        {
            let slot = if self.scroll_offset < self.order.len() && row < self.order.len()
                - self.scroll_offset {
                self.row(self.scroll_offset + row)
            } else {
                None
            };
            out.push(slot);
            row = row + 1;
        }
        out
    }

    /// Moves the window as little as can be so that it holds the mark.
    fn clamp_window(&mut self)
        requires
            old(self).cursor < usize::MAX,
        ensures
            final(self)@ == (AppState {
                scroll_offset: window_start(
                    old(self)@.cursor as int,
                    old(self)@.scroll_offset as int,
                    old(self)@.viewport_size as int,
                ) as usize,
                ..old(self)@
            }),
    {
        if self.cursor < self.scroll_offset {
            self.scroll_offset = self.cursor;
        } else if self.cursor - self.scroll_offset >= self.viewport_size {
            self.scroll_offset = self.cursor + 1 - self.viewport_size;
        }
    }

    /// Moves the mark up. In the traditional layout it goes round to the last.
    pub fn move_up(&mut self)
        requires
            old(self).wf(),
        ensures
            final(self)@ == moved_up(old(self)@),
            final(self).wf(),
    {
        proof {
            assert(self.order@.len() == self.order.len());
        }
        self.h_scroll = 0;
        match self.mode {
            LayoutMode::Centered => {
                if self.cursor > 0 {
                    self.cursor = self.cursor - 1;
                }
            },
            LayoutMode::Traditional => {
                let total: usize = self.order.len();
                if total == 0 {
                    return ;
                }
                if self.cursor == 0 {
                    self.cursor = total - 1;
                    self.scroll_offset = if total > self.viewport_size {
                        total - self.viewport_size
                    } else {
                        0
                    };
                } else {
                    self.cursor = self.cursor - 1;
                    if self.cursor < self.scroll_offset {
                        self.scroll_offset = self.cursor;
                    }
                }
            },
            LayoutMode::Inline => {
                if self.cursor > 0 {
                    self.cursor = self.cursor - 1;
                }
                self.clamp_window();
            },
        }
    }

    /// Moves the mark down. In the traditional layout it goes round to the first.
    pub fn move_down(&mut self)
        requires
            old(self).wf(),
        ensures
            final(self)@ == moved_down(old(self)@),
            final(self).wf(),
    {
        proof {
            assert(self.order@.len() == self.order.len());
        }
        self.h_scroll = 0;
        let total: usize = self.order.len();
        let more = total > 0 && self.cursor < total - 1;
        match self.mode {
            LayoutMode::Centered => {
                if more {
                    self.cursor = self.cursor + 1;
                }
            },
            LayoutMode::Traditional => {
                if total == 0 {
                    return ;
                }
                if more {
                    self.cursor = self.cursor + 1;
                    if self.cursor >= self.scroll_offset && self.cursor - self.scroll_offset
                        >= self.viewport_size {
                        self.scroll_offset = self.cursor - self.viewport_size + 1;
                    }
                } else {
                    self.cursor = 0;
                    self.scroll_offset = 0;
                }
            },
            LayoutMode::Inline => {
                if more {
                    self.cursor = self.cursor + 1;
                    self.clamp_window();
                }
            },
        }
    }

    /// Chooses the marked candidate, where its directory is there.
    pub fn select_current(&self) -> (r: Action)
        requires
            self.wf(),
        ensures
            r@ == chosen(self@),
    {
        if let Some((_, c)) = self.row(self.cursor) {
            if c.valid {
                return Action::Select(c.path.clone());
            }
        }
        Action::Continue
    }

    /// Begins to filter.
    pub fn enter_filter(&mut self)
        ensures
            final(self)@ == (AppState { filter_mode: true, ..old(self)@ }),
            old(self).wf() ==> final(self).wf(),
    {
        self.filter_mode = true;
    }

    /// Ends the filter.
    pub fn exit_filter(&mut self)
        ensures
            final(self)@ == filter_left(old(self)@),
            old(self).wf() ==> final(self).wf(),
    {
        if self.filter_mode {
            self.filter_query = String::new();
            self.filter_mode = false;
            self.refilter();
        }
    }

    /// Adds a character to the filter.
    pub fn filter_push(&mut self, ch: char)
        ensures
            final(self)@ == refiltered(old(self)@, old(self)@.filter_query.push(ch)),
            final(self).wf(),
    {
        self.filter_query.push(ch);
        self.refilter();
    }

    /// Takes the last character off the filter.
    pub fn filter_pop(&mut self)
        ensures
            final(self)@ == refiltered(old(self)@, shortened(old(self)@.filter_query)),
            final(self).wf(),
    {
        let cs = to_chars(self.filter_query.as_str());
        if cs.len() > 0 {
            self.filter_query = from_chars(&cs, 0, cs.len() - 1);
            assert(self.filter_query@ =~= shortened(cs@));
        }
        self.refilter();
    }

    /// Empties the filter.
    pub fn filter_clear(&mut self)
        ensures
            final(self)@ == refiltered(old(self)@, Seq::empty()),
            final(self).wf(),
    {
        self.filter_query = String::new();
        self.refilter();
    }

    /// Does what a key stands for.
    pub fn handle_key(&mut self, key: Key, control: bool) -> (r: Action)
        requires
            old(self).wf(),
        ensures
            (final(self)@, r@) == pressed(old(self)@, key, control),
            final(self).wf(),
    {
        if control {
            if key == Key::Char('c') {
                return Action::Cancel;
            }
            if key == Key::Char('u') && self.filter_mode {
                self.filter_clear();
            }
            return Action::Continue;
        }
        if self.filter_mode {
            match key {
                Key::Esc => self.exit_filter(),
                Key::Enter => {
                    return self.select_current();
                },
                Key::Backspace => self.filter_pop(),
                Key::Char(c) => self.filter_push(c),
                Key::Up => self.move_up(),
                Key::Down => self.move_down(),
                Key::Left => self.hscroll_left(),
                Key::Right => self.hscroll_right(),
                Key::Other => {},
            }
            return Action::Continue;
        }
        match key {
            Key::Esc => {
                return Action::Cancel;
            },
            Key::Enter => {
                return self.select_current();
            },
            Key::Up => self.move_up(),
            Key::Down => self.move_down(),
            Key::Left => self.hscroll_left(),
            Key::Right => self.hscroll_right(),
            Key::Char(c) => {
                if c == 'k' {
                    self.move_up();
                } else if c == 'j' {
                    self.move_down();
                } else if c == 'h' {
                    self.hscroll_left();
                } else if c == 'l' {
                    self.hscroll_right();
                } else if c == '/' {
                    self.enter_filter();
                }
            },
            _ => {},
        }
        Action::Continue
    }
}

} // verus!
