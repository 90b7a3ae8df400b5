//! What the screens say, piece by piece and column by column.

use crate::db::{KeyStore, ResultSource};
use crate::config::{current_value, is_default, value_of, Setting, SettingInfo};
use crate::i18n::Lang;
use crate::path::{display_with_tilde, opt_view, tilde_shown};
use crate::picker::{rank_of, App, AppState, CandidateInfo, CandidateView, LayoutMode};
use crate::table::lookup as value_under;
use crate::text::{
    byte_len,
    decimal,
    from_chars,
    lemma_views_push,
    str_eq,
    to_chars,
    to_decimal,
    utf8_len,
    views,
};
use unicode_width::{UnicodeWidthChar, UnicodeWidthStr};
use vstd::prelude::*;
use vstd::string::*;

verus! {

/// How many columns a text takes, as the crate `unicode-width` measures it.
pub uninterp spec fn width_of(s: Seq<char>) -> usize;

/// How many columns a character takes, as the crate `unicode-width` measures it;
/// nothing for a control character.
pub uninterp spec fn char_width_of(c: char) -> Option<usize>;

/// `UnicodeWidthStr::width`: the result depends on the text alone.
#[verifier::external_body]
fn str_width(s: &str) -> (r: usize)
    ensures
        r == width_of(s@),
{
    UnicodeWidthStr::width(s)
}

/// `UnicodeWidthChar::width`: the result depends on the character alone.
#[verifier::external_body]
fn char_width(c: char) -> (r: Option<usize>)
    ensures
        r == char_width_of(c),
{
    UnicodeWidthChar::width(c)
}

/// How many columns a character takes; none for a control character.
pub open spec fn columns(c: char) -> usize {
    match char_width_of(c) {
        Some(w) => w,
        None => 0,
    }
}

/// How many columns each character of a text takes.
pub open spec fn all_columns(s: Seq<char>) -> Seq<usize> {
    Seq::new(s.len(), |i: int| columns(s[i]))
}

/// How many columns each character of a text takes.
fn column_list(s: &str) -> (r: Vec<usize>)
    ensures
        r@ == all_columns(s@),
{
    let cs = to_chars(s);
    let mut out: Vec<usize> = Vec::new();
    let mut i: usize = 0;
    while i < cs.len()
        invariant
            cs@ == s@,
            i <= cs@.len(),
            out@.len() == i,
            forall|k: int| 0 <= k < i ==> #[trigger] out@[k] == columns(s@[k]),
        decreases cs@.len() - i,
    {
        let w: usize = match char_width(cs[i]) {
            Some(w) => w,
            None => 0,
        };
        out.push(w);
        i = i + 1;
    }
    assert(out@ =~= all_columns(s@));
    out
}

/// A number less another, or nothing where that is larger.
pub open spec fn left_over(a: int, b: int) -> int {
    if a >= b {
        a - b
    } else {
        0
    }
}

/// A number less another, or nothing where that is larger.
fn minus(a: usize, b: usize) -> (r: usize)
    ensures
        r == left_over(a as int, b as int),
{
    if a >= b {
        a - b
    } else {
        0
    }
}

// ---- paths that are too long ----

/// Where the last slash of a path ends, or its start where it has none.
pub open spec fn base_start(s: Seq<char>) -> int
    decreases s.len(),
{
    if s.len() == 0 {
        0
    } else if s.last() == '/' {
        s.len() as int
    } else {
        base_start(s.drop_last())
    }
}

/// The last slash of a path ends inside it.
proof fn lemma_base_start(s: Seq<char>)
    ensures
        0 <= base_start(s) <= s.len(),
    decreases s.len(),
{
    if s.len() > 0 {
        lemma_base_start(s.drop_last());
    }
}

/// Where the last slash ends.
fn find_base(s: &Vec<char>) -> (r: usize)
    ensures
        r == base_start(s@),
        r <= s@.len(),
{
    let mut i: usize = s.len();
    assert(s@.take(i as int) =~= s@);
    while i > 0
        invariant
            i <= s@.len(),
            base_start(s@) == base_start(s@.take(i as int)),
        decreases i,
    {
        assert(s@.take(i as int).last() == s@[i - 1]);
        if s[i - 1] == '/' {
            return i;
        }
        assert(s@.take(i as int).drop_last() =~= s@.take(i - 1));
        i = i - 1;
    }
    0
}

/// A path as what leads to its last name, with the slash, and that name.
pub fn split_path(path: &str) -> (r: (String, String))
    ensures
        r.0@ == path@.take(base_start(path@)),
        r.1@ == path@.skip(base_start(path@)),
{
    let s = to_chars(path);
    let at: usize = find_base(&s);
    let parent = from_chars(&s, 0, at);
    let base = from_chars(&s, at, s.len());
    assert(parent@ =~= path@.take(at as int));
    assert(base@ =~= path@.skip(at as int));
    (parent, base)
}

/// Where the longest end starts that takes at most `room` columns, of the first `p`
/// characters.
pub open spec fn tail_start(widths: Seq<usize>, p: int, room: int) -> int
    decreases p,
{
    if p <= 0 || p > widths.len() || widths[p - 1] > room {
        p
    } else {
        tail_start(widths, p - 1, room - widths[p - 1])
    }
}

/// Where the longest end starts that takes at most `room` columns.
pub fn keep_tail(widths: &Vec<usize>, room: usize) -> (r: usize)
    ensures
        r == tail_start(widths@, widths@.len() as int, room as int),
        r <= widths@.len(),
{
    let mut p: usize = widths.len();
    let mut left: usize = room;
    while p > 0 && widths[p - 1] <= left
        invariant
            p <= widths@.len(),
            tail_start(widths@, widths@.len() as int, room as int) == tail_start(
                widths@,
                p as int,
                left as int,
            ),
        decreases p,
    {
        left = left - widths[p - 1];
        p = p - 1;
    }
    p
}

/// What leads to the last name of a path, cut at its start so that both fit into
/// `available` columns: the whole of it where it fits, nothing where only four columns
/// or fewer are left for it, else its end behind an ellipsis.
pub open spec fn fitted_parent(parent: Seq<char>, base: Seq<char>, available: int) -> Seq<char> {
    if width_of(parent) + width_of(base) <= available {
        parent
    } else {
        let budget = left_over(available, width_of(base) as int);
        if budget <= 4 {
            Seq::empty()
        } else {
            "…"@ + parent.skip(
                tail_start(all_columns(parent), parent.len() as int, budget - 1),
            )
        }
    }
}

/// What leads to the last name of a path, cut so that both fit.
pub fn truncate_parent(parent: &str, base: &str, available: usize) -> (r: String)
    ensures
        r@ == fitted_parent(parent@, base@, available as int),
{
    let parent_w: usize = str_width(parent);
    let base_w: usize = str_width(base);
    if parent_w <= available && base_w <= available - parent_w {
        return parent.to_owned();
    }
    let budget: usize = minus(available, base_w);
    if budget <= 4 {
        return String::new();
    }
    let start: usize = keep_tail(&column_list(parent), budget - 1);
    let cs = to_chars(parent);
    let rest = from_chars(&cs, start, cs.len());
    assert(rest@ =~= parent@.skip(start as int));
    let mut out = String::new();
    out.append("…");
    out.append(rest.as_str());
    assert(out@ =~= "…"@ + rest@);
    out
}

/// The part of a path that is seen through a window, in characters, and whether
/// something is left out before it and behind it.
#[derive(Clone, Copy, PartialEq, Eq, Structural, Debug)]
pub struct HWindow {
    pub start: usize,
    pub end: usize,
    pub lead: bool,
    pub trail: bool,
}

/// The column at which character `i` starts.
pub open spec fn column_at(widths: Seq<usize>, i: int) -> int
    decreases i,
{
    if i <= 0 || i > widths.len() {
        0
    } else {
        column_at(widths, i - 1) + widths[i - 1]
    }
}

/// Whether character `i` lies between two columns.
pub open spec fn between(widths: Seq<usize>, i: int, lo: int, hi: int) -> bool {
    lo <= column_at(widths, i) && column_at(widths, i) + widths[i] <= hi
}

/// The first of the first `n` characters that lies between two columns.
pub open spec fn first_between(widths: Seq<usize>, n: int, lo: int, hi: int) -> Option<int>
    decreases n,
{
    if n <= 0 {
        None
    } else {
        match first_between(widths, n - 1, lo, hi) {
            Some(i) => Some(i),
            None => if between(widths, n - 1, lo, hi) {
                Some(n - 1)
            } else {
                None
            },
        }
    }
}

/// What follows the last of the first `n` characters that lies between two columns.
pub open spec fn behind_between(widths: Seq<usize>, n: int, lo: int, hi: int) -> int
    decreases n,
{
    if n <= 0 {
        0
    } else if between(widths, n - 1, lo, hi) {
        n
    } else {
        behind_between(widths, n - 1, lo, hi)
    }
}

/// The window of `avail` columns over a text of `total` columns that is moved `scroll`
/// columns from its end toward its start. At each end where something is left out, one
/// column is given to an ellipsis.
pub open spec fn window_over(widths: Seq<usize>, total: int, avail: int, scroll: int) -> HWindow {
    let most = left_over(total, avail);
    let from = left_over(most, scroll);
    let to = from + avail;
    let lead = from > 0;
    let trail = to < total;
    let lo = from + if lead {
        1int
    } else {
        0int
    };
    let hi = if trail {
        left_over(to, 1)
    } else {
        to
    };
    let n = widths.len() as int;
    let end = behind_between(widths, n, lo, hi);
    HWindow {
        start: (match first_between(widths, n, lo, hi) {
            Some(i) => i,
            None => end,
        }) as usize,
        end: end as usize,
        lead,
        trail,
    }
}

/// What lies between two columns lies inside the text, the first of it before its end.
proof fn lemma_between(widths: Seq<usize>, n: int, lo: int, hi: int)
    requires
        0 <= n <= widths.len(),
    ensures
        0 <= behind_between(widths, n, lo, hi) <= n,
        first_between(widths, n, lo, hi) matches Some(i) ==> 0 <= i < behind_between(
            widths,
            n,
            lo,
            hi,
        ),
        first_between(widths, n, lo, hi) is None ==> behind_between(widths, n, lo, hi) == 0,
    decreases n,
{
    if n > 0 {
        lemma_between(widths, n - 1, lo, hi);
    }
}

/// The window over a text, from the columns that its characters take.
pub fn h_window(widths: &Vec<usize>, total: usize, avail: usize, scroll: usize) -> (r: HWindow)
    ensures
        r == window_over(widths@, total as int, avail as int, scroll as int),
        r.start <= r.end <= widths@.len(),
{
    let from: u128 = minus(minus(total, avail), scroll) as u128;
    let to: u128 = from + avail as u128;
    let lead = from > 0;
    let trail = to < total as u128;
    let lo: u128 = if lead {
        from + 1
    } else {
        from
    };
    let hi: u128 = if trail {
        if to >= 1 {
            to - 1
        } else {
            0
        }
    } else {
        to
    };
    let mut first: Option<usize> = None;
    let mut end: usize = 0;
    let mut col: u128 = 0;
    let mut i: usize = 0;
    while i < widths.len()
        invariant
            i <= widths.len(),
            col == column_at(widths@, i as int),
            col <= i * 0xffff_ffff_ffff_ffff,
            match first {
                Some(f) => first_between(widths@, i as int, lo as int, hi as int) == Some(f as int),
                None => first_between(widths@, i as int, lo as int, hi as int) is None,
            },
            end == behind_between(widths@, i as int, lo as int, hi as int),
        decreases widths@.len() - i,
    {
        assert(i * 0xffff_ffff_ffff_ffff + widths@[i as int] <= (i + 1) * 0xffff_ffff_ffff_ffff);
        assert(i * 0xffff_ffff_ffff_ffff <= 0xffff_ffff_ffff_ffff * 0xffff_ffff_ffff_ffff);
        let next: u128 = col + widths[i] as u128;
        assert(column_at(widths@, i + 1) == next);
        if col >= lo && next <= hi {
            assert(between(widths@, i as int, lo as int, hi as int));
            if first.is_none() {
                first = Some(i);
            }
            end = i + 1;
        }
        col = next;
        i = i + 1;
    }
    proof {
        lemma_between(widths@, widths@.len() as int, lo as int, hi as int);
    }
    let start: usize = match first {
        Some(f) => f,
        None => end,
    };
    HWindow { start, end, lead, trail }
}

/// Law: the window never shows more columns than it has: what is seen through it, with
/// the ellipses, takes no more than `avail` columns, unless two ellipses are all that a
/// single column is to show.
pub proof fn law_window_fits(widths: Seq<usize>, total: int, avail: int, scroll: int)
    requires
        0 <= total,
        1 <= avail,
        0 <= scroll,
        widths.len() <= usize::MAX,
    ensures
        ({
            let w = window_over(widths, total, avail, scroll);
            let shown = column_at(widths, w.end as int) - column_at(widths, w.start as int);
            shown + if w.lead {
                1int
            } else {
                0int
            } + if w.trail {
                1int
            } else {
                0int
            } <= avail || (avail == 1 && w.lead && w.trail)
        }),
{
    let most = left_over(total, avail);
    let from = left_over(most, scroll);
    let to = from + avail;
    let lo = from + if from > 0 {
        1int
    } else {
        0int
    };
    let hi = if to < total {
        left_over(to, 1)
    } else {
        to
    };
    let n = widths.len() as int;
    lemma_between(widths, n, lo, hi);
    lemma_ends(widths, n, lo, hi);
}

/// The first character between two columns starts no earlier, and the last ends no
/// later.
proof fn lemma_ends(widths: Seq<usize>, n: int, lo: int, hi: int)
    requires
        0 <= n <= widths.len(),
    ensures
        first_between(widths, n, lo, hi) matches Some(i) ==> column_at(widths, i) >= lo,
        behind_between(widths, n, lo, hi) > 0 ==> column_at(
            widths,
            behind_between(widths, n, lo, hi),
        ) <= hi,
    decreases n,
{
    if n > 0 {
        lemma_ends(widths, n - 1, lo, hi);
    }
}

// ---- the rows of the picker ----

/// The columns of the mark in front of each row.
pub const INDICATOR_WIDTH: usize = 5;

/// What a piece of a row is.
#[derive(Clone, Copy, PartialEq, Eq, Structural, Debug)]
pub enum Role {
    /// The mark.
    Indicator,
    /// The sign of a directory that is not there.
    Invalid,
    /// What leads to the name.
    Parent,
    /// The name.
    Base,
    /// The space up to the tag.
    Pad,
    /// Where the candidate comes from.
    Tag,
}

/// A piece of a row.
#[derive(Debug)]
pub struct Segment {
    pub text: String,
    pub role: Role,
}

impl View for Segment {
    type V = (Seq<char>, Role);

    open spec fn view(&self) -> (Seq<char>, Role) {
        (self.text@, self.role)
    }
}

/// A row of the picker: its pieces, and by how many columns its path can be moved.
#[derive(Debug)]
pub struct Row {
    pub segments: Vec<Segment>,
    pub max_scroll: usize,
}

/// `n` spaces.
pub open spec fn spaces(n: int) -> Seq<char> {
    Seq::new(
        if n > 0 {
            n as nat
        } else {
            0
        },
        |i: int| ' ',
    )
}

/// `n` spaces.
fn blank(n: usize) -> (r: String)
    ensures
        r@ == spaces(n as int),
{
    let mut out = String::new();
    let mut i: usize = 0;
    while i < n
        invariant
            i <= n,
            out@ == spaces(i as int),
        decreases n - i,
    {
        out.push(' ');
        assert(out@ =~= spaces(i + 1));
        i = i + 1;
    }
    out
}

/// The tag of a source.
pub open spec fn tag_text(source: ResultSource) -> Seq<char> {
    match source {
        ResultSource::Link => " [link]"@,
        ResultSource::History => " [hist]"@,
        ResultSource::Filesystem => " [scan]"@,
    }
}

/// The tag of a source.
fn source_tag(source: ResultSource) -> (r: &'static str)
    ensures
        r@ == tag_text(source),
{
    match source {
        ResultSource::Link => " [link]",
        ResultSource::History => " [hist]",
        ResultSource::Filesystem => " [scan]",
    }
}

/// The columns of a text, none where it is empty.
pub open spec fn width_or_none(s: Seq<char>) -> int {
    if s.len() > 0 {
        width_of(s) as int
    } else {
        0
    }
}

/// One piece, where it holds anything.
pub open spec fn piece(s: Seq<char>, role: Role) -> Seq<(Seq<char>, Role)> {
    if s.len() > 0 {
        seq![(s, role)]
    } else {
        Seq::empty()
    }
}

/// The pieces of a path that is moved, and the columns they take.
pub open spec fn scrolled_path(path: Seq<char>, available: int, scroll: int) -> (
    Seq<(Seq<char>, Role)>,
    int,
) {
    let win = window_over(all_columns(path), width_of(path) as int, available, scroll);
    let base = base_start(path);
    let cut = if base < win.start {
        win.start as int
    } else if base > win.end {
        win.end as int
    } else {
        base
    };
    let parent = path.subrange(win.start as int, cut);
    let name = path.subrange(cut, win.end as int);
    let lead = if win.lead {
        seq![("…"@, Role::Parent)]
    } else {
        Seq::empty()
    };
    let trail = if win.trail {
        seq![("…"@, Role::Parent)]
    } else {
        Seq::empty()
    };
    (
        lead + piece(parent, Role::Parent) + piece(name, Role::Base) + trail,
        lead.len() + width_or_none(parent) + width_or_none(name) + trail.len(),
    )
}

/// The pieces of a path that is not moved, and the columns they take.
pub open spec fn resting_path(path: Seq<char>, available: int) -> (Seq<(Seq<char>, Role)>, int) {
    let base = path.skip(base_start(path));
    let parent = fitted_parent(path.take(base_start(path)), base, available);
    (seq![(parent, Role::Parent), (base, Role::Base)], width_of(parent) + width_of(base))
}

/// How many columns are left for the path.
pub open spec fn path_room(c: CandidateInfo, term_width: int) -> int {
    let invalid = if c.valid {
        ""@
    } else {
        "✗ "@
    };
    left_over(
        term_width,
        INDICATOR_WIDTH + width_of(invalid) + width_of(tag_text(c.source)) + 2,
    )
}

/// By how many columns the path can be moved.
pub open spec fn path_scroll(c: CandidateInfo, shown: Seq<char>, term_width: int) -> int {
    left_over(width_of(shown) as int, path_room(c, term_width))
}

/// The pieces of the path in a candidate's row, and the columns they take.
pub open spec fn row_path(
    c: CandidateInfo,
    shown: Seq<char>,
    marked: bool,
    term_width: int,
    h_scroll: int,
) -> (Seq<(Seq<char>, Role)>, int) {
    let available = path_room(c, term_width);
    let most = path_scroll(c, shown, term_width);
    let scroll = if !marked {
        0
    } else if h_scroll < most {
        h_scroll
    } else {
        most
    };
    if scroll > 0 {
        scrolled_path(shown, available, scroll)
    } else {
        resting_path(shown, available)
    }
}

/// The columns that a candidate's row takes without the space before its tag, where the
/// path takes `path_w`.
pub open spec fn row_content(c: CandidateInfo, path_w: int) -> int {
    let invalid = if c.valid {
        ""@
    } else {
        "✗ "@
    };
    INDICATOR_WIDTH + width_of(invalid) + path_w + width_of(tag_text(c.source))
}

/// The columns of the space before the tag: what is left, and at least one.
pub open spec fn row_pad(content: int, term_width: int) -> int {
    let rest = left_over(term_width, content);
    if rest > 1 {
        rest
    } else {
        1
    }
}

/// The pieces of a candidate's row.
pub open spec fn row_segments(
    c: CandidateInfo,
    shown: Seq<char>,
    marked: bool,
    term_width: int,
    h_scroll: int,
) -> Seq<(Seq<char>, Role)> {
    let (pieces, path_w) = row_path(c, shown, marked, term_width, h_scroll);
    let pad = row_pad(row_content(c, path_w), term_width);
    let mark = if marked {
        "▌    "@
    } else {
        "     "@
    };
    let bad = if c.valid {
        Seq::empty()
    } else {
        seq![("✗ "@, Role::Invalid)]
    };
    seq![(mark, Role::Indicator)] + bad + pieces + seq![
        (spaces(pad), Role::Pad),
        (tag_text(c.source), Role::Tag),
    ]
}

/// Law: the tag of a row ends at the right edge, whatever the path holds, wherever the
/// row leaves room for a space before it.
pub proof fn law_tag_flush_right(content: int, term_width: int)
    requires
        0 <= content < term_width,
    ensures
        content + row_pad(content, term_width) == term_width,
{
}

/// Adds a piece.
fn add_piece(out: &mut Vec<Segment>, text: &str, role: Role)
    ensures
        views(final(out)@) == views(old(out)@).push((text@, role)),
{
    let next = Segment { text: text.to_owned(), role };
    proof {
        lemma_views_push(out@, next);
    }
    out.push(next);
}

/// Adds the pieces of a path that is moved, and gives what is left of `room` columns
/// behind them.
fn add_scrolled(out: &mut Vec<Segment>, path: &str, available: usize, scroll: usize, room: usize)
    -> (r: usize)
    ensures
        views(final(out)@) == views(old(out)@) + scrolled_path(
            path@,
            available as int,
            scroll as int,
        ).0,
        r == left_over(
            room as int,
            scrolled_path(path@, available as int, scroll as int).1,
        ),
{
    let ghost before = views(out@);
    let cs = to_chars(path);
    let win = h_window(&column_list(path), str_width(path), available, scroll);
    let base: usize = find_base(&cs);
    let cut: usize = if base < win.start {
        win.start
    } else if base > win.end {
        win.end
    } else {
        base
    };
    let parent = from_chars(&cs, win.start, cut);
    let name = from_chars(&cs, cut, win.end);
    let mut left: usize = room;
    if win.lead {
        add_piece(out, "…", Role::Parent);
        left = minus(left, 1);
    }
    let ghost one = views(out@);
    if !parent.as_str().is_empty() {
        add_piece(out, parent.as_str(), Role::Parent);
        left = minus(left, str_width(parent.as_str()));
    }
    let ghost two = views(out@);
    if !name.as_str().is_empty() {
        add_piece(out, name.as_str(), Role::Base);
        left = minus(left, str_width(name.as_str()));
    }
    let ghost three = views(out@);
    if win.trail {
        add_piece(out, "…", Role::Parent);
        left = minus(left, 1);
    }
    proof {
        let lead = if win.lead {
            seq![("…"@, Role::Parent)]
        } else {
            Seq::empty()
        };
        let trail = if win.trail {
            seq![("…"@, Role::Parent)]
        } else {
            Seq::empty()
        };
        assert(one =~= before + lead);
        assert(two =~= one + piece(parent@, Role::Parent));
        assert(three =~= two + piece(name@, Role::Base));
        assert(views(out@) =~= three + trail);
        assert(views(out@) =~= before + (lead + piece(parent@, Role::Parent) + piece(
            name@,
            Role::Base,
        ) + trail));
    }
    left
}

/// The row of a candidate, on a screen of `term_width` columns.
pub fn candidate_row(
    c: &CandidateView,
    marked: bool,
    term_width: usize,
    h_scroll: usize,
    home: Option<&str>,
) -> (r: Row)
    ensures
        views(r.segments@) == row_segments(
            c@,
            tilde_shown(c@.path, opt_view(home)),
            marked,
            term_width as int,
            h_scroll as int,
        ),
        r.max_scroll == path_scroll(
            c@,
            tilde_shown(c@.path, opt_view(home)),
            term_width as int,
        ),
{
    let shown = display_with_tilde(c.path.as_str(), home);
    let path = shown.as_str();
    let invalid = if c.valid {
        ""
    } else {
        "✗ "
    };
    let tag = source_tag(c.source);
    let invalid_w: usize = str_width(invalid);
    let tag_w: usize = str_width(tag);
    let available: usize = minus(
        minus(minus(minus(term_width, INDICATOR_WIDTH), invalid_w), tag_w),
        2,
    );
    let max_scroll: usize = minus(str_width(path), available);
    let scroll: usize = if !marked {
        0
    } else if h_scroll < max_scroll {
        h_scroll
    } else {
        max_scroll
    };
    let mut out: Vec<Segment> = Vec::new();
    let mark = if marked {
        "▌    "
    } else {
        "     "
    };
    assert(views(out@) =~= Seq::empty());
    add_piece(&mut out, mark, Role::Indicator);
    if !c.valid {
        add_piece(&mut out, invalid, Role::Invalid);
    }
    let ghost front = views(out@);
    let room: usize = minus(minus(minus(term_width, INDICATOR_WIDTH), invalid_w), tag_w);
    let rest: usize = if scroll > 0 {
        add_scrolled(&mut out, path, available, scroll, room)
    } else {
        let (parent_part, base) = split_path(path);
        let parent = truncate_parent(parent_part.as_str(), base.as_str(), available);
        add_piece(&mut out, parent.as_str(), Role::Parent);
        add_piece(&mut out, base.as_str(), Role::Base);
        minus(minus(room, str_width(parent.as_str())), str_width(base.as_str()))
    };
    let ghost pieces = if scroll > 0 {
        scrolled_path(path@, available as int, scroll as int).0
    } else {
        resting_path(path@, available as int).0
    };
    assert(views(out@) =~= front + pieces);
    let pad: usize = if rest > 1 {
        rest
    } else {
        1
    };
    add_piece(&mut out, blank(pad).as_str(), Role::Pad);
    add_piece(&mut out, tag, Role::Tag);
    proof {
        let bad = if c.valid {
            Seq::empty()
        } else {
            seq![("✗ "@, Role::Invalid)]
        };
        assert(front =~= seq![(mark@, Role::Indicator)] + bad);
        assert(views(out@) =~= seq![(mark@, Role::Indicator)] + bad + pieces + seq![
            (spaces(pad as int), Role::Pad),
            (tag@, Role::Tag),
        ]);
    }
    Row { segments: out, max_scroll }
}

// ---- title and footer ----

/// What a piece of the title or the footer is.
#[derive(Clone, Copy, PartialEq, Eq, Structural, Debug)]
pub enum LineRole {
    /// The name of the program.
    Program,
    /// What is quiet.
    Quiet,
    /// The query.
    Query,
    /// The filter.
    Filter,
    /// Space.
    Space,
    /// A key.
    Key,
    /// What a key does.
    Help,
}

/// A piece of the title or the footer.
#[derive(Debug)]
pub struct LinePiece {
    pub text: String,
    pub role: LineRole,
}

impl View for LinePiece {
    type V = (Seq<char>, LineRole);

    open spec fn view(&self) -> (Seq<char>, LineRole) {
        (self.text@, self.role)
    }
}

/// Adds a piece.
fn add_line_piece(out: &mut Vec<LinePiece>, text: &str, role: LineRole)
    ensures
        views(final(out)@) == views(old(out)@).push((text@, role)),
{
    let next = LinePiece { text: text.to_owned(), role };
    proof {
        lemma_views_push(out@, next);
    }
    out.push(next);
}

/// The position among the matches, as the title shows it: the rank of the marked one;
/// in the traditional layout what the window shows; or only how many there are.
pub open spec fn count_text(s: AppState) -> Seq<char> {
    let total = s.filtered.len();
    if s.mode != LayoutMode::Traditional && total > 1 {
        decimal(rank_of(s) as nat) + "/"@ + decimal(total)
    } else if s.mode == LayoutMode::Traditional && total > s.viewport_size {
        let last = if s.scroll_offset + s.viewport_size < total {
            s.scroll_offset + s.viewport_size
        } else {
            total as int
        };
        decimal((s.scroll_offset + 1) as nat) + "-"@ + decimal(last as nat) + "/"@ + decimal(total)
    } else if total == 1 {
        decimal(total) + " match"@
    } else {
        decimal(total) + " matches"@
    }
}

/// The position among the matches.
pub fn position_text(app: &App) -> (r: String)
    ensures
        r@ == count_text(app@),
{
    let total: u128 = app.total_matches() as u128;
    let size: u128 = app.viewport_size as u128;
    let start: u128 = app.scroll_offset as u128;
    let mut out = String::new();
    if app.mode != LayoutMode::Traditional && total > 1 {
        out.append(to_decimal(app.selected_rank()).as_str());
        out.append("/");
        out.append(to_decimal(total).as_str());
    } else if app.mode == LayoutMode::Traditional && total > size {
        let last: u128 = if start + size < total {
            start + size
        } else {
            total
        };
        out.append(to_decimal(start + 1).as_str());
        out.append("-");
        out.append(to_decimal(last).as_str());
        out.append("/");
        out.append(to_decimal(total).as_str());
    } else {
        out.append(to_decimal(total).as_str());
        out.append(
            if total == 1 {
                " match"
            } else {
                " matches"
            },
        );
    }
    assert(out@ =~= count_text(app@));
    out
}

/// The pieces of the title before the space.
pub open spec fn title_front(s: AppState) -> Seq<(Seq<char>, LineRole)> {
    let start = seq![
        ("  gd"@, LineRole::Program),
        (" › "@, LineRole::Quiet),
        (s.query, LineRole::Query),
    ];
    if s.filter_mode && s.filter_query.len() > 0 {
        start + seq![
            ("     filter: "@, LineRole::Quiet),
            (s.filter_query, LineRole::Filter),
        ]
    } else {
        start
    }
}

/// The number of bytes of all pieces.
pub open spec fn bytes_of(list: Seq<(Seq<char>, LineRole)>) -> int
    decreases list.len(),
{
    if list.len() == 0 {
        0
    } else {
        bytes_of(list.drop_last()) + utf8_len(list.last().0)
    }
}

/// The title, and the position behind as many spaces as the other pieces leave of `width`
/// bytes: at the right end where all pieces are ASCII.
pub open spec fn title_line(s: AppState, width: int) -> Seq<(Seq<char>, LineRole)> {
    let front = title_front(s);
    let count = count_text(s);
    front + seq![
        (spaces(left_over(width, bytes_of(front) + utf8_len(count))), LineRole::Space),
        (count, LineRole::Quiet),
    ]
}

/// The number of bytes of a list that has grown by one piece.
proof fn lemma_bytes_push(list: Seq<(Seq<char>, LineRole)>, next: (Seq<char>, LineRole))
    ensures
        bytes_of(list.push(next)) == bytes_of(list) + utf8_len(next.0),
        bytes_of(list) >= 0,
    decreases list.len(),
{
    assert(list.push(next).drop_last() =~= list);
    if list.len() > 0 {
        lemma_bytes_push(list.drop_last(), list.last());
    }
}

/// Adds a piece, and gives what is left of `room` bytes.
fn add_counted(out: &mut Vec<LinePiece>, text: &str, role: LineRole, room: usize) -> (r: usize)
    ensures
        views(final(out)@) == views(old(out)@).push((text@, role)),
        r == left_over(room as int, utf8_len(text@) as int),
        bytes_of(views(final(out)@)) == bytes_of(views(old(out)@)) + utf8_len(text@),
        bytes_of(views(old(out)@)) >= 0,
{
    proof {
        lemma_bytes_push(views(out@), (text@, role));
    }
    add_line_piece(out, text, role);
    minus(room, byte_len(text))
}

/// The title of the picker, on a screen of `width` columns.
pub fn title(app: &App, width: usize) -> (r: Vec<LinePiece>)
    ensures
        views(r@) == title_line(app@, width as int),
{
    let mut out: Vec<LinePiece> = Vec::new();
    assert(views(out@) =~= Seq::empty());
    let mut room: usize = add_counted(&mut out, "  gd", LineRole::Program, width);
    room = add_counted(&mut out, " › ", LineRole::Quiet, room);
    room = add_counted(&mut out, app.query.as_str(), LineRole::Query, room);
    if app.filter_mode && !app.filter_query.as_str().is_empty() {
        room = add_counted(&mut out, "     filter: ", LineRole::Quiet, room);
        room = add_counted(&mut out, app.filter_query.as_str(), LineRole::Filter, room);
    }
    assert(views(out@) =~= title_front(app@));
    let count = position_text(app);
    room = minus(room, byte_len(count.as_str()));
    add_line_piece(&mut out, blank(room).as_str(), LineRole::Space);
    add_line_piece(&mut out, count.as_str(), LineRole::Quiet);
    assert(views(out@) =~= title_line(app@, width as int));
    out
}

/// A text in the given language.
pub open spec fn worded(lang: Lang, en: Seq<char>, zh: Seq<char>) -> Seq<char> {
    match lang {
        Lang::En => en,
        Lang::Zh => zh,
    }
}

/// The footer: the keys that count now. The keys that move the path are only named
/// where it can be moved.
pub open spec fn footer_line(s: AppState, lang: Lang) -> Seq<(Seq<char>, LineRole)> {
    let front = if s.filter_mode {
        seq![
            ("  ⏎"@, LineRole::Key),
            (worded(lang, " jump   "@, " 跳轉   "@), LineRole::Help),
            ("esc"@, LineRole::Key),
            (worded(lang, " clear filter"@, " 清除篩選"@), LineRole::Help),
        ]
    } else {
        seq![
            ("  ↑↓"@, LineRole::Key),
            (worded(lang, " select   "@, " 選擇   "@), LineRole::Help),
            ("⏎"@, LineRole::Key),
            (worded(lang, " jump   "@, " 跳轉   "@), LineRole::Help),
            ("/"@, LineRole::Key),
            (worded(lang, " filter   "@, " 篩選   "@), LineRole::Help),
            ("esc"@, LineRole::Key),
            (worded(lang, " cancel"@, " 取消"@), LineRole::Help),
        ]
    };
    if s.sel_max_hscroll > 0 {
        front + seq![
            ("   ←→"@, LineRole::Key),
            (worded(lang, " path"@, " 路徑"@), LineRole::Help),
        ]
    } else {
        front
    }
}

/// The footer of the picker.
pub fn footer(app: &App, lang: Lang) -> (r: Vec<LinePiece>)
    ensures
        views(r@) == footer_line(app@, lang),
{
    let mut out: Vec<LinePiece> = Vec::new();
    assert(views(out@) =~= Seq::empty());
    if app.filter_mode {
        add_line_piece(&mut out, "  ⏎", LineRole::Key);
        add_line_piece(&mut out, lang.pick(" jump   ", " 跳轉   "), LineRole::Help);
        add_line_piece(&mut out, "esc", LineRole::Key);
        add_line_piece(&mut out, lang.pick(" clear filter", " 清除篩選"), LineRole::Help);
    } else {
        add_line_piece(&mut out, "  ↑↓", LineRole::Key);
        add_line_piece(&mut out, lang.pick(" select   ", " 選擇   "), LineRole::Help);
        add_line_piece(&mut out, "⏎", LineRole::Key);
        add_line_piece(&mut out, lang.pick(" jump   ", " 跳轉   "), LineRole::Help);
        add_line_piece(&mut out, "/", LineRole::Key);
        add_line_piece(&mut out, lang.pick(" filter   ", " 篩選   "), LineRole::Help);
        add_line_piece(&mut out, "esc", LineRole::Key);
        add_line_piece(&mut out, lang.pick(" cancel", " 取消"), LineRole::Help);
    }
    if app.sel_max_hscroll > 0 {
        add_line_piece(&mut out, "   ←→", LineRole::Key);
        add_line_piece(&mut out, lang.pick(" path", " 路徑"), LineRole::Help);
    }
    assert(views(out@) =~= footer_line(app@, lang));
    out
}

// ---- the sizes of the picker ----

/// The most rows of candidates at the prompt.
pub const MAX_INLINE_ROWS: usize = 12;

/// How many rows of candidates there are on the whole screen: all but four, at least
/// one.
pub fn fullscreen_rows(term_height: usize) -> (r: usize)
    ensures
        r == if term_height >= 5 {
            term_height - 4
        } else {
            1
        },
{
    if term_height >= 5 {
        term_height - 4
    } else {
        1
    }
}

/// How many rows of candidates there are at the prompt: as many as there are
/// candidates, within a limit and leaving two rows, and at least one.
pub fn inline_rows(candidates: usize, term_height: usize) -> (r: usize)
    ensures
        r >= 1,
        r <= MAX_INLINE_ROWS,
        r > 1 ==> r <= candidates && r + 2 <= term_height,
        r == MAX_INLINE_ROWS || r >= candidates || r + 2 >= term_height,
{
    let mut rows: usize = if candidates < MAX_INLINE_ROWS {
        candidates
    } else {
        MAX_INLINE_ROWS
    };
    let room: usize = minus(term_height, 2);
    if room < rows {
        rows = room;
    }
    if rows < 1 {
        rows = 1;
    }
    rows
}

/// How high the block at the prompt is: the rows and two more, within the screen.
pub fn inline_height(rows: usize, term_height: usize) -> (r: u16)
    requires
        rows <= MAX_INLINE_ROWS,
    ensures
        r == if rows + 2 <= term_height {
            rows + 2
        } else if term_height >= 1 {
            term_height as int
        } else {
            1
        },
{
    if rows + 2 <= term_height {
        (rows + 2) as u16
    } else if term_height >= 1 {
        term_height as u16
    } else {
        1
    }
}

/// Whether a terminal shows all colours, from what it says of itself.
pub fn shows_all_colours(colorterm: Option<&str>) -> (r: bool)
    ensures
        r == (opt_view(colorterm) == Some("truecolor"@) || opt_view(colorterm) == Some("24bit"@)),
{
    match colorterm {
        Some(v) => str_eq(v, "truecolor") || str_eq(v, "24bit"),
        None => false,
    }
}

// ---- the rows of the settings ----

/// What a piece of a settings row is.
#[derive(Clone, Copy, PartialEq, Eq, Structural, Debug)]
pub enum SettingRole {
    Indicator,
    Name,
    Value,
    Default,
    Help,
}

/// A piece of a settings row.
#[derive(Debug)]
pub struct SettingPiece {
    pub text: String,
    pub role: SettingRole,
}

impl View for SettingPiece {
    type V = (Seq<char>, SettingRole);

    open spec fn view(&self) -> (Seq<char>, SettingRole) {
        (self.text@, self.role)
    }
}

/// How wide the column is in which the keys of the settings stand.
pub const KEY_COLUMN: usize = 18;

/// A text with spaces behind it up to `n` characters.
pub open spec fn padded(s: Seq<char>, n: int) -> Seq<char> {
    s + spaces(n - s.len())
}

/// The row of a setting: its name, its value, and whether that is its default.
pub open spec fn setting_row(
    store: KeyStore,
    s: SettingInfo,
    marked: bool,
    lang: Lang,
    locale: Seq<char>,
) -> Seq<(Seq<char>, SettingRole)> {
    let mark = if marked {
        "  ▸ "@
    } else {
        "    "@
    };
    let front = seq![
        (mark, SettingRole::Indicator),
        (padded(s.key, KEY_COLUMN as int), SettingRole::Name),
        (current_value(store, s, locale), SettingRole::Value),
    ];
    if value_under(store.settings.rows(), s.key) is None {
        front.push((worded(lang, "  (default)"@, "  （預設）"@), SettingRole::Default))
    } else {
        front
    }
}

/// Adds a piece.
fn add_setting_piece(out: &mut Vec<SettingPiece>, text: &str, role: SettingRole)
    ensures
        views(final(out)@) == views(old(out)@).push((text@, role)),
{
    let next = SettingPiece { text: text.to_owned(), role };
    proof {
        lemma_views_push(out@, next);
    }
    out.push(next);
}

/// The row of a setting.
pub fn setting_pieces(store: &KeyStore, s: &Setting, marked: bool, lang: Lang, locale: &str) -> (r:
    Vec<SettingPiece>)
    ensures
        views(r@) == setting_row(*store, s@, marked, lang, locale@),
{
    let mut out: Vec<SettingPiece> = Vec::new();
    assert(views(out@) =~= Seq::empty());
    let mark = if marked {
        "  ▸ "
    } else {
        "    "
    };
    add_setting_piece(&mut out, mark, SettingRole::Indicator);
    let len: usize = to_chars(s.key).len();
    let mut name = s.key.to_owned();
    name.append(blank(minus(KEY_COLUMN, len)).as_str());
    assert(name@ =~= padded(s@.key, KEY_COLUMN as int));
    add_setting_piece(&mut out, name.as_str(), SettingRole::Name);
    add_setting_piece(&mut out, value_of(store, s, locale).as_str(), SettingRole::Value);
    if is_default(store, s) {
        add_setting_piece(
            &mut out,
            lang.pick("  (default)", "  （預設）"),
            SettingRole::Default,
        );
    }
    assert(views(out@) =~= setting_row(*store, s@, marked, lang, locale@));
    out
}

/// The line below a setting that says what it is for.
pub fn setting_help(s: &Setting, lang: Lang) -> (r: String)
    ensures
        r@ == "      "@ + worded(lang, s@.help_en, s@.help_zh),
{
    let mut out = String::new();
    out.append("      ");
    out.append(s.help(lang));
    assert(out@ =~= "      "@ + worded(lang, s@.help_en, s@.help_zh));
    out
}

/// The footer of the settings screen.
pub open spec fn settings_footer(lang: Lang) -> Seq<(Seq<char>, LineRole)> {
    seq![
        ("  ↑↓"@, LineRole::Key),
        (worded(lang, " move   "@, " 選設定   "@), LineRole::Help),
        ("←→"@, LineRole::Key),
        (worded(lang, " change   "@, " 切換值   "@), LineRole::Help),
        ("esc"@, LineRole::Key),
        (worded(lang, " done"@, " 離開"@), LineRole::Help),
    ]
}

/// The footer of the settings screen.
pub fn config_footer(lang: Lang) -> (r: Vec<LinePiece>)
    ensures
        views(r@) == settings_footer(lang),
{
    let mut out: Vec<LinePiece> = Vec::new();
    assert(views(out@) =~= Seq::empty());
    add_line_piece(&mut out, "  ↑↓", LineRole::Key);
    add_line_piece(&mut out, lang.pick(" move   ", " 選設定   "), LineRole::Help);
    add_line_piece(&mut out, "←→", LineRole::Key);
    add_line_piece(&mut out, lang.pick(" change   ", " 切換值   "), LineRole::Help);
    add_line_piece(&mut out, "esc", LineRole::Key);
    add_line_piece(&mut out, lang.pick(" done", " 離開"), LineRole::Help);
    assert(views(out@) =~= settings_footer(lang));
    out
}

// ---- colours ----

/// What a colour is for.
#[derive(Clone, Copy, PartialEq, Eq, Structural, Debug)]
pub enum Tone {
    /// The terminal's own.
    Plain,
    TitleGd,
    TitleKey,
    MatchCount,
    SelectedIndicator,
    PathBasename,
    PathBasenameDim,
    PathParent,
    PathParentBright,
    FooterKey,
    FooterDesc,
    FilterPrompt,
    InvalidMark,
}

/// How a text is painted.
#[derive(Clone, Copy, PartialEq, Eq, Structural, Debug)]
pub struct Paint {
    pub tone: Tone,
    /// Whether it stands on the bar of the marked row.
    pub bar: bool,
    pub bold: bool,
}

/// The tone of the tag on the marked row.
pub open spec fn source_tone(source: ResultSource) -> Tone {
    match source {
        ResultSource::Link => Tone::SelectedIndicator,
        ResultSource::History => Tone::TitleKey,
        ResultSource::Filesystem => Tone::MatchCount,
    }
}

/// The tone of a part of a row. Only the marked row is bright, its tag too.
pub open spec fn row_tone(role: Role, marked: bool, source: ResultSource) -> Tone {
    match role {
        Role::Indicator => if marked {
            Tone::SelectedIndicator
        } else {
            Tone::Plain
        },
        Role::Invalid => Tone::InvalidMark,
        Role::Parent => if marked {
            Tone::PathParentBright
        } else {
            Tone::PathParent
        },
        Role::Base => if marked {
            Tone::PathBasename
        } else {
            Tone::PathBasenameDim
        },
        Role::Pad => Tone::Plain,
        Role::Tag => if marked {
            source_tone(source)
        } else {
            Tone::MatchCount
        },
    }
}

/// How a part of a row is painted: the whole marked row stands on a bar, and its name
/// is bold.
pub fn row_paint(role: Role, marked: bool, source: ResultSource) -> (r: Paint)
    ensures
        r == (Paint {
            tone: row_tone(role, marked, source),
            bar: marked,
            bold: marked && role == Role::Base,
        }),
{
    let tone = match role {
        Role::Indicator => if marked {
            Tone::SelectedIndicator
        } else {
            Tone::Plain
        },
        Role::Invalid => Tone::InvalidMark,
        Role::Parent => if marked {
            Tone::PathParentBright
        } else {
            Tone::PathParent
        },
        Role::Base => if marked {
            Tone::PathBasename
        } else {
            Tone::PathBasenameDim
        },
        Role::Pad => Tone::Plain,
        Role::Tag => if !marked {
            Tone::MatchCount
        } else {
            match source {
                ResultSource::Link => Tone::SelectedIndicator,
                ResultSource::History => Tone::TitleKey,
                ResultSource::Filesystem => Tone::MatchCount,
            }
        },
    };
    Paint { tone, bar: marked, bold: marked && role == Role::Base }
}

/// The tone of a part of the title or the footer.
pub open spec fn line_tone(role: LineRole) -> Tone {
    match role {
        LineRole::Program => Tone::TitleGd,
        LineRole::Quiet => Tone::MatchCount,
        LineRole::Query => Tone::TitleKey,
        LineRole::Filter => Tone::FilterPrompt,
        LineRole::Space => Tone::Plain,
        LineRole::Key => Tone::FooterKey,
        LineRole::Help => Tone::FooterDesc,
    }
}

/// How a part of the title or the footer is painted.
pub fn line_paint(role: LineRole) -> (r: Paint)
    ensures
        r == (Paint {
            tone: line_tone(role),
            bar: false,
            bold: role == LineRole::Program || role == LineRole::Query,
        }),
{
    let tone = match role {
        LineRole::Program => Tone::TitleGd,
        LineRole::Quiet => Tone::MatchCount,
        LineRole::Query => Tone::TitleKey,
        LineRole::Filter => Tone::FilterPrompt,
        LineRole::Space => Tone::Plain,
        LineRole::Key => Tone::FooterKey,
        LineRole::Help => Tone::FooterDesc,
    };
    Paint { tone, bar: false, bold: role == LineRole::Program || role == LineRole::Query }
}

/// The tone of a part of a setting.
pub open spec fn setting_tone(role: SettingRole, marked: bool) -> Tone {
    match role {
        SettingRole::Indicator => Tone::SelectedIndicator,
        SettingRole::Name => if marked {
            Tone::TitleKey
        } else {
            Tone::PathParent
        },
        SettingRole::Value => Tone::PathBasename,
        SettingRole::Default => Tone::MatchCount,
        SettingRole::Help => Tone::FooterDesc,
    }
}

/// How a part of a setting is painted.
pub fn setting_paint(role: SettingRole, marked: bool) -> (r: Paint)
    ensures
        r == (Paint {
            tone: setting_tone(role, marked),
            bar: false,
            bold: role == SettingRole::Value || (marked && role == SettingRole::Name),
        }),
{
    let tone = match role {
        SettingRole::Indicator => Tone::SelectedIndicator,
        SettingRole::Name => if marked {
            Tone::TitleKey
        } else {
            Tone::PathParent
        },
        SettingRole::Value => Tone::PathBasename,
        SettingRole::Default => Tone::MatchCount,
        SettingRole::Help => Tone::FooterDesc,
    };
    Paint {
        tone,
        bar: false,
        bold: role == SettingRole::Value || (marked && role == SettingRole::Name),
    }
}

// ---- what is promised of the screens ----

/// Law: a path is parted into what leads to its name, which is nothing or ends in a slash,
/// and the name, which holds no slash.
pub proof fn law_path_parted(path: Seq<char>)
    ensures
        0 <= base_start(path) <= path.len(),
        base_start(path) > 0 ==> path[base_start(path) - 1] == '/',
        forall|k: int| base_start(path) <= k < path.len() ==> #[trigger] path[k] != '/',
    decreases path.len(),
{
    if path.len() > 0 && path.last() != '/' {
        let front = path.drop_last();
        law_path_parted(front);
        assert forall|k: int| base_start(path) <= k < path.len() implies #[trigger] path[k]
            != '/' by {
            if k < front.len() {
                assert(front[k] == path[k]);
            }
        }
    }
}

/// The columns before a character are no more than those before a later one.
proof fn lemma_columns_grow(widths: Seq<usize>, i: int, j: int)
    requires
        0 <= i <= j <= widths.len(),
    ensures
        0 <= column_at(widths, i) <= column_at(widths, j),
    decreases j,
{
    if i < j {
        lemma_columns_grow(widths, i, j - 1);
    } else if 0 < j {
        lemma_columns_grow(widths, i - 1, j - 1);
    }
}

/// The longest end that fits.
proof fn lemma_tail(widths: Seq<usize>, p: int, room: int)
    requires
        0 <= p <= widths.len(),
        room >= 0,
    ensures
        0 <= tail_start(widths, p, room) <= p,
        column_at(widths, p) - column_at(widths, tail_start(widths, p, room)) <= room,
        tail_start(widths, p, room) > 0 ==> column_at(widths, p) - column_at(
            widths,
            tail_start(widths, p, room) - 1,
        ) > room,
    decreases p,
{
    if p > 0 && widths[p - 1] <= room {
        lemma_tail(widths, p - 1, room - widths[p - 1]);
    }
}

/// Law: the end of a text that is kept fits into the room, and with one character more it
/// would not; the columns before a character are those of all characters before it.
pub proof fn law_tail(widths: Seq<usize>, room: int, i: int)
    requires
        room >= 0,
    ensures
        ({
            let n = widths.len() as int;
            let t = tail_start(widths, n, room);
            &&& 0 <= t <= n
            &&& column_at(widths, n) - column_at(widths, t) <= room
            &&& t > 0 ==> column_at(widths, n) - column_at(widths, t - 1) > room
        }),
        0 <= i < widths.len() ==> column_at(widths, i + 1) == column_at(widths, i) + widths[i],
        column_at(widths, 0) == 0,
{
    lemma_tail(widths, widths.len() as int, room);
}

/// Law: what leads to a name is shown whole exactly where it fits before the name, or is
/// nothing at all; else an ellipsis stands before an end of it, unless five columns are not
/// left for both, and then nothing stands there.
pub proof fn law_fitted_parent(parent: Seq<char>, base: Seq<char>, available: int)
    requires
        available >= 0,
    ensures
        ({
            let r = fitted_parent(parent, base, available);
            let left = available - width_of(base);
            &&& width_of(parent) <= left ==> r == parent
            &&& width_of(parent) > left && left < 5 ==> r.len() == 0
            &&& width_of(parent) > left && left >= 5 ==> exists|at: int|
                0 <= at <= parent.len() && r == "…"@ + #[trigger] parent.skip(at) && column_at(
                    all_columns(parent),
                    parent.len() as int,
                ) - column_at(all_columns(parent), at) <= left - 1
        }),
{
    let left = available - width_of(base);
    if width_of(parent) > left && left >= 5 {
        let at = tail_start(all_columns(parent), parent.len() as int, left - 1);
        lemma_tail(all_columns(parent), parent.len() as int, left - 1);
        assert(fitted_parent(parent, base, available) == "…"@ + parent.skip(at));
    }
}

/// Nothing between two columns comes before the first that does, or behind the last.
proof fn lemma_all_between(widths: Seq<usize>, n: int, lo: int, hi: int, i: int)
    requires
        0 <= i < n <= widths.len(),
        between(widths, i, lo, hi),
    ensures
        first_between(widths, n, lo, hi) matches Some(k) && k <= i,
        i < behind_between(widths, n, lo, hi),
    decreases n,
{
    if i < n - 1 {
        lemma_all_between(widths, n - 1, lo, hi, i);
    } else if first_between(widths, n - 1, lo, hi) is Some {
        lemma_between(widths, n - 1, lo, hi);
    }
}

/// Law: a window of `avail` columns over a longer text stands `scroll` columns before its
/// end, or at its start where it was moved further than that. A character is seen exactly
/// where it lies in the window as a whole, less a column for an ellipsis at each end
/// before or behind which the text goes on. A text that fits is not moved.
pub proof fn law_window_shows(
    widths: Seq<usize>,
    total: int,
    avail: int,
    scroll: int,
    from: int,
    i: int,
)
    requires
        1 <= avail,
        0 <= scroll,
        0 <= total,
        widths.len() <= usize::MAX,
        0 <= i < widths.len(),
        from >= 0,
        from == total - avail - scroll || (from == 0 && total - avail - scroll < 0),
    ensures
        ({
            let w = window_over(widths, total, avail, scroll);
            &&& w.lead <==> from > 0
            &&& w.trail <==> from + avail < total
            &&& w.start <= i < w.end <==> ({
                &&& column_at(widths, i) >= from + if w.lead {
                    1int
                } else {
                    0int
                }
                &&& column_at(widths, i + 1) <= from + avail - if w.trail {
                    1int
                } else {
                    0int
                }
            })
        }),
{
    let w = window_over(widths, total, avail, scroll);
    let n = widths.len() as int;
    let lo = from + if from > 0 {
        1int
    } else {
        0int
    };
    let hi = from + avail - if from + avail < total {
        1int
    } else {
        0int
    };
    lemma_between(widths, n, lo, hi);
    lemma_ends(widths, n, lo, hi);
    assert(column_at(widths, i + 1) == column_at(widths, i) + widths[i]);
    if between(widths, i, lo, hi) {
        lemma_all_between(widths, n, lo, hi, i);
    }
    if w.start <= i < w.end {
        lemma_columns_grow(widths, w.start as int, i);
        lemma_columns_grow(widths, i + 1, w.end as int);
    }
}

/// Law: a row starts with its mark, which shows exactly where it is the marked one, and
/// ends with the tag of where the candidate comes from, behind at least one space; the
/// sign of a directory that is not there stands behind the mark exactly where it is not.
/// Between them stands nothing but the path.
pub proof fn law_row_ends(
    c: CandidateInfo,
    shown: Seq<char>,
    marked: bool,
    term_width: int,
    h_scroll: int,
)
    ensures
        ({
            let row = row_segments(c, shown, marked, term_width, h_scroll);
            let n = row.len() as int;
            &&& n >= 3
            &&& row[0] == (if marked {
                "▌    "@
            } else {
                "     "@
            }, Role::Indicator)
            &&& row[n - 1].1 == Role::Tag && row[n - 1].0 == match c.source {
                ResultSource::Link => " [link]"@,
                ResultSource::History => " [hist]"@,
                ResultSource::Filesystem => " [scan]"@,
            }
            &&& row[n - 2].1 == Role::Pad && row[n - 2].0.len() >= 1 && forall|k: int|
                0 <= k < row[n - 2].0.len() ==> #[trigger] row[n - 2].0[k] == ' '
            &&& !c.valid ==> row[1] == ("✗ "@, Role::Invalid)
            &&& forall|k: int|
                (if c.valid {
                    1int
                } else {
                    2int
                }) <= k < n - 2 ==> (#[trigger] row[k]).1 == Role::Parent || row[k].1 == Role::Base
        }),
{
    let row = row_segments(c, shown, marked, term_width, h_scroll);
    let (pieces, path_w) = row_path(c, shown, marked, term_width, h_scroll);
    let skip = if c.valid {
        1int
    } else {
        2int
    };
    assert forall|k: int| skip <= k < row.len() - 2 implies (#[trigger] row[k]).1 == Role::Parent
        || row[k].1 == Role::Base by {
        assert(row[k] == pieces[k - skip]);
    }
}

/// Law: a row that is not marked, or whose path was not moved, shows the whole name and as
/// much of what leads to it as fits; the path is shown whole where it fits.
pub proof fn law_row_path(
    c: CandidateInfo,
    shown: Seq<char>,
    marked: bool,
    term_width: int,
    h_scroll: int,
)
    requires
        !marked || h_scroll <= 0 || width_of(shown) <= path_room(c, term_width),
    ensures
        ({
            let row = row_segments(c, shown, marked, term_width, h_scroll);
            let at = base_start(shown);
            let n = row.len() as int;
            let room = path_room(c, term_width);
            &&& row[n - 3] == (shown.skip(at), Role::Base)
            &&& row[n - 4].1 == Role::Parent
            &&& row[n - 4].0 == fitted_parent(shown.take(at), shown.skip(at), room)
            &&& width_of(shown.take(at)) + width_of(shown.skip(at)) <= room ==> row[n - 4].0
                + row[n - 3].0 == shown
        }),
{
    law_path_parted(shown);
    let at = base_start(shown);
    assert(shown.take(at) + shown.skip(at) =~= shown);
}

/// Law: the row and the path leave each other the columns that they need: the mark, the
/// sign of a missing directory, the path, a tag and two columns fill the screen, where it
/// is that wide.
pub proof fn law_path_room(c: CandidateInfo, term_width: int)
    ensures
        ({
            let others = 5 + width_of(
                if c.valid {
                    ""@
                } else {
                    "✗ "@
                },
            ) + width_of(tag_text(c.source)) + 2;
            &&& term_width >= others ==> path_room(c, term_width) + others == term_width
            &&& term_width < others ==> path_room(c, term_width) == 0
        }),
{
}

/// Law: a path that was moved is shown through its window: the pieces between the ellipses
/// are, one behind the other, the characters that are seen, and the name is told from what
/// leads to it where the path parts them.
pub proof fn law_moved_path(path: Seq<char>, available: int, scroll: int)
    requires
        path.len() <= usize::MAX,
    ensures
        ({
            let w = window_over(all_columns(path), width_of(path) as int, available, scroll);
            let pieces = scrolled_path(path, available, scroll).0;
            let lead = if w.lead {
                1int
            } else {
                0int
            };
            let trail = if w.trail {
                1int
            } else {
                0int
            };
            let inner = pieces.subrange(lead, pieces.len() - trail);
            &&& w.start <= w.end <= path.len()
            &&& w.lead ==> pieces[0] == ("…"@, Role::Parent)
            &&& w.trail ==> pieces.last() == ("…"@, Role::Parent)
            &&& inner.len() <= 2
            &&& inner.len() == 0 ==> w.start == w.end
            &&& inner.len() == 1 ==> inner[0].0 == path.subrange(w.start as int, w.end as int)
            &&& inner.len() == 2 ==> inner[0].0 + inner[1].0 == path.subrange(
                w.start as int,
                w.end as int,
            ) && inner[0].1 == Role::Parent && inner[1].1 == Role::Base
            &&& inner.len() > 0 && w.end <= base_start(path) ==> inner[0].1 == Role::Parent
            &&& inner.len() > 0 && w.start >= base_start(path) ==> inner[0].1 == Role::Base
        }),
{
    let widths = all_columns(path);
    let w = window_over(widths, width_of(path) as int, available, scroll);
    let n = widths.len() as int;
    let most = left_over(width_of(path) as int, available);
    let from = left_over(most, scroll);
    let to = from + available;
    let lo = from + if from > 0 {
        1int
    } else {
        0int
    };
    let hi = if to < width_of(path) {
        left_over(to, 1)
    } else {
        to
    };
    lemma_between(widths, n, lo, hi);
    law_path_parted(path);
    let base = base_start(path);
    let cut = if base < w.start {
        w.start as int
    } else if base > w.end {
        w.end as int
    } else {
        base
    };
    let parent = path.subrange(w.start as int, cut);
    let name = path.subrange(cut, w.end as int);
    let pieces = scrolled_path(path, available, scroll).0;
    let lead = if w.lead {
        1int
    } else {
        0int
    };
    let trail = if w.trail {
        1int
    } else {
        0int
    };
    let inner = pieces.subrange(lead, pieces.len() - trail);
    assert(inner =~= piece(parent, Role::Parent) + piece(name, Role::Base));
    assert(parent + name =~= path.subrange(w.start as int, w.end as int));
    if parent.len() == 0 {
        assert(parent + name =~= name);
    }
    if name.len() == 0 {
        assert(parent + name =~= parent);
    }
}

/// Law: the title tells what was asked, what is filtered for exactly where a filter is
/// typed and holds anything, and last the position, at the end of `width` bytes where all
/// of it fits there.
pub proof fn law_title(s: AppState, width: int)
    ensures
        ({
            let line = title_line(s, width);
            let n = line.len() as int;
            let filtering = s.filter_mode && s.filter_query.len() > 0;
            &&& line[2] == (s.query, LineRole::Query)
            &&& filtering ==> n == 7 && line[4] == (s.filter_query, LineRole::Filter)
            &&& !filtering ==> n == 5
            &&& line[n - 1] == (count_text(s), LineRole::Quiet)
            &&& line[n - 2].1 == LineRole::Space
            &&& bytes_of(line.take(n - 2)) + utf8_len(count_text(s)) <= width
                ==> line[n - 2].0.len() == width - bytes_of(line.take(n - 2)) - utf8_len(
                count_text(s),
            )
        }),
{
    let line = title_line(s, width);
    assert(line.take(line.len() - 2) =~= title_front(s));
}

/// Law: the position is the rank of the marked match and how many there are; in the
/// traditional layout it tells which matches the window shows, where it does not show all.
pub proof fn law_position(s: AppState)
    ensures
        ({
            let total = s.filtered.len();
            let traditional = s.mode == LayoutMode::Traditional;
            let first = s.scroll_offset + 1;
            let end = s.scroll_offset + s.viewport_size;
            &&& !traditional && total >= 2 ==> count_text(s) == decimal(rank_of(s) as nat) + "/"@
                + decimal(total)
            &&& traditional && s.viewport_size < total && end <= total ==> count_text(s) == decimal(
                first as nat,
            ) + "-"@ + decimal(end as nat) + "/"@ + decimal(total)
            &&& traditional && s.viewport_size < total && end > total ==> count_text(s) == decimal(
                first as nat,
            ) + "-"@ + decimal(total) + "/"@ + decimal(total)
            &&& total != 1 && (if traditional {
                total <= s.viewport_size
            } else {
                total == 0
            }) ==> count_text(s) == decimal(total) + " matches"@
            &&& total == 1 && !traditional ==> count_text(s) == decimal(1) + " match"@
        }),
{
}

/// Law: the footer names the keys whatever language is spoken, each before what it is for;
/// the keys that move the path are among them exactly where it can be moved.
pub proof fn law_footer(s: AppState, lang: Lang, other: Lang, i: int)
    requires
        0 <= i < footer_line(s, lang).len(),
    ensures
        ({
            let line = footer_line(s, lang);
            let n = line.len() as int;
            let moves = (n >= 2 && line[n - 2] == ("   ←→"@, LineRole::Key));
            &&& n == footer_line(s, other).len()
            &&& line[i].1 == if i % 2 == 0 {
                LineRole::Key
            } else {
                LineRole::Help
            }
            &&& i % 2 == 0 ==> line[i] == footer_line(s, other)[i]
            &&& n == (if s.filter_mode {
                4int
            } else {
                8int
            }) + (if s.sel_max_hscroll > 0 {
                2int
            } else {
                0int
            })
            &&& s.sel_max_hscroll > 0 ==> moves
            &&& s.filter_mode ==> line[0].0 == "  ⏎"@ && line[2].0 == "esc"@
            &&& !s.filter_mode ==> line[0].0 == "  ↑↓"@ && line[2].0 == "⏎"@ && line[4].0 == "/"@
                && line[6].0 == "esc"@
        }),
{
}

/// Law: of a setting its key, its value and, exactly where none is stored, that the value
/// is its first one are shown; the value starts in one column for all of them.
pub proof fn law_setting_row(
    store: KeyStore,
    s: SettingInfo,
    marked: bool,
    lang: Lang,
    locale: Seq<char>,
)
    ensures
        ({
            let row = setting_row(store, s, marked, lang, locale);
            &&& row.len() == if value_under(store.settings.rows(), s.key) is None {
                4int
            } else {
                3int
            }
            &&& row[0].0 == if marked {
                "  ▸ "@
            } else {
                "    "@
            }
            &&& s.key.is_prefix_of(row[1].0) && row[1].1 == SettingRole::Name
            &&& s.key.len() <= KEY_COLUMN ==> row[1].0.len() == KEY_COLUMN
            &&& row[2] == (current_value(store, s, locale), SettingRole::Value)
            &&& row.len() == 4 ==> row[3].1 == SettingRole::Default
        }),
{
    let row = setting_row(store, s, marked, lang, locale);
    assert(row[1].0.take(s.key.len() as int) =~= s.key);
}

/// Law: on the marked row the name, what leads to it and the mark stand out; the sign of a
/// missing directory stands out on every row; and a tag tells where a candidate comes from
/// by its tone on the marked row only.
pub proof fn law_row_tones(a: ResultSource, b: ResultSource, role: Role)
    ensures
        row_tone(Role::Indicator, true, a) == Tone::SelectedIndicator,
        row_tone(Role::Base, true, a) == Tone::PathBasename,
        row_tone(Role::Parent, true, a) == Tone::PathParentBright,
        row_tone(Role::Indicator, false, a) == Tone::Plain,
        row_tone(Role::Base, false, a) == Tone::PathBasenameDim,
        row_tone(Role::Parent, false, a) == Tone::PathParent,
        row_tone(Role::Invalid, true, a) == Tone::InvalidMark,
        row_tone(Role::Invalid, false, a) == Tone::InvalidMark,
        row_tone(role, false, a) == row_tone(role, false, b),
        row_tone(Role::Tag, true, a) == row_tone(Role::Tag, true, b) <==> a == b,
        row_tone(Role::Tag, true, ResultSource::Filesystem) == row_tone(Role::Tag, false, a),
        role != Role::Tag ==> row_tone(role, true, a) == row_tone(role, true, b),
{
}

} // verus!
