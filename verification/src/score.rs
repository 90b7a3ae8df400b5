//! Exact scores. What is ranked by them is decided here without rounding.

use crate::frecency::decay;
use vstd::prelude::*;

verus! {

/// How many units make one point.
pub const UNITS: i128 = 30000;

/// The tier of what is only indexed, or was met on the disk.
pub const TIER_INDEXED: u8 = 0;

/// The tier of what was visited but never selected, and a part of the keywords match.
pub const TIER_VISITED_PART: u8 = 1;

/// The tier of what was visited but never selected.
pub const TIER_VISITED: u8 = 2;

/// The tier of what was selected, and a part of the keywords match.
pub const TIER_SELECTED_PART: u8 = 3;

/// The tier of what was selected.
pub const TIER_SELECTED: u8 = 4;

/// The tier of links.
pub const TIER_LINK: u8 = 5;

/// A score: a tier, and within it `units + num / (over + 1)` units, of which `UNITS`
/// make a point. Nothing in one tier comes near the next.
#[derive(Clone, Copy, PartialEq, Eq, Structural, Debug)]
pub struct Score {
    pub tier: u8,
    pub units: i128,
    pub num: u64,
    pub over: u64,
}

/// Whether `a` is at most `b`.
pub open spec fn le(a: Score, b: Score) -> bool {
    a.tier < b.tier || (a.tier == b.tier && (a.units < b.units || (a.units == b.units && a.num * (
    b.over + 1) <= b.num * (a.over + 1))))
}

/// Whether `a` is less than `b`.
pub open spec fn less(a: Score, b: Score) -> bool {
    !le(b, a)
}

/// The larger of two scores; the first where they are equal.
pub open spec fn larger(a: Score, b: Score) -> Score {
    if le(b, a) {
        a
    } else {
        b
    }
}

/// A whole number of units, in the lowest tier.
pub open spec fn whole(units: int) -> Score {
    Score { tier: TIER_INDEXED, units: units as i128, num: 0, over: 0 }
}

/// A score moved to a tier.
pub open spec fn in_tier(tier: u8, score: Score) -> Score {
    Score { tier, ..score }
}

/// Above every score that a path can earn by use or by name.
pub open spec fn link_score() -> Score {
    in_tier(TIER_LINK, whole(0))
}

/// The tier of a used directory.
pub open spec fn use_tier(selections: int) -> u8 {
    if selections > 0 {
        TIER_SELECTED
    } else {
        TIER_VISITED
    }
}

/// Fractions are ordered transitively.
proof fn lemma_fractions(a: int, b: int, c: int, d: int, e: int, f: int)
    requires
        0 <= a,
        0 < b,
        0 <= c,
        0 < d,
        0 <= e,
        0 < f,
        a * d <= c * b,
        c * f <= e * d,
    ensures
        a * f <= e * b,
{
    assert(a * f <= e * b) by (nonlinear_arith)
        requires
            0 <= a,
            0 < b,
            0 <= c,
            0 < d,
            0 <= e,
            0 < f,
            a * d <= c * b,
            c * f <= e * d,
    {
        assert((a * d) * f <= (c * b) * f);
        assert((c * f) * b <= (e * d) * b);
        assert((c * b) * f == (c * f) * b);
        assert((a * d) * f == d * (a * f));
        assert((e * d) * b == d * (e * b));
        assert(d * (a * f) <= d * (e * b));
    }
}

/// Scores are ordered: any two compare, and the order is transitive.
pub proof fn lemma_le_transitive(a: Score, b: Score, c: Score)
    requires
        le(a, b),
        le(b, c),
    ensures
        le(a, c),
{
    if a.tier == b.tier && b.tier == c.tier && a.units == b.units && b.units == c.units {
        lemma_fractions(
            a.num as int,
            a.over + 1,
            b.num as int,
            b.over + 1,
            c.num as int,
            c.over + 1,
        );
    }
}

/// Any two scores compare.
pub proof fn lemma_le_total(a: Score, b: Score)
    ensures
        le(a, b) || le(b, a),
        le(a, a),
{
}

/// Whether `a` is at most `b`.
pub fn score_le(a: &Score, b: &Score) -> (r: bool)
    ensures
        r == le(*a, *b),
{
    if a.tier < b.tier {
        return true;
    }
    if a.tier > b.tier {
        return false;
    }
    if a.units < b.units {
        return true;
    }
    if a.units > b.units {
        return false;
    }
    let m: u128 = 0xffff_ffff_ffff_ffff;
    assert(a.num * (b.over + 1) <= m * (m + 1)) by (nonlinear_arith)
        requires
            0 <= a.num <= m,
            0 <= b.over <= m,
    ;
    assert(b.num * (a.over + 1) <= m * (m + 1)) by (nonlinear_arith)
        requires
            0 <= b.num <= m,
            0 <= a.over <= m,
    ;
    (a.num as u128) * (b.over as u128 + 1) <= (b.num as u128) * (a.over as u128 + 1)
}

/// The larger of two scores; the first where they are equal.
pub fn score_max(a: Score, b: Score) -> (r: Score)
    ensures
        r == larger(a, b),
{
    if score_le(&b, &a) {
        a
    } else {
        b
    }
}

// ---- what past use is worth ----

/// More than past use and a match can be worth together, in units.
pub const MAX_USE_UNITS: i128 = 4000000000000000000000000;

/// The points of a directory that was selected at least once, before its counts.
pub const SELECTED_TIER: u64 = 100000;

/// The points, in the fallbacks, of a directory that was visited but never selected.
pub const VISITED_TIER: u64 = 1000;

/// What past use is worth in a search by name, in hundredths of a point.
pub open spec fn use_points(selections: int, visits: int, factor: int) -> int {
    if selections > 0 {
        SELECTED_TIER * 100 + (selections * 10 + visits) * factor
    } else {
        visits * factor
    }
}

/// What past use is worth in the fallbacks, in hundredths of a point.
pub open spec fn base_points(selections: int, visits: int, factor: int) -> int {
    if selections > 0 {
        SELECTED_TIER * 100 + (selections * 10 + visits) * factor
    } else {
        VISITED_TIER * 100 + visits * factor
    }
}

/// No product of counts and a factor leaves the range of the machine.
proof fn lemma_counts(selections: u64, visits: u64, factor: u64)
    requires
        factor <= 100,
    ensures
        0 <= (selections * 10 + visits) * factor <= 20291418481080506778600,
        0 <= visits * factor <= 1844674407370955161500,
{
    assert(0 <= (selections * 10 + visits) * factor <= 20291418481080506778600
        && 0 <= visits * factor <= 1844674407370955161500) by (nonlinear_arith)
        requires
            0 <= factor <= 100,
            0 <= selections <= 18446744073709551615,
            0 <= visits <= 18446744073709551615,
    ;
}

/// What past use is worth in a search by name, in hundredths of a point.
pub fn history_points(selections: u64, visits: u64, factor: u64) -> (r: u128)
    requires
        factor <= 100,
    ensures
        r == use_points(selections as int, visits as int, factor as int),
        r <= 20291418481080516778600,
{
    proof {
        lemma_counts(selections, visits, factor);
    }
    if selections > 0 {
        SELECTED_TIER as u128 * 100 + (selections as u128 * 10 + visits as u128) * factor as u128
    } else {
        visits as u128 * factor as u128
    }
}

/// What past use is worth in the fallbacks, in hundredths of a point: the selected
/// directories in the top band, those only visited in a band below it.
pub fn history_base(selections: u64, visits: u64, factor: u64) -> (r: u128)
    requires
        factor <= 100,
    ensures
        r == base_points(selections as int, visits as int, factor as int),
        r <= 20291418481080516778600,
{
    proof {
        lemma_counts(selections, visits, factor);
    }
    if selections > 0 {
        SELECTED_TIER as u128 * 100 + (selections as u128 * 10 + visits as u128) * factor as u128
    } else {
        VISITED_TIER as u128 * 100 + visits as u128 * factor as u128
    }
}

/// What a name match adds to past use, in thousandths of a point: 10 for the very
/// name, 5 for its beginning, nothing else.
pub open spec fn tiebreak(basename: Seq<char>, query: Seq<char>) -> int {
    if basename == query {
        10
    } else if query.is_prefix_of(basename) {
        5
    } else {
        0
    }
}

/// What a name match adds to past use, in thousandths of a point. It only decides
/// between directories that were used equally.
pub fn match_quality_tiebreak(basename_lower: &str, query_lower: &str) -> (r: u64)
    ensures
        r == tiebreak(basename_lower@, query_lower@),
{
    if crate::text::str_eq(basename_lower, query_lower) {
        10
    } else if crate::text::starts_with(basename_lower, query_lower) {
        5
    } else {
        0
    }
}

/// The tier of a used directory.
fn tier_of_use(selections: u64) -> (r: u8)
    ensures
        r == use_tier(selections as int),
{
    if selections > 0 {
        TIER_SELECTED
    } else {
        TIER_VISITED
    }
}

/// The score of a used directory in a search by name.
pub open spec fn use_score(
    selections: int,
    visits: int,
    factor: int,
    basename: Seq<char>,
    query: Seq<char>,
) -> Score {
    in_tier(
        use_tier(selections),
        whole(use_points(selections, visits, factor) * 300 + tiebreak(basename, query) * 30),
    )
}

/// The score of a used directory in a search by name.
pub fn history_score(
    selections: u64,
    visits: u64,
    factor: u64,
    basename_lower: &str,
    query_lower: &str,
) -> (r: Score)
    requires
        factor <= 100,
    ensures
        r == use_score(
            selections as int,
            visits as int,
            factor as int,
            basename_lower@,
            query_lower@,
        ),
{
    let points: u128 = history_points(selections, visits, factor);
    let extra: u64 = match_quality_tiebreak(basename_lower, query_lower);
    Score {
        tier: tier_of_use(selections),
        units: (points * 300 + extra as u128 * 30) as i128,
        num: 0,
        over: 0,
    }
}

/// The most that the matcher's score counts for where a directory was used, so that it
/// stays below a single visit that was long ago.
pub const MAX_MATCH: u64 = 1249;

/// What the matcher's score counts for where a directory was used.
pub open spec fn match_units(matched: int) -> int {
    if matched < MAX_MATCH {
        matched * 3
    } else {
        MAX_MATCH * 3
    }
}

/// The score of a used directory that matched loosely, with the matcher's score as
/// a small addition.
pub open spec fn loose_use_score(
    selections: int,
    visits: int,
    factor: int,
    matched: int,
) -> Score {
    in_tier(
        use_tier(selections),
        whole(base_points(selections, visits, factor) * 150 + match_units(matched)),
    )
}

/// The score of a used directory that matched loosely.
pub fn fuzzy_history_score(selections: u64, visits: u64, factor: u64, matched: u64) -> (r: Score)
    requires
        factor <= 100,
    ensures
        r == loose_use_score(selections as int, visits as int, factor as int, matched as int),
        0 <= r.units <= MAX_USE_UNITS,
        r.num == 0,
        r.over == 0,
{
    let points: u128 = history_base(selections, visits, factor);
    let extra: u128 = if matched < MAX_MATCH {
        matched as u128 * 3
    } else {
        MAX_MATCH as u128 * 3
    };
    Score {
        tier: tier_of_use(selections),
        units: (points * 150 + extra) as i128,
        num: 0,
        over: 0,
    }
}

/// The largest number of keywords that scores are exact for.
pub const MAX_KEYWORDS: usize = 0x40_0000;

/// The `(matched / total)^2`-th part of a number of units.
pub open spec fn share(units: int, matched: int, total: int) -> Score {
    Score {
        tier: TIER_INDEXED,
        units: ((units * (matched * matched)) / (total * total)) as i128,
        num: ((units * (matched * matched)) % (total * total)) as u64,
        over: (total * total - 1) as u64,
    }
}

/// The score of a used directory that `matched` of `total` keywords match, from the
/// units that it has by its use and its match: those where all of them match, else
/// their `(matched / total)^2`-th part, in the tier below the full matches.
pub open spec fn partial(selected: bool, units: int, matched: int, total: int) -> Score {
    if matched >= total {
        in_tier(
            if selected {
                TIER_SELECTED
            } else {
                TIER_VISITED
            },
            whole(units),
        )
    } else {
        in_tier(
            if selected {
                TIER_SELECTED_PART
            } else {
                TIER_VISITED_PART
            },
            share(units, matched, total),
        )
    }
}

/// Demotes the score of a used directory that only `matched` of `total` keywords match.
pub fn demote(score: Score, selected: bool, matched: usize, total: usize) -> (r: Score)
    requires
        0 <= score.units <= MAX_USE_UNITS,
        matched <= total,
        0 < total <= MAX_KEYWORDS,
    ensures
        r == partial(selected, score.units as int, matched as int, total as int),
{
    if matched == total {
        let tier: u8 = if selected {
            TIER_SELECTED
        } else {
            TIER_VISITED
        };
        return Score { tier, units: score.units, num: 0, over: 0 };
    }
    let tier: u8 = if selected {
        TIER_SELECTED_PART
    } else {
        TIER_VISITED_PART
    };
    let m: u128 = matched as u128;
    let t: u128 = total as u128;
    let u: u128 = score.units as u128;
    proof {
        lemma_squares(score.units as int, matched as int, total as int);
        assert(m * m <= 0x1000_0000_0000) by (nonlinear_arith)
            requires
                0 <= m <= 0x40_0000,
        ;
        assert(0 <= u * (m * m) <= MAX_USE_UNITS * 0x1000_0000_0000);
    }
    let n: u128 = u * (m * m);
    let d: u128 = t * t;
    proof {
        lemma_quotient(n as int, d as int);
    }
    Score { tier, units: (n / d) as i128, num: (n % d) as u64, over: (d - 1) as u64 }
}

/// The score of a used directory that `some` of `total` keywords match loosely.
pub open spec fn partial_use_score(
    selections: int,
    visits: int,
    factor: int,
    matched: int,
    some: int,
    total: int,
) -> Score {
    partial(
        selections > 0,
        loose_use_score(selections, visits, factor, matched).units as int,
        some,
        total,
    )
}

/// `scale` times the likeness of two texts `dist` edits apart, the longer of which
/// has `len` bytes, on top of `units`. Without a length there is no likeness.
pub open spec fn alike(units: int, scale: int, dist: int, len: int) -> Score {
    if len > 0 && dist <= len {
        Score {
            tier: TIER_INDEXED,
            units: (units + scale * (len - dist) / len) as i128,
            num: ((scale * (len - dist)) % len) as u64,
            over: (len - 1) as u64,
        }
    } else {
        whole(units)
    }
}

/// Adds a likeness, `scale` units where the texts are equal, to a whole number of units.
pub fn add_likeness(units: u128, scale: u64, dist: usize, len: usize) -> (r: Score)
    requires
        units <= MAX_USE_UNITS,
        scale <= 300000,
    ensures
        r == alike(units as int, scale as int, dist as int, len as int),
{
    if len == 0 || dist > len {
        return Score { tier: TIER_INDEXED, units: units as i128, num: 0, over: 0 };
    }
    let n: u128 = len as u128;
    let left: u128 = n - dist as u128;
    assert(scale * left <= 300000 * 18446744073709551615) by (nonlinear_arith)
        requires
            0 <= scale <= 300000,
            0 <= left <= 18446744073709551615,
    ;
    let product: u128 = scale as u128 * left;
    assert(0 <= product / n <= product) by (nonlinear_arith)
        requires
            n > 0,
            product >= 0,
    ;
    assert(0 <= product % n < n) by (nonlinear_arith)
        requires
            n > 0,
            product >= 0,
    ;
    Score {
        tier: TIER_INDEXED,
        units: (units + product / n) as i128,
        num: (product % n) as u64,
        over: (len - 1) as u64,
    }
}

/// The score of a used directory whose name is a few edits from the query.
pub open spec fn typo_use_score(
    selections: int,
    visits: int,
    factor: int,
    dist: int,
    len: int,
) -> Score {
    in_tier(
        use_tier(selections),
        alike(base_points(selections, visits, factor) * 90, 3, dist, len),
    )
}

/// The score of a used directory whose name is `dist` edits from the query.
pub fn typo_history_score(
    selections: u64,
    visits: u64,
    factor: u64,
    dist: usize,
    len: usize,
) -> (r: Score)
    requires
        factor <= 100,
    ensures
        r == typo_use_score(
            selections as int,
            visits as int,
            factor as int,
            dist as int,
            len as int,
        ),
{
    let points: u128 = history_base(selections, visits, factor);
    let score = add_likeness(points * 90, 3, dist, len);
    Score { tier: tier_of_use(selections), ..score }
}

// ---- what a place in the file system is worth ----

/// What lying `depth` levels below the home directory adds, in units: `top` for one
/// level and for the home directory itself, `ratio` shared by the levels for two or
/// three, nothing further down.
pub open spec fn depth_units(depth: Option<int>, top: int, ratio: int) -> int {
    match depth {
        Some(d) => if 0 <= d <= 1 {
            top
        } else if d == 2 {
            ratio / 2
        } else if d == 3 {
            ratio / 3
        } else {
            0
        },
        None => 0,
    }
}

/// A score with the depth bonus added.
pub open spec fn deepened(base: Score, depth: Option<int>, top: int, ratio: int) -> Score {
    Score { units: (base.units + depth_units(depth, top, ratio)) as i128, ..base }
}

/// The view of an optional depth.
pub open spec fn opt_depth(depth: Option<usize>) -> Option<int> {
    match depth {
        Some(d) => Some(d as int),
        None => None,
    }
}

/// Adds to a score what the depth below the home directory is worth.
pub fn depth_bonus(base: Score, depth: Option<usize>, top: u64, ratio: u64) -> (r: Score)
    requires
        0 <= base.units <= 0x4000_0000_0000_0000_0000_0000_0000_0000,
    ensures
        r == deepened(base, opt_depth(depth), top as int, ratio as int),
{
    match depth {
        None => base,
        Some(d) => {
            if d <= 1 {
                Score { units: base.units + top as i128, ..base }
            } else if d == 2 {
                Score { units: base.units + (ratio / 2) as i128, ..base }
            } else if d == 3 {
                Score { units: base.units + (ratio / 3) as i128, ..base }
            } else {
                base
            }
        },
    }
}

/// What an indexed directory's name is worth in a search by name, in units: 5000
/// points for the very name, 10 for its beginning, a tenth of a point else.
pub open spec fn name_units(basename: Seq<char>, query: Seq<char>) -> int {
    if basename == query {
        150000000
    } else if query.is_prefix_of(basename) {
        300000
    } else {
        3000
    }
}

/// The score of an indexed directory in a search by name.
pub open spec fn place_score(
    basename: Seq<char>,
    query: Seq<char>,
    depth: Option<int>,
) -> Score {
    deepened(whole(name_units(basename, query)), depth, 3000000, 300000)
}

/// The score of an indexed directory in a search by name.
pub fn index_score(basename_lower: &str, query_lower: &str, depth: Option<usize>) -> (r: Score)
    ensures
        r == place_score(basename_lower@, query_lower@, opt_depth(depth)),
{
    let units: i128 = if crate::text::str_eq(basename_lower, query_lower) {
        150000000
    } else if crate::text::starts_with(basename_lower, query_lower) {
        300000
    } else {
        3000
    };
    depth_bonus(Score { tier: TIER_INDEXED, units, num: 0, over: 0 }, depth, 3000000, 300000)
}

/// The score, by its name alone, of an indexed directory that matched loosely.
pub fn fuzzy_index_base(matched: u64) -> (r: Score)
    ensures
        r == whole(matched * 300),
        0 <= r.units <= 5534023222112865484500,
{
    Score { tier: TIER_INDEXED, units: matched as i128 * 300, num: 0, over: 0 }
}

/// The score, by its name alone, of an indexed directory a few edits from the query.
pub fn typo_index_base(dist: usize, len: usize) -> (r: Score)
    ensures
        r == alike(0, 300000, dist as int, len as int),
{
    add_likeness(0, 300000, dist, len)
}

// ---- floors ----

/// The floor for what lies below the current directory, in units of the selected tier:
/// between one selection and two.
pub const CWD_PROXIMITY: i128 = 3000450000;

/// The floor for what was made there minutes ago, in units of the selected tier.
pub const FRESH_TIER: i128 = 6000000000;

/// The floor for what lies below the current directory.
pub open spec fn near_floor() -> Score {
    in_tier(TIER_SELECTED, whole(CWD_PROXIMITY as int))
}

/// The floor for what was made there minutes ago.
pub open spec fn fresh_floor() -> Score {
    in_tier(TIER_SELECTED, whole(FRESH_TIER as int))
}

// ---- boosts ----

/// The points from which on a boosted score counts among the visited: more than an
/// indexed name earns without a boost.
pub const BOOSTED_TIER: u64 = 10000;

/// The tier in which so many units are usual.
pub open spec fn usual_tier(units: int) -> u8 {
    if units >= SELECTED_TIER * UNITS {
        TIER_SELECTED
    } else if units >= BOOSTED_TIER * UNITS {
        TIER_VISITED
    } else {
        TIER_INDEXED
    }
}

/// A score that a boost made other units of. It moves up to the tier in which so many
/// are usual, and never down.
pub open spec fn boosted(score: Score, units: i128, num: u64, over: u64) -> Score {
    Score {
        tier: if usual_tier(units as int) > score.tier {
            usual_tier(units as int)
        } else {
            score.tier
        },
        units,
        num,
        over,
    }
}

/// A score that a boost made other units of.
pub fn boosted_score(score: Score, units: i128, num: u64, over: u64) -> (r: Score)
    ensures
        r == boosted(score, units, num, over),
{
    let usual: u8 = if units >= SELECTED_TIER as i128 * UNITS {
        TIER_SELECTED
    } else if units >= BOOSTED_TIER as i128 * UNITS {
        TIER_VISITED
    } else {
        TIER_INDEXED
    };
    Score { tier: if usual > score.tier { usual } else { score.tier }, units, num, over }
}

// ---- laws of the ranking ----

/// A count times a factor is a whole number of twentieths of a point.
proof fn lemma_times_factor(n: int, f: int)
    requires
        0 <= n,
        f == 100 || f == 70 || f == 50 || f == 25,
    ensures
        (n * f) % 5 == 0,
        n * 25 <= n * f <= n * 100,
{
    if f == 100 {
        assert(n * f == n * 100);
    } else if f == 70 {
        assert(n * f == n * 70);
    } else if f == 50 {
        assert(n * f == n * 50);
    } else {
        assert(n * f == n * 25);
    }
}

/// The points of past use are whole twentieths of a point.
proof fn lemma_twentieths(selections: u64, visits: u64, ago: int)
    ensures
        use_points(selections as int, visits as int, decay(ago)) % 5 == 0,
        0 <= (selections * 10 + visits) * decay(ago) <= 20291418481080506778600,
        0 <= visits * decay(ago) <= 1844674407370955161500,
        (selections * 10 + visits) * 25 <= (selections * 10 + visits) * decay(ago),
{
    lemma_times_factor(selections * 10 + visits, decay(ago));
    lemma_times_factor(visits as int, decay(ago));
}

/// Multiples of five that differ do so by five at least.
proof fn lemma_gap(x: int, y: int)
    requires
        x > y,
        x % 5 == 0,
        y % 5 == 0,
    ensures
        x >= y + 5,
{
}

/// Law: in a search by name, past use decides; how well the name fits only decides
/// between directories that were used equally. What was selected comes first; among
/// what was selected, and among what was not, the counts decide, each weighed by how
/// long ago the last use was.
pub proof fn law_use_before_name(
    selections_a: u64,
    visits_a: u64,
    ago_a: int,
    name_a: Seq<char>,
    selections_b: u64,
    visits_b: u64,
    ago_b: int,
    name_b: Seq<char>,
    query: Seq<char>,
)
    requires
        (selections_a > 0 && selections_b == 0) || ((selections_a > 0 <==> selections_b > 0) && (
        selections_a * 10 + visits_a) * decay(ago_a) > (selections_b * 10 + visits_b) * decay(
            ago_b,
        )),
    ensures
        less(
            use_score(selections_b as int, visits_b as int, decay(ago_b), name_b, query),
            use_score(selections_a as int, visits_a as int, decay(ago_a), name_a, query),
        ),
{
    lemma_twentieths(selections_a, visits_a, ago_a);
    lemma_twentieths(selections_b, visits_b, ago_b);
    let x = use_points(selections_a as int, visits_a as int, decay(ago_a));
    let y = use_points(selections_b as int, visits_b as int, decay(ago_b));
    if selections_b > 0 || selections_a == 0 {
        lemma_gap(x, y);
        assert(0 <= y && x <= 20291418481080516778600);
    }
}

/// Law: of two directories that were used alike, the one with the very name ranks above
/// the other in a search by name, and one whose name begins with the query above one
/// whose name does not.
pub proof fn law_name_breaks_ties(
    selections: u64,
    visits: u64,
    ago: int,
    name: Seq<char>,
    other: Seq<char>,
    query: Seq<char>,
)
    requires
        (name == query && other != query) || (query.is_prefix_of(name) && !query.is_prefix_of(
            other,
        )),
    ensures
        less(
            use_score(selections as int, visits as int, decay(ago), other, query),
            use_score(selections as int, visits as int, decay(ago), name, query),
        ),
{
    lemma_twentieths(selections, visits, ago);
    if name == query {
        assert(query.is_prefix_of(query));
    }
    if other == query {
        assert(query.is_prefix_of(other));
    }
}

/// Law: a directory that was selected once ranks above every one that was never
/// selected, however often that one was visited and however well its name fits.
pub proof fn law_selected_first(
    selections: u64,
    visits: u64,
    ago: int,
    name: Seq<char>,
    query: Seq<char>,
    other_visits: u64,
    other_ago: int,
    other: Seq<char>,
    depth: Option<int>,
)
    requires
        selections > 0,
    ensures
        less(
            use_score(0, other_visits as int, decay(other_ago), other, query),
            use_score(selections as int, visits as int, decay(ago), name, query),
        ),
        less(
            place_score(other, query, depth),
            use_score(selections as int, visits as int, decay(ago), name, query),
        ),
{
}

/// Law: a directory that was visited ranks above every one that is only indexed,
/// wherever that one lies and however well its name fits.
pub proof fn law_visited_above_index(
    visits: u64,
    ago: int,
    name: Seq<char>,
    other: Seq<char>,
    query: Seq<char>,
    depth: Option<int>,
)
    requires
        visits > 0,
    ensures
        less(
            place_score(other, query, depth),
            use_score(0, visits as int, decay(ago), name, query),
        ),
{
}

/// Law: a link ranks above everything that is found by use or by name, and above
/// everything that is lifted to a floor.
pub proof fn law_link_first(
    selections: u64,
    visits: u64,
    ago: int,
    name: Seq<char>,
    query: Seq<char>,
    depth: Option<int>,
)
    ensures
        less(use_score(selections as int, visits as int, decay(ago), name, query), link_score()),
        less(place_score(name, query, depth), link_score()),
        less(near_floor(), link_score()),
        less(fresh_floor(), link_score()),
{
}

/// Law: a boost never moves a score to a lower tier, and never among the links.
pub proof fn law_boosted(score: Score, units: i128, num: u64, over: u64)
    ensures
        boosted(score, units, num, over).tier >= score.tier,
        score.tier < TIER_LINK ==> less(boosted(score, units, num, over), link_score()),
{
}

/// Law: among loose matches of directories that were used in the same way and equally
/// long ago, the one that was used more ranks first, however well each matches.
pub proof fn law_use_before_match(
    selections_a: u64,
    visits_a: u64,
    matched_a: u64,
    selections_b: u64,
    visits_b: u64,
    matched_b: u64,
    ago: int,
)
    requires
        selections_a > 0 <==> selections_b > 0,
        selections_a * 10 + visits_a > selections_b * 10 + visits_b,
    ensures
        less(
            loose_use_score(selections_b as int, visits_b as int, decay(ago), matched_b as int),
            loose_use_score(selections_a as int, visits_a as int, decay(ago), matched_a as int),
        ),
{
    lemma_twentieths(selections_a, visits_a, ago);
    lemma_twentieths(selections_b, visits_b, ago);
    let (x, y, f) = (
        selections_a * 10 + visits_a,
        selections_b * 10 + visits_b,
        decay(ago),
    );
    assert(x * f >= y * f + 25) by (nonlinear_arith)
        requires
            x >= y + 1,
            y >= 0,
            f >= 25,
    ;
}

/// Law: among loose matches of directories that were used alike, the one whose name fits
/// better ranks first, as far as the match counts.
pub proof fn law_match_breaks_ties(
    selections: u64,
    visits: u64,
    ago: int,
    matched_a: u64,
    matched_b: u64,
)
    requires
        matched_b < matched_a <= MAX_MATCH,
    ensures
        less(
            loose_use_score(selections as int, visits as int, decay(ago), matched_b as int),
            loose_use_score(selections as int, visits as int, decay(ago), matched_a as int),
        ),
{
    lemma_twentieths(selections, visits, ago);
}

/// Law: in every search a directory that was used lately ranks above one that was used
/// alike, but so long ago that it counts for less.
pub proof fn law_recent_first(
    selections: u64,
    visits: u64,
    ago: int,
    longer_ago: int,
    name: Seq<char>,
    other: Seq<char>,
    query: Seq<char>,
    matched: u64,
    other_matched: u64,
    dist: usize,
    len: usize,
    other_dist: usize,
    other_len: usize,
)
    requires
        selections > 0 || visits > 0,
        decay(longer_ago) < decay(ago),
    ensures
        less(
            use_score(selections as int, visits as int, decay(longer_ago), other, query),
            use_score(selections as int, visits as int, decay(ago), name, query),
        ),
        selections * 10 + visits >= 2 ==> less(
            loose_use_score(
                selections as int,
                visits as int,
                decay(longer_ago),
                other_matched as int,
            ),
            loose_use_score(selections as int, visits as int, decay(ago), matched as int),
        ),
        less(
            typo_use_score(
                selections as int,
                visits as int,
                decay(longer_ago),
                other_dist as int,
                other_len as int,
            ),
            typo_use_score(
                selections as int,
                visits as int,
                decay(ago),
                dist as int,
                len as int,
            ),
        ),
{
    let n = selections * 10 + visits;
    let (f, g) = (decay(ago), decay(longer_ago));
    lemma_twentieths(selections, visits, ago);
    lemma_twentieths(selections, visits, longer_ago);
    assert(f >= g + 20);
    assert(n * f >= n * g + n * 20) by (nonlinear_arith)
        requires
            f >= g + 20,
            n >= 0,
    ;
    lemma_alike(
        base_points(selections as int, visits as int, f) * 90,
        3,
        dist as int,
        len as int,
    );
    lemma_alike(
        base_points(selections as int, visits as int, g) * 90,
        3,
        other_dist as int,
        other_len as int,
    );
}

/// What a likeness adds lies between nothing and the scale.
proof fn lemma_alike(units: int, scale: int, dist: int, len: int)
    requires
        0 <= units <= MAX_USE_UNITS,
        0 <= scale <= 300000,
        0 <= dist,
        0 <= len <= usize::MAX,
    ensures
        units <= alike(units, scale, dist, len).units <= units + scale,
{
    if len > 0 && dist <= len {
        assert(0 <= scale * (len - dist) / len <= scale) by (nonlinear_arith)
            requires
                0 <= dist <= len,
                0 < len,
                0 <= scale,
        ;
    }
}

/// What past use is worth in the fallbacks leaves room for what is added to it.
pub proof fn lemma_base_units(selections: u64, visits: u64, ago: int)
    ensures
        0 <= base_points(selections as int, visits as int, decay(ago)) * 90 <= MAX_USE_UNITS,
{
    lemma_twentieths(selections, visits, ago);
}

/// Law: among near names of directories that were used in the same way and equally long
/// ago, the one that was used more ranks first, however near each name is.
pub proof fn law_use_before_likeness(
    selections_a: u64,
    visits_a: u64,
    dist_a: usize,
    len_a: usize,
    selections_b: u64,
    visits_b: u64,
    dist_b: usize,
    len_b: usize,
    ago: int,
)
    requires
        selections_a > 0 <==> selections_b > 0,
        selections_a * 10 + visits_a > selections_b * 10 + visits_b,
    ensures
        less(
            typo_use_score(
                selections_b as int,
                visits_b as int,
                decay(ago),
                dist_b as int,
                len_b as int,
            ),
            typo_use_score(
                selections_a as int,
                visits_a as int,
                decay(ago),
                dist_a as int,
                len_a as int,
            ),
        ),
{
    lemma_twentieths(selections_a, visits_a, ago);
    lemma_twentieths(selections_b, visits_b, ago);
    let (x, y, f) = (
        selections_a * 10 + visits_a,
        selections_b * 10 + visits_b,
        decay(ago),
    );
    assert(x * f >= y * f + 25) by (nonlinear_arith)
        requires
            x >= y + 1,
            y >= 0,
            f >= 25,
    ;
    lemma_alike(
        base_points(selections_a as int, visits_a as int, f) * 90,
        3,
        dist_a as int,
        len_a as int,
    );
    lemma_alike(
        base_points(selections_b as int, visits_b as int, f) * 90,
        3,
        dist_b as int,
        len_b as int,
    );
}

/// Law: of two names as long as each other, the nearer one counts for more.
pub proof fn law_nearer_first(units: int, scale: int, near: int, far: int, len: int)
    requires
        0 <= units <= MAX_USE_UNITS,
        0 < scale <= 300000,
        0 <= near < far <= len,
        0 < len <= usize::MAX,
    ensures
        less(alike(units, scale, far, len), alike(units, scale, near, len)),
{
    let x = scale * (len - far);
    let y = scale * (len - near);
    assert(0 <= x < y <= scale * len <= 300000 * 0xffff_ffff_ffff_ffff) by (nonlinear_arith)
        requires
            x == scale * (len - far),
            y == scale * (len - near),
            0 < scale <= 300000,
            0 <= near < far <= len,
            len <= 0xffff_ffff_ffff_ffff,
    ;
    lemma_quotient(x, len);
    lemma_quotient(y, len);
    assert(x / len <= y / len) by (nonlinear_arith)
        requires
            0 <= x < y,
            0 < len,
    ;
    let a = alike(units, scale, far, len);
    let b = alike(units, scale, near, len);
    if a.units == b.units {
        assert(a.num < b.num) by {
            assert(len * (x / len) == len * (y / len));
        }
        let (p, q) = (a.num as int, b.num as int);
        assert(p * len < q * len) by (nonlinear_arith)
            requires
                p < q,
                0 < len,
        ;
    }
}

/// Law: of two indexed directories, the one with the very name ranks above one whose name
/// only begins with the query, wherever they lie, and that above one whose name holds it
/// elsewhere, where they lie as deep as each other; of two with the same name, the one
/// nearer to the home directory never ranks below the other, and ranks above it down to
/// three levels.
pub proof fn law_place(
    exact: Seq<char>,
    beginning: Seq<char>,
    other: Seq<char>,
    query: Seq<char>,
    depth: Option<int>,
    other_depth: Option<int>,
    near: int,
    far: int,
)
    requires
        exact == query,
        beginning != query,
        query.is_prefix_of(beginning),
        !query.is_prefix_of(other),
        0 <= near <= far,
    ensures
        less(place_score(beginning, query, other_depth), place_score(exact, query, depth)),
        less(place_score(other, query, depth), place_score(beginning, query, depth)),
        forall|name: Seq<char>|
            le(
                #[trigger] place_score(name, query, Some(far)),
                place_score(name, query, Some(near)),
            ),
        forall|name: Seq<char>|
            near <= 3 && far > near && far > 1 ==> less(
                #[trigger] place_score(name, query, Some(far)),
                place_score(name, query, Some(near)),
            ),
        forall|name: Seq<char>|
            near <= 3 ==> less(
                #[trigger] place_score(name, query, None),
                place_score(name, query, Some(near)),
            ),
{
}

/// The units of a loose match of a used directory are in range.
proof fn lemma_loose(selections: u64, visits: u64, ago: int, matched: u64)
    ensures
        0 < loose_use_score(
            selections as int,
            visits as int,
            decay(ago),
            matched as int,
        ).units <= MAX_USE_UNITS,
{
    lemma_twentieths(selections, visits, ago);
}

/// Law: in the fallbacks every used directory ranks above every indexed one that no
/// boost counts for, however many of the keywords match it and however well the indexed
/// one matches.
pub proof fn law_history_above_index(
    selections: u64,
    visits: u64,
    ago: int,
    matched: u64,
    some: int,
    total: int,
    indexed: u64,
    dist: usize,
    len: usize,
    depth: Option<int>,
)
    requires
        0 <= some <= total <= MAX_KEYWORDS,
        0 < total,
    ensures
        less(
            deepened(whole(indexed * 300), depth, 300000, 30000),
            loose_use_score(selections as int, visits as int, decay(ago), matched as int),
        ),
        less(
            deepened(whole(indexed * 300), depth, 300000, 30000),
            partial_use_score(
                selections as int,
                visits as int,
                decay(ago),
                matched as int,
                some,
                total,
            ),
        ),
        less(
            deepened(alike(0, 300000, dist as int, len as int), depth, 150000, 30000),
            typo_use_score(
                selections as int,
                visits as int,
                decay(ago),
                dist as int,
                len as int,
            ),
        ),
{
}

/// Law: in the fallbacks a directory that was selected once ranks above every one that
/// was only visited, however many of the keywords match each, and however well.
pub proof fn law_selected_above_visited(
    selections: u64,
    visits: u64,
    ago: int,
    matched: u64,
    some: int,
    dist: usize,
    len: usize,
    other_visits: u64,
    other_ago: int,
    other_matched: u64,
    other_some: int,
    other_dist: usize,
    other_len: usize,
    total: int,
)
    requires
        selections > 0,
        0 <= some <= total <= MAX_KEYWORDS,
        0 <= other_some <= total,
        0 < total,
    ensures
        less(
            partial_use_score(
                0,
                other_visits as int,
                decay(other_ago),
                other_matched as int,
                other_some,
                total,
            ),
            partial_use_score(
                selections as int,
                visits as int,
                decay(ago),
                matched as int,
                some,
                total,
            ),
        ),
        less(
            typo_use_score(
                0,
                other_visits as int,
                decay(other_ago),
                other_dist as int,
                other_len as int,
            ),
            typo_use_score(
                selections as int,
                visits as int,
                decay(ago),
                dist as int,
                len as int,
            ),
        ),
{
}

/// Law: of two directories that were both selected, or both visited but never selected,
/// the one that all keywords match ranks above the one that fewer of them match, however
/// often each was used and however well each keyword fits.
pub proof fn law_full_above_partial(
    selections_a: u64,
    visits_a: u64,
    ago_a: int,
    matched_a: u64,
    selections_b: u64,
    visits_b: u64,
    ago_b: int,
    matched_b: u64,
    some: int,
    total: int,
)
    requires
        selections_a > 0 <==> selections_b > 0,
        0 <= some < total <= MAX_KEYWORDS,
    ensures
        less(
            partial_use_score(
                selections_b as int,
                visits_b as int,
                decay(ago_b),
                matched_b as int,
                some,
                total,
            ),
            partial_use_score(
                selections_a as int,
                visits_a as int,
                decay(ago_a),
                matched_a as int,
                total,
                total,
            ),
        ),
{
}

/// Law: a directory that more of the keywords match ranks above one that was used and
/// matched alike and that fewer of them match.
pub proof fn law_more_keywords_first(
    selections: u64,
    visits: u64,
    ago: int,
    matched: u64,
    fewer: int,
    more: int,
    total: int,
)
    requires
        0 <= fewer < more <= total <= MAX_KEYWORDS,
    ensures
        less(
            partial_use_score(
                selections as int,
                visits as int,
                decay(ago),
                matched as int,
                fewer,
                total,
            ),
            partial_use_score(
                selections as int,
                visits as int,
                decay(ago),
                matched as int,
                more,
                total,
            ),
        ),
{
    lemma_loose(selections, visits, ago, matched);
    let units = loose_use_score(
        selections as int,
        visits as int,
        decay(ago),
        matched as int,
    ).units as int;
    if more < total {
        lemma_shares(units, units, fewer, more, total);
    }
}

/// Law: of two directories that were used in the same way and equally long ago and that
/// equally many of the keywords match, the one that was used more ranks first, unless no
/// keyword matches either.
pub proof fn law_use_before_match_in_part(
    selections_a: u64,
    visits_a: u64,
    matched_a: u64,
    selections_b: u64,
    visits_b: u64,
    matched_b: u64,
    ago: int,
    some: int,
    total: int,
)
    requires
        selections_a > 0 <==> selections_b > 0,
        selections_a * 10 + visits_a > selections_b * 10 + visits_b,
        0 < some <= total <= MAX_KEYWORDS,
    ensures
        less(
            partial_use_score(
                selections_b as int,
                visits_b as int,
                decay(ago),
                matched_b as int,
                some,
                total,
            ),
            partial_use_score(
                selections_a as int,
                visits_a as int,
                decay(ago),
                matched_a as int,
                some,
                total,
            ),
        ),
{
    law_use_before_match(
        selections_a,
        visits_a,
        matched_a,
        selections_b,
        visits_b,
        matched_b,
        ago,
    );
    lemma_loose(selections_a, visits_a, ago, matched_a);
    lemma_loose(selections_b, visits_b, ago, matched_b);
    if some < total {
        let a = loose_use_score(
            selections_a as int,
            visits_a as int,
            decay(ago),
            matched_a as int,
        ).units as int;
        let b = loose_use_score(
            selections_b as int,
            visits_b as int,
            decay(ago),
            matched_b as int,
        ).units as int;
        assert(b < a);
        lemma_shares(b, a, some, some, total);
    }
}

/// Where `matched` of `total` count: the numerator and the denominator are in range.
proof fn lemma_squares(units: int, matched: int, total: int)
    requires
        0 <= units <= MAX_USE_UNITS,
        0 <= matched <= total <= MAX_KEYWORDS,
        0 < total,
    ensures
        0 < total * total <= 0x1000_0000_0000,
        0 <= units * (matched * matched) <= MAX_USE_UNITS * 0x1000_0000_0000,
{
    let mm = matched * matched;
    assert(0 <= mm <= 0x1000_0000_0000) by (nonlinear_arith)
        requires
            mm == matched * matched,
            0 <= matched <= 0x40_0000,
    ;
    assert(0 < total * total <= 0x1000_0000_0000) by (nonlinear_arith)
        requires
            0 < total <= 0x40_0000,
    ;
    assert(0 <= units * mm <= MAX_USE_UNITS * 0x1000_0000_0000) by (nonlinear_arith)
        requires
            0 <= units <= MAX_USE_UNITS,
            0 <= mm <= 0x1000_0000_0000,
    ;
}

/// The more units there are, and the more keywords count, the larger is the part.
proof fn lemma_shares(less_units: int, units: int, fewer: int, more: int, total: int)
    requires
        0 < less_units <= units <= MAX_USE_UNITS,
        0 <= fewer <= more < total <= MAX_KEYWORDS,
        fewer < more || (0 < more && less_units < units),
    ensures
        less(share(less_units, fewer, total), share(units, more, total)),
{
    let x = less_units * (fewer * fewer);
    let y = units * (more * more);
    let d = total * total;
    lemma_squares(less_units, fewer, total);
    lemma_squares(units, more, total);
    let (ff, mm) = (fewer * fewer, more * more);
    assert(0 <= ff <= mm && 0 < mm && (fewer < more ==> ff < mm)) by (nonlinear_arith)
        requires
            ff == fewer * fewer,
            mm == more * more,
            0 <= fewer <= more,
            0 < more,
    ;
    assert(less_units * ff < units * mm) by (nonlinear_arith)
        requires
            0 < less_units <= units,
            0 <= ff <= mm,
            0 < mm,
            ff < mm || less_units < units,
    {
        if ff < mm {
            assert(less_units * ff < less_units * mm);
            assert(less_units * mm <= units * mm);
        } else {
            assert(less_units * mm < units * mm);
        }
    }
    lemma_quotient(x, d);
    lemma_quotient(y, d);
    assert(x / d <= y / d) by (nonlinear_arith)
        requires
            0 <= x < y,
            0 < d,
    ;
    let a = share(less_units, fewer, total);
    let b = share(units, more, total);
    if a.units == b.units {
        assert(a.num < b.num) by {
            assert(d * (x / d) == d * (y / d));
        }
        let (p, q) = (a.num as int, b.num as int);
        assert(p * d < q * d) by (nonlinear_arith)
            requires
                p < q,
                0 < d,
        ;
    }
}

/// What division leaves.
proof fn lemma_quotient(x: int, d: int)
    requires
        0 <= x,
        0 < d,
    ensures
        x == d * (x / d) + x % d,
        0 <= x % d < d,
        0 <= x / d <= x,
{
    assert(x == d * (x / d) + x % d && 0 <= x % d < d && 0 <= x / d <= x) by (nonlinear_arith)
        requires
            0 <= x,
            0 < d,
    ;
}

/// Law: the floor for what lies below the current directory is above a selected directory
/// exactly where the use of that one counts for less than fifteen points by now, and the
/// floor for what was made there minutes ago exactly where it counts for less than a
/// hundred thousand.
pub proof fn law_floors_count_use(
    selections: u64,
    visits: u64,
    ago: int,
    name: Seq<char>,
    query: Seq<char>,
)
    requires
        selections > 0,
    ensures
        less(
            use_score(selections as int, visits as int, decay(ago), name, query),
            near_floor(),
        ) <==> (selections * 10 + visits) * decay(ago) < 1500,
        less(
            use_score(selections as int, visits as int, decay(ago), name, query),
            fresh_floor(),
        ) <==> (selections * 10 + visits) * decay(ago) < 10000000,
{
    lemma_twentieths(selections, visits, ago);
}

/// Law: the floor for what lies below the current directory is above a directory that
/// was selected once and hardly visited, and below one that was selected twice and used
/// within the hour.
pub proof fn law_cwd_floor(
    visits: u64,
    ago: int,
    name: Seq<char>,
    query: Seq<char>,
    selections: u64,
    more_visits: u64,
    recent: int,
)
    requires
        visits <= 4,
        selections >= 2,
        recent < 3600,
    ensures
        less(
            use_score(1, visits as int, decay(ago), name, query),
            near_floor(),
        ),
        less(
            near_floor(),
            use_score(selections as int, more_visits as int, decay(recent), name, query),
        ),
{
    lemma_twentieths(1, visits, ago);
    lemma_twentieths(selections, more_visits, recent);
    assert((10 + visits) * decay(ago) <= 1400) by (nonlinear_arith)
        requires
            0 <= visits <= 4,
            0 <= decay(ago) <= 100,
    ;
}

/// Law: a directory that a part of the keywords match counts for its use and its match less
/// by the square of that part, exactly; one that all of them match counts for them in full.
pub proof fn law_part_counts(
    selections: u64,
    visits: u64,
    ago: int,
    matched: u64,
    some: int,
    total: int,
)
    requires
        0 <= some <= total <= MAX_KEYWORDS,
        0 < total,
    ensures
        ({
            let full = loose_use_score(
                selections as int,
                visits as int,
                decay(ago),
                matched as int,
            );
            let r = partial_use_score(
                selections as int,
                visits as int,
                decay(ago),
                matched as int,
                some,
                total,
            );
            &&& some == total ==> r == full
            &&& some < total ==> r.over + 1 == total * total && r.num <= r.over && r.units * (
            total * total) + r.num == full.units * (some * some)
        }),
{
    lemma_loose(selections, visits, ago, matched);
    let units = loose_use_score(
        selections as int,
        visits as int,
        decay(ago),
        matched as int,
    ).units as int;
    lemma_squares(units, some, total);
    let x = units * (some * some);
    let d = total * total;
    lemma_quotient(x, d);
    assert((x / d) * d == d * (x / d)) by (nonlinear_arith);
}

/// Law: each point of a loose match counts for a ten-thousandth of a point of the score, up
/// to a bound beyond which more of them count no more.
pub proof fn law_match_points(selections: u64, visits: u64, ago: int, matched: u64)
    ensures
        ({
            let with = loose_use_score(
                selections as int,
                visits as int,
                decay(ago),
                matched as int,
            ).units;
            let bare = loose_use_score(selections as int, visits as int, decay(ago), 0).units;
            &&& matched <= MAX_MATCH ==> (with - bare) * 10000 == matched * UNITS
            &&& matched > MAX_MATCH ==> (with - bare) * 10000 == MAX_MATCH * UNITS
        }),
{
    lemma_twentieths(selections, visits, ago);
}

} // verus!
