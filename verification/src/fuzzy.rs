//! Loose matching of names.

use crate::distance::{damerau_levenshtein, edit_distance_threshold, edits, least, threshold};
use crate::text::{from_chars, lemma_texts_push, lowercase, texts, to_chars};
use nucleo_matcher::pattern::{AtomKind, CaseMatching, Normalization, Pattern};
use nucleo_matcher::{Config, Matcher};
use vstd::prelude::*;

verus! {

/// The matcher of the crate `nucleo-matcher`: its settings and its working memory.
#[verifier::external_type_specification]
#[verifier::external_body]
pub struct ExMatcher(nucleo_matcher::Matcher);

/// How well a text fits a pattern loosely, as `nucleo-matcher` scores it with its
/// default settings, without regard to case and with smart normalization; nothing
/// where it does not fit.
pub uninterp spec fn fuzzy_of(pattern: Seq<char>, text: Seq<char>) -> Option<u32>;

/// The letter that `nucleo-matcher` takes a character for when case does not count: its
/// simple case folding.
pub uninterp spec fn fold_of(c: char) -> char;

/// The most that a word of a pattern may weigh, so that its score fits the 16 bits that
/// it is summed up in: the first character earns 36 at most, each other one 26.
pub const MAX_WORD: usize = 2520;

/// The most characters of a pattern, so that the scores of its words fit 32 bits
/// together.
pub const MAX_PATTERN: usize = 0x400_0000;

/// The most characters of a text that can be scored: as many have fewer than 2^32 bytes.
pub const MAX_TEXT: usize = 0x3fff_ffff;

/// What the last word of a pattern weighs: its characters, and the backslashes among them
/// once more, since those may be taken double. Words end at spaces that no backslash
/// stands before.
pub open spec fn word_weight(pattern: Seq<char>) -> int
    decreases pattern.len(),
{
    if pattern.len() == 0 {
        0
    } else {
        let front = pattern.drop_last();
        if pattern.last() == ' ' && (front.len() == 0 || front.last() != '\\') {
            0
        } else if pattern.last() == '\\' {
            word_weight(front) + 2
        } else {
            word_weight(front) + 1
        }
    }
}

/// Whether a pattern can be scored: no word weighs too much, nor are there too many.
pub open spec fn short_words(pattern: Seq<char>) -> bool {
    &&& pattern.len() <= MAX_PATTERN
    &&& forall|i: int| 0 <= i <= pattern.len() ==> #[trigger] word_weight(pattern.take(i)) <= MAX_WORD
}

/// Whether a character is a small letter that case folding makes another letter of, such
/// as the final sigma. These are all small letters that the case folding of Unicode
/// lists.
pub open spec fn two_faced(c: char) -> bool {
    ||| c == '\u{b5}'
    ||| c == '\u{17f}'
    ||| c == '\u{345}'
    ||| c == '\u{3c2}'
    ||| c == '\u{3d0}'
    ||| c == '\u{3d1}'
    ||| c == '\u{3d5}'
    ||| c == '\u{3d6}'
    ||| c == '\u{3f0}'
    ||| c == '\u{3f1}'
    ||| c == '\u{3f5}'
    ||| '\u{13f8}' <= c <= '\u{13fd}'
    ||| '\u{1c80}' <= c <= '\u{1c88}'
    ||| c == '\u{1e9b}'
    ||| c == '\u{1fbe}'
    ||| '\u{ab70}' <= c <= '\u{abbf}'
}

/// A text with the letters that two-faced ones stand for in their place. The iota that is
/// written below a letter belongs to that letter and is left out.
pub open spec fn plain(text: Seq<char>) -> Seq<char>
    decreases text.len(),
{
    if text.len() == 0 {
        text
    } else {
        let front = plain(text.drop_last());
        if text.last() == '\u{345}' {
            front
        } else if two_faced(text.last()) {
            front.push(fold_of(text.last()))
        } else {
            front.push(text.last())
        }
    }
}

/// How well a text fits a pattern loosely. A text that is too long to be scored fits
/// nothing, and neither does anything a pattern with a word that is.
pub open spec fn fits(pattern: Seq<char>, text: Seq<char>) -> Option<u32> {
    if short_words(pattern) && text.len() <= MAX_TEXT {
        fuzzy_of(pattern, plain(text))
    } else {
        None
    }
}

/// `chars::to_lower_case`: the letter that the crate's table of simple case foldings has
/// for a character, the character itself where it has none. What the table has for a
/// two-faced letter is not two-faced.
pub assume_specification[ nucleo_matcher::chars::to_lower_case ](c: char) -> (r: char)
    ensures
        r == fold_of(c),
        two_faced(c) ==> !two_faced(r),
;

/// `Matcher::new` with `Config::DEFAULT`: a matcher with the default settings.
#[verifier::external_body]
fn default_matcher() -> (r: Matcher) {
    Matcher::new(Config::DEFAULT)
}

/// `Pattern::new`, for fuzzy words without regard to case, and `Pattern::match_list`
/// on the one text: the score, where the text matches, depends on the pattern and the
/// text alone. `matcher` lends its working memory, of which nothing is read that an
/// earlier match left behind, and is set to `Config::DEFAULT`, whatever it was set to.
/// The crate's checks of its own working do not hold for two-faced letters, and its sums
/// overflow for words that weigh too much: both are left out.
#[verifier::external_body]
fn match_score(matcher: &mut Matcher, pattern: &str, text: &str) -> (r: Option<u32>)
    requires
        short_words(pattern@),
        text@.len() <= MAX_TEXT,
        forall|i: int| 0 <= i < text@.len() ==> !two_faced(#[trigger] text@[i]),
    ensures
        r == fuzzy_of(pattern@, text@),
{
    matcher.config = Config::DEFAULT;
    let fuzzy = Pattern::new(pattern, CaseMatching::Ignore, Normalization::Smart, AtomKind::Fuzzy);
    let hits = fuzzy.match_list(std::iter::once(text), matcher);
    hits.first().map(|hit| hit.1)
}

/// Whether a pattern can be scored.
pub fn has_short_words(pattern: &str) -> (r: bool)
    ensures
        r == short_words(pattern@),
{
    let cs = to_chars(pattern);
    if cs.len() > MAX_PATTERN {
        return false;
    }
    let mut weight: usize = 0;
    let mut i: usize = 0;
    while i < cs.len()
        invariant
            cs@ == pattern@,
            i <= cs@.len(),
            weight <= MAX_WORD,
            weight == word_weight(pattern@.take(i as int)),
            forall|k: int|
                0 <= k <= i ==> #[trigger] word_weight(pattern@.take(k)) <= MAX_WORD,
        decreases cs@.len() - i,
    {
        let ghost front = pattern@.take(i as int);
        assert(pattern@.take(i + 1).drop_last() =~= front);
        assert(i > 0 ==> front.last() == cs@[i - 1]);
        if cs[i] == ' ' && (i == 0 || cs[i - 1] != '\\') {
            weight = 0;
        } else if cs[i] == '\\' {
            weight = weight + 2;
        } else {
            weight = weight + 1;
        }
        assert(weight == word_weight(pattern@.take(i + 1)));
        if weight > MAX_WORD {
            return false;
        }
        i = i + 1;
    }
    true
}

/// Whether a character is a small letter that case folding makes another letter of.
fn is_two_faced(c: char) -> (r: bool)
    ensures
        r == two_faced(c),
{
    c == '\u{b5}' || c == '\u{17f}' || c == '\u{345}' || c == '\u{3c2}' || c == '\u{3d0}' || c
        == '\u{3d1}' || c == '\u{3d5}' || c == '\u{3d6}' || c == '\u{3f0}' || c == '\u{3f1}' || c
        == '\u{3f5}' || ('\u{13f8}' <= c && c <= '\u{13fd}') || ('\u{1c80}' <= c && c
        <= '\u{1c88}') || c == '\u{1e9b}' || c == '\u{1fbe}' || ('\u{ab70}' <= c && c
        <= '\u{abbf}')
}

/// A text with the letters that two-faced ones stand for in their place.
pub fn plain_text(text: &str) -> (r: String)
    ensures
        r@ == plain(text@),
        r@.len() <= text@.len(),
        forall|i: int| 0 <= i < r@.len() ==> !two_faced(#[trigger] r@[i]),
{
    let cs = to_chars(text);
    let mut out = String::new();
    let mut i: usize = 0;
    assert(out@ =~= plain(text@.take(0)));
    while i < cs.len()
        invariant
            cs@ == text@,
            i <= cs@.len(),
            out@ == plain(text@.take(i as int)),
            out@.len() <= i,
            forall|k: int| 0 <= k < out@.len() ==> !two_faced(#[trigger] out@[k]),
        decreases cs@.len() - i,
    {
        assert(text@.take(i + 1).drop_last() =~= text@.take(i as int));
        assert(text@.take(i + 1).last() == cs@[i as int]);
        let c = cs[i];
        if c != '\u{345}' {
            if is_two_faced(c) {
                out.push(nucleo_matcher::chars::to_lower_case(c));
            } else {
                out.push(c);
            }
        }
        i = i + 1;
    }
    assert(text@.take(text@.len() as int) =~= text@);
    out
}

/// Scores names against patterns.
pub struct Fuzzy {
    matcher: Matcher,
}

impl Fuzzy {
    /// A matcher with the default settings.
    pub fn new() -> (r: Self) {
        Fuzzy { matcher: default_matcher() }
    }

    /// How well `text` fits `pattern`.
    pub fn score(&mut self, pattern: &str, text: &str) -> (r: Option<u32>)
        ensures
            r == fits(pattern@, text@),
    {
        if to_chars(text).len() > MAX_TEXT || !has_short_words(pattern) {
            return None;
        }
        let plain = plain_text(text);
        match_score(&mut self.matcher, pattern, plain.as_str())
    }
}

// ---- words ----

/// Whether a character stands between the words of a name.
pub open spec fn parts_words(c: char) -> bool {
    c == '-' || c == '_' || c == '.' || c == ' '
}

/// Where the word that starts at `at` ends.
pub open spec fn name_word_end(s: Seq<char>, at: int) -> int
    decreases s.len() - at,
{
    if 0 <= at < s.len() && !parts_words(s[at]) {
        name_word_end(s, at + 1)
    } else {
        at
    }
}

/// The words of a name from `at` on: the maximal runs between its separators.
pub open spec fn name_words_from(s: Seq<char>, at: int) -> Seq<Seq<char>>
    decreases s.len() - at,
{
    if at < 0 || at >= s.len() {
        Seq::empty()
    } else if parts_words(s[at]) {
        name_words_from(s, at + 1)
    } else {
        let end = name_word_end(s, at + 1);
        if at < end <= s.len() {
            seq![s.subrange(at, end)] + name_words_from(s, end)
        } else {
            Seq::empty()
        }
    }
}

/// The words of a name.
pub open spec fn name_words(s: Seq<char>) -> Seq<Seq<char>> {
    name_words_from(s, 0)
}

/// Whether a character stands between the words of a name.
fn is_word_separator(c: char) -> (r: bool)
    ensures
        r == parts_words(c),
{
    c == '-' || c == '_' || c == '.' || c == ' '
}

/// The words of a name, in order.
pub fn split_name(s: &str) -> (r: Vec<String>)
    ensures
        texts(r@) == name_words(s@),
{
    let cs = to_chars(s);
    let mut out: Vec<String> = Vec::new();
    let mut at: usize = 0;
    assert(texts(out@) + name_words_from(s@, 0) =~= name_words(s@));
    while at < cs.len()
        invariant
            cs@ == s@,
            at <= cs@.len(),
            texts(out@) + name_words_from(s@, at as int) == name_words(s@),
        decreases cs@.len() - at,
    {
        if is_word_separator(cs[at]) {
            at = at + 1;
        } else {
            let from: usize = at;
            at = at + 1;
            while at < cs.len() && !is_word_separator(cs[at])
                invariant
                    cs@ == s@,
                    from < at <= cs@.len(),
                    name_word_end(s@, from + 1) == name_word_end(s@, at as int),
                decreases cs@.len() - at,
            {
                at = at + 1;
            }
            let word = from_chars(&cs, from, at);
            proof {
                lemma_texts_push(out@, word);
                assert(texts(out@) + name_words_from(s@, from as int) =~= texts(out@).push(word@)
                    + name_words_from(s@, at as int));
            }
            out.push(word);
        }
    }
    assert(name_words_from(s@, at as int) =~= Seq::empty());
    assert(texts(out@) =~= name_words(s@));
    out
}

/// The best of some scores; nothing where none is above it.
pub open spec fn best_score(scores: Seq<Option<u32>>) -> u32
    decreases scores.len(),
{
    if scores.len() == 0 {
        0
    } else {
        let front = best_score(scores.drop_last());
        match scores.last() {
            Some(s) => if s > front {
                s
            } else {
                front
            },
            None => front,
        }
    }
}

/// The least of some distances, where there is any.
pub open spec fn best_edit(distances: Seq<int>) -> Option<int>
    decreases distances.len(),
{
    if distances.len() == 0 {
        None
    } else {
        match best_edit(distances.drop_last()) {
            Some(d) => Some(least(d, distances.last())),
            None => Some(distances.last()),
        }
    }
}

/// What one keyword earns on the words of a name: the best loose score; else, where
/// the nearest word is at most `max_dist` edits away, 40 less 15 for each edit.
pub open spec fn keyword_points(scores: Seq<Option<u32>>, distances: Seq<int>, max_dist: int) -> Option<
    int,
> {
    if best_score(scores) > 0 {
        Some(best_score(scores) as int)
    } else {
        match best_edit(distances) {
            Some(d) => if d <= max_dist {
                Some(
                    if d * 15 >= 40 {
                        0
                    } else {
                        40 - d * 15
                    },
                )
            } else {
                None
            },
            None => None,
        }
    }
}

/// The distances from a keyword to some words, without regard to case.
pub open spec fn word_distances(keyword: Seq<char>, words: Seq<Seq<char>>) -> Seq<int> {
    Seq::new(words.len(), |i: int| edits(lowercase(keyword), lowercase(words[i])))
}

/// The loose scores of some words for a keyword.
pub open spec fn word_scores(keyword: Seq<char>, words: Seq<Seq<char>>) -> Seq<Option<u32>> {
    Seq::new(words.len(), |i: int| fits(keyword, words[i]))
}

/// What a keyword earns on a name.
pub open spec fn points_on(keyword: Seq<char>, name: Seq<char>) -> Option<int> {
    keyword_points(
        word_scores(keyword, name_words(name)),
        word_distances(keyword, name_words(name)),
        threshold(keyword.len() as int),
    )
}

/// The sum of what some keywords earned, and how many earned anything.
pub open spec fn tally(points: Seq<Option<int>>) -> (int, int)
    decreases points.len(),
{
    if points.len() == 0 {
        (0, 0)
    } else {
        let (sum, count) = tally(points.drop_last());
        match points.last() {
            Some(p) => (sum + p, count + 1),
            None => (sum, count),
        }
    }
}

/// What each keyword earns on a name.
pub open spec fn all_points(keywords: Seq<Seq<char>>, name: Seq<char>) -> Seq<Option<int>> {
    Seq::new(keywords.len(), |i: int| points_on(keywords[i], name))
}

/// What the keywords earn together on a name, and how many of them match it; nothing
/// where none does.
pub open spec fn words_match(keywords: Seq<Seq<char>>, name: Seq<char>) -> Option<(int, int)> {
    let (sum, count) = tally(all_points(keywords, name));
    if count == 0 {
        None
    } else {
        Some((sum, count))
    }
}

/// A list of distances as mathematical integers.
pub open spec fn as_ints(list: Seq<usize>) -> Seq<int> {
    Seq::new(list.len(), |i: int| list[i] as int)
}

/// What one keyword earns, from the scores of the words of a name and the distances to
/// them.
pub fn keyword_score(scores: &Vec<Option<u32>>, distances: &Vec<usize>, max_dist: usize) -> (r:
    Option<u32>)
    requires
        max_dist <= 2,
    ensures
        match r {
            Some(p) => keyword_points(scores@, as_ints(distances@), max_dist as int) == Some(
                p as int,
            ),
            None => keyword_points(scores@, as_ints(distances@), max_dist as int) is None,
        },
{
    let mut best: u32 = 0;
    let mut i: usize = 0;
    assert(scores@.take(0) =~= Seq::empty());
    while i < scores.len()
        invariant
            i <= scores@.len(),
            best == best_score(scores@.take(i as int)),
        decreases scores@.len() - i,
    {
        assert(scores@.take(i + 1).drop_last() =~= scores@.take(i as int));
        if let Some(s) = scores[i] {
            if s > best {
                best = s;
            }
        }
        i = i + 1;
    }
    assert(scores@.take(scores@.len() as int) =~= scores@);
    if best > 0 {
        return Some(best);
    }
    let ghost all = as_ints(distances@);
    let mut near: Option<usize> = None;
    let mut i: usize = 0;
    assert(all.take(0) =~= Seq::empty());
    while i < distances.len()
        invariant
            all == as_ints(distances@),
            i <= all.len(),
            match near {
                Some(d) => best_edit(all.take(i as int)) == Some(d as int),
                None => best_edit(all.take(i as int)) is None,
            },
        decreases all.len() - i,
    {
        assert(all.take(i + 1).drop_last() =~= all.take(i as int));
        assert(all.take(i + 1).last() == distances@[i as int]);
        near = match near {
            Some(d) => if d <= distances[i] {
                Some(d)
            } else {
                Some(distances[i])
            },
            None => Some(distances[i]),
        };
        i = i + 1;
    }
    assert(all.take(all.len() as int) =~= all);
    match near {
        Some(d) => if d <= max_dist {
            Some(40 - d as u32 * 15)
        } else {
            None
        },
        None => None,
    }
}

/// Matches each keyword against the words of a name. Gives the sum of what they earn
/// and how many of them match, or nothing where none does. A keyword that does not
/// match is passed over: whether a part of them is enough is for the caller to say.
pub fn fuzzy_match_words(fuzzy: &mut Fuzzy, keywords: &Vec<String>, basename: &str) -> (r: Option<
    (u128, usize),
>)
    ensures
        match r {
            Some((sum, count)) => words_match(texts(keywords@), basename@) == Some(
                (sum as int, count as int),
            ) && count <= keywords@.len() && sum <= count * 0xffff_ffff,
            None => words_match(texts(keywords@), basename@) is None,
        },
{
    let words = split_name(basename);
    let ghost names = name_words(basename@);
    let ghost all = all_points(texts(keywords@), basename@);
    let mut sum: u128 = 0;
    let mut count: usize = 0;
    let mut k: usize = 0;
    assert(all.take(0) =~= Seq::empty());
    while k < keywords.len()
        invariant
            texts(words@) == names,
            names == name_words(basename@),
            all == all_points(texts(keywords@), basename@),
            k <= keywords.len(),
            count <= k,
            sum <= count * 0xffff_ffff,
            (sum as int, count as int) == tally(all.take(k as int)),
        decreases keywords@.len() - k,
    {
        let keyword = keywords[k].as_str();
        let mut scores: Vec<Option<u32>> = Vec::new();
        let mut distances: Vec<usize> = Vec::new();
        let mut w: usize = 0;
        while w < words.len()
            invariant
                texts(words@) == names,
                w <= words@.len(),
                scores@.len() == w,
                distances@.len() == w,
                forall|i: int| 0 <= i < w ==> #[trigger] scores@[i] == fits(keyword@, names[i]),
                forall|i: int|
                    0 <= i < w ==> #[trigger] distances@[i] == edits(
                        lowercase(keyword@),
                        lowercase(names[i]),
                    ),
            decreases words@.len() - w,
        {
            let word = words[w].as_str();
            assert(word@ == names[w as int]);
            scores.push(fuzzy.score(keyword, word));
            distances.push(damerau_levenshtein(keyword, word));
            w = w + 1;
        }
        assert(scores@ =~= word_scores(keyword@, names));
        assert(as_ints(distances@) =~= word_distances(keyword@, names));
        let points = keyword_score(&scores, &distances, edit_distance_threshold(keyword));
        assert(all.take(k + 1).drop_last() =~= all.take(k as int));
        assert(all.take(k + 1).last() == points_on(keyword@, basename@));
        if let Some(p) = points {
            assert(count * 0xffff_ffff + p <= (count + 1) * 0xffff_ffff);
            assert(count * 0xffff_ffff <= 0xffff_ffff_ffff_ffff * 0xffff_ffff);
            sum = sum + p as u128;
            count = count + 1;
        }
        k = k + 1;
    }
    assert(all.take(all.len() as int) =~= all);
    if count == 0 {
        None
    } else {
        Some((sum, count))
    }
}

// ---- what keywords earn ----

/// The best of some scores is one of them, and none is above it.
proof fn lemma_best_score(scores: Seq<Option<u32>>)
    ensures
        forall|i: int|
            0 <= i < scores.len() ==> (#[trigger] scores[i] matches Some(s) ==> s <= best_score(
                scores,
            )),
        best_score(scores) > 0 ==> exists|i: int|
            0 <= i < scores.len() && #[trigger] scores[i] == Some(best_score(scores)),
    decreases scores.len(),
{
    if scores.len() > 0 {
        let front = scores.drop_last();
        lemma_best_score(front);
        assert forall|i: int| 0 <= i < scores.len() implies (#[trigger] scores[i] matches Some(s)
            ==> s <= best_score(scores)) by {
            if i < front.len() {
                assert(front[i] == scores[i]);
            }
        }
        if best_score(scores) > 0 {
            if best_score(scores) == best_score(front) && best_score(front) > 0 {
                let i = choose|i: int|
                    0 <= i < front.len() && #[trigger] front[i] == Some(best_score(front));
                assert(scores[i] == Some(best_score(scores)));
            } else {
                assert(scores[scores.len() - 1] == Some(best_score(scores)));
            }
        }
    }
}

/// The least of some distances is one of them, and none is below it.
proof fn lemma_best_edit(distances: Seq<int>)
    ensures
        best_edit(distances) is None <==> distances.len() == 0,
        best_edit(distances) matches Some(d) ==> (forall|i: int|
            0 <= i < distances.len() ==> d <= #[trigger] distances[i]) && distances.contains(d),
    decreases distances.len(),
{
    if distances.len() > 0 {
        let front = distances.drop_last();
        lemma_best_edit(front);
        let d = best_edit(distances).unwrap();
        assert forall|i: int| 0 <= i < distances.len() implies d <= #[trigger] distances[i] by {
            if i < front.len() {
                assert(front[i] == distances[i]);
            }
        }
        if front.len() > 0 && best_edit(front) == Some(d) {
            let i = choose|i: int| 0 <= i < front.len() && front[i] == d;
            assert(distances[i] == d);
        } else {
            assert(distances[distances.len() - 1] == d);
        }
    }
}

/// Law: a keyword earns something on a name exactly where it fits a word of it loosely,
/// or is few enough edits from one: none up to two characters, one up to four, else two.
/// What it earns is the score of the word that it fits best; where it fits none, 40 less
/// 15 for each edit to the nearest word.
pub proof fn law_points_on(keyword: Seq<char>, name: Seq<char>)
    ensures
        ({
            let words = name_words(name);
            let may_be_off = if keyword.len() <= 2 {
                0int
            } else if keyword.len() <= 4 {
                1
            } else {
                2
            };
            let fits_one = exists|w: int|
                0 <= w < words.len() && (fits(keyword, #[trigger] words[w]) matches Some(s) && s
                    > 0);
            let near_one = exists|w: int|
                0 <= w < words.len() && edits(lowercase(keyword), lowercase(#[trigger] words[w]))
                    <= may_be_off;
            &&& points_on(keyword, name) is Some <==> fits_one || near_one
            &&& fits_one ==> (forall|w: int|
                0 <= w < words.len() ==> (fits(keyword, #[trigger] words[w]) matches Some(s) ==> s
                    <= points_on(keyword, name).unwrap())) && exists|w: int|
                0 <= w < words.len() && (fits(keyword, #[trigger] words[w]) matches Some(s) && s
                    == points_on(keyword, name).unwrap())
            &&& !fits_one && near_one ==> exists|w: int|
                0 <= w < words.len() && points_on(keyword, name) == Some(
                    40 - 15 * edits(lowercase(keyword), lowercase(#[trigger] words[w])),
                ) && forall|v: int|
                    0 <= v < words.len() ==> edits(lowercase(keyword), lowercase(words[w]))
                        <= edits(lowercase(keyword), lowercase(#[trigger] words[v]))
        }),
{
    let words = name_words(name);
    let scores = word_scores(keyword, words);
    let far = word_distances(keyword, words);
    lemma_best_score(scores);
    lemma_best_edit(far);
    let fits_one = exists|w: int|
        0 <= w < words.len() && (fits(keyword, #[trigger] words[w]) matches Some(s) && s > 0);
    if fits_one {
        let w = choose|w: int|
            0 <= w < words.len() && (fits(keyword, #[trigger] words[w]) matches Some(s) && s > 0);
        assert(scores[w] == fits(keyword, words[w]));
    }
    if best_score(scores) > 0 {
        let w = choose|w: int|
            0 <= w < scores.len() && #[trigger] scores[w] == Some(best_score(scores));
        assert(fits(keyword, words[w]) == Some(best_score(scores)));
        assert forall|v: int| 0 <= v < words.len() implies (fits(keyword, #[trigger] words[v])
            matches Some(s) ==> s <= best_score(scores)) by {
            assert(scores[v] == fits(keyword, words[v]));
        }
    }
    if let Some(d) = best_edit(far) {
        let w = choose|w: int| 0 <= w < far.len() && far[w] == d;
        assert(edits(lowercase(keyword), lowercase(words[w])) == d);
        assert forall|v: int| 0 <= v < words.len() implies d <= edits(
            lowercase(keyword),
            lowercase(#[trigger] words[v]),
        ) by {
            assert(far[v] == edits(lowercase(keyword), lowercase(words[v])));
        }
        crate::distance::law_edits_bounds(lowercase(keyword), lowercase(words[w]));
    }
}

/// How many keywords earned anything, and when all or none did.
proof fn lemma_tally(points: Seq<Option<int>>)
    ensures
        0 <= tally(points).1 <= points.len(),
        tally(points).1 == points.len() <==> forall|i: int|
            0 <= i < points.len() ==> #[trigger] points[i] is Some,
        tally(points).1 == 0 <==> forall|i: int|
            0 <= i < points.len() ==> #[trigger] points[i] is None,
    decreases points.len(),
{
    if points.len() > 0 {
        let front = points.drop_last();
        lemma_tally(front);
        assert(forall|i: int| 0 <= i < front.len() ==> #[trigger] front[i] == points[i]);
        let all = forall|i: int| 0 <= i < points.len() ==> #[trigger] points[i] is Some;
        let none = forall|i: int| 0 <= i < points.len() ==> #[trigger] points[i] is None;
        assert(points[points.len() - 1] == points.last());
        if tally(points).1 == points.len() {
            assert forall|i: int| 0 <= i < points.len() implies #[trigger] points[i] is Some by {
                if i < front.len() {
                    assert(front[i] is Some);
                }
            }
        }
        if tally(points).1 == 0 {
            assert forall|i: int| 0 <= i < points.len() implies #[trigger] points[i] is None by {
                if i < front.len() {
                    assert(front[i] is None);
                }
            }
        }
        if all {
            assert(forall|i: int| 0 <= i < front.len() ==> #[trigger] front[i] is Some);
        }
        if none {
            assert(forall|i: int| 0 <= i < front.len() ==> #[trigger] front[i] is None);
        }
    }
}

/// Law: keywords match a name exactly where one of them earns something on it; all of
/// them count exactly where each does; and a further keyword adds what it earns.
pub proof fn law_words_match(keywords: Seq<Seq<char>>, name: Seq<char>, more: Seq<char>)
    ensures
        words_match(keywords, name) is Some <==> exists|k: int|
            0 <= k < keywords.len() && points_on(#[trigger] keywords[k], name) is Some,
        words_match(keywords, name) matches Some(m) ==> 0 < m.1 <= keywords.len() && (m.1
            == keywords.len() <==> forall|k: int|
            0 <= k < keywords.len() ==> points_on(#[trigger] keywords[k], name) is Some),
        points_on(more, name) matches Some(p) ==> words_match(keywords.push(more), name) == Some(
            match words_match(keywords, name) {
                Some(m) => (m.0 + p, m.1 + 1),
                None => (tally(all_points(keywords, name)).0 + p, 1),
            },
        ),
        points_on(more, name) is None ==> words_match(keywords.push(more), name) == words_match(
            keywords,
            name,
        ),
        words_match(keywords, name) is None ==> tally(all_points(keywords, name)).0 == 0,
{
    let points = all_points(keywords, name);
    lemma_tally(points);
    assert(forall|k: int|
        0 <= k < keywords.len() ==> points[k] == points_on(#[trigger] keywords[k], name));
    if words_match(keywords, name) is Some {
        let k = choose|k: int| 0 <= k < points.len() && !(#[trigger] points[k] is None);
        assert(points_on(keywords[k], name) is Some);
    }
    if let Some(m) = words_match(keywords, name) {
        if forall|k: int|
            0 <= k < keywords.len() ==> points_on(#[trigger] keywords[k], name) is Some {
            assert forall|i: int| 0 <= i < points.len() implies #[trigger] points[i] is Some by {
                assert(points_on(keywords[i], name) is Some);
            }
        }
    }
    if exists|k: int|
        0 <= k < keywords.len() && points_on(#[trigger] keywords[k], name) is Some {
        let k = choose|k: int|
            0 <= k < keywords.len() && points_on(#[trigger] keywords[k], name) is Some;
        assert(points[k] is Some);
    }
    let longer = all_points(keywords.push(more), name);
    assert(longer.drop_last() =~= points);
    assert(longer.last() == points_on(more, name));
    lemma_tally_none(points);
}

/// Where no keyword earned anything, the sum is nothing.
proof fn lemma_tally_none(points: Seq<Option<int>>)
    ensures
        tally(points).1 == 0 ==> tally(points).0 == 0,
        tally(points).1 >= 0,
    decreases points.len(),
{
    if points.len() > 0 {
        lemma_tally_none(points.drop_last());
    }
}

/// The sum of what keywords earn fits a machine number.
pub proof fn lemma_sum_fits(keywords: Seq<Seq<char>>, name: Seq<char>)
    requires
        keywords.len() <= 0x40_0000,
    ensures
        0 <= tally(all_points(keywords, name)).0 <= keywords.len() * 0xffff_ffff,
        words_match(keywords, name) matches Some(m) ==> 0 <= m.0 <= u64::MAX,
    decreases keywords.len(),
{
    if keywords.len() > 0 {
        let front = keywords.drop_last();
        lemma_sum_fits(front, name);
        assert(all_points(keywords, name).drop_last() =~= all_points(front, name));
        let words = name_words(name);
        let far = word_distances(keywords.last(), words);
        lemma_best_edit(far);
        if let Some(d) = best_edit(far) {
            let w = choose|w: int| 0 <= w < far.len() && far[w] == d;
            crate::distance::law_edits_bounds(lowercase(keywords.last()), lowercase(words[w]));
        }
    }
}

/// Where a word ends is told by what stands in it and behind it.
proof fn lemma_name_words_end(s: Seq<char>, at: int, end: int)
    requires
        0 <= at <= end <= s.len(),
        forall|k: int| at <= k < end ==> !parts_words(#[trigger] s[k]),
        end < s.len() ==> parts_words(s[end]),
    ensures
        name_word_end(s, at) == end,
    decreases end - at,
{
    if at < end {
        lemma_name_words_end(s, at + 1, end);
    }
}

/// A word that starts at `at` has an end.
proof fn lemma_name_words_some(s: Seq<char>, at: int)
    requires
        0 <= at <= s.len(),
    ensures
        at <= name_word_end(s, at) <= s.len(),
        forall|k: int| at <= k < name_word_end(s, at) ==> !parts_words(#[trigger] s[k]),
        name_word_end(s, at) < s.len() ==> parts_words(s[name_word_end(s, at)]),
    decreases s.len() - at,
{
    if at < s.len() && !parts_words(s[at]) {
        lemma_name_words_some(s, at + 1);
    }
}

/// The words behind a text do not depend on it.
proof fn lemma_name_words_shift(a: Seq<char>, b: Seq<char>, at: int)
    requires
        0 <= at <= b.len(),
    ensures
        name_words_from(a + b, a.len() + at) == name_words_from(b, at),
    decreases b.len() - at,
{
    let all = a + b;
    let n = a.len() as int;
    if at < b.len() {
        assert(all[n + at] == b[at]);
        if parts_words(b[at]) {
            lemma_name_words_shift(a, b, at + 1);
        } else {
            lemma_name_words_some(b, at + 1);
            let e = name_word_end(b, at + 1);
            assert forall|k: int| n + at + 1 <= k < n + e implies !parts_words(#[trigger] all[k]) by {
                assert(all[k] == b[k - n]);
            }
            lemma_name_words_end(all, n + at + 1, n + e);
            assert(all.subrange(n + at, n + e) =~= b.subrange(at, e));
            lemma_name_words_shift(a, b, e);
        }
    }
}

/// The words of a text before a separator do not depend on what comes behind it.
proof fn lemma_name_words_before(a: Seq<char>, c: char, b: Seq<char>, at: int)
    requires
        0 <= at <= a.len(),
        parts_words(c),
    ensures
        name_words_from(a + seq![c] + b, at) == name_words_from(a, at) + name_words_from(
            a + seq![c] + b,
            a.len() as int,
        ),
    decreases a.len() - at,
{
    let all = a + seq![c] + b;
    if at < a.len() {
        assert(all[at] == a[at]);
        if parts_words(a[at]) {
            lemma_name_words_before(a, c, b, at + 1);
        } else {
            lemma_name_words_some(a, at + 1);
            let e = name_word_end(a, at + 1);
            assert forall|k: int| at + 1 <= k < e implies !parts_words(#[trigger] all[k]) by {
                assert(all[k] == a[k]);
            }
            if e < a.len() {
                assert(all[e] == a[e]);
            } else {
                assert(all[e] == c);
            }
            lemma_name_words_end(all, at + 1, e);
            assert(all.subrange(at, e) =~= a.subrange(at, e));
            lemma_name_words_before(a, c, b, e);
            assert(name_words_from(all, at) =~= name_words_from(a, at) + name_words_from(all, a.len() as int));
        }
    } else {
        assert(name_words_from(a, at) =~= Seq::empty());
        assert(name_words_from(all, at) =~= name_words_from(a, at) + name_words_from(all, a.len() as int));
    }
}

/// Law: a separator parts a name into words: what stands before it has its words, what
/// stands behind it has its own, and a name without separators is one word.
pub proof fn law_name_words(a: Seq<char>, c: char, b: Seq<char>, word: Seq<char>)
    requires
        parts_words(c),
        word.len() > 0,
        forall|k: int| 0 <= k < word.len() ==> !parts_words(#[trigger] word[k]),
    ensures
        name_words(a + seq![c] + b) == name_words(a) + name_words(b),
        name_words(word) == seq![word],
        name_words(Seq::empty()).len() == 0,
{
    let all = a + seq![c] + b;
    let n = a.len() as int;
    lemma_name_words_before(a, c, b, 0);
    assert(all[n] == c);
    lemma_name_words_shift(a + seq![c], b, 0);
    assert(name_words_from(all, n) == name_words_from(all, n + 1));
    lemma_name_words_end(word, 1, word.len() as int);
    assert(word.subrange(0, word.len() as int) =~= word);
    assert(name_words_from(word, word.len() as int) =~= Seq::empty());
    assert(name_words(word) =~= seq![word]);
}

/// Law: the words of a name are parted by hyphens, underscores, dots and spaces, and by
/// nothing else.
pub proof fn law_separators(c: char)
    ensures
        parts_words(c) <==> c == '-' || c == '_' || c == '.' || c == ' ',
{
}

/// Law: a text is made plain letter by letter: a two-faced letter becomes the one that it
/// stands for, the iota below a letter falls away, and any other stays as it is. What is
/// matched is the plain text, so two texts that are made plain alike fit alike.
pub proof fn law_plain(a: Seq<char>, b: Seq<char>, c: char, pattern: Seq<char>)
    ensures
        plain(a + b) == plain(a) + plain(b),
        c == '\u{345}' ==> plain(seq![c]).len() == 0,
        c != '\u{345}' && two_faced(c) ==> plain(seq![c]) == seq![fold_of(c)],
        !two_faced(c) ==> plain(seq![c]) == seq![c],
        a.len() <= MAX_TEXT && b.len() <= MAX_TEXT && plain(a) == plain(b) ==> fits(pattern, a)
            == fits(pattern, b),
        fits(pattern, a) is Some ==> a.len() <= MAX_TEXT && fits(pattern, a) == fuzzy_of(
            pattern,
            plain(a),
        ),
    decreases b.len(),
{
    let one = seq![c];
    assert(one.drop_last() =~= Seq::empty());
    assert(plain(one.drop_last()).len() == 0);
    assert(plain(one.drop_last()).push(c) =~= seq![c]);
    assert(plain(one.drop_last()).push(fold_of(c)) =~= seq![fold_of(c)]);
    if b.len() > 0 {
        let front = b.drop_last();
        assert((a + b).drop_last() =~= a + front);
        assert((a + b).last() == b.last());
        law_plain(a, front, c, pattern);
        assert(plain(a + b) =~= plain(a) + plain(b));
    } else {
        assert(a + b =~= a);
        assert(plain(a) + plain(b) =~= plain(a));
    }
}

} // verus!
