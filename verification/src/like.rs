//! Patterns with wildcards, as SQL's `LIKE` reads them.

use crate::text::{ascii_lower, joined, texts, to_ascii_lower, to_chars};
use vstd::prelude::*;

verus! {

/// Whether `s` fits the pattern `p`: `%` stands for any run of characters, `_` for
/// any one character, every other character for itself without regard to the case
/// of the letters `A` to `Z`.
pub open spec fn like(p: Seq<char>, s: Seq<char>) -> bool
    decreases p.len(), s.len(),
{
    if p.len() == 0 {
        s.len() == 0
    } else if p[0] == '%' {
        like(p.skip(1), s) || (s.len() > 0 && like(p, s.skip(1)))
    } else {
        &&& s.len() > 0
        &&& p[0] == '_' || ascii_lower(p[0]) == ascii_lower(s[0])
        &&& like(p.skip(1), s.skip(1))
    }
}

/// Whether `text` fits `pattern`.
pub fn like_matches(pattern: &str, text: &str) -> (r: bool)
    ensures
        r == like(pattern@, text@),
{
    let p = to_chars(pattern);
    let s = to_chars(text);
    let n: usize = s.len();
    let mut i: usize = p.len();
    // Entry `k` says whether the last `k` characters fit the pattern from `i` on.
    let mut fits: Vec<bool> = Vec::new();
    fits.push(true);
    assert(text@.skip(n as int) =~= Seq::empty());
    assert(pattern@.skip(i as int) =~= Seq::empty());
    let mut k: usize = 0;
    while k < n
        invariant
            n == s.len(),
            s@ == text@,
            pattern@.skip(i as int) == Seq::<char>::empty(),
            k <= n,
            fits@.len() == k + 1,
            forall|j: int|
                0 <= j <= k ==> #[trigger] fits@[j] == like(pattern@.skip(i as int), text@.skip(n - j)),
        decreases n - k,
    {
        fits.push(false);
        k = k + 1;
        assert(text@.skip(n - k).len() == k);
    }
    while i > 0
        invariant
            n == s.len(),
            s@ == text@,
            p@ == pattern@,
            i <= p@.len(),
            fits@.len() == n + 1,
            forall|j: int|
                0 <= j <= n ==> #[trigger] fits@[j] == like(pattern@.skip(i as int), text@.skip(n - j)),
        decreases i,
    {
        let c = p[i - 1];
        let ghost rest = pattern@.skip(i - 1);
        assert(rest[0] == c);
        assert(rest.skip(1) =~= pattern@.skip(i as int));
        let mut next: Vec<bool> = Vec::new();
        assert(text@.skip(n as int) =~= Seq::empty());
        assert(text@.skip(n - 0).len() == 0);
        next.push(c == '%' && fits[0]);
        assert(next@[0] == like(rest, text@.skip(n - 0)));
        let mut k: usize = 0;
        while k < n
            invariant
                n == s.len(),
                s@ == text@,
                p@ == pattern@,
                0 < i <= p@.len(),
                c == p@[i - 1],
                rest == pattern@.skip(i - 1),
                rest.len() > 0,
                rest[0] == c,
                rest.skip(1) == pattern@.skip(i as int),
                fits@.len() == n + 1,
                forall|j: int|
                    0 <= j <= n ==> #[trigger] fits@[j] == like(
                        pattern@.skip(i as int),
                        text@.skip(n - j),
                    ),
                k <= n,
                next@.len() == k + 1,
                forall|j: int| 0 <= j <= k ==> #[trigger] next@[j] == like(rest, text@.skip(n - j)),
            decreases n - k,
        {
            let x = s[n - 1 - k];
            let ghost tail = text@.skip(n - (k + 1));
            assert(tail[0] == x);
            assert(tail.skip(1) =~= text@.skip(n - k));
            let fit = if c == '%' {
                fits[k + 1] || next[k]
            } else {
                (c == '_' || to_ascii_lower(c) == to_ascii_lower(x)) && fits[k]
            };
            assert(fits@[k + 1] == like(rest.skip(1), tail));
            assert(fit == like(rest, tail));
            next.push(fit);
            k = k + 1;
        }
        fits = next;
        i = i - 1;
    }
    assert(pattern@.skip(0) =~= pattern@);
    assert(text@.skip(n - n) =~= text@);
    fits[n]
}

/// The pattern of all texts in which the given words occur one after the other.
pub open spec fn wildcard(words: Seq<Seq<char>>) -> Seq<char> {
    seq!['%'] + joined(words, seq!['%']) + seq!['%']
}

/// The pattern of all texts in which the given words occur one after the other.
pub fn wildcard_pattern(words: &Vec<String>) -> (r: String)
    ensures
        r@ == wildcard(texts(words@)),
{
    proof {
        reveal_strlit("%");
        assert("%"@ =~= seq!['%']);
    }
    let mut out = String::new();
    out.push('%');
    out.append(crate::text::join(words, "%").as_str());
    out.push('%');
    assert(out@ =~= wildcard(texts(words@)));
    out
}

/// Whether a text holds no wildcard.
pub open spec fn plain(s: Seq<char>) -> bool {
    forall|i: int| 0 <= i < s.len() ==> s[i] != '%' && #[trigger] s[i] != '_'
}

/// Whether `word` stands in `s` at `at`, without regard to the case of `A` to `Z`.
pub open spec fn stands_at(s: Seq<char>, word: Seq<char>, at: int) -> bool {
    &&& 0 <= at
    &&& at + word.len() <= s.len()
    &&& forall|i: int|
        0 <= i < word.len() ==> ascii_lower(#[trigger] word[i]) == ascii_lower(s[at + i])
}

/// Whether the words occur in `s` one after the other, without overlap.
pub open spec fn in_order(words: Seq<Seq<char>>, s: Seq<char>) -> bool
    decreases words.len(),
{
    if words.len() == 0 {
        true
    } else {
        exists|at: int| #[trigger]
            stands_at(s, words[0], at) && in_order(words.skip(1), s.skip(at + words[0].len()))
    }
}

/// A pattern that begins with plain characters fits what begins with them.
proof fn lemma_like_word(word: Seq<char>, rest: Seq<char>, s: Seq<char>)
    requires
        plain(word),
    ensures
        like(word + rest, s) <==> stands_at(s, word, 0) && like(rest, s.skip(word.len() as int)),
    decreases word.len(),
{
    if word.len() == 0 {
        assert(word + rest =~= rest);
        assert(s.skip(0) =~= s);
    } else {
        assert((word + rest)[0] == word[0]);
        assert((word + rest).skip(1) =~= word.skip(1) + rest);
        if s.len() > 0 {
            assert forall|i: int| 0 <= i < word.skip(1).len() implies word.skip(1)[i] != '%'
                && #[trigger] word.skip(1)[i] != '_' by {
                assert(word[i + 1] != '%' && word[i + 1] != '_');
            }
            lemma_like_word(word.skip(1), rest, s.skip(1));
            assert(word[0] != '%' && word[0] != '_');
            if word.len() <= s.len() {
                assert(s.skip(1).skip(word.skip(1).len() as int) =~= s.skip(word.len() as int));
            }
            if stands_at(s, word, 0) {
                assert(ascii_lower(word[0]) == ascii_lower(s[0int + 0int]));
                assert forall|i: int| 0 <= i < word.skip(1).len() implies ascii_lower(
                    #[trigger] word.skip(1)[i],
                ) == ascii_lower(s.skip(1)[0int + i]) by {
                    assert(ascii_lower(word[i + 1]) == ascii_lower(s[0int + (i + 1)]));
                }
                assert(stands_at(s.skip(1), word.skip(1), 0));
            }
            if stands_at(s.skip(1), word.skip(1), 0) && ascii_lower(word[0]) == ascii_lower(s[0]) {
                assert forall|i: int| 0 <= i < word.len() implies ascii_lower(#[trigger] word[i])
                    == ascii_lower(s[0int + i]) by {
                    if i > 0 {
                        assert(ascii_lower(word.skip(1)[i - 1]) == ascii_lower(
                            s.skip(1)[0int + (i - 1)],
                        ));
                    }
                }
            }
        }
    }
}

/// A pattern that begins with `%` fits what ends in something that fits the rest.
proof fn lemma_like_any(rest: Seq<char>, s: Seq<char>)
    ensures
        like(seq!['%'] + rest, s) <==> exists|k: int|
            0 <= k <= s.len() && like(rest, #[trigger] s.skip(k)),
    decreases s.len(),
{
    let p = seq!['%'] + rest;
    assert(p[0] == '%');
    assert(p.skip(1) =~= rest);
    assert(s.skip(0) =~= s);
    if s.len() > 0 {
        lemma_like_any(rest, s.skip(1));
        let t = s.skip(1);
        if like(p, t) {
            let k = choose|k: int| 0 <= k <= t.len() && like(rest, #[trigger] t.skip(k));
            assert(t.skip(k) =~= s.skip(k + 1));
        }
        if exists|k: int| 0 <= k <= s.len() && like(rest, #[trigger] s.skip(k)) {
            let k = choose|k: int| 0 <= k <= s.len() && like(rest, #[trigger] s.skip(k));
            if k > 0 {
                assert(t.skip(k - 1) =~= s.skip(k));
            }
        }
    } else {
        assert(forall|k: int| 0 <= k <= s.len() ==> #[trigger] s.skip(k) =~= s);
    }
}

/// Joining with a separator, taken from the front.
proof fn lemma_joined_front(words: Seq<Seq<char>>, sep: Seq<char>)
    requires
        words.len() > 1,
    ensures
        joined(words, sep) == words[0] + sep + joined(words.skip(1), sep),
    decreases words.len(),
{
    let front = words.drop_last();
    if words.len() == 2 {
        assert(words.skip(1).len() == 1);
        assert(front.len() == 1);
        assert(words.skip(1)[0] == words.last());
        assert(joined(front, sep) == words[0]);
        assert(joined(words.skip(1), sep) == words.last());
        assert(joined(words, sep) =~= words[0] + sep + joined(words.skip(1), sep));
    } else {
        lemma_joined_front(front, sep);
        assert(front.skip(1) =~= words.skip(1).drop_last());
        assert(words.skip(1).last() == words.last());
        assert(joined(words, sep) =~= words[0] + sep + (joined(front.skip(1), sep) + sep
            + words.last()));
        assert(joined(words.skip(1), sep) =~= joined(front.skip(1), sep) + sep + words.last());
    }
}

/// Everything fits a lone `%`.
proof fn lemma_like_all(s: Seq<char>)
    ensures
        like(seq!['%'], s),
    decreases s.len(),
{
    let p = seq!['%'];
    assert(p[0] == '%');
    assert(p.skip(1) =~= Seq::empty());
    assert(like(p.skip(1), Seq::empty()));
    if s.len() == 0 {
        assert(s =~= Seq::empty());
    } else {
        lemma_like_all(s.skip(1));
    }
}

/// Law: for words without wildcards, a text fits their pattern exactly where they
/// occur in it one after the other.
pub proof fn law_wildcard(words: Seq<Seq<char>>, s: Seq<char>)
    requires
        forall|i: int| 0 <= i < words.len() ==> plain(#[trigger] words[i]),
    ensures
        like(wildcard(words), s) <==> in_order(words, s),
    decreases words.len(),
{
    let any = seq!['%'];
    if words.len() == 0 {
        assert(wildcard(words) =~= any + any);
        lemma_like_any(any, s);
        lemma_like_all(s.skip(0));
        assert(like(any, s.skip(0)));
    } else {
        let word = words[0];
        let rest = if words.len() == 1 {
            any
        } else {
            wildcard(words.skip(1))
        };
        if words.len() == 1 {
            assert(wildcard(words) =~= any + (word + rest));
        } else {
            lemma_joined_front(words, any);
            assert(wildcard(words) =~= any + (word + rest));
        }
        lemma_like_any(word + rest, s);
        assert forall|k: int| 0 <= k <= s.len() implies (like(word + rest, #[trigger] s.skip(k))
            <==> stands_at(s, word, k) && in_order(words.skip(1), s.skip(k + word.len()))) by {
            lemma_like_word(word, rest, s.skip(k));
            assert(stands_at(s.skip(k), word, 0) <==> stands_at(s, word, k)) by {
                if k + word.len() <= s.len() {
                    assert(forall|i: int|
                        0 <= i < word.len() ==> s.skip(k)[0int + i] == #[trigger] s[k + i]);
                }
            }
            if k + word.len() <= s.len() {
                let t = s.skip(k + word.len());
                assert(s.skip(k).skip(word.len() as int) =~= t);
                if words.len() == 1 {
                    lemma_like_all(t);
                } else {
                    assert(forall|i: int|
                        0 <= i < words.skip(1).len() ==> #[trigger] words.skip(1)[i] == words[i + 1]);
                    law_wildcard(words.skip(1), t);
                }
            }
        }
        if like(wildcard(words), s) {
            let k = choose|k: int| 0 <= k <= s.len() && like(word + rest, #[trigger] s.skip(k));
            assert(stands_at(s, word, k) && in_order(words.skip(1), s.skip(k + word.len())));
        }
        if in_order(words, s) {
            let at = choose|at: int| #[trigger]
                stands_at(s, words[0], at) && in_order(words.skip(1), s.skip(at + words[0].len()));
            assert(like(word + rest, s.skip(at)));
        }
    }
}

} // verus!
