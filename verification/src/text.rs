//! Text helpers over character sequences.

use vstd::prelude::*;

verus! {

/// `String::push`: appends one character at the end.
pub assume_specification[ String::push ](s: &mut String, c: char)
    ensures
        final(s)@ == old(s)@.push(c),
;

/// The Unicode lowercase form of a text, as `str::to_lowercase` computes it.
pub uninterp spec fn lowercase(s: Seq<char>) -> Seq<char>;

/// `str::to_lowercase`: the result depends on the text alone, and nothing comes of
/// an empty text.
pub assume_specification[ str::to_lowercase ](s: &str) -> (r: String)
    ensures
        r@ == lowercase(s@),
        s@.len() == 0 ==> r@.len() == 0,
;

/// The characters of `s`, in order.
pub fn to_chars(s: &str) -> (r: Vec<char>)
    ensures
        r@ == s@,
{
    let mut out: Vec<char> = Vec::new();
    for c in it: s.chars()
        invariant
            it.seq() == s@,
            out@ == s@.take(it.index() as int),
    {
        out.push(c);
        assert(s@.take(it.index() + 1) =~= s@.take(it.index() as int).push(c));
    }
    assert(s@.take(s@.len() as int) =~= s@);
    out
}

/// The text whose characters are `chars[from..to]`.
pub fn from_chars(chars: &Vec<char>, from: usize, to: usize) -> (r: String)
    requires
        from <= to <= chars@.len(),
    ensures
        r@ == chars@.subrange(from as int, to as int),
{
    let mut out = String::new();
    let mut i: usize = from;
    while i < to
        invariant
            from <= i <= to <= chars@.len(),
            out@ == chars@.subrange(from as int, i as int),
        decreases to - i,
    {
        out.push(chars[i]);
        assert(chars@.subrange(from as int, i + 1) =~= chars@.subrange(from as int, i as int).push(
            chars@[i as int],
        ));
        i = i + 1;
    }
    out
}

/// Whether `part` occurs in `s` with its first character at `at`.
pub open spec fn occurs_at(s: Seq<char>, part: Seq<char>, at: int) -> bool {
    &&& 0 <= at
    &&& at + part.len() <= s.len()
    &&& s.subrange(at, at + part.len()) == part
}

/// Whether `part` occurs somewhere in `s`.
pub open spec fn occurs_in(s: Seq<char>, part: Seq<char>) -> bool {
    exists|at: int| occurs_at(s, part, at)
}

/// Whether `part` stands in `s` at the character position `at`.
pub fn chars_occur_at(s: &Vec<char>, part: &Vec<char>, at: usize) -> (r: bool)
    ensures
        r == occurs_at(s@, part@, at as int),
{
    if at > s.len() || part.len() > s.len() - at {
        return false;
    }
    let mut i: usize = 0;
    while i < part.len()
        invariant
            i <= part@.len(),
            at + part@.len() <= s.len(),
            forall|k: int| 0 <= k < i ==> s@[at + k] == part@[k],
        decreases part@.len() - i,
    {
        if s[at + i] != part[i] {
            assert(s@.subrange(at as int, at + part@.len())[i as int] == s@[at + i]);
            return false;
        }
        i = i + 1;
    }
    assert(s@.subrange(at as int, at + part@.len()) =~= part@);
    true
}

/// Whether the two texts hold the same characters.
pub fn str_eq(a: &str, b: &str) -> (r: bool)
    ensures
        r == (a@ == b@),
{
    a.to_owned() == b.to_owned()
}

/// Whether `s` begins with `part`.
pub fn starts_with(s: &str, part: &str) -> (r: bool)
    ensures
        r == part@.is_prefix_of(s@),
{
    let cs = to_chars(s);
    let cp = to_chars(part);
    chars_occur_at(&cs, &cp, 0)
}

/// Whether `s` ends with `part`.
pub fn ends_with(s: &str, part: &str) -> (r: bool)
    ensures
        r == part@.is_suffix_of(s@),
{
    let cs = to_chars(s);
    let cp = to_chars(part);
    if cp.len() > cs.len() {
        return false;
    }
    chars_occur_at(&cs, &cp, cs.len() - cp.len())
}

/// Whether `part` occurs in `s`.
pub fn contains(s: &str, part: &str) -> (r: bool)
    ensures
        r == occurs_in(s@, part@),
{
    let cs = to_chars(s);
    let cp = to_chars(part);
    if cp.len() > cs.len() {
        return false;
    }
    let last: usize = cs.len() - cp.len();
    let mut at: usize = 0;
    while at <= last
        invariant
            cs@ == s@,
            cp@ == part@,
            last + cp@.len() == cs@.len(),
            at <= last + 1,
            last < usize::MAX || at <= last,
            forall|k: int| 0 <= k < at ==> !occurs_at(s@, part@, k),
        decreases last + 1 - at,
    {
        if chars_occur_at(&cs, &cp, at) {
            assert(occurs_at(s@, part@, at as int));
            return true;
        }
        if at == last {
            assert forall|k: int| !occurs_at(s@, part@, k) by {}
            return false;
        }
        at = at + 1;
    }
    assert forall|k: int| !occurs_at(s@, part@, k) by {}
    false
}

/// Whether the character `c` occurs in `s`.
pub fn contains_char(s: &str, c: char) -> (r: bool)
    ensures
        r == s@.contains(c),
{
    let cs = to_chars(s);
    let mut i: usize = 0;
    while i < cs.len()
        invariant
            cs@ == s@,
            i <= cs@.len(),
            forall|k: int| 0 <= k < i ==> s@[k] != c,
        decreases cs@.len() - i,
    {
        if cs[i] == c {
            assert(s@[i as int] == c);
            return true;
        }
        i = i + 1;
    }
    false
}

/// Lowercases the letters `A` to `Z` and leaves every other character alone.
pub open spec fn ascii_lower(c: char) -> char {
    if 'A' <= c && c <= 'Z' {
        ((c as u32) + 32) as char
    } else {
        c
    }
}

/// The lowercase form of one character, for the letters `A` to `Z` only.
pub fn to_ascii_lower(c: char) -> (r: char)
    ensures
        r == ascii_lower(c),
{
    if 'A' <= c && c <= 'Z' {
        let b: u8 = c as u8 + 32;
        b as char
    } else {
        c
    }
}

/// A text with the letters `A` to `Z` in lowercase.
pub open spec fn lower_ascii(s: Seq<char>) -> Seq<char> {
    Seq::new(s.len(), |i: int| ascii_lower(s[i]))
}

/// A text with the letters `A` to `Z` in lowercase.
pub fn to_lower_ascii(s: &str) -> (r: String)
    ensures
        r@ == lower_ascii(s@),
{
    let cs = to_chars(s);
    let mut out = String::new();
    let mut i: usize = 0;
    while i < cs.len()
        invariant
            cs@ == s@,
            i <= cs@.len(),
            out@.len() == i,
            forall|k: int| 0 <= k < i ==> #[trigger] out@[k] == ascii_lower(s@[k]),
        decreases cs@.len() - i,
    {
        out.push(to_ascii_lower(cs[i]));
        i = i + 1;
    }
    assert(out@ =~= lower_ascii(s@));
    out
}

/// The characters with the Unicode property `White_Space`.
pub open spec fn is_space(c: char) -> bool {
    ||| '\u{9}' <= c <= '\u{d}'
    ||| c == ' '
    ||| c == '\u{85}'
    ||| c == '\u{a0}'
    ||| c == '\u{1680}'
    ||| '\u{2000}' <= c <= '\u{200a}'
    ||| c == '\u{2028}'
    ||| c == '\u{2029}'
    ||| c == '\u{202f}'
    ||| c == '\u{205f}'
    ||| c == '\u{3000}'
}

/// Whether `c` is white space.
pub fn is_whitespace(c: char) -> (r: bool)
    ensures
        r == is_space(c),
{
    ('\u{9}' <= c && c <= '\u{d}') || c == ' ' || c == '\u{85}' || c == '\u{a0}' || c == '\u{1680}'
        || ('\u{2000}' <= c && c <= '\u{200a}') || c == '\u{2028}' || c == '\u{2029}' || c
        == '\u{202f}' || c == '\u{205f}' || c == '\u{3000}'
}

/// `s` without its leading white space.
pub open spec fn trim_start(s: Seq<char>) -> Seq<char>
    decreases s.len(),
{
    if s.len() > 0 && is_space(s[0]) {
        trim_start(s.skip(1))
    } else {
        s
    }
}

/// `s` without its trailing white space.
pub open spec fn trim_end(s: Seq<char>) -> Seq<char>
    decreases s.len(),
{
    if s.len() > 0 && is_space(s.last()) {
        trim_end(s.drop_last())
    } else {
        s
    }
}

/// `s` without white space at either end.
pub open spec fn trimmed(s: Seq<char>) -> Seq<char> {
    trim_end(trim_start(s))
}

/// `s` without white space at either end.
pub fn trim(s: &str) -> (r: String)
    ensures
        r@ == trimmed(s@),
{
    let cs = to_chars(s);
    let mut from: usize = 0;
    assert(s@.skip(0) =~= s@);
    while from < cs.len() && is_whitespace(cs[from])
        invariant
            cs@ == s@,
            from <= cs@.len(),
            trim_start(s@) == trim_start(s@.skip(from as int)),
        decreases cs@.len() - from,
    {
        assert(s@.skip(from as int).skip(1) =~= s@.skip(from + 1));
        from = from + 1;
    }
    let mut to: usize = cs.len();
    let ghost start = s@.skip(from as int);
    assert(trim_start(s@) == start);
    assert(start =~= s@.subrange(from as int, to as int));
    while to > from && is_whitespace(cs[to - 1])
        invariant
            cs@ == s@,
            from <= to <= cs@.len(),
            trim_end(start) == trim_end(s@.subrange(from as int, to as int)),
        decreases to,
    {
        assert(s@.subrange(from as int, to as int).drop_last() =~= s@.subrange(
            from as int,
            to - 1,
        ));
        to = to - 1;
    }
    from_chars(&cs, from, to)
}

/// The position of the first white space of `s` at or after `at`, or the end.
pub open spec fn word_end(s: Seq<char>, at: int) -> int
    decreases s.len() - at,
{
    if 0 <= at < s.len() && !is_space(s[at]) {
        word_end(s, at + 1)
    } else {
        at
    }
}

/// The maximal runs of characters that are no white space, from `at` on.
pub open spec fn words_from(s: Seq<char>, at: int) -> Seq<Seq<char>>
    decreases s.len() - at,
{
    if at < 0 || at >= s.len() {
        Seq::empty()
    } else if is_space(s[at]) {
        words_from(s, at + 1)
    } else {
        let end = word_end(s, at + 1);
        if at < end <= s.len() {
            seq![s.subrange(at, end)] + words_from(s, end)
        } else {
            Seq::empty()
        }
    }
}

/// The words of `s`: what stands between its white space.
pub open spec fn words(s: Seq<char>) -> Seq<Seq<char>> {
    words_from(s, 0)
}

/// The views of a list's elements.
pub open spec fn views<T: View>(list: Seq<T>) -> Seq<T::V> {
    Seq::new(list.len(), |i: int| list[i]@)
}

/// Pushing an element onto a list pushes its view onto the views.
pub proof fn lemma_views_push<T: View>(list: Seq<T>, x: T)
    ensures
        views(list.push(x)) == views(list).push(x@),
{
    assert(views(list.push(x)) =~= views(list).push(x@));
}

/// A list of texts as a sequence of character sequences.
pub open spec fn texts(list: Seq<String>) -> Seq<Seq<char>> {
    Seq::new(list.len(), |i: int| list[i]@)
}

/// Pushing a text onto a list pushes its characters onto the view.
pub proof fn lemma_texts_push(list: Seq<String>, s: String)
    ensures
        texts(list.push(s)) == texts(list).push(s@),
{
    assert(texts(list.push(s)) =~= texts(list).push(s@));
}

/// The words of `s`, in order.
pub fn split_whitespace(s: &str) -> (r: Vec<String>)
    ensures
        texts(r@) == words(s@),
{
    let cs = to_chars(s);
    let mut out: Vec<String> = Vec::new();
    let mut at: usize = 0;
    assert(texts(out@) + words_from(s@, 0) =~= words(s@));
    while at < cs.len()
        invariant
            cs@ == s@,
            at <= cs@.len(),
            texts(out@) + words_from(s@, at as int) == words(s@),
        decreases cs@.len() - at,
    {
        if is_whitespace(cs[at]) {
            at = at + 1;
        } else {
            let from: usize = at;
            at = at + 1;
            while at < cs.len() && !is_whitespace(cs[at])
                invariant
                    cs@ == s@,
                    from < at <= cs@.len(),
                    word_end(s@, from + 1) == word_end(s@, at as int),
                decreases cs@.len() - at,
            {
                at = at + 1;
            }
            let word = from_chars(&cs, from, at);
            proof {
                lemma_texts_push(out@, word);
                assert(texts(out@) + words_from(s@, from as int) =~= texts(out@).push(word@)
                    + words_from(s@, at as int));
            }
            out.push(word);
        }
    }
    assert(words_from(s@, at as int) =~= Seq::empty());
    assert(texts(out@) =~= words(s@));
    out
}

/// The texts of `list`, in order, with `sep` between each two of them.
pub open spec fn joined(list: Seq<Seq<char>>, sep: Seq<char>) -> Seq<char>
    decreases list.len(),
{
    if list.len() == 0 {
        Seq::empty()
    } else if list.len() == 1 {
        list[0]
    } else {
        joined(list.drop_last(), sep) + sep + list.last()
    }
}

/// Joins the texts of `list` with `sep` between them.
pub fn join(list: &Vec<String>, sep: &str) -> (r: String)
    ensures
        r@ == joined(texts(list@), sep@),
{
    let mut out = String::new();
    let mut i: usize = 0;
    let ghost all = texts(list@);
    assert(all.take(0) =~= Seq::empty());
    while i < list.len()
        invariant
            i <= list@.len(),
            all == texts(list@),
            out@ == joined(all.take(i as int), sep@),
        decreases list@.len() - i,
    {
        assert(all.take(i + 1).drop_last() =~= all.take(i as int));
        assert(all.take(i + 1).last() == list@[i as int]@);
        if i == 0 {
            assert(all.take(1)[0] == list@[0]@);
        }
        if i > 0 {
            out.append(sep);
        }
        out.append(list[i].as_str());
        assert(out@ =~= joined(all.take(i + 1), sep@));
        i = i + 1;
    }
    assert(all.take(list@.len() as int) =~= all);
    out
}

/// The digit for a number below ten.
pub open spec fn digit(n: int) -> char {
    ('0' as int + n % 10) as char
}

/// A number in decimal digits.
pub open spec fn decimal(n: nat) -> Seq<char>
    decreases n,
{
    if n < 10 {
        seq![digit(n as int)]
    } else {
        decimal(n / 10).push(digit(n as int))
    }
}

/// The digit for a number below ten.
fn digit_of(n: u128) -> (r: char)
    requires
        n < 10,
    ensures
        r == digit(n as int),
{
    let b: u8 = 48 + n as u8;
    b as char
}

/// A number in decimal digits.
pub fn to_decimal(n: u128) -> (r: String)
    ensures
        r@ == decimal(n as nat),
    decreases n,
{
    let mut out = if n < 10 {
        String::new()
    } else {
        to_decimal(n / 10)
    };
    out.push(digit_of(n % 10));
    assert(out@ =~= decimal(n as nat));
    out
}

/// Whether a character is a decimal digit.
pub open spec fn is_digit(c: char) -> bool {
    '0' <= c && c <= '9'
}

/// The number that decimal digits stand for.
pub open spec fn value_of(s: Seq<char>) -> nat
    decreases s.len(),
{
    if s.len() == 0 {
        0
    } else {
        value_of(s.drop_last()) * 10 + (s.last() as nat - '0' as nat) as nat
    }
}

/// The text without a plus sign in front.
pub open spec fn unsigned(s: Seq<char>) -> Seq<char> {
    if s.len() > 0 && s[0] == '+' {
        s.skip(1)
    } else {
        s
    }
}

/// The number that a text stands for: decimal digits, perhaps with a plus sign in
/// front.
pub open spec fn number_of(s: Seq<char>) -> Option<nat> {
    let digits = unsigned(s);
    if digits.len() > 0 && forall|i: int| 0 <= i < digits.len() ==> is_digit(#[trigger] digits[i]) {
        Some(value_of(digits))
    } else {
        None
    }
}

/// More digits make no smaller number.
proof fn lemma_value_grows(s: Seq<char>, n: int)
    requires
        0 <= n <= s.len(),
    ensures
        value_of(s.take(n)) <= value_of(s),
    decreases s.len(),
{
    if n < s.len() {
        lemma_value_grows(s.drop_last(), n);
        assert(s.drop_last().take(n) =~= s.take(n));
    } else {
        assert(s.take(n) =~= s);
    }
}

/// The value of a decimal digit.
fn digit_value(c: char) -> (r: u64)
    requires
        is_digit(c),
    ensures
        r == c as nat - '0' as nat,
        r < 10,
{
    (c as u32 - '0' as u32) as u64
}

/// Reads a number no larger than `max`.
pub fn parse_number(s: &str, max: u64) -> (r: Option<u64>)
    ensures
        match r {
            Some(n) => number_of(s@) == Some(n as nat) && n <= max,
            None => match number_of(s@) {
                Some(n) => n > max,
                None => true,
            },
        },
{
    let cs = to_chars(s);
    let start: usize = if cs.len() > 0 && cs[0] == '+' {
        1
    } else {
        0
    };
    let ghost digits = unsigned(s@);
    assert(digits =~= s@.skip(start as int));
    if start >= cs.len() {
        return None;
    }
    let mut value: u64 = 0;
    let mut i: usize = start;
    assert(digits.take(0) =~= Seq::empty());
    while i < cs.len()
        invariant
            cs@ == s@,
            digits == s@.skip(start as int),
            digits == unsigned(s@),
            start <= i <= cs@.len(),
            forall|k: int| 0 <= k < i - start ==> is_digit(#[trigger] digits[k]),
            value == value_of(digits.take(i - start)),
            value <= max,
        decreases cs@.len() - i,
    {
        let c = cs[i];
        assert(digits[i - start] == c);
        if !(c >= '0' && c <= '9') {
            return None;
        }
        let d: u64 = digit_value(c);
        proof {
            let more = digits.take(i - start + 1);
            assert(more.drop_last() =~= digits.take(i - start));
            assert(more.last() == c);
            lemma_value_grows(digits, i - start + 1);
        }
        if d > max || value > (max - d) / 10 {
            return None;
        }
        value = value * 10 + d;
        i = i + 1;
    }
    assert(digits.take(digits.len() as int) =~= digits);
    Some(value)
}

/// Law: a number written in decimal digits is read back as itself, with white space
/// around it or not.
pub proof fn law_decimal_round_trip(n: nat)
    ensures
        number_of(decimal(n)) == Some(n),
        trimmed(decimal(n)) == decimal(n),
{
    lemma_decimal(n);
    let s = decimal(n);
    assert(is_digit(s[0]));
    assert(is_digit(s[s.len() - 1]));
    assert(trim_start(s) == s);
}

/// A decimal number is made of digits and stands for the number.
proof fn lemma_decimal(n: nat)
    ensures
        decimal(n).len() > 0,
        forall|i: int| 0 <= i < decimal(n).len() ==> is_digit(#[trigger] decimal(n)[i]),
        value_of(decimal(n)) == n,
    decreases n,
{
    let d = digit(n as int);
    assert(is_digit(d) && d as nat - '0' as nat == n % 10);
    if n >= 10 {
        lemma_decimal(n / 10);
        assert(decimal(n).drop_last() =~= decimal(n / 10));
    } else {
        assert(decimal(n).drop_last() =~= Seq::empty());
        assert(value_of(Seq::<char>::empty()) == 0);
    }
}

/// The number of bytes of a text.
pub open spec fn utf8_len(s: Seq<char>) -> nat {
    vstd::utf8::encode_utf8(s).len()
}

/// The number of bytes of a text.
pub fn byte_len(s: &str) -> (r: usize)
    ensures
        r == utf8_len(s@),
{
    s.as_bytes().len()
}

/// Where the line that starts at `at` ends.
pub open spec fn line_end(s: Seq<char>, at: int) -> int
    decreases s.len() - at,
{
    if 0 <= at < s.len() && s[at] != '\n' {
        line_end(s, at + 1)
    } else {
        at
    }
}

/// The two texts one after the other.
pub fn concat2(a: &str, b: &str) -> (r: String)
    ensures
        r@ == a@ + b@,
{
    let mut out = String::new();
    out.append(a);
    out.append(b);
    assert(out@ =~= a@ + b@);
    out
}

/// A text around a number.
pub fn around(before: &str, n: usize, after: &str) -> (r: String)
    ensures
        r@ == before@ + decimal(n as nat) + after@,
{
    let mut out = concat2(before, to_decimal(n as u128).as_str());
    out.append(after);
    out
}

/// Where a word ends is told by what stands in it and behind it.
proof fn lemma_words_end(s: Seq<char>, at: int, end: int)
    requires
        0 <= at <= end <= s.len(),
        forall|k: int| at <= k < end ==> !is_space(#[trigger] s[k]),
        end < s.len() ==> is_space(s[end]),
    ensures
        word_end(s, at) == end,
    decreases end - at,
{
    if at < end {
        lemma_words_end(s, at + 1, end);
    }
}

/// A word that starts at `at` has an end.
proof fn lemma_words_some(s: Seq<char>, at: int)
    requires
        0 <= at <= s.len(),
    ensures
        at <= word_end(s, at) <= s.len(),
        forall|k: int| at <= k < word_end(s, at) ==> !is_space(#[trigger] s[k]),
        word_end(s, at) < s.len() ==> is_space(s[word_end(s, at)]),
    decreases s.len() - at,
{
    if at < s.len() && !is_space(s[at]) {
        lemma_words_some(s, at + 1);
    }
}

/// The words behind a text do not depend on it.
proof fn lemma_words_shift(a: Seq<char>, b: Seq<char>, at: int)
    requires
        0 <= at <= b.len(),
    ensures
        words_from(a + b, a.len() + at) == words_from(b, at),
    decreases b.len() - at,
{
    let all = a + b;
    let n = a.len() as int;
    if at < b.len() {
        assert(all[n + at] == b[at]);
        if is_space(b[at]) {
            lemma_words_shift(a, b, at + 1);
        } else {
            lemma_words_some(b, at + 1);
            let e = word_end(b, at + 1);
            assert forall|k: int| n + at + 1 <= k < n + e implies !is_space(#[trigger] all[k]) by {
                assert(all[k] == b[k - n]);
            }
            lemma_words_end(all, n + at + 1, n + e);
            assert(all.subrange(n + at, n + e) =~= b.subrange(at, e));
            lemma_words_shift(a, b, e);
        }
    }
}

/// The words of a text before a separator do not depend on what comes behind it.
proof fn lemma_words_before(a: Seq<char>, c: char, b: Seq<char>, at: int)
    requires
        0 <= at <= a.len(),
        is_space(c),
    ensures
        words_from(a + seq![c] + b, at) == words_from(a, at) + words_from(
            a + seq![c] + b,
            a.len() as int,
        ),
    decreases a.len() - at,
{
    let all = a + seq![c] + b;
    if at < a.len() {
        assert(all[at] == a[at]);
        if is_space(a[at]) {
            lemma_words_before(a, c, b, at + 1);
        } else {
            lemma_words_some(a, at + 1);
            let e = word_end(a, at + 1);
            assert forall|k: int| at + 1 <= k < e implies !is_space(#[trigger] all[k]) by {
                assert(all[k] == a[k]);
            }
            if e < a.len() {
                assert(all[e] == a[e]);
            } else {
                assert(all[e] == c);
            }
            lemma_words_end(all, at + 1, e);
            assert(all.subrange(at, e) =~= a.subrange(at, e));
            lemma_words_before(a, c, b, e);
            assert(words_from(all, at) =~= words_from(a, at) + words_from(all, a.len() as int));
        }
    } else {
        assert(words_from(a, at) =~= Seq::empty());
        assert(words_from(all, at) =~= words_from(a, at) + words_from(all, a.len() as int));
    }
}

/// Law: white space parts a text into words: what stands before it has its words, what
/// stands behind it has its own, and a text without white space is one word.
pub proof fn law_words(a: Seq<char>, c: char, b: Seq<char>, word: Seq<char>)
    requires
        is_space(c),
        word.len() > 0,
        forall|k: int| 0 <= k < word.len() ==> !is_space(#[trigger] word[k]),
    ensures
        words(a + seq![c] + b) == words(a) + words(b),
        words(word) == seq![word],
        words(Seq::empty()).len() == 0,
{
    let all = a + seq![c] + b;
    let n = a.len() as int;
    lemma_words_before(a, c, b, 0);
    assert(all[n] == c);
    lemma_words_shift(a + seq![c], b, 0);
    assert(words_from(all, n) == words_from(all, n + 1));
    lemma_words_end(word, 1, word.len() as int);
    assert(word.subrange(0, word.len() as int) =~= word);
    assert(words_from(word, word.len() as int) =~= Seq::empty());
    assert(words(word) =~= seq![word]);
}

/// White space in front is dropped as far as it goes.
proof fn lemma_trim_start(a: Seq<char>, t: Seq<char>)
    requires
        forall|i: int| 0 <= i < a.len() ==> is_space(#[trigger] a[i]),
        t.len() > 0 ==> !is_space(t[0]),
    ensures
        trim_start(a + t) == t,
    decreases a.len(),
{
    if a.len() > 0 {
        let rest = a.skip(1);
        assert forall|i: int| 0 <= i < rest.len() implies is_space(#[trigger] rest[i]) by {
            assert(is_space(a[i + 1]));
        }
        assert(is_space(a[0]));
        assert((a + t).skip(1) =~= rest + t);
        lemma_trim_start(rest, t);
    } else {
        assert(a + t =~= t);
    }
}

/// White space at the end is dropped as far as it goes.
proof fn lemma_trim_end(t: Seq<char>, b: Seq<char>)
    requires
        forall|i: int| 0 <= i < b.len() ==> is_space(#[trigger] b[i]),
        t.len() > 0 ==> !is_space(t.last()),
    ensures
        trim_end(t + b) == t,
    decreases b.len(),
{
    if b.len() > 0 {
        let front = b.drop_last();
        assert forall|i: int| 0 <= i < front.len() implies is_space(#[trigger] front[i]) by {
            assert(is_space(b[i]));
        }
        assert(is_space(b[b.len() - 1]));
        assert((t + b).drop_last() =~= t + front);
        lemma_trim_end(t, front);
    } else {
        assert(t + b =~= t);
    }
}

/// Law: of a text with white space around it the text is left, with all that stands between
/// its first character and its last; of white space nothing is left.
pub proof fn law_trimmed(a: Seq<char>, t: Seq<char>, b: Seq<char>)
    requires
        forall|i: int| 0 <= i < a.len() ==> is_space(#[trigger] a[i]),
        forall|i: int| 0 <= i < b.len() ==> is_space(#[trigger] b[i]),
        t.len() > 0,
        !is_space(t[0]),
        !is_space(t.last()),
    ensures
        trimmed(a + t + b) == t,
        trimmed(a).len() == 0,
{
    assert(a + t + b =~= a + (t + b));
    lemma_trim_start(a, t + b);
    lemma_trim_end(t, b);
    lemma_trim_start(a, Seq::empty());
    assert(a + Seq::<char>::empty() =~= a);
}

/// Law: texts that are joined stand in order with the separator between any two of them,
/// and with none before, behind or around a single one.
pub proof fn law_joined(a: Seq<Seq<char>>, b: Seq<Seq<char>>, one: Seq<char>, sep: Seq<char>)
    ensures
        a.len() > 0 && b.len() > 0 ==> joined(a + b, sep) == joined(a, sep) + sep + joined(b, sep),
        joined(seq![one], sep) == one,
        joined(Seq::empty(), sep).len() == 0,
    decreases b.len(),
{
    if a.len() > 0 && b.len() > 0 {
        let front = b.drop_last();
        assert((a + b).drop_last() =~= a + front);
        assert((a + b).last() == b.last());
        if front.len() > 0 {
            law_joined(a, front, one, sep);
            assert(joined(a, sep) + sep + joined(front, sep) + sep + b.last() =~= joined(a, sep)
                + sep + (joined(front, sep) + sep + b.last()));
        } else {
            assert(a + front =~= a);
            assert(b[0] == b.last());
        }
    }
}

/// Law: a number is read with a plus sign in front or without; a text that holds anything
/// but digits behind that is no number.
pub proof fn law_number(n: nat, s: Seq<char>, at: int)
    ensures
        number_of(seq!['+'] + decimal(n)) == Some(n),
        1 <= at < s.len() && !('0' <= s[at] && s[at] <= '9') ==> number_of(s) is None,
        s.len() > 0 && s[0] != '+' && !('0' <= s[0] && s[0] <= '9') ==> number_of(s) is None,
        number_of(Seq::empty()) is None,
        number_of(seq!['+']) is None,
{
    lemma_decimal(n);
    assert((seq!['+'] + decimal(n)).skip(1) =~= decimal(n));
    assert(seq!['+'].skip(1).len() == 0);
    let digits = unsigned(s);
    if 1 <= at < s.len() && !is_digit(s[at]) {
        if s[0] == '+' {
            assert(digits[at - 1] == s[at]);
        } else {
            assert(digits[at] == s[at]);
        }
    }
    if s.len() > 0 && s[0] != '+' && !is_digit(s[0]) {
        assert(!is_digit(digits[0]));
    }
}

/// Where a line ends is told by what stands in it and behind it.
pub proof fn lemma_line_end(s: Seq<char>, at: int, end: int)
    requires
        0 <= at <= end <= s.len(),
        forall|k: int| at <= k < end ==> #[trigger] s[k] != '\n',
        end < s.len() ==> s[end] == '\n',
    ensures
        line_end(s, at) == end,
    decreases end - at,
{
    if at < end {
        lemma_line_end(s, at + 1, end);
    }
}

/// A line that starts at `at` has an end.
pub proof fn lemma_line_some(s: Seq<char>, at: int)
    requires
        0 <= at <= s.len(),
    ensures
        at <= line_end(s, at) <= s.len(),
        forall|k: int| at <= k < line_end(s, at) ==> #[trigger] s[k] != '\n',
        line_end(s, at) < s.len() ==> s[line_end(s, at)] == '\n',
    decreases s.len() - at,
{
    if at < s.len() && s[at] != '\n' {
        lemma_line_some(s, at + 1);
    }
}

/// `s` occurs in what is made of it and more text around it.
pub proof fn lemma_occurs_between(before: Seq<char>, s: Seq<char>, after: Seq<char>)
    ensures
        occurs_in(before + s + after, s),
{
    let all = before + s + after;
    let at = before.len() as int;
    assert(all.subrange(at, at + s.len()) =~= s);
    assert(occurs_at(all, s, at));
}

} // verus!
