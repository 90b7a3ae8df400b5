//! Paths as text: their components, and what can be said of them without a disk.
//!
//! A path is read as Unix reads it: `/` separates components, empty pieces and
//! pieces that are a lone `.` count for nothing, and a lone `.` at the very start
//! of a relative path is kept.

use crate::text::{from_chars, str_eq, starts_with, texts, to_chars};
use vstd::prelude::*;
use vstd::string::*;

verus! {

/// Where the piece that starts at `at` ends: at the next separator, or at the end.
pub open spec fn piece_end(s: Seq<char>, at: int) -> int
    decreases s.len() - at,
{
    if 0 <= at < s.len() && s[at] != '/' {
        piece_end(s, at + 1)
    } else {
        at
    }
}

/// Whether the piece from `at` to `end` is a component.
pub open spec fn is_component(s: Seq<char>, at: int, end: int) -> bool {
    at < end && (at == 0 || s.subrange(at, end) != seq!['.'])
}

/// The components that start at `at` or later, each as the range it stands in.
pub open spec fn spans_from(s: Seq<char>, at: int) -> Seq<(int, int)>
    decreases s.len() + 1 - at,
{
    if at < 0 || at > s.len() {
        Seq::empty()
    } else {
        let end = piece_end(s, at);
        let here = if is_component(s, at, end) {
            seq![(at, end)]
        } else {
            Seq::empty()
        };
        if at <= end < s.len() {
            here + spans_from(s, end + 1)
        } else {
            here
        }
    }
}

/// Whether the path is absolute.
pub open spec fn rooted(s: Seq<char>) -> bool {
    s.len() > 0 && s[0] == '/'
}

/// The text of each range.
pub open spec fn span_texts(s: Seq<char>, spans: Seq<(int, int)>) -> Seq<Seq<char>> {
    Seq::new(spans.len(), |i: int| s.subrange(spans[i].0, spans[i].1))
}

/// The root component, where there is one.
pub open spec fn root_part(s: Seq<char>) -> Seq<Seq<char>> {
    if rooted(s) {
        seq![seq!['/']]
    } else {
        Seq::empty()
    }
}

/// The components of a path. The root is the component `/`.
pub open spec fn parts(s: Seq<char>) -> Seq<Seq<char>> {
    root_part(s) + span_texts(s, spans_from(s, 0))
}

/// Whether a component is an ordinary name.
pub open spec fn is_name(part: Seq<char>) -> bool {
    part != seq!['/'] && part != seq!['.'] && part != seq!['.', '.']
}

/// The last component, where it is an ordinary name.
pub open spec fn name_of(s: Seq<char>) -> Option<Seq<char>> {
    let p = parts(s);
    if p.len() > 0 && is_name(p.last()) {
        Some(p.last())
    } else {
        None
    }
}

/// Whether two paths have the same components.
pub open spec fn same(a: Seq<char>, b: Seq<char>) -> bool {
    parts(a) == parts(b)
}

/// Whether `s` is `base` or lies below it.
pub open spec fn within(s: Seq<char>, base: Seq<char>) -> bool {
    parts(base).is_prefix_of(parts(s))
}

/// What is left of a path after its first `n` components, as it is written there.
pub open spec fn rest_after(s: Seq<char>, n: int) -> Seq<char> {
    let spans = spans_from(s, 0);
    let skip = if rooted(s) {
        n - 1
    } else {
        n
    };
    if skip < 0 {
        s.subrange(
            0,
            if spans.len() > 0 {
                spans.last().1
            } else {
                1
            },
        )
    } else if skip < spans.len() {
        s.subrange(spans[skip].0, spans.last().1)
    } else {
        Seq::empty()
    }
}

/// `rel` seen from `base`: `rel` itself where it is absolute, else one below the other.
pub open spec fn joined_path(base: Seq<char>, rel: Seq<char>) -> Seq<char> {
    if rooted(rel) {
        rel
    } else if base.len() > 0 && base.last() != '/' {
        base + seq!['/'] + rel
    } else {
        base + rel
    }
}

/// A piece ends at the next slash, or at the end of the path.
pub proof fn lemma_piece_end(s: Seq<char>, at: int)
    requires
        0 <= at <= s.len(),
    ensures
        at <= piece_end(s, at) <= s.len(),
        forall|k: int| at <= k < piece_end(s, at) ==> s[k] != '/',
        piece_end(s, at) < s.len() ==> s[piece_end(s, at)] == '/',
    decreases s.len() - at,
{
    if at < s.len() && s[at] != '/' {
        lemma_piece_end(s, at + 1);
    }
}

/// The ranges that `spans_from` gives lie one after the other inside the path.
pub proof fn lemma_spans(s: Seq<char>, at: int)
    requires
        0 <= at <= s.len(),
    ensures
        forall|i: int|
            #![trigger spans_from(s, at)[i]]
            0 <= i < spans_from(s, at).len() ==> at <= spans_from(s, at)[i].0 < spans_from(
                s,
                at,
            )[i].1 <= s.len(),
        forall|i: int, j: int|
            #![trigger spans_from(s, at)[i], spans_from(s, at)[j]]
            0 <= i < j < spans_from(s, at).len() ==> spans_from(s, at)[i].1 < spans_from(
                s,
                at,
            )[j].0,
    decreases s.len() + 1 - at,
{
    lemma_piece_end(s, at);
    let end = piece_end(s, at);
    if end < s.len() {
        lemma_spans(s, end + 1);
        let rest = spans_from(s, end + 1);
        let all = spans_from(s, at);
        if is_component(s, at, end) {
            assert(all =~= seq![(at, end)] + rest);
            assert(forall|i: int| 1 <= i < all.len() ==> all[i] == rest[i - 1]);
        } else {
            assert(all =~= rest);
        }
    }
}

/// A piece that ends before the end of `s` ends there in every longer path too, and the
/// last piece of `s` ends where a separator follows `s`.
proof fn lemma_piece_end_under(s: Seq<char>, t: Seq<char>, at: int)
    requires
        0 <= at <= s.len(),
    ensures
        piece_end(s + seq!['/'] + t, at) == piece_end(s, at),
    decreases s.len() - at,
{
    let all = s + seq!['/'] + t;
    assert(all[s.len() as int] == '/');
    if at < s.len() {
        assert(all[at] == s[at]);
        if s[at] != '/' {
            lemma_piece_end_under(s, t, at + 1);
        }
    }
}

/// The components of `s` from `at` on are the first of a path that continues `s`.
proof fn lemma_spans_under(s: Seq<char>, t: Seq<char>, at: int)
    requires
        0 <= at <= s.len(),
    ensures
        ({
            let all = s + seq!['/'] + t;
            let short = spans_from(s, at);
            let long = spans_from(all, at);
            &&& short.is_prefix_of(long)
            &&& forall|i: int|
                0 <= i < short.len() ==> 0 <= (#[trigger] short[i]).0 <= short[i].1 <= s.len()
        }),
    decreases s.len() + 1 - at,
{
    let all = s + seq!['/'] + t;
    lemma_piece_end(s, at);
    lemma_piece_end_under(s, t, at);
    let end = piece_end(s, at);
    assert(all.subrange(at, end) =~= s.subrange(at, end));
    let here = if is_component(s, at, end) {
        seq![(at, end)]
    } else {
        Seq::empty()
    };
    if end < s.len() {
        lemma_spans_under(s, t, end + 1);
        let short = spans_from(s, end + 1);
        let long = spans_from(all, end + 1);
        assert((here + long).take((here + short).len() as int) =~= here + long.take(
            short.len() as int,
        ));
    } else {
        assert(spans_from(all, at) == here + spans_from(all, end + 1));
    }
}

/// The components of a path are the first of every path that continues it.
pub proof fn lemma_parts_under(s: Seq<char>, t: Seq<char>)
    ensures
        parts(s).is_prefix_of(parts(s + seq!['/'] + t)),
{
    if s.len() == 0 {
        assert(parts(s) =~= Seq::empty());
    } else {
        let all = s + seq!['/'] + t;
        lemma_spans_under(s, t, 0);
        let short = spans_from(s, 0);
        let long = spans_from(all, 0);
        assert(all[0] == s[0]);
        assert forall|i: int| 0 <= i < parts(s).len() implies parts(s)[i] == parts(all)[i] by {
            let k = i - root_part(s).len();
            if k >= 0 {
                assert(short[k] == long[k]);
                assert(s.subrange(short[k].0, short[k].1) =~= all.subrange(long[k].0, long[k].1));
            }
        }
        assert(parts(s) =~= parts(all).take(parts(s).len() as int));
    }
}

/// A list of index pairs as mathematical ranges.
pub open spec fn ranges(list: Seq<(usize, usize)>) -> Seq<(int, int)> {
    Seq::new(list.len(), |i: int| (list[i].0 as int, list[i].1 as int))
}

/// The components of a path, each as the range of characters it stands in.
fn spans(s: &Vec<char>) -> (r: Vec<(usize, usize)>)
    ensures
        ranges(r@) == spans_from(s@, 0),
{
    let mut out: Vec<(usize, usize)> = Vec::new();
    let mut at: usize = 0;
    assert(ranges(out@) + spans_from(s@, 0) =~= spans_from(s@, 0));
    loop
        invariant
            at <= s@.len(),
            ranges(out@) + spans_from(s@, at as int) == spans_from(s@, 0),
        decreases s@.len() - at,
    {
        let mut end: usize = at;
        while end < s.len() && s[end] != '/'
            invariant
                at <= end <= s@.len(),
                piece_end(s@, at as int) == piece_end(s@, end as int),
            decreases s@.len() - end,
        {
            end = end + 1;
        }
        let ghost before = ranges(out@);
        let lone_dot = end - at == 1 && s[at] == '.';
        proof {
            let piece = s@.subrange(at as int, end as int);
            if lone_dot {
                assert(piece =~= seq!['.']);
            } else if piece == seq!['.'] {
                assert(seq!['.'][0] == '.');
                assert(piece.len() == end - at);
                assert(piece[0] == s@[at as int]);
            }
        }
        if at < end && (at == 0 || !lone_dot) {
            out.push((at, end));
            assert(ranges(out@) =~= before + seq![(at as int, end as int)]);
        }
        if end >= s.len() {
            assert(ranges(out@) =~= spans_from(s@, 0));
            return out;
        }
        assert(ranges(out@) + spans_from(s@, end + 1) =~= before + spans_from(s@, at as int));
        at = end + 1;
    }
}

/// The components of a path.
pub fn components(path: &str) -> (r: Vec<String>)
    ensures
        texts(r@) == parts(path@),
{
    let s = to_chars(path);
    let found = spans(&s);
    let mut out: Vec<String> = Vec::new();
    if s.len() > 0 && s[0] == '/' {
        out.push(from_chars(&s, 0, 1));
        assert(out@[0]@ =~= seq!['/']);
    }
    assert(texts(out@) =~= root_part(path@));
    let ghost root = root_part(path@);
    let ghost all = span_texts(path@, spans_from(path@, 0));
    let mut i: usize = 0;
    assert(root + all.take(0) =~= root);
    while i < found.len()
        invariant
            s@ == path@,
            i <= found@.len(),
            ranges(found@) == spans_from(path@, 0),
            all == span_texts(path@, spans_from(path@, 0)),
            texts(out@) == root + all.take(i as int),
        decreases found@.len() - i,
    {
        proof {
            lemma_spans(path@, 0);
            assert(spans_from(path@, 0)[i as int] == (found@[i as int].0 as int, found@[i as int].1 as int));
        }
        let part = from_chars(&s, found[i].0, found[i].1);
        proof {
            crate::text::lemma_texts_push(out@, part);
            assert(all.take(i + 1) =~= all.take(i as int).push(part@));
            assert(root + all.take(i + 1) =~= (root + all.take(i as int)).push(part@));
        }
        out.push(part);
        i = i + 1;
    }
    assert(all.take(all.len() as int) =~= all);
    out
}

/// The last component of a path, where it is an ordinary name.
pub fn file_name(path: &str) -> (r: Option<String>)
    ensures
        match r {
            Some(name) => name_of(path@) == Some(name@),
            None => name_of(path@) is None,
        },
{
    let list = components(path);
    if list.len() == 0 {
        return None;
    }
    let last = list[list.len() - 1].as_str();
    assert(parts(path@).last() == last@);
    proof {
        reveal_strlit("/");
        reveal_strlit(".");
        reveal_strlit("..");
        assert("/"@ =~= seq!['/']);
        assert("."@ =~= seq!['.']);
        assert(".."@ =~= seq!['.', '.']);
    }
    if str_eq(last, "/") || str_eq(last, ".") || str_eq(last, "..") {
        None
    } else {
        Some(last.to_owned())
    }
}

/// Whether the texts of `base` are the first texts of `list`.
fn is_prefix(base: &Vec<String>, list: &Vec<String>) -> (r: bool)
    ensures
        r == texts(base@).is_prefix_of(texts(list@)),
{
    if base.len() > list.len() {
        return false;
    }
    let mut i: usize = 0;
    while i < base.len()
        invariant
            i <= base@.len() <= list@.len(),
            forall|k: int| 0 <= k < i ==> base@[k]@ == list@[k]@,
        decreases base@.len() - i,
    {
        if !str_eq(base[i].as_str(), list[i].as_str()) {
            assert(texts(base@)[i as int] != texts(list@).subrange(0, base@.len() as int)[i as int]);
            return false;
        }
        i = i + 1;
    }
    assert(texts(base@) =~= texts(list@).subrange(0, base@.len() as int));
    true
}

/// Whether `path` is `base` or lies below it, component by component.
pub fn path_starts_with(path: &str, base: &str) -> (r: bool)
    ensures
        r == within(path@, base@),
{
    let p = components(path);
    let b = components(base);
    is_prefix(&b, &p)
}

/// Whether two paths have the same components.
pub fn same_path(a: &str, b: &str) -> (r: bool)
    ensures
        r == same(a@, b@),
{
    let pa = components(a);
    let pb = components(b);
    if pa.len() != pb.len() {
        return false;
    }
    let r = is_prefix(&pa, &pb);
    assert(texts(pb@).subrange(0, pb@.len() as int) =~= texts(pb@));
    r
}

/// How many components `path` has below `base`, where it is `base` or lies below it.
pub fn depth_below(path: &str, base: &str) -> (r: Option<usize>)
    ensures
        match r {
            Some(d) => within(path@, base@) && d == parts(path@).len() - parts(base@).len(),
            None => !within(path@, base@),
        },
{
    let p = components(path);
    let b = components(base);
    if is_prefix(&b, &p) {
        Some(p.len() - b.len())
    } else {
        None
    }
}

/// What is left of `path` below `base`, where it is `base` or lies below it.
pub fn strip_prefix(path: &str, base: &str) -> (r: Option<String>)
    ensures
        match r {
            Some(rest) => within(path@, base@) && rest@ == rest_after(
                path@,
                parts(base@).len() as int,
            ),
            None => !within(path@, base@),
        },
{
    if !path_starts_with(path, base) {
        return None;
    }
    let n: usize = components(base).len();
    let s = to_chars(path);
    let found = spans(&s);
    proof {
        lemma_spans(path@, 0);
        assert(forall|i: int|
            0 <= i < found@.len() ==> #[trigger] spans_from(path@, 0)[i] == (
                found@[i].0 as int,
                found@[i].1 as int,
            ));
    }
    let is_rooted = s.len() > 0 && s[0] == '/';
    if is_rooted && n == 0 {
        assert(found@.len() > 0 ==> spans_from(path@, 0).last() == (
            found@.last().0 as int,
            found@.last().1 as int,
        ));
        let to: usize = if found.len() > 0 {
            found[found.len() - 1].1
        } else {
            1
        };
        return Some(from_chars(&s, 0, to));
    }
    let skip: usize = if is_rooted {
        n - 1
    } else {
        n
    };
    if skip < found.len() {
        assert(spans_from(path@, 0)[skip as int].0 <= spans_from(path@, 0).last().1);
        Some(from_chars(&s, found[skip].0, found[found.len() - 1].1))
    } else {
        Some(String::new())
    }
}

/// `rel` seen from `base`.
pub fn join_path(base: &str, rel: &str) -> (r: String)
    ensures
        r@ == joined_path(base@, rel@),
{
    let b = to_chars(base);
    let t = to_chars(rel);
    if t.len() > 0 && t[0] == '/' {
        return rel.to_owned();
    }
    let mut out = base.to_owned();
    if b.len() > 0 && b[b.len() - 1] != '/' {
        out.push('/');
    }
    out.append(rel);
    assert(out@ =~= joined_path(base@, rel@));
    out
}

/// How a path is shown: with `~` for the home directory.
pub open spec fn tilde_shown(path: Seq<char>, home: Option<Seq<char>>) -> Seq<char> {
    match home {
        Some(h) => if within(path, h) {
            seq!['~', '/'] + rest_after(path, parts(h).len() as int)
        } else {
            path
        },
        None => path,
    }
}

/// The view of an optional text.
pub open spec fn opt_view(s: Option<&str>) -> Option<Seq<char>> {
    match s {
        Some(t) => Some(t@),
        None => None,
    }
}

/// How a path is shown: with `~` for the home directory where it lies in it.
pub fn display_with_tilde(path: &str, home: Option<&str>) -> (r: String)
    ensures
        r@ == tilde_shown(path@, opt_view(home)),
{
    match home {
        Some(h) => {
            match strip_prefix(path, h) {
                Some(rest) => {
                    let mut out = String::new();
                    out.push('~');
                    out.push('/');
                    out.append(rest.as_str());
                    assert(out@ =~= seq!['~', '/'] + rest@);
                    out
                },
                None => path.to_owned(),
            }
        },
        None => path.to_owned(),
    }
}

/// A path whose leading `~` stands for the home directory, written out.
pub open spec fn tilde_expanded(path: Seq<char>, home: Option<Seq<char>>) -> Seq<char> {
    match home {
        Some(h) => if path == seq!['~'] {
            joined_path(h, Seq::empty())
        } else if seq!['~', '/'].is_prefix_of(path) {
            joined_path(h, path.skip(2))
        } else {
            path
        },
        None => path,
    }
}

/// Writes out a leading `~` as the home directory, where that is known.
pub fn expand_tilde(path: &str, home: Option<&str>) -> (r: String)
    ensures
        r@ == tilde_expanded(path@, opt_view(home)),
{
    proof {
        reveal_strlit("~");
        reveal_strlit("~/");
        reveal_strlit("");
        assert("~"@ =~= seq!['~']);
        assert("~/"@ =~= seq!['~', '/']);
        assert(""@ =~= Seq::empty());
    }
    match home {
        Some(h) => {
            if str_eq(path, "~") {
                join_path(h, "")
            } else if starts_with(path, "~/") {
                let s = to_chars(path);
                let rest = from_chars(&s, 2, s.len());
                assert(rest@ =~= path@.skip(2));
                join_path(h, rest.as_str())
            } else {
                path.to_owned()
            }
        },
        None => path.to_owned(),
    }
}

/// The components of a path that continues another are those of the other, and those of
/// what comes behind it.
proof fn lemma_spans_join(s: Seq<char>, t: Seq<char>, at: int)
    requires
        0 <= at <= s.len(),
    ensures
        spans_from(s + seq!['/'] + t, at) == spans_from(s, at) + spans_from(
            s + seq!['/'] + t,
            s.len() as int + 1,
        ),
    decreases s.len() + 1 - at,
{
    let all = s + seq!['/'] + t;
    lemma_piece_end(s, at);
    lemma_piece_end_under(s, t, at);
    let end = piece_end(s, at);
    assert(all.subrange(at, end) =~= s.subrange(at, end));
    let here = if is_component(s, at, end) {
        seq![(at, end)]
    } else {
        Seq::empty()
    };
    let rest = spans_from(all, s.len() as int + 1);
    if end < s.len() {
        lemma_spans_join(s, t, end + 1);
        assert(here + (spans_from(s, end + 1) + rest) =~= here + spans_from(s, end + 1) + rest);
    } else {
        assert(spans_from(all, at) == here + spans_from(all, end + 1));
    }
}

/// Law: an entry of a directory has the components of the directory and its own name; it
/// lies in the directory, and its name is what it is called.
pub proof fn law_entry(dir: Seq<char>, name: Seq<char>)
    requires
        dir.len() > 0,
        name.len() > 0,
        forall|i: int| 0 <= i < name.len() ==> #[trigger] name[i] != '/',
        name != seq!['.'],
    ensures
        parts(dir + seq!['/'] + name) == parts(dir).push(name),
        within(dir + seq!['/'] + name, dir),
        !same(dir + seq!['/'] + name, dir),
        name != seq!['.', '.'] ==> name_of(dir + seq!['/'] + name) == Some(name),
{
    let all = dir + seq!['/'] + name;
    let n = dir.len() as int + 1;
    lemma_spans_join(dir, name, 0);
    lemma_spans_under(dir, name, 0);
    lemma_piece_end(all, n);
    assert forall|k: int| n <= k < all.len() implies #[trigger] all[k] != '/' by {
        assert(all[k] == name[k - n]);
    }
    assert(piece_end(all, n) == all.len());
    assert(all.subrange(n, all.len() as int) =~= name);
    assert(spans_from(all, n) =~= seq![(n, all.len() as int)]);
    let short = spans_from(dir, 0);
    let long = spans_from(all, 0);
    assert(all[0] == dir[0]);
    assert forall|i: int| 0 <= i < parts(dir).push(name).len() implies parts(dir).push(name)[i]
        == parts(all)[i] by {
        let k = i - root_part(dir).len();
        if k >= 0 && k < short.len() {
            assert(short[k] == long[k]);
            assert(dir.subrange(short[k].0, short[k].1) =~= all.subrange(long[k].0, long[k].1));
        }
    }
    assert(parts(all) =~= parts(dir).push(name));
    assert(parts(dir) =~= parts(all).take(parts(dir).len() as int));
    if name == seq!['/'] {
        assert(name[0] == '/');
    }
}

/// Law: every path lies in itself, and what lies in a path that lies in a third lies in
/// the third; two paths that lie in each other are the same.
pub proof fn law_within(a: Seq<char>, b: Seq<char>, c: Seq<char>)
    ensures
        within(a, a),
        within(a, b) && within(b, c) ==> within(a, c),
        within(a, b) && within(b, a) ==> same(a, b),
{
    if within(a, b) && within(b, c) {
        assert(parts(c) =~= parts(a).take(parts(c).len() as int));
    }
    if within(a, b) && within(b, a) {
        assert(parts(a) =~= parts(b));
    }
}

/// Law: `~` stands for the home directory, and `~/` for what lies in it; every other path,
/// and every path where the home directory is not known, is meant as it is written.
pub proof fn law_tilde(path: Seq<char>, rest: Seq<char>, home: Seq<char>)
    requires
        home.len() > 0,
        home.last() != '/',
        rest.len() > 0,
        rest[0] != '/',
        path.len() > 0,
        path[0] != '~',
    ensures
        tilde_expanded(seq!['~', '/'] + rest, Some(home)) == home + seq!['/'] + rest,
        same(tilde_expanded(seq!['~'], Some(home)), home),
        tilde_expanded(path, Some(home)) == path,
        tilde_expanded(seq!['~', '/'] + rest, None) == seq!['~', '/'] + rest,
        !within(path, home) ==> tilde_shown(path, Some(home)) == path,
        tilde_shown(path, None) == path,
{
    let full = seq!['~', '/'] + rest;
    assert(full.skip(2) =~= rest);
    assert(seq!['~', '/'].is_prefix_of(full));
    assert(full != seq!['~']) by {
        assert(full.len() > 1);
    }
    if seq!['~', '/'].is_prefix_of(path) {
        assert(path[0] == seq!['~', '/'][0]);
    }
    if path == seq!['~'] {
        assert(path[0] == '~');
    }
    let base = home + seq!['/'];
    assert(joined_path(home, Seq::empty()) =~= home + seq!['/'] + Seq::empty());
    assert(base + Seq::<char>::empty() =~= base);
    lemma_spans_join(home, Seq::empty(), 0);
    let all = home + seq!['/'] + Seq::<char>::empty();
    assert(all =~= base);
    let n = home.len() as int + 1;
    assert(piece_end(all, n) == n);
    assert(spans_from(all, n) =~= Seq::empty());
    lemma_spans_under(home, Seq::empty(), 0);
    let short = spans_from(home, 0);
    let long = spans_from(all, 0);
    assert(long =~= short);
    assert(all[0] == home[0]);
    assert forall|i: int| 0 <= i < parts(home).len() implies parts(home)[i] == parts(all)[i] by {
        let k = i - root_part(home).len();
        if k >= 0 {
            assert(home.subrange(short[k].0, short[k].1) =~= all.subrange(long[k].0, long[k].1));
        }
    }
    assert(parts(home) =~= parts(all));
}

/// What comes behind the first components of a path that are another path is written as it
/// stands there, from its first component to its last.
pub proof fn lemma_rest_after(
    home: Seq<char>,
    first: Seq<char>,
    tail: Seq<char>,
    dir: Seq<char>,
    last: Seq<char>,
)
    requires
        home.len() > 0,
        home + seq!['/'] + (first + tail) == dir + seq!['/'] + last,
        first.len() > 0 && first != seq!['.'],
        forall|i: int| 0 <= i < first.len() ==> #[trigger] first[i] != '/',
        tail.len() > 0 ==> tail[0] == '/',
        last.len() > 0 && last != seq!['.'],
        forall|i: int| 0 <= i < last.len() ==> #[trigger] last[i] != '/',
    ensures
        within(home + seq!['/'] + (first + tail), home),
        rest_after(home + seq!['/'] + (first + tail), parts(home).len() as int) == first + tail,
{
    let rest = first + tail;
    let all = home + seq!['/'] + rest;
    let n = home.len() as int + 1;
    let m = dir.len() as int + 1;
    lemma_spans_join(home, rest, 0);
    lemma_spans_under(home, rest, 0);
    lemma_spans_join(dir, last, 0);
    lemma_piece_end(all, n);
    lemma_piece_end(all, m);
    let e = n + first.len();
    assert forall|k: int| n <= k < e implies #[trigger] all[k] != '/' by {
        assert(all[k] == first[k - n]);
    }
    if tail.len() > 0 {
        assert(all[e] == tail[0]);
    }
    assert(piece_end(all, n) == e);
    assert(all.subrange(n, e) =~= first);
    assert forall|k: int| m <= k < all.len() implies #[trigger] all[k] != '/' by {
        assert(all[k] == (dir + seq!['/'] + last)[k]);
        assert(all[k] == last[k - m]);
    }
    assert(piece_end(all, m) == all.len());
    assert(all.subrange(m, all.len() as int) =~= last);
    assert(spans_from(all, m) =~= seq![(m, all.len() as int)]);
    let short = spans_from(home, 0);
    let long = spans_from(all, 0);
    assert(long.last() == (m, all.len() as int));
    assert(spans_from(all, n)[0] == (n, e));
    assert(long[short.len() as int] == (n, e));
    assert(all[0] == home[0]);
    assert forall|i: int| 0 <= i < parts(home).len() implies parts(home)[i] == parts(all)[i] by {
        let k = i - root_part(home).len();
        if k >= 0 {
            assert(short[k] == long[k]);
            assert(home.subrange(short[k].0, short[k].1) =~= all.subrange(long[k].0, long[k].1));
        }
    }
    assert(parts(home) =~= parts(all).take(parts(home).len() as int));
    assert(all.subrange(n, all.len() as int) =~= rest);
}

/// Law: what lies below the home directory is shown behind `~/` by the way that leads there
/// from the home directory, and what is shown so is read as the same path. The way starts
/// with the name `first`; the whole path ends in the name `last`.
pub proof fn law_shown(
    home: Seq<char>,
    first: Seq<char>,
    tail: Seq<char>,
    dir: Seq<char>,
    last: Seq<char>,
)
    requires
        home.len() > 0,
        home.last() != '/',
        home + seq!['/'] + (first + tail) == dir + seq!['/'] + last,
        first.len() > 0 && first != seq!['.'],
        forall|i: int| 0 <= i < first.len() ==> #[trigger] first[i] != '/',
        tail.len() > 0 ==> tail[0] == '/',
        last.len() > 0 && last != seq!['.'],
        forall|i: int| 0 <= i < last.len() ==> #[trigger] last[i] != '/',
    ensures
        ({
            let path = home + seq!['/'] + (first + tail);
            &&& tilde_shown(path, Some(home)) == seq!['~', '/'] + (first + tail)
            &&& tilde_expanded(tilde_shown(path, Some(home)), Some(home)) == path
        }),
{
    let rest = first + tail;
    lemma_rest_after(home, first, tail, dir, last);
    let shown = seq!['~', '/'] + rest;
    assert(shown.skip(2) =~= rest);
    assert(seq!['~', '/'].is_prefix_of(shown));
    assert(shown.len() > 1);
    assert(rest[0] == first[0]);
}

} // verus!
