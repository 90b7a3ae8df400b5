//! Orders on texts and paths.

use crate::path::{components, is_name, parts, same};
use crate::text::{str_eq, texts, to_chars};
use vstd::prelude::*;

verus! {

/// Whether `lt` is a strict order in which any two different values are ordered.
pub open spec fn strict_order<T>(lt: spec_fn(T, T) -> bool) -> bool {
    &&& forall|a: T| !#[trigger] lt(a, a)
    &&& forall|a: T, b: T| a != b ==> #[trigger] lt(a, b) || lt(b, a)
    &&& forall|a: T, b: T, c: T| #[trigger] lt(a, b) && #[trigger] lt(b, c) ==> lt(a, c)
}

/// The dictionary order that `lt` gives to sequences.
pub open spec fn lex_lt<T>(a: Seq<T>, b: Seq<T>, lt: spec_fn(T, T) -> bool) -> bool
    decreases a.len(),
{
    if b.len() == 0 {
        false
    } else if a.len() == 0 {
        true
    } else if a[0] == b[0] {
        lex_lt(a.skip(1), b.skip(1), lt)
    } else {
        lt(a[0], b[0])
    }
}

/// The dictionary order that `lt` gives to sequences, as a relation.
pub open spec fn lex<T>(lt: spec_fn(T, T) -> bool) -> spec_fn(Seq<T>, Seq<T>) -> bool {
    |a: Seq<T>, b: Seq<T>| lex_lt(a, b, lt)
}

/// No sequence comes before itself.
proof fn lemma_lex_irreflexive<T>(a: Seq<T>, lt: spec_fn(T, T) -> bool)
    ensures
        !lex_lt(a, a, lt),
    decreases a.len(),
{
    if a.len() > 0 {
        lemma_lex_irreflexive(a.skip(1), lt);
    }
}

/// Of two different sequences one comes first.
proof fn lemma_lex_total<T>(a: Seq<T>, b: Seq<T>, lt: spec_fn(T, T) -> bool)
    requires
        strict_order(lt),
        a != b,
    ensures
        lex_lt(a, b, lt) || lex_lt(b, a, lt),
    decreases a.len(),
{
    if a.len() > 0 && b.len() > 0 {
        if a[0] == b[0] {
            if a.skip(1) == b.skip(1) {
                assert(a =~= seq![a[0]] + a.skip(1));
                assert(b =~= seq![b[0]] + b.skip(1));
            }
            lemma_lex_total(a.skip(1), b.skip(1), lt);
        } else {
            assert(lt(a[0], b[0]) || lt(b[0], a[0]));
        }
    } else if a.len() == 0 && b.len() == 0 {
        assert(a =~= b);
    }
}

/// The dictionary order is transitive.
proof fn lemma_lex_transitive<T>(a: Seq<T>, b: Seq<T>, c: Seq<T>, lt: spec_fn(T, T) -> bool)
    requires
        strict_order(lt),
        lex_lt(a, b, lt),
        lex_lt(b, c, lt),
    ensures
        lex_lt(a, c, lt),
    decreases a.len(),
{
    if a.len() > 0 {
        if a[0] == b[0] && b[0] == c[0] {
            lemma_lex_transitive(a.skip(1), b.skip(1), c.skip(1), lt);
        } else if a[0] == b[0] {
            assert(lt(a[0], c[0]));
        } else if b[0] == c[0] {
            assert(lt(a[0], c[0]));
        } else {
            assert(lt(a[0], b[0]) && lt(b[0], c[0]));
            assert(lt(a[0], c[0]));
            assert(!lt(a[0], a[0]));
        }
    }
}

/// The dictionary order is a strict order in which any two sequences are ordered.
pub proof fn lemma_lex_strict<T>(lt: spec_fn(T, T) -> bool)
    requires
        strict_order(lt),
    ensures
        strict_order(lex(lt)),
{
    let l = lex(lt);
    assert forall|a: Seq<T>| !#[trigger] l(a, a) by {
        lemma_lex_irreflexive(a, lt);
    }
    assert forall|a: Seq<T>, b: Seq<T>| a != b implies #[trigger] l(a, b) || l(b, a) by {
        lemma_lex_total(a, b, lt);
    }
    assert forall|a: Seq<T>, b: Seq<T>, c: Seq<T>| #[trigger]
        l(a, b) && #[trigger] l(b, c) implies l(a, c) by {
        lemma_lex_transitive(a, b, c, lt);
    }
}

/// The order of characters by code point.
pub open spec fn char_lt() -> spec_fn(char, char) -> bool {
    |a: char, b: char| a < b
}

/// The order of texts: by code point, which is also the order of their bytes.
pub open spec fn text_lt(a: Seq<char>, b: Seq<char>) -> bool {
    lex_lt(a, b, char_lt())
}

/// The place of a component's kind: the root, then `.`, then `..`, then names.
pub open spec fn kind_rank(part: Seq<char>) -> int {
    if is_name(part) {
        3
    } else if part == seq!['/'] {
        0
    } else if part == seq!['.'] {
        1
    } else {
        2
    }
}

/// The order of components: by kind, then by text.
pub open spec fn part_lt() -> spec_fn(Seq<char>, Seq<char>) -> bool {
    |a: Seq<char>, b: Seq<char>|
        kind_rank(a) < kind_rank(b) || (kind_rank(a) == kind_rank(b) && text_lt(a, b))
}

/// The order of paths: component by component.
pub open spec fn path_lt(a: Seq<char>, b: Seq<char>) -> bool {
    lex_lt(parts(a), parts(b), part_lt())
}

/// The orders on characters, components and component lists are strict and total.
pub proof fn lemma_path_order()
    ensures
        strict_order(char_lt()),
        strict_order(lex(char_lt())),
        strict_order(part_lt()),
        strict_order(lex(part_lt())),
{
    assert(strict_order(char_lt()));
    lemma_lex_strict(char_lt());
    let l = lex(char_lt());
    let p = part_lt();
    assert forall|a: Seq<char>| !#[trigger] p(a, a) by {
        assert(!l(a, a));
    }
    assert forall|a: Seq<char>, b: Seq<char>| a != b implies #[trigger] p(a, b) || p(b, a) by {
        assert(l(a, b) || l(b, a));
    }
    assert forall|a: Seq<char>, b: Seq<char>, c: Seq<char>| #[trigger]
        p(a, b) && #[trigger] p(b, c) implies p(a, c) by {
        if kind_rank(a) == kind_rank(b) && kind_rank(b) == kind_rank(c) {
            assert(l(a, b) && l(b, c));
            assert(l(a, c));
        }
    }
    lemma_lex_strict(part_lt());
}

/// How one value stands to another.
#[derive(Clone, Copy, PartialEq, Eq, Structural, Debug)]
pub enum Relation {
    /// It comes first.
    Before,
    /// They count as one.
    Same,
    /// It comes second.
    After,
}

/// Compares two texts.
pub fn text_relation(a: &str, b: &str) -> (r: Relation)
    ensures
        r == Relation::Before <==> text_lt(a@, b@),
        r == Relation::Same <==> a@ == b@,
        r == Relation::After <==> text_lt(b@, a@),
{
    let ca = to_chars(a);
    let cb = to_chars(b);
    let mut i: usize = 0;
    proof {
        lemma_path_order();
        assert(a@.skip(0) =~= a@);
        assert(b@.skip(0) =~= b@);
        let l = lex(char_lt());
        assert(!l(a@, a@));
        assert(!l(a@, b@) || !l(b@, a@));
    }
    while i < ca.len() && i < cb.len() && ca[i] == cb[i]
        invariant
            ca@ == a@,
            cb@ == b@,
            i <= a@.len(),
            i <= b@.len(),
            a@.take(i as int) == b@.take(i as int),
            text_lt(a@, b@) == text_lt(a@.skip(i as int), b@.skip(i as int)),
            text_lt(b@, a@) == text_lt(b@.skip(i as int), a@.skip(i as int)),
        decreases a@.len() - i,
    {
        assert(a@.skip(i as int).skip(1) =~= a@.skip(i + 1));
        assert(b@.skip(i as int).skip(1) =~= b@.skip(i + 1));
        assert(a@.take(i + 1) =~= a@.take(i as int).push(a@[i as int]));
        assert(b@.take(i + 1) =~= b@.take(i as int).push(b@[i as int]));
        i = i + 1;
    }
    if i >= ca.len() && i >= cb.len() {
        assert(a@.take(i as int) =~= a@);
        assert(b@.take(i as int) =~= b@);
        return Relation::Same;
    }
    if i >= ca.len() {
        return Relation::Before;
    }
    if i >= cb.len() {
        return Relation::After;
    }
    if ca[i] < cb[i] {
        Relation::Before
    } else {
        Relation::After
    }
}

/// The place of a component's kind.
fn kind_of(part: &str) -> (r: u8)
    ensures
        r == kind_rank(part@),
{
    proof {
        reveal_strlit("/");
        reveal_strlit(".");
        reveal_strlit("..");
        assert("/"@ =~= seq!['/']);
        assert("."@ =~= seq!['.']);
        assert(".."@ =~= seq!['.', '.']);
        assert(seq!['/'][0] != seq!['.'][0]);
        assert(seq!['.', '.'].len() == 2);
    }
    if str_eq(part, "/") {
        0
    } else if str_eq(part, ".") {
        1
    } else if str_eq(part, "..") {
        2
    } else {
        3
    }
}

/// Compares two paths, component by component.
pub fn path_relation(a: &str, b: &str) -> (r: Relation)
    ensures
        r == Relation::Before <==> path_lt(a@, b@),
        r == Relation::Same <==> same(a@, b@),
        r == Relation::After <==> path_lt(b@, a@),
{
    let pa = components(a);
    let pb = components(b);
    let ghost sa = parts(a@);
    let ghost sb = parts(b@);
    let ghost lt = part_lt();
    let mut i: usize = 0;
    proof {
        lemma_path_order();
        assert(sa.skip(0) =~= sa);
        assert(sb.skip(0) =~= sb);
        let l = lex(part_lt());
        assert(!l(sa, sa));
        assert(!l(sa, sb) || !l(sb, sa));
    }
    while i < pa.len() && i < pb.len()
        invariant
            strict_order(lt),
            strict_order(lex(char_lt())),
            lt == part_lt(),
            sa == texts(pa@),
            sb == texts(pb@),
            sa == parts(a@),
            sb == parts(b@),
            i <= sa.len(),
            i <= sb.len(),
            sa.take(i as int) == sb.take(i as int),
            !path_lt(a@, b@) || !path_lt(b@, a@),
            path_lt(a@, b@) == lex_lt(sa.skip(i as int), sb.skip(i as int), lt),
            path_lt(b@, a@) == lex_lt(sb.skip(i as int), sa.skip(i as int), lt),
        decreases sa.len() - i,
    {
        let x = pa[i].as_str();
        let y = pb[i].as_str();
        assert(sa.skip(i as int)[0] == x@);
        assert(sb.skip(i as int)[0] == y@);
        let kx = kind_of(x);
        let ky = kind_of(y);
        let rel = text_relation(x, y);
        match rel {
            Relation::Same => {
                assert(sa.skip(i as int).skip(1) =~= sa.skip(i + 1));
                assert(sb.skip(i as int).skip(1) =~= sb.skip(i + 1));
                assert(sa.take(i + 1) =~= sa.take(i as int).push(x@));
                assert(sb.take(i + 1) =~= sb.take(i as int).push(y@));
                i = i + 1;
            },
            Relation::Before => {
                assert(!lex(char_lt())(x@, x@));
                assert(sa[i as int] != sb[i as int]);
                if kx <= ky {
                    return Relation::Before;
                } else {
                    return Relation::After;
                }
            },
            Relation::After => {
                assert(!lex(char_lt())(x@, x@));
                assert(sa[i as int] != sb[i as int]);
                if ky <= kx {
                    return Relation::After;
                } else {
                    return Relation::Before;
                }
            },
        }
    }
    if i >= pa.len() && i >= pb.len() {
        assert(sa.take(i as int) =~= sa);
        assert(sb.take(i as int) =~= sb);
        Relation::Same
    } else if i >= pa.len() {
        Relation::Before
    } else {
        Relation::After
    }
}

} // verus!
