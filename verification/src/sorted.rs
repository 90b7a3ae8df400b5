//! Lists in the order of their keys.

use crate::order::{
    char_lt,
    lemma_path_order,
    lex,
    part_lt,
    path_lt,
    path_relation,
    text_lt,
    text_relation,
    Relation,
};
use crate::path::{parts, same};
use crate::table::{lemma_lookup_push, lookup};
use crate::text::views;
use vstd::prelude::*;

verus! {

/// A list in text order with one more entry: behind all that do not come after it.
pub open spec fn text_inserted<T>(list: Seq<(Seq<char>, T)>, key: Seq<char>, v: T) -> Seq<
    (Seq<char>, T),
>
    decreases list.len(),
{
    if list.len() == 0 || !text_lt(key, list.last().0) {
        list.push((key, v))
    } else {
        text_inserted(list.drop_last(), key, v).push(list.last())
    }
}

/// The rows in text order of their keys.
pub open spec fn text_sorted<T>(rows: Seq<(Seq<char>, T)>) -> Seq<(Seq<char>, T)>
    decreases rows.len(),
{
    if rows.len() == 0 {
        rows
    } else {
        text_inserted(text_sorted(rows.drop_last()), rows.last().0, rows.last().1)
    }
}

/// A list in path order with one more entry. Paths with the same components share one
/// entry, which keeps its first spelling and takes the latest value.
pub open spec fn path_inserted<T>(list: Seq<(Seq<char>, T)>, key: Seq<char>, v: T) -> Seq<
    (Seq<char>, T),
>
    decreases list.len(),
{
    if list.len() == 0 || path_lt(key, list[0].0) {
        seq![(key, v)] + list
    } else if same(key, list[0].0) {
        list.update(0, (list[0].0, v))
    } else {
        seq![list[0]] + path_inserted(list.skip(1), key, v)
    }
}

/// The rows in path order of their keys, one entry for each path.
pub open spec fn path_sorted<T>(rows: Seq<(Seq<char>, T)>) -> Seq<(Seq<char>, T)>
    decreases rows.len(),
{
    if rows.len() == 0 {
        rows
    } else {
        path_inserted(path_sorted(rows.drop_last()), rows.last().0, rows.last().1)
    }
}

/// Whether each path comes before those behind it.
pub open spec fn path_ascending<T>(list: Seq<(Seq<char>, T)>) -> bool {
    forall|i: int, j: int|
        0 <= i < j < list.len() ==> path_lt((#[trigger] list[i]).0, (#[trigger] list[j]).0)
}

/// Whether no text comes before one in front of it.
pub open spec fn text_ascending<T>(list: Seq<(Seq<char>, T)>) -> bool {
    forall|i: int, j: int|
        0 <= i < j < list.len() ==> !text_lt((#[trigger] list[j]).0, (#[trigger] list[i]).0)
}

/// Inserting where nothing before comes after the new entry and the next one does.
proof fn lemma_text_inserted_at<T>(list: Seq<(Seq<char>, T)>, key: Seq<char>, v: T, at: int)
    requires
        0 <= at <= list.len(),
        forall|i: int| at <= i < list.len() ==> text_lt(key, (#[trigger] list[i]).0),
        at > 0 ==> !text_lt(key, list[at - 1].0),
    ensures
        text_inserted(list, key, v) == list.insert(at, (key, v)),
    decreases list.len(),
{
    if at < list.len() {
        let front = list.drop_last();
        assert(text_lt(key, list[list.len() - 1].0));
        assert(forall|i: int| 0 <= i < front.len() ==> #[trigger] front[i] == list[i]);
        lemma_text_inserted_at(front, key, v, at);
        assert(list.insert(at, (key, v)) =~= front.insert(at, (key, v)).push(list.last()));
    } else {
        assert(list.insert(at, (key, v)) =~= list.push((key, v)));
    }
}

/// Puts rows in text order of their keys, equals as they were.
pub fn text_sort<V: View>(rows: Vec<(String, V)>) -> (r: Vec<(String, V)>)
    ensures
        views(r@) == text_sorted(views(rows@)),
{
    let mut rest = rows;
    let ghost all = views(rest@);
    let mut queue: Vec<(String, V)> = Vec::new();
    reverse_into(&mut rest, &mut queue);
    let mut out: Vec<(String, V)> = Vec::new();
    let ghost mut done: Seq<(Seq<char>, V::V)> = Seq::empty();
    assert(views(out@) =~= text_sorted(done));
    assert(done + views(queue@).reverse() =~= all);
    while queue.len() > 0
        invariant
            done + views(queue@).reverse() == all,
            views(out@) == text_sorted(done),
        decreases queue@.len(),
    {
        let ghost b = views(queue@);
        let row = queue.pop().unwrap();
        let ghost next = done.push(row@);
        proof {
            assert(b =~= views(queue@).push(row@));
            assert(b.reverse() =~= seq![row@] + views(queue@).reverse());
            assert(next + views(queue@).reverse() =~= done + b.reverse());
            assert(next.drop_last() =~= done);
        }
        let ghost list = views(out@);
        let mut at: usize = out.len();
        while at > 0 && text_relation(row.0.as_str(), out[at - 1].0.as_str()) == Relation::Before
            invariant
                list == views(out@),
                at <= list.len(),
                forall|i: int| at <= i < list.len() ==> text_lt(row.0@, (#[trigger] list[i]).0),
            decreases at,
        {
            at = at - 1;
        }
        proof {
            if at > 0 {
                assert(list[at - 1].0 == out@[at - 1].0@);
            }
            lemma_text_inserted_at(list, row.0@, row.1@, at as int);
        }
        let ghost v = row@;
        out.insert(at, row);
        assert(views(out@) =~= list.insert(at as int, v));
        proof {
            done = next;
        }
    }
    assert(done =~= all);
    out
}

/// Moves all of `from` to `to`, last first.
pub fn reverse_into<T: View>(from: &mut Vec<T>, to: &mut Vec<T>)
    requires
        old(to)@.len() == 0,
    ensures
        final(from)@.len() == 0,
        views(final(to)@).reverse() == views(old(from)@),
{
    let ghost all = views(from@);
    assert(views(from@) + views(to@).reverse() =~= all);
    while from.len() > 0
        invariant
            views(from@) + views(to@).reverse() == all,
        decreases from@.len(),
    {
        let ghost (a, b) = (views(from@), views(to@));
        let x = from.pop().unwrap();
        proof {
            crate::text::lemma_views_push(to@, x);
            assert(a =~= views(from@).push(x@));
            assert(b.push(x@).reverse() =~= seq![x@] + b.reverse());
            assert(views(from@) + (seq![x@] + b.reverse()) =~= a + b.reverse());
        }
        to.push(x);
    }
    assert(views(to@).reverse() =~= all);
}

/// Of two paths one comes first, or they are the same; never two of these.
proof fn lemma_path_trichotomy(a: Seq<char>, b: Seq<char>)
    ensures
        path_lt(a, b) || same(a, b) || path_lt(b, a),
        !(path_lt(a, b) && same(a, b)),
        !(path_lt(a, b) && path_lt(b, a)),
{
    lemma_path_order();
    let l = lex(part_lt());
    assert(!l(parts(a), parts(a)));
    assert(l(parts(a), parts(b)) == path_lt(a, b));
    assert(l(parts(b), parts(a)) == path_lt(b, a));
    if path_lt(a, b) && path_lt(b, a) {
        assert(l(parts(a), parts(a)));
    }
}

/// The order of paths is transitive.
proof fn lemma_path_transitive(a: Seq<char>, b: Seq<char>, c: Seq<char>)
    requires
        path_lt(a, b) || same(a, b),
        path_lt(b, c) || same(b, c),
    ensures
        path_lt(a, c) || same(a, c),
        path_lt(a, b) || path_lt(b, c) ==> path_lt(a, c),
{
    lemma_path_order();
    let l = lex(part_lt());
    assert(l(parts(a), parts(b)) == path_lt(a, b));
    assert(l(parts(b), parts(c)) == path_lt(b, c));
    assert(l(parts(a), parts(c)) == path_lt(a, c));
}

/// Inserting behind all that comes before the new path.
proof fn lemma_path_inserted_at<T>(list: Seq<(Seq<char>, T)>, key: Seq<char>, v: T, at: int)
    requires
        0 <= at <= list.len(),
        forall|i: int| 0 <= i < at ==> path_lt((#[trigger] list[i]).0, key),
    ensures
        at == list.len() || path_lt(key, list[at].0) ==> path_inserted(list, key, v)
            == list.insert(at, (key, v)),
        at < list.len() && same(key, list[at].0) ==> path_inserted(list, key, v) == list.update(
            at,
            (list[at].0, v),
        ),
    decreases at,
{
    if at == 0 {
        if list.len() > 0 {
            lemma_path_trichotomy(key, list[0].0);
        }
        assert(seq![(key, v)] + list =~= list.insert(0, (key, v)));
    } else {
        lemma_path_trichotomy(list[0].0, key);
        assert(same(key, list[0].0) == same(list[0].0, key));
        let rest = list.skip(1);
        assert(forall|i: int| 0 <= i < rest.len() ==> #[trigger] rest[i] == list[i + 1]);
        lemma_path_inserted_at(rest, key, v, at - 1);
        assert(seq![list[0]] + rest.insert(at - 1, (key, v)) =~= list.insert(at, (key, v)));
        if at < list.len() {
            assert(seq![list[0]] + rest.update(at - 1, (list[at].0, v)) =~= list.update(
                at,
                (list[at].0, v),
            ));
        }
    }
}

/// Where in an ascending list the paths that come before `key` end.
fn path_place<V: View>(list: &Vec<(String, V)>, key: &str) -> (r: usize)
    requires
        path_ascending(views(list@)),
    ensures
        r <= list@.len(),
        forall|i: int| 0 <= i < r ==> path_lt((#[trigger] views(list@)[i]).0, key@),
        r < list@.len() ==> !path_lt(views(list@)[r as int].0, key@),
{
    let ghost all = views(list@);
    let mut lo: usize = 0;
    let mut hi: usize = list.len();
    while lo < hi
        invariant
            all == views(list@),
            path_ascending(all),
            lo <= hi <= all.len(),
            forall|i: int| 0 <= i < lo ==> path_lt((#[trigger] all[i]).0, key@),
            hi < all.len() ==> !path_lt(all[hi as int].0, key@),
        decreases hi - lo,
    {
        let mid: usize = lo + (hi - lo) / 2;
        assert(all[mid as int].0 == list@[mid as int].0@);
        if path_relation(list[mid].0.as_str(), key) == Relation::Before {
            proof {
                assert forall|i: int| 0 <= i < mid + 1 implies path_lt((#[trigger] all[i]).0, key@) by {
                    if i < mid {
                        assert(path_lt(all[i].0, all[mid as int].0));
                        lemma_path_transitive(all[i].0, all[mid as int].0, key@);
                    }
                }
            }
            lo = mid + 1;
        } else {
            hi = mid;
        }
    }
    lo
}

/// Puts rows in path order of their keys, one entry for each path.
pub fn path_sort<V: View>(rows: Vec<(String, V)>) -> (r: Vec<(String, V)>)
    ensures
        views(r@) == path_sorted(views(rows@)),
        path_ascending(views(r@)),
{
    let mut rest = rows;
    let ghost all = views(rest@);
    let mut queue: Vec<(String, V)> = Vec::new();
    reverse_into(&mut rest, &mut queue);
    let mut out: Vec<(String, V)> = Vec::new();
    let ghost mut done: Seq<(Seq<char>, V::V)> = Seq::empty();
    assert(views(out@) =~= path_sorted(done));
    assert(done + views(queue@).reverse() =~= all);
    while queue.len() > 0
        invariant
            done + views(queue@).reverse() == all,
            views(out@) == path_sorted(done),
            path_ascending(views(out@)),
        decreases queue@.len(),
    {
        let ghost b = views(queue@);
        let row = queue.pop().unwrap();
        let ghost next = done.push(row@);
        proof {
            assert(b =~= views(queue@).push(row@));
            assert(b.reverse() =~= seq![row@] + views(queue@).reverse());
            assert(next + views(queue@).reverse() =~= done + b.reverse());
            assert(next.drop_last() =~= done);
        }
        let ghost list = views(out@);
        let ghost key = row.0@;
        let ghost v = row.1@;
        let at: usize = path_place(&out, row.0.as_str());
        proof {
            lemma_path_inserted_at(list, key, v, at as int);
            if at < list.len() {
                lemma_path_trichotomy(key, list[at as int].0);
            }
        }
        if at < out.len() && path_relation(row.0.as_str(), out[at].0.as_str()) == Relation::Same {
            let name = out[at].0.clone();
            assert(name@ == list[at as int].0);
            out.set(at, (name, row.1));
            assert(views(out@) =~= list.update(at as int, (list[at as int].0, v)));
            assert forall|i: int, j: int| 0 <= i < j < views(out@).len() implies path_lt(
                (#[trigger] views(out@)[i]).0,
                (#[trigger] views(out@)[j]).0,
            ) by {
                assert(path_lt(list[i].0, list[j].0));
            }
        } else {
            if at < out.len() {
                assert(path_lt(key, list[at as int].0));
            }
            out.insert(at, row);
            let ghost grown = list.insert(at as int, (key, v));
            assert(views(out@) =~= grown);
            assert forall|i: int, j: int| 0 <= i < j < grown.len() implies path_lt(
                (#[trigger] grown[i]).0,
                (#[trigger] grown[j]).0,
            ) by {
                if i < at && j > at {
                    assert(path_lt(list[i].0, list[j - 1].0));
                } else if i < at && j < at {
                    assert(path_lt(list[i].0, list[j].0));
                } else if i < at {
                    assert(path_lt(list[i].0, key));
                } else if i == at {
                    assert(path_lt(key, list[at as int].0));
                    if j - 1 > at {
                        assert(path_lt(list[at as int].0, list[j - 1].0));
                        lemma_path_transitive(key, list[at as int].0, list[j - 1].0);
                    }
                } else {
                    assert(path_lt(list[i - 1].0, list[j - 1].0));
                }
            }
        }
        proof {
            done = next;
        }
    }
    assert(done =~= all);
    out
}

/// What an inserted entry changes: what is under its key, unless a row in front of it
/// was under that key already.
proof fn lemma_text_inserted<T>(list: Seq<(Seq<char>, T)>, key: Seq<char>, v: T, other: Seq<char>)
    requires
        text_ascending(list),
    ensures
        text_ascending(text_inserted(list, key, v)),
        text_inserted(list, key, v).len() == list.len() + 1,
        lookup(text_inserted(list, key, v), other) == if lookup(list, other) is Some {
            lookup(list, other)
        } else if key == other {
            Some(v)
        } else {
            None
        },
        forall|i: int|
            0 <= i < text_inserted(list, key, v).len() ==> ((#[trigger] text_inserted(
                list,
                key,
                v,
            )[i]).0 == key || exists|j: int|
                0 <= j < list.len() && #[trigger] list[j] == text_inserted(list, key, v)[i]),
    decreases list.len(),
{
    lemma_path_order();
    let l = lex(char_lt());
    assert(forall|a: Seq<char>, b: Seq<char>| #[trigger] l(a, b) == text_lt(a, b));
    if list.len() == 0 || !text_lt(key, list.last().0) {
        lemma_lookup_push(list, (key, v), other);
        let all = list.push((key, v));
        assert forall|i: int, j: int| 0 <= i < j < all.len() implies !text_lt(
            (#[trigger] all[j]).0,
            (#[trigger] all[i]).0,
        ) by {
            if j == list.len() {
                if text_lt(key, list[i].0) {
                    if i < list.len() - 1 {
                        assert(!text_lt(list[list.len() - 1].0, list[i].0));
                        let (x, y, z) = (key, list[i].0, list.last().0);
                        assert(l(x, y));
                        if y != z {
                            assert(l(y, z) || l(z, y));
                            assert(l(x, z));
                        }
                    }
                }
            } else {
                assert(!text_lt(list[j].0, list[i].0));
            }
        }
        assert forall|i: int| 0 <= i < all.len() implies ((#[trigger] all[i]).0 == key || exists|
            j: int,
        |
            0 <= j < list.len() && #[trigger] list[j] == all[i]) by {
            if i < list.len() {
                assert(list[i] == all[i]);
            }
        }
    } else {
        let front = list.drop_last();
        let last = list.last();
        assert(forall|i: int| 0 <= i < front.len() ==> #[trigger] front[i] == list[i]);
        lemma_text_inserted(front, key, v, other);
        let part = text_inserted(front, key, v);
        let all = part.push(last);
        assert(list =~= front.push(last));
        lemma_lookup_push(front, last, other);
        lemma_lookup_push(part, last, other);
        assert(!l(key, key));
        assert forall|i: int, j: int| 0 <= i < j < all.len() implies !text_lt(
            (#[trigger] all[j]).0,
            (#[trigger] all[i]).0,
        ) by {
            if j == part.len() {
                assert(part[i].0 == key || exists|k: int|
                    0 <= k < front.len() && #[trigger] front[k] == part[i]);
                if part[i].0 == key {
                    if l(last.0, key) {
                        assert(l(key, last.0));
                        assert(l(key, key));
                    }
                } else {
                    let k = choose|k: int| 0 <= k < front.len() && #[trigger] front[k] == part[i];
                    assert(!text_lt(list[list.len() - 1].0, list[k].0));
                }
            } else {
                assert(!text_lt(part[j].0, part[i].0));
            }
        }
        assert forall|i: int| 0 <= i < all.len() implies ((#[trigger] all[i]).0 == key || exists|
            j: int,
        |
            0 <= j < list.len() && #[trigger] list[j] == all[i]) by {
            if i < part.len() {
                if part[i].0 != key {
                    let k = choose|k: int| 0 <= k < front.len() && #[trigger] front[k] == part[i];
                    assert(list[k] == all[i]);
                }
            } else {
                assert(list[list.len() - 1] == all[i]);
            }
        }
    }
}

/// Law: rows in text order are ascending, are as many as before, and hold under each
/// key what it held before.
pub proof fn law_text_sorted<T>(rows: Seq<(Seq<char>, T)>, key: Seq<char>)
    ensures
        text_ascending(text_sorted(rows)),
        text_sorted(rows).len() == rows.len(),
        lookup(text_sorted(rows), key) == lookup(rows, key),
    decreases rows.len(),
{
    if rows.len() > 0 {
        let front = rows.drop_last();
        law_text_sorted(front, key);
        lemma_text_inserted(text_sorted(front), rows.last().0, rows.last().1, key);
        assert(rows =~= front.push(rows.last()));
        lemma_lookup_push(front, rows.last(), key);
    }
}

/// Whether a list has the value `v` for a path, however the path is spelled.
pub open spec fn has_for_path<T>(list: Seq<(Seq<char>, T)>, path: Seq<char>, v: T) -> bool {
    exists|i: int| 0 <= i < list.len() && same((#[trigger] list[i]).0, path) && list[i].1 == v
}

/// What inserting an entry into an ascending list leaves.
proof fn lemma_path_inserted<T>(list: Seq<(Seq<char>, T)>, key: Seq<char>, v: T)
    requires
        path_ascending(list),
    ensures
        path_ascending(path_inserted(list, key, v)),
        forall|i: int|
            0 <= i < path_inserted(list, key, v).len() ==> ((#[trigger] path_inserted(
                list,
                key,
                v,
            )[i]).0 == key || exists|j: int|
                0 <= j < list.len() && (#[trigger] list[j]).0 == path_inserted(list, key, v)[i].0),
        forall|path: Seq<char>, w: T| #[trigger]
            has_for_path(path_inserted(list, key, v), path, w) <==> if same(path, key) {
                w == v
            } else {
                has_for_path(list, path, w)
            },
    decreases list.len(),
{
    let all = path_inserted(list, key, v);
    if list.len() == 0 || path_lt(key, list[0].0) {
        assert(all[0] == (key, v));
        assert(forall|i: int| 0 < i < all.len() ==> #[trigger] all[i] == list[i - 1]);
        assert forall|i: int, j: int| 0 <= i < j < all.len() implies path_lt(
            (#[trigger] all[i]).0,
            (#[trigger] all[j]).0,
        ) by {
            if i > 0 {
                assert(path_lt(list[i - 1].0, list[j - 1].0));
            } else if j > 1 {
                assert(path_lt(list[0].0, list[j - 1].0));
                lemma_path_transitive(key, list[0].0, list[j - 1].0);
            }
        }
        assert forall|path: Seq<char>, w: T| #[trigger]
            has_for_path(all, path, w) <==> if same(path, key) {
                w == v
            } else {
                has_for_path(list, path, w)
            } by {
            if has_for_path(all, path, w) {
                let i = choose|i: int|
                    0 <= i < all.len() && same((#[trigger] all[i]).0, path) && all[i].1 == w;
                if i > 0 {
                    assert(path_lt(all[0].0, all[i].0));
                    lemma_path_trichotomy(key, list[i - 1].0);
                    assert(same(list[i - 1].0, path));
                }
            }
            if same(path, key) && w == v {
                assert(same(all[0].0, path));
            }
            if !same(path, key) && has_for_path(list, path, w) {
                let i = choose|i: int|
                    0 <= i < list.len() && same((#[trigger] list[i]).0, path) && list[i].1 == w;
                assert(all[i + 1] == list[i]);
            }
        }
    } else if same(key, list[0].0) {
        assert(forall|i: int| 0 < i < all.len() ==> #[trigger] all[i] == list[i]);
        assert(all[0].0 == list[0].0);
        assert forall|i: int, j: int| 0 <= i < j < all.len() implies path_lt(
            (#[trigger] all[i]).0,
            (#[trigger] all[j]).0,
        ) by {
            assert(path_lt(list[i].0, list[j].0));
        }
        assert forall|path: Seq<char>, w: T| #[trigger]
            has_for_path(all, path, w) <==> if same(path, key) {
                w == v
            } else {
                has_for_path(list, path, w)
            } by {
            if has_for_path(all, path, w) {
                let i = choose|i: int|
                    0 <= i < all.len() && same((#[trigger] all[i]).0, path) && all[i].1 == w;
                if i > 0 {
                    assert(path_lt(list[0].0, list[i].0));
                    lemma_path_trichotomy(list[0].0, list[i].0);
                    assert(same(list[i].0, path));
                }
            }
            if same(path, key) && w == v {
                assert(same(all[0].0, path));
            }
            if !same(path, key) && has_for_path(list, path, w) {
                let i = choose|i: int|
                    0 <= i < list.len() && same((#[trigger] list[i]).0, path) && list[i].1 == w;
                assert(all[i] == list[i]);
            }
        }
    } else {
        let rest = list.skip(1);
        let part = path_inserted(rest, key, v);
        assert(forall|i: int| 0 <= i < rest.len() ==> #[trigger] rest[i] == list[i + 1]);
        assert(path_ascending(rest)) by {
            assert forall|i: int, j: int| 0 <= i < j < rest.len() implies path_lt(
                (#[trigger] rest[i]).0,
                (#[trigger] rest[j]).0,
            ) by {
                assert(path_lt(list[i + 1].0, list[j + 1].0));
            }
        }
        lemma_path_inserted(rest, key, v);
        lemma_path_trichotomy(key, list[0].0);
        assert(path_lt(list[0].0, key));
        assert(all[0] == list[0]);
        assert(forall|i: int| 0 < i < all.len() ==> #[trigger] all[i] == part[i - 1]);
        assert forall|i: int, j: int| 0 <= i < j < all.len() implies path_lt(
            (#[trigger] all[i]).0,
            (#[trigger] all[j]).0,
        ) by {
            if i > 0 {
                assert(path_lt(part[i - 1].0, part[j - 1].0));
            } else if part[j - 1].0 != key {
                let k = choose|k: int|
                    0 <= k < rest.len() && (#[trigger] rest[k]).0 == part[j - 1].0;
                assert(path_lt(list[0].0, list[k + 1].0));
            }
        }
        assert forall|i: int| 0 <= i < all.len() implies ((#[trigger] all[i]).0 == key || exists|
            j: int,
        |
            0 <= j < list.len() && (#[trigger] list[j]).0 == all[i].0) by {
            if i == 0 {
                assert(list[0].0 == all[0].0);
            } else if part[i - 1].0 != key {
                let k = choose|k: int|
                    0 <= k < rest.len() && (#[trigger] rest[k]).0 == part[i - 1].0;
                assert(list[k + 1].0 == all[i].0);
            }
        }
        assert forall|path: Seq<char>, w: T| #[trigger]
            has_for_path(all, path, w) <==> if same(path, key) {
                w == v
            } else {
                has_for_path(list, path, w)
            } by {
            assert(has_for_path(part, path, w) <==> if same(path, key) {
                w == v
            } else {
                has_for_path(rest, path, w)
            });
            if has_for_path(all, path, w) {
                let i = choose|i: int|
                    0 <= i < all.len() && same((#[trigger] all[i]).0, path) && all[i].1 == w;
                if i > 0 {
                    assert(same(part[i - 1].0, path));
                    if !same(path, key) {
                        let k = choose|k: int|
                            0 <= k < rest.len() && same((#[trigger] rest[k]).0, path)
                                && rest[k].1 == w;
                        assert(same(list[k + 1].0, path));
                    }
                } else {
                    assert(same(list[0].0, path));
                }
            }
            if has_for_path(part, path, w) {
                let i = choose|i: int|
                    0 <= i < part.len() && same((#[trigger] part[i]).0, path) && part[i].1 == w;
                assert(all[i + 1] == part[i]);
            }
            if !same(path, key) && has_for_path(list, path, w) {
                let i = choose|i: int|
                    0 <= i < list.len() && same((#[trigger] list[i]).0, path) && list[i].1 == w;
                if i > 0 {
                    assert(rest[i - 1] == list[i]);
                } else {
                    assert(all[0] == list[0]);
                }
            }
        }
    }
}

/// Law: rows in path order are ascending, with one entry for each path, however it is
/// spelled; the entry has the value of the last row with that path, and there is none
/// where there is no such row.
pub proof fn law_path_sorted<T>(rows: Seq<(Seq<char>, T)>, path: Seq<char>, v: T)
    ensures
        path_ascending(path_sorted(rows)),
        has_for_path(path_sorted(rows), path, v) <==> exists|k: int|
            0 <= k < rows.len() && same((#[trigger] rows[k]).0, path) && rows[k].1 == v && forall|
                m: int,
            |
                k < m < rows.len() ==> !same((#[trigger] rows[m]).0, path),
    decreases rows.len(),
{
    if rows.len() > 0 {
        let front = rows.drop_last();
        let last = rows.last();
        let n = rows.len() - 1;
        law_path_sorted(front, path, v);
        lemma_path_inserted(path_sorted(front), last.0, last.1);
        assert(has_for_path(path_sorted(rows), path, v) <==> if same(path, last.0) {
            v == last.1
        } else {
            has_for_path(path_sorted(front), path, v)
        });
        assert(rows[n] == last);
        assert(forall|k: int| 0 <= k < n ==> #[trigger] front[k] == rows[k]);
        if has_for_path(path_sorted(rows), path, v) {
            if same(path, last.0) {
                assert(same(rows[n].0, path) && rows[n].1 == v);
            } else {
                let k = choose|k: int|
                    0 <= k < front.len() && same((#[trigger] front[k]).0, path) && front[k].1 == v
                        && forall|m: int|
                        k < m < front.len() ==> !same((#[trigger] front[m]).0, path);
                assert(same(rows[k].0, path) && rows[k].1 == v);
                assert forall|m: int| k < m < rows.len() implies !same(
                    (#[trigger] rows[m]).0,
                    path,
                ) by {
                    if m < n {
                        assert(!same(front[m].0, path));
                    }
                }
            }
        }
        if exists|k: int|
            0 <= k < rows.len() && same((#[trigger] rows[k]).0, path) && rows[k].1 == v && forall|
                m: int,
            |
                k < m < rows.len() ==> !same((#[trigger] rows[m]).0, path) {
            let k = choose|k: int|
                0 <= k < rows.len() && same((#[trigger] rows[k]).0, path) && rows[k].1 == v
                    && forall|m: int|
                    k < m < rows.len() ==> !same((#[trigger] rows[m]).0, path);
            if k < n {
                assert(!same(rows[n].0, path));
                assert(same(front[k].0, path) && front[k].1 == v);
                assert forall|m: int| k < m < front.len() implies !same(
                    (#[trigger] front[m]).0,
                    path,
                ) by {
                    assert(!same(rows[m].0, path));
                }
            }
        }
    }
}

} // verus!
