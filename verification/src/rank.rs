//! Ranking: best first, and among equals the one that was found first.

use crate::db::{Found, SearchResult};
use crate::score::{le, lemma_le_total, lemma_le_transitive, score_le};
use crate::text::{lemma_views_push, views};
use vstd::prelude::*;

verus! {

/// Two ranked lists made one: best first, and among equals `a` before `b`.
pub open spec fn merged(a: Seq<Found>, b: Seq<Found>) -> Seq<Found>
    decreases a.len() + b.len(),
{
    if a.len() == 0 {
        b
    } else if b.len() == 0 {
        a
    } else if le(b.last().score, a.last().score) {
        merged(a, b.drop_last()).push(b.last())
    } else {
        merged(a.drop_last(), b).push(a.last())
    }
}

/// A list by rank: each result goes behind all that came earlier and score as much.
pub open spec fn ranked(s: Seq<Found>) -> Seq<Found>
    decreases s.len(),
{
    if s.len() == 0 {
        s
    } else {
        merged(ranked(s.drop_last()), seq![s.last()])
    }
}

/// Whether no result scores more than one before it.
pub open spec fn descending(s: Seq<Found>) -> bool {
    forall|i: int, j: int| 0 <= i <= j < s.len() ==> le(#[trigger] s[j].score, #[trigger] s[i].score)
}

/// Merging does not depend on which two of three lists are merged first.
proof fn lemma_merged_assoc(a: Seq<Found>, b: Seq<Found>, c: Seq<Found>)
    ensures
        merged(a, merged(b, c)) == merged(merged(a, b), c),
    decreases a.len() + b.len() + c.len(),
{
    if a.len() == 0 || b.len() == 0 || c.len() == 0 {
        assert(merged(a, Seq::empty()) == a);
        if c.len() == 0 {
            assert(merged(b, c) == b) by {
                if b.len() == 0 {
                    assert(b =~= c);
                }
            }
            assert(merged(merged(a, b), c) == merged(a, b)) by {
                if merged(a, b).len() == 0 {
                    assert(merged(a, b) =~= c);
                }
            }
        } else if b.len() == 0 && a.len() > 0 {
            assert(merged(b, c) == c);
        }
    } else {
        let x = a.last().score;
        let y = b.last().score;
        let z = c.last().score;
        lemma_le_total(x, y);
        lemma_le_total(y, z);
        lemma_le_total(x, z);
        lemma_merged_assoc(a, b, c.drop_last());
        lemma_merged_assoc(a, b.drop_last(), c);
        lemma_merged_assoc(a.drop_last(), b, c);
        lemma_merged_len(a, b);
        lemma_merged_len(b, c);
        let bc = merged(b, c);
        let ab = merged(a, b);
        if le(z, y) {
            assert(bc.drop_last() =~= merged(b, c.drop_last()));
            if le(z, x) {
                if le(y, x) {
                    assert(ab.last() == b.last());
                } else {
                    assert(ab.last() == a.last());
                }
            } else {
                if le(y, x) {
                    lemma_le_transitive(z, y, x);
                }
                assert(ab.drop_last() =~= merged(a.drop_last(), b));
            }
        } else {
            assert(bc.drop_last() =~= merged(b.drop_last(), c));
            if le(y, x) {
                assert(ab.drop_last() =~= merged(a, b.drop_last()));
            } else {
                assert(ab.drop_last() =~= merged(a.drop_last(), b));
                if le(z, x) {
                    lemma_le_transitive(z, x, y);
                }
            }
        }
    }
}

/// Merging keeps every result.
proof fn lemma_merged_len(a: Seq<Found>, b: Seq<Found>)
    ensures
        merged(a, b).len() == a.len() + b.len(),
    decreases a.len() + b.len(),
{
    if a.len() > 0 && b.len() > 0 {
        lemma_merged_len(a, b.drop_last());
        lemma_merged_len(a.drop_last(), b);
    }
}

/// Ranking two lists and merging them is ranking one behind the other.
proof fn lemma_ranked_add(a: Seq<Found>, b: Seq<Found>)
    ensures
        merged(ranked(a), ranked(b)) == ranked(a + b),
    decreases b.len(),
{
    if b.len() == 0 {
        assert(a + b =~= a);
        assert(merged(ranked(a), b) == ranked(a)) by {
            if ranked(a).len() == 0 {
                assert(ranked(a) =~= b);
            }
        }
    } else {
        lemma_ranked_add(a, b.drop_last());
        assert((a + b).drop_last() =~= a + b.drop_last());
        assert((a + b).last() == b.last());
        lemma_merged_assoc(ranked(a), ranked(b.drop_last()), seq![b.last()]);
    }
}

/// Merging two descending lists gives a descending list of the same results.
proof fn lemma_merged_descending(a: Seq<Found>, b: Seq<Found>)
    requires
        descending(a),
        descending(b),
    ensures
        descending(merged(a, b)),
        merged(a, b).to_multiset() == a.to_multiset().add(b.to_multiset()),
    decreases a.len() + b.len(),
{
    broadcast use vstd::seq_lib::group_to_multiset_ensures;

    if a.len() == 0 {
        assert(a =~= Seq::empty());
        assert(a.to_multiset().add(b.to_multiset()) =~= b.to_multiset());
    } else if b.len() == 0 {
        assert(b =~= Seq::empty());
        assert(a.to_multiset().add(b.to_multiset()) =~= a.to_multiset());
    } else {
        let x = a.last();
        let y = b.last();
        lemma_le_total(x.score, y.score);
        if le(y.score, x.score) {
            let rest = merged(a, b.drop_last());
            lemma_merged_descending(a, b.drop_last());
            lemma_all_above(rest, a, b.drop_last(), y);
            assert(b =~= b.drop_last().push(y));
            assert(merged(a, b).to_multiset() =~= a.to_multiset().add(b.to_multiset()));
        } else {
            let rest = merged(a.drop_last(), b);
            lemma_merged_descending(a.drop_last(), b);
            lemma_all_above(rest, a.drop_last(), b, x);
            assert(a =~= a.drop_last().push(x));
            assert(merged(a, b).to_multiset() =~= a.to_multiset().add(b.to_multiset()));
        }
    }
}

/// What is merged from results that score at least as much as `last` can be
/// followed by `last`.
proof fn lemma_all_above(
    rest: Seq<Found>,
    a: Seq<Found>,
    b: Seq<Found>,
    last: Found,
)
    requires
        descending(rest),
        descending(a),
        descending(b),
        rest.to_multiset() == a.to_multiset().add(b.to_multiset()),
        a.len() > 0 ==> le(last.score, a.last().score),
        b.len() > 0 ==> le(last.score, b.last().score),
    ensures
        descending(rest.push(last)),
{
    broadcast use vstd::seq_lib::group_to_multiset_ensures;

    assert forall|i: int| 0 <= i < rest.len() implies le(last.score, #[trigger] rest[i].score) by {
        assert(rest.to_multiset().contains(rest[i]));
        if a.to_multiset().contains(rest[i]) {
            assert(a.contains(rest[i]));
            let k = choose|k: int| 0 <= k < a.len() && a[k] == rest[i];
            assert(le(a.last().score, a[k].score));
            lemma_le_transitive(last.score, a.last().score, a[k].score);
        } else {
            assert(b.to_multiset().contains(rest[i]));
            assert(b.contains(rest[i]));
            let k = choose|k: int| 0 <= k < b.len() && b[k] == rest[i];
            assert(le(b.last().score, b[k].score));
            lemma_le_transitive(last.score, b.last().score, b[k].score);
        }
    }
    lemma_le_total(last.score, last.score);
    let s = rest.push(last);
    assert forall|i: int, j: int| 0 <= i <= j < s.len() implies le(
        #[trigger] s[j].score,
        #[trigger] s[i].score,
    ) by {
        if j < rest.len() {
            assert(le(rest[j].score, rest[i].score));
        } else if i < rest.len() {
            assert(le(last.score, rest[i].score));
        }
    }
}

/// Law: ranking keeps the results, each as often as before, and puts none behind one
/// that scores less.
pub proof fn law_ranked(s: Seq<Found>)
    ensures
        descending(ranked(s)),
        ranked(s).to_multiset() == s.to_multiset(),
        ranked(s).len() == s.len(),
    decreases s.len(),
{
    broadcast use vstd::seq_lib::group_to_multiset_ensures;

    if s.len() > 0 {
        law_ranked(s.drop_last());
        let one = seq![s.last()];
        lemma_le_total(s.last().score, s.last().score);
        assert(descending(one));
        lemma_merged_descending(ranked(s.drop_last()), one);
        lemma_merged_len(ranked(s.drop_last()), one);
        assert(s =~= s.drop_last().push(s.last()));
        assert(one =~= Seq::empty().push(s.last()));
        assert(s.to_multiset() =~= s.drop_last().to_multiset().add(one.to_multiset()));
    }
}

/// Law: a list that is in order stays as it is; in particular equals keep their order.
pub proof fn law_ranked_keeps_order(s: Seq<Found>)
    requires
        descending(s),
    ensures
        ranked(s) == s,
    decreases s.len(),
{
    if s.len() > 0 {
        let front = s.drop_last();
        lemma_descending_part(s, s.len() - 1);
        assert(front =~= s.take(s.len() - 1));
        law_ranked_keeps_order(front);
        let one = seq![s.last()];
        if front.len() > 0 {
            assert(le(s[s.len() - 1].score, s[s.len() - 2].score));
            assert(one.drop_last() =~= Seq::empty());
            assert(merged(front, Seq::empty()) == front);
        } else {
            assert(front =~= Seq::empty());
        }
        assert(ranked(s) =~= s);
    }
}

/// Behind the first `n` results nothing can change what the first `n` of a merge are.
proof fn lemma_merged_take_one(
    a: Seq<Found>,
    x: Found,
    b: Seq<Found>,
    n: int,
)
    requires
        0 <= n <= a.len(),
        a.len() > 0 ==> le(x.score, a.last().score),
    ensures
        merged(a.push(x), b).take(n) == merged(a, b).take(n),
    decreases b.len(),
{
    lemma_merged_len(a, b);
    lemma_merged_len(a.push(x), b);
    if n == 0 {
        assert(merged(a.push(x), b).take(n) =~= merged(a, b).take(n));
    } else if b.len() == 0 {
        assert(merged(a.push(x), b) == a.push(x));
        assert(merged(a, b) == a);
        assert(a.push(x).take(n) =~= a.take(n));
    } else {
        let y = b.last();
        assert(a.push(x).last() == x);
        assert(a.push(x).drop_last() =~= a);
        if le(y.score, x.score) {
            lemma_le_transitive(y.score, x.score, a.last().score);
            lemma_merged_take_one(a, x, b.drop_last(), n);
            lemma_merged_len(a, b.drop_last());
            lemma_merged_len(a.push(x), b.drop_last());
            assert(merged(a.push(x), b).take(n) =~= merged(a.push(x), b.drop_last()).take(n));
            assert(merged(a, b).take(n) =~= merged(a, b.drop_last()).take(n));
        } else {
            assert(merged(a.push(x), b) == merged(a, b).push(x));
            assert(merged(a.push(x), b).take(n) =~= merged(a, b).take(n));
        }
    }
}

/// Only the first `n` of a ranked list can be among the first `n` of a merge.
proof fn lemma_merged_take(a: Seq<Found>, b: Seq<Found>, n: int)
    requires
        descending(a),
        0 <= n,
    ensures
        n <= a.len() ==> merged(a, b).take(n) == merged(a.take(n), b).take(n),
    decreases a.len(),
{
    if n < a.len() {
        let front = a.drop_last();
        lemma_descending_part(a, a.len() - 1);
        assert(front =~= a.take(a.len() - 1));
        let last = a.last();
        lemma_merged_take(front, b, n);
        assert(front.len() > 0 ==> le(last.score, front.last().score)) by {
            if front.len() > 0 {
                assert(le(a[a.len() - 1].score, a[a.len() - 2].score));
            }
        }
        lemma_merged_take_one(front, last, b, n);
        assert(merged(a, b).take(n) == merged(front, b).take(n)) by {
            assert(a =~= front.push(last));
        }
        assert(front.take(n) =~= a.take(n));
    } else if n == a.len() {
        assert(a.take(n) =~= a);
    }
}

/// Merges two ranked lists.
fn merge(a: Vec<SearchResult>, b: Vec<SearchResult>) -> (r: Vec<SearchResult>)
    ensures
        views(r@) == merged(views(a@), views(b@)),
{
    let mut a = a;
    let mut b = b;
    let ghost all = merged(views(a@), views(b@));
    // Built from the last result to the first, then turned round.
    let mut back: Vec<SearchResult> = Vec::new();
    assert(views(back@).reverse() =~= Seq::empty());
    assert(merged(views(a@), views(b@)) + views(back@).reverse() =~= all);
    while a.len() > 0 && b.len() > 0
        invariant
            merged(views(a@), views(b@)) + views(back@).reverse() == all,
        decreases a@.len() + b@.len(),
    {
        let from_b = score_le(&b[b.len() - 1].score, &a[a.len() - 1].score);
        let ghost before = views(back@);
        let ghost (sa, sb) = (views(a@), views(b@));
        assert(sa.last() == a@.last()@ && sb.last() == b@.last()@);
        if from_b {
            let x = b.pop().unwrap();
            assert(sb.drop_last() =~= views(b@));
            proof {
                lemma_views_push(back@, x);
            }
            back.push(x);
            assert(views(back@).reverse() =~= seq![x@] + before.reverse());
            assert(merged(sa, sb) =~= merged(views(a@), views(b@)).push(x@));
        } else {
            let x = a.pop().unwrap();
            assert(sa.drop_last() =~= views(a@));
            proof {
                lemma_views_push(back@, x);
            }
            back.push(x);
            assert(views(back@).reverse() =~= seq![x@] + before.reverse());
            assert(merged(sa, sb) =~= merged(views(a@), views(b@)).push(x@));
        }
        assert(merged(views(a@), views(b@)) + views(back@).reverse() =~= merged(sa, sb)
            + before.reverse());
    }
    let mut out: Vec<SearchResult> = if a.len() > 0 {
        a
    } else {
        b
    };
    assert(views(out@) + views(back@).reverse() =~= all);
    while back.len() > 0
        invariant
            views(out@) + views(back@).reverse() == all,
        decreases back@.len(),
    {
        let ghost before = views(back@);
        let x = back.pop().unwrap();
        assert(before =~= views(back@).push(x@));
        assert(before.reverse() =~= seq![x@] + views(back@).reverse());
        assert(views(out@).push(x@) + views(back@).reverse() =~= views(out@) + before.reverse());
        proof {
            lemma_views_push(out@, x);
        }
        out.push(x);
    }
    assert(views(out@) =~= all);
    out
}

/// Puts a list in order: best first, equals as they were.
pub fn sort_results(list: Vec<SearchResult>) -> (r: Vec<SearchResult>)
    ensures
        views(r@) == ranked(views(list@)),
    decreases list@.len(),
{
    if list.len() <= 1 {
        proof {
            lemma_short(views(list@));
        }
        return list;
    }
    let ghost all = views(list@);
    let mut front = list;
    let mid: usize = front.len() / 2;
    let back = front.split_off(mid);
    assert(views(front@) + views(back@) =~= all);
    proof {
        lemma_ranked_add(views(front@), views(back@));
    }
    let a = sort_results(front);
    let b = sort_results(back);
    merge(a, b)
}

/// A list of at most one result is in order.
proof fn lemma_short(s: Seq<Found>)
    requires
        s.len() <= 1,
    ensures
        ranked(s) == s,
{
    assert(descending(s)) by {
        if s.len() == 1 {
            lemma_le_total(s[0].score, s[0].score);
        }
    }
    law_ranked_keeps_order(s);
}

/// Keeps the best `limit` of all results that are pushed, without holding many more.
pub struct TopN {
    items: Vec<SearchResult>,
    limit: usize,
    pushed: Ghost<Seq<Found>>,
}

impl TopN {
    /// All results that were pushed, in order.
    pub closed spec fn pushed(&self) -> Seq<Found> {
        self.pushed@
    }

    /// How many results are kept.
    pub closed spec fn limit(&self) -> usize {
        self.limit
    }

    /// Nothing that can still be among the best was dropped.
    pub closed spec fn wf(&self) -> bool {
        &&& self.limit <= usize::MAX / 2
        &&& first(ranked(views(self.items@)), self.limit as int) == first(
            ranked(self.pushed@),
            self.limit as int,
        )
    }

    /// Keeps the best `limit` results.
    pub fn new(limit: usize) -> (r: Self)
        requires
            limit <= usize::MAX / 2,
        ensures
            r.wf(),
            r.limit() == limit,
            r.pushed() == Seq::<Found>::empty(),
    {
        let items: Vec<SearchResult> = Vec::new();
        assert(views(items@) =~= Seq::empty());
        TopN { items, limit, pushed: Ghost(Seq::empty()) }
    }

    /// Takes in one more result.
    pub fn push(&mut self, result: SearchResult)
        requires
            old(self).wf(),
        ensures
            final(self).wf(),
            final(self).limit() == old(self).limit(),
            final(self).pushed() == old(self).pushed().push(result@),
    {
        let ghost n = self.limit as int;
        proof {
            lemma_first_push(views(self.items@), self.pushed@, result@, n);
            lemma_views_push(self.items@, result);
        }
        let ghost grown = self.pushed@.push(result@);
        self.pushed = Ghost(grown);
        self.items.push(result);
        if self.items.len() >= self.limit * 2 {
            self.trim();
        }
    }

    /// Drops what is not among the best.
    fn trim(&mut self)
        requires
            old(self).wf(),
        ensures
            final(self).wf(),
            final(self).limit() == old(self).limit(),
            final(self).pushed() == old(self).pushed(),
            views(final(self).items@) == first(
                ranked(views(old(self).items@)),
                old(self).limit() as int,
            ),
    {
        let mut list: Vec<SearchResult> = Vec::new();
        std::mem::swap(&mut list, &mut self.items);
        let ghost all = views(list@);
        let mut sorted = sort_results(list);
        sorted.truncate(self.limit);
        proof {
            law_ranked(all);
            let kept = first(ranked(all), self.limit as int);
            assert(views(sorted@) =~= kept);
            lemma_descending_part(ranked(all), kept.len() as int);
            assert(ranked(all).take(kept.len() as int) =~= kept);
            law_ranked_keeps_order(kept);
            assert(first(kept, self.limit as int) =~= kept);
        }
        self.items = sorted;
    }

    /// The best results, best first, equals as they were pushed.
    pub fn into_vec(self) -> (r: Vec<SearchResult>)
        requires
            self.wf(),
        ensures
            views(r@) == first(ranked(self.pushed()), self.limit() as int),
    {
        let mut top = self;
        top.trim();
        top.items
    }
}

/// The beginning of a descending list is descending.
proof fn lemma_descending_part(s: Seq<Found>, n: int)
    requires
        descending(s),
        0 <= n <= s.len(),
    ensures
        descending(s.take(n)),
{
    let front = s.take(n);
    assert forall|i: int, j: int| 0 <= i <= j < front.len() implies le(
        #[trigger] front[j].score,
        #[trigger] front[i].score,
    ) by {
        assert(le(s[j].score, s[i].score));
    }
}

/// The first `n` elements, or all where there are fewer.
pub open spec fn first(s: Seq<Found>, n: int) -> Seq<Found> {
    if n < s.len() {
        s.take(n)
    } else {
        s
    }
}

/// Lists with the same best `n` still have the same best `n` after one more result.
proof fn lemma_first_push(
    a: Seq<Found>,
    b: Seq<Found>,
    x: Found,
    n: int,
)
    requires
        0 <= n,
        first(ranked(a), n) == first(ranked(b), n),
    ensures
        first(ranked(a.push(x)), n) == first(ranked(b.push(x)), n),
{
    assert(a.push(x).drop_last() =~= a);
    assert(b.push(x).drop_last() =~= b);
    let one = seq![x];
    law_ranked(a);
    law_ranked(b);
    lemma_first_merged(ranked(a), one, n);
    lemma_first_merged(ranked(b), one, n);
}

/// The best `n` of a merge depend on the best `n` of the first list only.
proof fn lemma_first_merged(a: Seq<Found>, b: Seq<Found>, n: int)
    requires
        descending(a),
        0 <= n,
    ensures
        first(merged(a, b), n) == first(merged(first(a, n), b), n),
{
    if n < a.len() {
        lemma_merged_take(a, b, n);
        lemma_merged_len(a, b);
        lemma_merged_len(a.take(n), b);
        if n < merged(a.take(n), b).len() {
        } else {
            assert(merged(a.take(n), b).take(n) =~= merged(a.take(n), b));
        }
    }
}

} // verus!
