//! Rows under a text key, with a record of the keys that were written to.

use crate::text::{lemma_texts_push, lemma_views_push, str_eq, texts, views};
use vstd::prelude::*;

verus! {

/// Where the first row under `key` stands, or the number of rows.
pub open spec fn place<T>(rows: Seq<(Seq<char>, T)>, key: Seq<char>) -> int
    decreases rows.len(),
{
    if rows.len() == 0 || rows[0].0 == key {
        0
    } else {
        1 + place(rows.skip(1), key)
    }
}

/// The value under `key`.
pub open spec fn lookup<T>(rows: Seq<(Seq<char>, T)>, key: Seq<char>) -> Option<T> {
    if place(rows, key) < rows.len() {
        Some(rows[place(rows, key)].1)
    } else {
        None
    }
}

/// The rows with `v` under `key`: where the key is there, in its place, else at the end.
pub open spec fn upserted<T>(rows: Seq<(Seq<char>, T)>, key: Seq<char>, v: T) -> Seq<
    (Seq<char>, T),
> {
    if place(rows, key) < rows.len() {
        rows.update(place(rows, key), (key, v))
    } else {
        rows.push((key, v))
    }
}

/// Whether a row stands under another key.
pub open spec fn other_key<T>(key: Seq<char>) -> spec_fn((Seq<char>, T)) -> bool {
    |row: (Seq<char>, T)| row.0 != key
}

/// The rows without those under `key`.
pub open spec fn without<T>(rows: Seq<(Seq<char>, T)>, key: Seq<char>) -> Seq<(Seq<char>, T)> {
    rows.filter(other_key(key))
}

/// The rows with `v` under `key` as the last row.
pub open spec fn replaced<T>(rows: Seq<(Seq<char>, T)>, key: Seq<char>, v: T) -> Seq<
    (Seq<char>, T),
> {
    without(rows, key).push((key, v))
}

/// Whether no two rows stand under one key.
pub open spec fn unique<T>(rows: Seq<(Seq<char>, T)>) -> bool {
    forall|i: int, j: int|
        0 <= i < j < rows.len() ==> (#[trigger] rows[i]).0 != (#[trigger] rows[j]).0
}

/// Whether `list` names every key under which the two tables differ.
pub open spec fn names_changes<T>(
    before: Seq<(Seq<char>, T)>,
    after: Seq<(Seq<char>, T)>,
    list: Seq<Seq<char>>,
) -> bool {
    forall|key: Seq<char>|
        !list.contains(key) ==> #[trigger] lookup(after, key) == lookup(before, key)
}

/// Where the first row under a key stands.
pub proof fn lemma_place<T>(rows: Seq<(Seq<char>, T)>, key: Seq<char>)
    ensures
        0 <= place(rows, key) <= rows.len(),
        place(rows, key) < rows.len() ==> rows[place(rows, key)].0 == key,
        forall|i: int| 0 <= i < place(rows, key) ==> (#[trigger] rows[i]).0 != key,
    decreases rows.len(),
{
    if rows.len() > 0 && rows[0].0 != key {
        lemma_place(rows.skip(1), key);
        let p = place(rows.skip(1), key);
        assert forall|i: int| 0 <= i < p + 1 implies (#[trigger] rows[i]).0 != key by {
            if i > 0 {
                assert(rows.skip(1)[i - 1].0 != key);
            }
        }
    }
}

/// The first row under a key is the one that no earlier row under it precedes.
pub proof fn lemma_place_is<T>(rows: Seq<(Seq<char>, T)>, key: Seq<char>, at: int)
    requires
        0 <= at <= rows.len(),
        at < rows.len() ==> rows[at].0 == key,
        forall|i: int| 0 <= i < at ==> (#[trigger] rows[i]).0 != key,
    ensures
        place(rows, key) == at,
{
    lemma_place(rows, key);
}

/// What a further row changes.
pub proof fn lemma_lookup_push<T>(rows: Seq<(Seq<char>, T)>, row: (Seq<char>, T), key: Seq<char>)
    ensures
        lookup(rows.push(row), key) == if lookup(rows, key) is Some {
            lookup(rows, key)
        } else if row.0 == key {
            Some(row.1)
        } else {
            None
        },
{
    lemma_place(rows, key);
    let p = place(rows, key);
    let all = rows.push(row);
    if p < rows.len() || row.0 == key {
        lemma_place_is(all, key, p);
    } else {
        lemma_place_is(all, key, all.len() as int);
    }
}

/// Law: writing a value makes it the one under its key and leaves every other key alone.
pub proof fn law_upserted<T>(rows: Seq<(Seq<char>, T)>, key: Seq<char>, v: T, other: Seq<char>)
    ensures
        lookup(upserted(rows, key, v), other) == if other == key {
            Some(v)
        } else {
            lookup(rows, other)
        },
{
    lemma_place(rows, key);
    lemma_place(rows, other);
    let all = upserted(rows, key, v);
    if place(rows, key) < rows.len() {
        lemma_place_is(all, other, place(rows, other));
    } else {
        lemma_lookup_push(rows, (key, v), other);
    }
}

/// Leaving out rows changes nothing under a key whose rows all stay.
pub proof fn lemma_lookup_filter<T>(
    rows: Seq<(Seq<char>, T)>,
    keep: spec_fn((Seq<char>, T)) -> bool,
    key: Seq<char>,
)
    ensures
        (forall|i: int|
            0 <= i < rows.len() && (#[trigger] rows[i]).0 == key ==> keep(rows[i])) ==> lookup(
            rows.filter(keep),
            key,
        ) == lookup(rows, key),
        (forall|i: int|
            0 <= i < rows.len() && (#[trigger] rows[i]).0 == key ==> !keep(rows[i])) ==> lookup(
            rows.filter(keep),
            key,
        ) is None,
    decreases rows.len(),
{
    reveal(Seq::filter);
    if rows.len() > 0 {
        let front = rows.drop_last();
        lemma_lookup_filter(front, keep, key);
        lemma_lookup_push(front, rows.last(), key);
        lemma_lookup_push(front.filter(keep), rows.last(), key);
        assert(rows =~= front.push(rows.last()));
        assert(rows.last() == rows[rows.len() - 1]);
        assert(forall|i: int| 0 <= i < front.len() ==> #[trigger] front[i] == rows[i]);
    }
}

/// Law: after removing a key nothing is under it, and every other key is as before.
pub proof fn law_without<T>(rows: Seq<(Seq<char>, T)>, key: Seq<char>, other: Seq<char>)
    ensures
        lookup(without(rows, key), other) == if other == key {
            None
        } else {
            lookup(rows, other)
        },
{
    lemma_lookup_filter(rows, other_key(key), other);
}

/// Law: replacing a row makes the value the one under its key and leaves every other
/// key alone.
pub proof fn law_replaced<T>(rows: Seq<(Seq<char>, T)>, key: Seq<char>, v: T, other: Seq<char>)
    ensures
        lookup(replaced(rows, key, v), other) == if other == key {
            Some(v)
        } else {
            lookup(rows, other)
        },
{
    law_without(rows, key, other);
    lemma_lookup_push(without(rows, key), (key, v), other);
}

/// Rows that are left out of a table without repeated keys repeat none.
pub proof fn lemma_unique_filter<T>(
    rows: Seq<(Seq<char>, T)>,
    keep: spec_fn((Seq<char>, T)) -> bool,
)
    requires
        unique(rows),
    ensures
        unique(rows.filter(keep)),
        forall|i: int|
            0 <= i < rows.filter(keep).len() ==> rows.contains(#[trigger] rows.filter(keep)[i])
                && keep(rows.filter(keep)[i]),
    decreases rows.len(),
{
    reveal(Seq::filter);
    if rows.len() > 0 {
        let front = rows.drop_last();
        assert(forall|i: int| 0 <= i < front.len() ==> #[trigger] front[i] == rows[i]);
        lemma_unique_filter(front, keep);
        let part = front.filter(keep);
        assert forall|i: int| 0 <= i < part.len() implies rows.contains(#[trigger] part[i])
            && part[i].0 != rows.last().0 by {
            assert(front.contains(part[i]));
            let k = choose|k: int| 0 <= k < front.len() && front[k] == part[i];
            assert(rows[k] == part[i]);
            assert(rows[rows.len() - 1].0 != rows[k].0);
        }
        assert(rows.contains(rows[rows.len() - 1]));
    }
}

/// Law: writing, removing and replacing rows never makes a key stand twice.
pub proof fn law_unique<T>(rows: Seq<(Seq<char>, T)>, key: Seq<char>, v: T)
    requires
        unique(rows),
    ensures
        unique(upserted(rows, key, v)),
        unique(without(rows, key)),
        unique(replaced(rows, key, v)),
{
    lemma_place(rows, key);
    lemma_unique_filter(rows, other_key(key));
}

/// What becomes of one row.
pub enum Change<V> {
    /// It stays as it is.
    Keep,
    /// It is removed.
    Delete,
    /// It gets another value.
    Write(V),
}

impl<V: View> View for Change<V> {
    type V = Change<V::V>;

    open spec fn view(&self) -> Change<V::V> {
        match self {
            Change::Keep => Change::Keep,
            Change::Delete => Change::Delete,
            Change::Write(v) => Change::Write(v@),
        }
    }
}

/// The rows after the change that is planned for each.
pub open spec fn planned<T>(rows: Seq<(Seq<char>, T)>, plan: Seq<Change<T>>) -> Seq<(Seq<char>, T)>
    decreases rows.len(),
{
    if rows.len() == 0 || rows.len() != plan.len() {
        rows
    } else {
        let front = planned(rows.drop_last(), plan.drop_last());
        match plan.last() {
            Change::Keep => front.push(rows.last()),
            Change::Delete => front,
            Change::Write(v) => front.push((rows.last().0, v)),
        }
    }
}

/// The keys of the rows for which a change is planned.
pub open spec fn planned_keys<T>(rows: Seq<(Seq<char>, T)>, plan: Seq<Change<T>>) -> Seq<Seq<char>>
    decreases rows.len(),
{
    if rows.len() == 0 || rows.len() != plan.len() {
        Seq::empty()
    } else {
        let front = planned_keys(rows.drop_last(), plan.drop_last());
        if plan.last() is Keep {
            front
        } else {
            front.push(rows.last().0)
        }
    }
}

/// The rows after `decide` has settled what becomes of each.
pub open spec fn swept<T>(
    rows: Seq<(Seq<char>, T)>,
    decide: spec_fn((Seq<char>, T)) -> Change<T>,
) -> Seq<(Seq<char>, T)> {
    planned(rows, Seq::new(rows.len(), |i: int| decide(rows[i])))
}

/// A plan changes nothing under a key for which it holds no change.
proof fn lemma_planned_keys<T>(rows: Seq<(Seq<char>, T)>, plan: Seq<Change<T>>, key: Seq<char>)
    requires
        rows.len() == plan.len(),
        !planned_keys(rows, plan).contains(key),
    ensures
        lookup(planned(rows, plan), key) == lookup(rows, key),
    decreases rows.len(),
{
    if rows.len() > 0 {
        let front = rows.drop_last();
        let start = plan.drop_last();
        let keys = planned_keys(front, start);
        if keys.contains(key) {
            let i = choose|i: int| 0 <= i < keys.len() && keys[i] == key;
            assert(planned_keys(rows, plan)[i] == key);
        }
        lemma_planned_keys(front, start, key);
        assert(rows =~= front.push(rows.last()));
        lemma_lookup_push(front, rows.last(), key);
        let done = planned(front, start);
        match plan.last() {
            Change::Keep => {
                lemma_lookup_push(done, rows.last(), key);
            },
            Change::Delete => {
                assert(planned_keys(rows, plan).last() == rows.last().0);
            },
            Change::Write(v) => {
                assert(planned_keys(rows, plan).last() == rows.last().0);
                lemma_lookup_push(done, (rows.last().0, v), key);
            },
        }
    }
}

/// What a change leaves of a value.
pub open spec fn outcome<T>(change: Change<T>, v: T) -> Option<T> {
    match change {
        Change::Keep => Some(v),
        Change::Delete => None,
        Change::Write(w) => Some(w),
    }
}

/// Law: rows may be swept part by part.
pub proof fn law_swept_by_parts<T>(
    a: Seq<(Seq<char>, T)>,
    b: Seq<(Seq<char>, T)>,
    decide: spec_fn((Seq<char>, T)) -> Change<T>,
)
    ensures
        swept(a + b, decide) == swept(a, decide) + swept(b, decide),
    decreases b.len(),
{
    let rows = a + b;
    if b.len() == 0 {
        assert(rows =~= a);
        assert(swept(rows, decide) =~= swept(a, decide) + swept(b, decide));
    } else {
        let front = b.drop_last();
        law_swept_by_parts(a, front, decide);
        assert(rows.drop_last() =~= a + front);
        assert(rows.last() == b.last());
        let plan = Seq::new(rows.len(), |i: int| decide(rows[i]));
        let plan_b = Seq::new(b.len(), |i: int| decide(b[i]));
        assert(plan.drop_last() =~= Seq::new((a + front).len(), |i: int| decide((a + front)[i])));
        assert(plan_b.drop_last() =~= Seq::new(front.len(), |i: int| decide(front[i])));
        assert(plan.last() == plan_b.last());
        assert(swept(rows, decide) =~= swept(a, decide) + swept(b, decide));
    }
}

/// Law: where no key stands twice, a sweep does to what is under a key what is
/// decided for its row, and nothing else.
pub proof fn law_swept<T>(
    rows: Seq<(Seq<char>, T)>,
    decide: spec_fn((Seq<char>, T)) -> Change<T>,
    key: Seq<char>,
)
    requires
        unique(rows),
    ensures
        lookup(swept(rows, decide), key) == match lookup(rows, key) {
            Some(v) => outcome(decide((key, v)), v),
            None => None,
        },
        unique(swept(rows, decide)),
        forall|i: int|
            0 <= i < swept(rows, decide).len() ==> lookup(
                rows,
                (#[trigger] swept(rows, decide)[i]).0,
            ) is Some,
    decreases rows.len(),
{
    if rows.len() > 0 {
        let front = rows.drop_last();
        let last = rows.last();
        let plan = Seq::new(rows.len(), |i: int| decide(rows[i]));
        assert(plan.drop_last() =~= Seq::new(front.len(), |i: int| decide(front[i])));
        assert(rows =~= front.push(last));
        assert(forall|i: int| 0 <= i < front.len() ==> #[trigger] front[i] == rows[i]);
        law_swept(front, decide, key);
        law_swept(front, decide, last.0);
        lemma_lookup_push(front, last, key);
        lemma_place(front, last.0);
        assert(lookup(front, last.0) is None) by {
            if place(front, last.0) < front.len() {
                assert(rows[place(front, last.0)].0 != rows[rows.len() - 1].0);
            }
        }
        lemma_place(front, key);
        let done = swept(front, decide);
        let row = match decide(last) {
            Change::Write(v) => (last.0, v),
            _ => last,
        };
        lemma_lookup_push(done, row, key);
        assert forall|i: int| 0 <= i < done.len() implies (#[trigger] done[i]).0 != last.0 by {
            assert(lookup(front, done[i].0) is Some);
        }
        assert forall|i: int| 0 <= i < swept(rows, decide).len() implies lookup(
            rows,
            (#[trigger] swept(rows, decide)[i]).0,
        ) is Some by {
            let k = swept(rows, decide)[i].0;
            lemma_lookup_push(front, last, k);
            if i < done.len() {
                assert(swept(rows, decide)[i] == done[i]);
            }
        }
    }
}

/// The rows with the one under `key` moved to `target`, in its place and with the
/// value `v`; what was under `target` before is gone.
pub open spec fn retargeted<T>(
    rows: Seq<(Seq<char>, T)>,
    key: Seq<char>,
    target: Seq<char>,
    v: T,
) -> Seq<(Seq<char>, T)> {
    let cleared = if target == key {
        rows
    } else {
        without(rows, target)
    };
    cleared.update(place(cleared, key), (target, v))
}

/// Law: where no key stands twice, moving a row brings the value to its new key,
/// leaves nothing under the old one, and leaves every other key alone.
pub proof fn law_retargeted<T>(
    rows: Seq<(Seq<char>, T)>,
    key: Seq<char>,
    target: Seq<char>,
    v: T,
    other: Seq<char>,
)
    requires
        unique(rows),
        lookup(rows, key) is Some,
    ensures
        unique(retargeted(rows, key, target, v)),
        lookup(retargeted(rows, key, target, v), other) == if other == target {
            Some(v)
        } else if other == key {
            None
        } else {
            lookup(rows, other)
        },
{
    let cleared = if target == key {
        rows
    } else {
        without(rows, target)
    };
    lemma_unique_filter(rows, other_key(target));
    law_without(rows, target, key);
    law_without(rows, target, other);
    lemma_place(cleared, key);
    lemma_place(cleared, target);
    lemma_place(cleared, other);
    let at = place(cleared, key);
    let all = cleared.update(at, (target, v));
    if target != key {
        law_without(rows, target, target);
    }
    assert forall|i: int, j: int| 0 <= i < j < all.len() implies (#[trigger] all[i]).0 != (
    #[trigger] all[j]).0 by {
        assert(cleared[i].0 != cleared[j].0);
    }
    if other == target {
        lemma_place_is(all, other, at);
    } else if other == key {
        assert forall|i: int| 0 <= i < all.len() implies (#[trigger] all[i]).0 != other by {
            if i != at {
                assert(cleared[i].0 != cleared[at].0);
            }
        }
        lemma_place_is(all, other, all.len() as int);
    } else {
        lemma_place_is(all, other, place(cleared, other));
    }
}

/// Rows under a text key, in order, and the keys that were written to since they
/// were loaded.
pub struct Table<V> {
    rows: Vec<(String, V)>,
    changed: Vec<String>,
}

impl<V: View> Table<V> {
    /// The rows, in order.
    pub closed spec fn rows(&self) -> Seq<(Seq<char>, V::V)> {
        views(self.rows@)
    }

    /// The keys that were written to, in order.
    pub closed spec fn changed(&self) -> Seq<Seq<char>> {
        texts(self.changed@)
    }

    /// Whether `later` names, beyond what `self` names, every key that differs.
    pub open spec fn leads_to(&self, later: &Table<V>) -> bool {
        &&& self.changed().is_prefix_of(later.changed())
        &&& names_changes(self.rows(), later.rows(), later.changed())
    }

    /// What leads on from a later state leads on from an earlier one.
    pub proof fn lemma_leads_on(a: &Table<V>, b: &Table<V>, c: &Table<V>)
        requires
            a.leads_to(b),
            b.leads_to(c),
        ensures
            a.leads_to(c),
    {
        assert(a.changed() =~= b.changed().take(a.changed().len() as int));
        assert(a.changed() =~= c.changed().take(a.changed().len() as int));
        assert forall|key: Seq<char>| !c.changed().contains(key) implies #[trigger] lookup(
            c.rows(),
            key,
        ) == lookup(a.rows(), key) by {
            if b.changed().contains(key) {
                let i = choose|i: int| 0 <= i < b.changed().len() && b.changed()[i] == key;
                assert(c.changed().take(b.changed().len() as int)[i] == c.changed()[i]);
                assert(c.changed()[i] == key);
            }
            assert(lookup(b.rows(), key) == lookup(a.rows(), key));
        }
    }

    /// A table with the given rows, none of them written to.
    pub fn new(rows: Vec<(String, V)>) -> (r: Self)
        ensures
            r.rows() == views(rows@),
            r.changed() == Seq::<Seq<char>>::empty(),
    {
        let changed: Vec<String> = Vec::new();
        assert(texts(changed@) =~= Seq::empty());
        Table { rows, changed }
    }

    /// The number of rows.
    pub fn len(&self) -> (r: usize)
        ensures
            r == self.rows().len(),
    {
        self.rows.len()
    }

    /// The key of row `i`.
    pub fn key(&self, i: usize) -> (r: &String)
        requires
            i < self.rows().len(),
        ensures
            r@ == self.rows()[i as int].0,
    {
        &self.rows[i].0
    }

    /// The value in row `i`.
    pub fn value(&self, i: usize) -> (r: &V)
        requires
            i < self.rows().len(),
        ensures
            r@ == self.rows()[i as int].1,
    {
        &self.rows[i].1
    }

    /// The keys that were written to, in order.
    pub fn changes(&self) -> (r: &Vec<String>)
        ensures
            texts(r@) == self.changed(),
    {
        &self.changed
    }

    /// Where the first row under `key` stands, or the number of rows.
    pub fn find(&self, key: &str) -> (r: usize)
        ensures
            r == place(self.rows(), key@),
            r <= self.rows().len(),
    {
        let name = key.to_owned();
        let mut i: usize = 0;
        while i < self.rows.len()
            invariant
                name@ == key@,
                i <= self.rows@.len(),
                forall|k: int| 0 <= k < i ==> (#[trigger] self.rows()[k]).0 != key@,
            decreases self.rows@.len() - i,
        {
            if self.rows[i].0 == name {
                proof {
                    lemma_place_is(self.rows(), key@, i as int);
                }
                return i;
            }
            i = i + 1;
        }
        proof {
            lemma_place_is(self.rows(), key@, i as int);
        }
        i
    }

    /// The value under `key`.
    pub fn get(&self, key: &str) -> (r: Option<&V>)
        ensures
            match r {
                Some(v) => lookup(self.rows(), key@) == Some(v@),
                None => lookup(self.rows(), key@) is None,
            },
    {
        let i: usize = self.find(key);
        if i < self.rows.len() {
            Some(&self.rows[i].1)
        } else {
            None
        }
    }

    /// Notes that `key` is written to.
    fn note(&mut self, key: &str)
        ensures
            final(self).rows() == old(self).rows(),
            final(self).rows@ == old(self).rows@,
            final(self).changed() == old(self).changed().push(key@),
    {
        let name = key.to_owned();
        proof {
            lemma_texts_push(self.changed@, name);
        }
        self.changed.push(name);
    }

    /// Writes `v` under `key`: in the place of the row there, else at the end.
    pub fn upsert(&mut self, key: &str, v: V)
        ensures
            final(self).rows() == upserted(old(self).rows(), key@, v@),
            final(self).changed() == old(self).changed().push(key@),
            old(self).leads_to(final(self)),
    {
        let i: usize = self.find(key);
        let name = key.to_owned();
        let ghost before = *self;
        if i < self.rows.len() {
            self.rows.set(i, (name, v));
            assert(self.rows() =~= upserted(before.rows(), key@, v@));
        } else {
            let row = (name, v);
            proof {
                lemma_views_push(self.rows@, row);
            }
            self.rows.push(row);
        }
        self.note(key);
        proof {
            self.lemma_one_key(&before, key@, v@);
        }
    }

    /// What one written key leads to.
    proof fn lemma_one_key(&self, before: &Table<V>, key: Seq<char>, v: V::V)
        requires
            self.changed() == before.changed().push(key),
            ({
                ||| self.rows() == upserted(before.rows(), key, v)
                ||| self.rows() == without(before.rows(), key)
                ||| self.rows() == replaced(before.rows(), key, v)
            }),
        ensures
            before.leads_to(self),
    {
        assert(before.changed() =~= self.changed().take(before.changed().len() as int));
        assert(self.changed()[before.changed().len() as int] == key);
        assert forall|other: Seq<char>| !self.changed().contains(other) implies #[trigger] lookup(
            self.rows(),
            other,
        ) == lookup(before.rows(), other) by {
            law_upserted(before.rows(), key, v, other);
            law_without(before.rows(), key, other);
            law_replaced(before.rows(), key, v, other);
        }
    }

    /// Takes out the rows under `key` and says how many there were.
    fn take_out(&mut self, key: &str) -> (r: usize)
        ensures
            final(self).rows() == without(old(self).rows(), key@),
            final(self).changed() == old(self).changed(),
            r == old(self).rows().len() - final(self).rows().len(),
    {
        let ghost before = self.rows();
        let mut left: Vec<(String, V)> = Vec::new();
        std::mem::swap(&mut left, &mut self.rows);
        let count: usize = left.len();
        let ghost all = views(left@);
        // Turned round, so that the first row can be taken from the end.
        let mut queue: Vec<(String, V)> = Vec::new();
        assert(views(left@) + views(queue@).reverse() =~= all);
        while left.len() > 0
            invariant
                views(left@) + views(queue@).reverse() == all,
            decreases left@.len(),
        {
            let ghost (a, b) = (views(left@), views(queue@));
            let row = left.pop().unwrap();
            proof {
                lemma_views_push(queue@, row);
                assert(a =~= views(left@).push(row@));
                assert(b.push(row@).reverse() =~= seq![row@] + b.reverse());
                assert(views(left@) + (seq![row@] + b.reverse()) =~= a + b.reverse());
            }
            queue.push(row);
        }
        assert(views(queue@).reverse() =~= all);
        let name = key.to_owned();
        let mut kept: Vec<(String, V)> = Vec::new();
        let ghost mut done: Seq<(Seq<char>, V::V)> = Seq::empty();
        proof {
            reveal(Seq::filter);
            assert(views(kept@) =~= done.filter(other_key(key@)));
            assert(done + views(queue@).reverse() =~= all);
        }
        while queue.len() > 0
            invariant
                name@ == key@,
                done + views(queue@).reverse() == all,
                views(kept@) == done.filter(other_key(key@)),
            decreases queue@.len(),
        {
            let ghost b = views(queue@);
            let row = queue.pop().unwrap();
            let ghost next = done.push(row@);
            proof {
                reveal(Seq::filter);
                assert(b =~= views(queue@).push(row@));
                assert(b.reverse() =~= seq![row@] + views(queue@).reverse());
                assert(next + views(queue@).reverse() =~= done + b.reverse());
                assert(next.drop_last() =~= done);
                lemma_views_push(kept@, row);
                done = next;
            }
            if row.0 != name {
                kept.push(row);
            }
        }
        assert(done =~= all);
        proof {
            all.lemma_filter_len(other_key(key@));
        }
        let gone: usize = count - kept.len();
        self.rows = kept;
        gone
    }

    /// Removes what is under `key` and says how many rows that were.
    pub fn remove(&mut self, key: &str) -> (r: usize)
        ensures
            final(self).rows() == without(old(self).rows(), key@),
            final(self).changed() == old(self).changed().push(key@),
            r == old(self).rows().len() - final(self).rows().len(),
            r > 0 <==> lookup(old(self).rows(), key@) is Some,
            old(self).leads_to(final(self)),
    {
        let ghost before = *self;
        let gone: usize = self.take_out(key);
        self.note(key);
        proof {
            lemma_without_len(before.rows(), key@);
            self.lemma_one_key(&before, key@, arbitrary());
        }
        gone
    }

    /// Writes `v` under `key` as the last row, in place of what was there.
    pub fn replace(&mut self, key: &str, v: V)
        ensures
            final(self).rows() == replaced(old(self).rows(), key@, v@),
            final(self).changed() == old(self).changed().push(key@),
            old(self).leads_to(final(self)),
    {
        let ghost before = *self;
        let _gone: usize = self.take_out(key);
        let row = (key.to_owned(), v);
        proof {
            lemma_views_push(self.rows@, row);
        }
        self.rows.push(row);
        self.note(key);
        proof {
            self.lemma_one_key(&before, key@, v@);
        }
    }

    /// Moves the row under `key` to `target`, with the value `v`.
    pub fn retarget(&mut self, key: &str, target: &str, v: V)
        requires
            lookup(old(self).rows(), key@) is Some,
        ensures
            final(self).rows() == retargeted(old(self).rows(), key@, target@, v@),
            final(self).changed() == old(self).changed().push(key@).push(target@),
            unique(old(self).rows()) ==> old(self).leads_to(final(self)),
    {
        let ghost before = *self;
        if !str_eq(key, target) {
            let _gone: usize = self.take_out(target);
        }
        proof {
            law_without(before.rows(), target@, key@);
        }
        let i: usize = self.find(key);
        let row = (target.to_owned(), v);
        let ghost cleared = self.rows();
        self.rows.set(i, row);
        assert(self.rows() =~= cleared.update(i as int, (target@, v@)));
        self.note(key);
        self.note(target);
        proof {
            let n = before.changed().len() as int;
            assert(before.changed() =~= self.changed().take(n));
            assert(self.changed()[n] == key@);
            assert(self.changed()[n + 1] == target@);
            if unique(before.rows()) {
                assert forall|other: Seq<char>|
                    !self.changed().contains(other) implies #[trigger] lookup(self.rows(), other)
                    == lookup(before.rows(), other) by {
                    law_retargeted(before.rows(), key@, target@, v@, other);
                }
            }
        }
    }

    /// Does to each row what is planned for it.
    pub fn apply(&mut self, plan: Vec<Change<V>>)
        requires
            plan@.len() == old(self).rows().len(),
        ensures
            final(self).rows() == planned(old(self).rows(), views(plan@)),
            final(self).changed() == old(self).changed() + planned_keys(
                old(self).rows(),
                views(plan@),
            ),
            old(self).leads_to(final(self)),
    {
        let ghost before = *self;
        let ghost whole = views(plan@);
        let mut left: Vec<(String, V)> = Vec::new();
        std::mem::swap(&mut left, &mut self.rows);
        let ghost all = views(left@);
        let mut plan = plan;
        // Built from the last row to the first, then turned round.
        let mut back: Vec<(String, V)> = Vec::new();
        let mut keys: Vec<String> = Vec::new();
        assert(planned(all, whole) + views(back@).reverse() =~= planned(all, whole));
        assert(planned_keys(all, whole) + texts(keys@).reverse() =~= planned_keys(all, whole));
        while left.len() > 0
            invariant
                left@.len() == plan@.len(),
                planned(views(left@), views(plan@)) + views(back@).reverse() == planned(all, whole),
                planned_keys(views(left@), views(plan@)) + texts(keys@).reverse() == planned_keys(
                    all,
                    whole,
                ),
            decreases left@.len(),
        {
            let ghost (a, p) = (views(left@), views(plan@));
            let ghost (b, k) = (views(back@), texts(keys@));
            assert(a.last() == left@.last()@ && p.last() == plan@.last()@);
            let row = left.pop().unwrap();
            let change = plan.pop().unwrap();
            assert(a.drop_last() =~= views(left@));
            assert(p.drop_last() =~= views(plan@));
            match change {
                Change::Keep => {
                    proof {
                        lemma_views_push(back@, row);
                        assert(b.push(row@).reverse() =~= seq![row@] + b.reverse());
                        assert(planned(views(left@), views(plan@)) + (seq![row@] + b.reverse())
                            =~= planned(a, p) + b.reverse());
                    }
                    back.push(row);
                },
                Change::Delete => {
                    proof {
                        lemma_texts_push(keys@, row.0);
                        assert(k.push(row.0@).reverse() =~= seq![row.0@] + k.reverse());
                        assert(planned_keys(views(left@), views(plan@)) + (seq![row.0@]
                            + k.reverse()) =~= planned_keys(a, p) + k.reverse());
                    }
                    keys.push(row.0);
                },
                Change::Write(v) => {
                    let name = row.0.clone();
                    let next = (row.0, v);
                    proof {
                        lemma_views_push(back@, next);
                        assert(b.push(next@).reverse() =~= seq![next@] + b.reverse());
                        assert(planned(views(left@), views(plan@)) + (seq![next@] + b.reverse())
                            =~= planned(a, p) + b.reverse());
                        lemma_texts_push(keys@, name);
                        assert(k.push(name@).reverse() =~= seq![name@] + k.reverse());
                        assert(planned_keys(views(left@), views(plan@)) + (seq![name@]
                            + k.reverse()) =~= planned_keys(a, p) + k.reverse());
                    }
                    back.push(next);
                    keys.push(name);
                },
            }
        }
        assert(views(back@).reverse() =~= planned(all, whole));
        assert(texts(keys@).reverse() =~= planned_keys(all, whole));
        assert(views(self.rows@) =~= Seq::empty());
        assert(views(self.rows@) + views(back@).reverse() =~= planned(all, whole));
        while back.len() > 0
            invariant
                views(self.rows@) + views(back@).reverse() == planned(all, whole),
                self.changed@ == before.changed@,
            decreases back@.len(),
        {
            let ghost b = views(back@);
            let row = back.pop().unwrap();
            proof {
                assert(b =~= views(back@).push(row@));
                assert(b.reverse() =~= seq![row@] + views(back@).reverse());
                assert(views(self.rows@).push(row@) + views(back@).reverse() =~= views(self.rows@)
                    + b.reverse());
                lemma_views_push(self.rows@, row);
            }
            self.rows.push(row);
        }
        assert(views(self.rows@) =~= planned(all, whole));
        let ghost start = before.changed();
        assert(start + texts(keys@).reverse() =~= start + planned_keys(all, whole));
        while keys.len() > 0
            invariant
                views(self.rows@) == planned(all, whole),
                self.changed() + texts(keys@).reverse() == start + planned_keys(all, whole),
            decreases keys@.len(),
        {
            let ghost k = texts(keys@);
            let key = keys.pop().unwrap();
            proof {
                assert(k =~= texts(keys@).push(key@));
                assert(k.reverse() =~= seq![key@] + texts(keys@).reverse());
                assert(self.changed().push(key@) + texts(keys@).reverse() =~= self.changed()
                    + k.reverse());
                lemma_texts_push(self.changed@, key);
            }
            self.changed.push(key);
        }
        assert(self.changed() =~= start + planned_keys(all, whole));
        proof {
            assert(start =~= self.changed().take(start.len() as int));
            assert forall|key: Seq<char>| !self.changed().contains(key) implies #[trigger] lookup(
                self.rows(),
                key,
            ) == lookup(before.rows(), key) by {
                let keys = planned_keys(all, whole);
                if keys.contains(key) {
                    let i = choose|i: int| 0 <= i < keys.len() && keys[i] == key;
                    assert(self.changed()[start.len() + i] == key);
                }
                lemma_planned_keys(all, whole, key);
            }
        }
    }
}

/// A row is missing after a removal exactly where the key was there.
proof fn lemma_without_len<T>(rows: Seq<(Seq<char>, T)>, key: Seq<char>)
    ensures
        without(rows, key).len() <= rows.len(),
        without(rows, key).len() < rows.len() <==> lookup(rows, key) is Some,
    decreases rows.len(),
{
    reveal(Seq::filter);
    if rows.len() > 0 {
        let front = rows.drop_last();
        lemma_without_len(front, key);
        lemma_lookup_push(front, rows.last(), key);
        assert(rows =~= front.push(rows.last()));
    }
}

} // verus!
