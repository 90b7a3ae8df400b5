//! The index of directories, as events and scans change it.

use crate::dirs::{
    any_indexed,
    base_of,
    basename_lower_of,
    count_indexed,
    drop_stale,
    ensured,
    fresh,
    has_indexed,
    in_subtree,
    in_tree,
    index_size,
    indexed,
    lacks,
    leave_index,
    leave_tree,
    retire,
    retired,
    used,
    DirEntry,
    DirInfo,
    Rows,
};
use crate::table::{
    law_retargeted,
    law_swept,
    lemma_place,
    lookup,
    retargeted,
    swept,
    unique,
    Change,
    Table,
};
use crate::text::{from_chars, str_eq, texts, to_chars, views};
use vstd::prelude::*;
use vstd::string::*;

verus! {

/// The index, over the directories that are kept.
pub struct PathIndex {
    pub dirs: Table<DirEntry>,
}

/// The keys that lie in the tree under `root`, in row order.
pub open spec fn tree_keys(rows: Rows, root: Seq<char>) -> Seq<Seq<char>>
    decreases rows.len(),
{
    if rows.len() == 0 {
        Seq::empty()
    } else {
        let front = tree_keys(rows.drop_last(), root);
        if in_tree(rows.last().0, root) {
            front.push(rows.last().0)
        } else {
            front
        }
    }
}

/// Where a path of the tree under `from` comes to lie when the tree moves to `to`.
pub open spec fn carried(path: Seq<char>, from: Seq<char>, to: Seq<char>) -> Seq<char> {
    to + path.skip(from.len() as int)
}

/// What is kept of a directory after the move: all its history; and the root of the
/// tree gets its new name.
pub open spec fn carried_info(
    d: DirInfo,
    path: Seq<char>,
    from: Seq<char>,
    to: Seq<char>,
) -> DirInfo {
    if path == from {
        DirInfo { basename: base_of(to), ..d }
    } else {
        d
    }
}

/// The rows after the first `n` of `keys` have moved, and how many rows did.
pub open spec fn moved(
    rows: Rows,
    keys: Seq<Seq<char>>,
    n: int,
    from: Seq<char>,
    to: Seq<char>,
) -> (Rows, int)
    decreases n,
{
    if n <= 0 || n > keys.len() {
        (rows, 0)
    } else {
        let (before, count) = moved(rows, keys, n - 1, from, to);
        let key = keys[n - 1];
        match lookup(before, key) {
            Some(d) => (
                retargeted(before, key, carried(key, from, to), carried_info(d, key, from, to)),
                count + 1,
            ),
            None => (before, count),
        }
    }
}

/// The rows after the tree under `from` has moved to `to`, row by row, and how many
/// rows did. A row that was in the way is gone.
pub open spec fn renamed(rows: Rows, from: Seq<char>, to: Seq<char>) -> (Rows, int) {
    let keys = tree_keys(rows, from);
    moved(rows, keys, keys.len() as int, from, to)
}

impl PathIndex {
    /// The index over the given rows.
    pub fn new(dirs: Table<DirEntry>) -> (r: Self)
        ensures
            r.dirs == dirs,
    {
        PathIndex { dirs }
    }

    /// Puts a directory into the index.
    pub fn add(&mut self, path: &str)
        ensures
            final(self).dirs.rows() == indexed(old(self).dirs.rows(), path@),
            old(self).dirs.leads_to(&final(self).dirs),
    {
        let basename_lower = basename_lower_of(path);
        let entry = match self.dirs.get(path) {
            Some(d) => DirEntry {
                basename_lower,
                visits: d.visits,
                selections: d.selections,
                last_access: d.last_access,
                in_index: true,
            },
            None => DirEntry {
                basename_lower,
                visits: 0,
                selections: 0,
                last_access: 0,
                in_index: true,
            },
        };
        self.dirs.upsert(path, entry);
    }

    /// Puts a directory into the index where the index lacks it, and says whether it
    /// did. Otherwise nothing is written.
    pub fn add_if_missing(&mut self, path: &str) -> (r: bool)
        ensures
            r == lacks(old(self).dirs.rows(), path@),
            final(self).dirs.rows() == ensured(old(self).dirs.rows(), path@),
            !r ==> final(self).dirs == old(self).dirs,
            old(self).dirs.leads_to(&final(self).dirs),
    {
        let entry = match self.dirs.get(path) {
            Some(d) => {
                if d.in_index {
                    return false;
                }
                let mut back = d.copied();
                back.in_index = true;
                back
            },
            None => DirEntry {
                basename_lower: basename_lower_of(path),
                visits: 0,
                selections: 0,
                last_access: 0,
                in_index: true,
            },
        };
        self.dirs.upsert(path, entry);
        true
    }

    /// Takes a directory out of the index, and forgets it where it has no history.
    pub fn remove(&mut self, path: &str)
        ensures
            final(self).dirs.rows() == retired(old(self).dirs.rows(), path@),
            old(self).dirs.leads_to(&final(self).dirs),
    {
        retire(&mut self.dirs, path);
    }

    /// The keys in the tree under `root`, in row order.
    fn keys_under(&self, root: &str) -> (r: Vec<String>)
        ensures
            texts(r@) == tree_keys(self.dirs.rows(), root@),
    {
        let ghost rows = self.dirs.rows();
        let mut out: Vec<String> = Vec::new();
        let mut i: usize = 0;
        assert(rows.take(0) =~= Seq::empty());
        assert(texts(out@) =~= tree_keys(rows.take(0), root@));
        while i < self.dirs.len()
            invariant
                rows == self.dirs.rows(),
                i <= rows.len(),
                texts(out@) == tree_keys(rows.take(i as int), root@),
            decreases rows.len() - i,
        {
            assert(rows.take(i + 1).drop_last() =~= rows.take(i as int));
            if in_subtree(self.dirs.key(i).as_str(), root) {
                let key = self.dirs.key(i).clone();
                proof {
                    crate::text::lemma_texts_push(out@, key);
                }
                out.push(key);
            }
            i = i + 1;
        }
        assert(rows.take(rows.len() as int) =~= rows);
        out
    }

    /// Moves `old_path` and the tree under it to `new_path`, and says how many
    /// directories moved. Their history moves with them.
    pub fn rename(&mut self, old_path: &str, new_path: &str) -> (r: usize)
        ensures
            final(self).dirs.rows() == renamed(old(self).dirs.rows(), old_path@, new_path@).0,
            r == renamed(old(self).dirs.rows(), old_path@, new_path@).1,
            unique(old(self).dirs.rows()) ==> unique(final(self).dirs.rows()) && old(
                self,
            ).dirs.leads_to(&final(self).dirs),
    {
        let keys = self.keys_under(old_path);
        let base = basename_lower_of(new_path);
        let skip: usize = to_chars(old_path).len();
        let ghost start = self.dirs;
        let ghost rows = self.dirs.rows();
        let ghost names = tree_keys(rows, old_path@);
        let mut count: usize = 0;
        let mut i: usize = 0;
        proof {
            lemma_tree_keys(rows, old_path@);
            assert(start.changed() =~= start.changed().take(start.changed().len() as int));
        }
        while i < keys.len()
            invariant
                texts(keys@) == names,
                names == tree_keys(rows, old_path@),
                forall|k: int| 0 <= k < names.len() ==> in_tree(#[trigger] names[k], old_path@),
                base@ == base_of(new_path@),
                skip == old_path@.len(),
                rows == start.rows(),
                count <= i <= keys@.len(),
                (self.dirs.rows(), count as int) == moved(
                    rows,
                    names,
                    i as int,
                    old_path@,
                    new_path@,
                ),
                unique(rows) ==> unique(self.dirs.rows()) && start.leads_to(&self.dirs),
            decreases keys@.len() - i,
        {
            let key = keys[i].as_str();
            assert(key@ == names[i as int]);
            let found: Option<DirEntry> = match self.dirs.get(key) {
                Some(d) => {
                    let mut entry = d.copied();
                    if str_eq(key, old_path) {
                        entry.basename_lower = base.clone();
                    }
                    Some(entry)
                },
                None => None,
            };
            if let Some(entry) = found {
                let cs = to_chars(key);
                proof {
                    if key@ != old_path@ {
                        assert((old_path@ + seq!['/']).is_prefix_of(key@));
                    }
                }
                let rest = from_chars(&cs, skip, cs.len());
                assert(rest@ =~= key@.skip(skip as int));
                let target = crate::text::concat2(new_path, rest.as_str());
                let ghost before = self.dirs;
                let ghost v = entry@;
                self.dirs.retarget(key, target.as_str(), entry);
                proof {
                    if unique(rows) {
                        law_retargeted(before.rows(), key@, target@, v, key@);
                        Table::lemma_leads_on(&start, &before, &self.dirs);
                    }
                }
                count = count + 1;
            }
            i = i + 1;
        }
        count
    }

    /// Takes `path` and the tree under it out of the index. Directories with history
    /// are kept, the others are forgotten.
    pub fn remove_subtree(&mut self, path: &str)
        ensures
            final(self).dirs.rows() == swept(old(self).dirs.rows(), leave_tree(path@)),
            old(self).dirs.leads_to(&final(self).dirs),
    {
        let ghost rows = self.dirs.rows();
        let ghost decide = leave_tree(path@);
        let mut plan: Vec<Change<DirEntry>> = Vec::new();
        let mut i: usize = 0;
        while i < self.dirs.len()
            invariant
                rows == self.dirs.rows(),
                decide == leave_tree(path@),
                i <= rows.len(),
                plan@.len() == i,
                forall|k: int| 0 <= k < i ==> (#[trigger] plan@[k])@ == decide(rows[k]),
            decreases rows.len() - i,
        {
            let change = if !in_subtree(self.dirs.key(i).as_str(), path) {
                Change::Keep
            } else if self.dirs.value(i).has_history() {
                let mut entry = self.dirs.value(i).copied();
                entry.in_index = false;
                Change::Write(entry)
            } else {
                Change::Delete
            };
            plan.push(change);
            i = i + 1;
        }
        assert(views(plan@) =~= Seq::new(rows.len(), |k: int| decide(rows[k])));
        self.dirs.apply(plan);
    }

    /// The number of directories in the index.
    pub fn len(&self) -> (r: usize)
        ensures
            r == index_size(self.dirs.rows()),
    {
        count_indexed(&self.dirs)
    }

    /// Whether the index holds nothing.
    pub fn is_empty(&self) -> (r: bool)
        ensures
            r == (index_size(self.dirs.rows()) == 0),
    {
        self.len() == 0
    }

    /// Whether the index holds anything.
    pub fn has_data(&self) -> (r: bool)
        ensures
            r == any_indexed(self.dirs.rows()),
    {
        has_indexed(&self.dirs)
    }

    /// Empties the index, and keeps every directory.
    pub fn mark_all_not_indexed(&mut self)
        ensures
            final(self).dirs.rows() == swept(old(self).dirs.rows(), leave_index()),
            old(self).dirs.leads_to(&final(self).dirs),
    {
        let ghost rows = self.dirs.rows();
        let ghost decide = leave_index();
        let mut plan: Vec<Change<DirEntry>> = Vec::new();
        let mut i: usize = 0;
        while i < self.dirs.len()
            invariant
                rows == self.dirs.rows(),
                decide == leave_index(),
                i <= rows.len(),
                plan@.len() == i,
                forall|k: int| 0 <= k < i ==> (#[trigger] plan@[k])@ == decide(rows[k]),
            decreases rows.len() - i,
        {
            let change = if self.dirs.value(i).in_index {
                let mut entry = self.dirs.value(i).copied();
                entry.in_index = false;
                Change::Write(entry)
            } else {
                Change::Keep
            };
            plan.push(change);
            i = i + 1;
        }
        assert(views(plan@) =~= Seq::new(rows.len(), |k: int| decide(rows[k])));
        self.dirs.apply(plan);
    }

    /// Forgets every directory that is neither in the index nor has history.
    pub fn cleanup_stale(&mut self)
        ensures
            final(self).dirs.rows() == swept(old(self).dirs.rows(), drop_stale()),
            old(self).dirs.leads_to(&final(self).dirs),
    {
        let ghost rows = self.dirs.rows();
        let ghost decide = drop_stale();
        let mut plan: Vec<Change<DirEntry>> = Vec::new();
        let mut i: usize = 0;
        while i < self.dirs.len()
            invariant
                rows == self.dirs.rows(),
                decide == drop_stale(),
                i <= rows.len(),
                plan@.len() == i,
                forall|k: int| 0 <= k < i ==> (#[trigger] plan@[k])@ == decide(rows[k]),
            decreases rows.len() - i,
        {
            let d = self.dirs.value(i);
            let change = if !d.in_index && !d.has_history() {
                Change::Delete
            } else {
                Change::Keep
            };
            plan.push(change);
            i = i + 1;
        }
        assert(views(plan@) =~= Seq::new(rows.len(), |k: int| decide(rows[k])));
        self.dirs.apply(plan);
    }
}

/// The keys of a tree are the keys of rows that lie in it.
pub proof fn lemma_tree_keys(rows: Rows, root: Seq<char>)
    ensures
        forall|k: int|
            0 <= k < tree_keys(rows, root).len() ==> in_tree(
                #[trigger] tree_keys(rows, root)[k],
                root,
            ),
        forall|k: int|
            0 <= k < tree_keys(rows, root).len() ==> lookup(
                rows,
                #[trigger] tree_keys(rows, root)[k],
            ) is Some,
        forall|key: Seq<char>|
            in_tree(key, root) && #[trigger] lookup(rows, key) is Some ==> tree_keys(
                rows,
                root,
            ).contains(key),
        unique(rows) ==> tree_keys(rows, root).no_duplicates(),
    decreases rows.len(),
{
    let all = tree_keys(rows, root);
    if rows.len() > 0 {
        let front = rows.drop_last();
        let last = rows.last();
        lemma_tree_keys(front, root);
        let keys = tree_keys(front, root);
        assert(rows =~= front.push(last));
        assert forall|k: int| 0 <= k < all.len() implies lookup(rows, #[trigger] all[k]) is Some by {
            crate::table::lemma_lookup_push(front, last, all[k]);
            if k < keys.len() {
                assert(all[k] == keys[k]);
            }
        }
        assert forall|key: Seq<char>|
            in_tree(key, root) && #[trigger] lookup(rows, key) is Some implies all.contains(
            key,
        ) by {
            crate::table::lemma_lookup_push(front, last, key);
            if lookup(front, key) is Some {
                assert(keys.contains(key));
                let i = choose|i: int| 0 <= i < keys.len() && keys[i] == key;
                assert(all[i] == key);
            } else {
                assert(all.last() == key);
            }
        }
        if unique(rows) {
            assert(forall|i: int| 0 <= i < front.len() ==> #[trigger] front[i] == rows[i]);
            if in_tree(last.0, root) {
                assert forall|k: int| 0 <= k < keys.len() implies keys[k] != last.0 by {
                    lemma_place(front, keys[k]);
                    assert(lookup(front, keys[k]) is Some);
                    assert(rows[crate::table::place(front, keys[k])].0 != rows[rows.len() - 1].0);
                }
            }
        }
    }
}

/// Whether neither of two trees lies in the other.
pub open spec fn apart(a: Seq<char>, b: Seq<char>) -> bool {
    !in_tree(a, b) && !in_tree(b, a)
}

/// Where two trees are apart, nothing that moves from one to the other lies in the
/// first, and no two paths come to lie at one place.
pub proof fn lemma_carried(path: Seq<char>, from: Seq<char>, to: Seq<char>)
    requires
        apart(from, to),
        in_tree(path, from),
    ensures
        !in_tree(carried(path, from, to), from),
        in_tree(carried(path, from, to), to),
        carried(carried(path, from, to), to, from) == path,
{
    let t = carried(path, from, to);
    let n = from.len() as int;
    let m = to.len() as int;
    if path != from {
        assert(path.subrange(0, n + 1) == from + seq!['/']);
        assert(path[n] == (from + seq!['/'])[n]);
        assert(forall|i: int| 0 <= i < n ==> path[i] == (from + seq!['/'])[i]);
        assert(t.subrange(0, m + 1) =~= to + seq!['/']) by {
            assert(t[m] == path.skip(n)[0]);
        }
    } else {
        assert(path.skip(n) =~= Seq::empty());
        assert(t =~= to);
    }
    assert(t.skip(m) =~= path.skip(n));
    assert(from + path.skip(n) =~= path);
    if in_tree(t, from) {
        // Both `from` and `to` begin `t`, so one lies in the tree of the other.
        if t == from {
            assert(in_tree(from, to));
        } else {
            let f = from + seq!['/'];
            assert(t.subrange(0, n + 1) == f);
            assert(forall|i: int| 0 <= i <= n ==> t[i] == f[i]);
            assert(forall|i: int| 0 <= i < m ==> t[i] == to[i]);
            if n < m {
                assert(to.subrange(0, n + 1) =~= f);
                assert(in_tree(to, from));
            } else if n == m {
                assert(to =~= from);
            } else {
                assert(t.len() > m);
                assert(t[m] == '/');
                assert(from.subrange(0, m + 1) =~= to + seq!['/']);
                assert(in_tree(from, to));
            }
        }
    }
}

/// What is under each key after `n` of the keys have moved.
proof fn lemma_moved(rows: Rows, n: int, from: Seq<char>, to: Seq<char>)
    requires
        unique(rows),
        apart(from, to),
        0 <= n <= tree_keys(rows, from).len(),
    ensures
        unique(moved(rows, tree_keys(rows, from), n, from, to).0),
        moved(rows, tree_keys(rows, from), n, from, to).1 == n,
        forall|key: Seq<char>| #[trigger]
            lookup(moved(rows, tree_keys(rows, from), n, from, to).0, key) == after_move(
                rows,
                n,
                from,
                to,
                key,
            ),
    decreases n,
{
    let keys = tree_keys(rows, from);
    lemma_tree_keys(rows, from);
    if n > 0 {
        lemma_moved(rows, n - 1, from, to);
        let before = moved(rows, keys, n - 1, from, to).0;
        let key = keys[n - 1];
        lemma_carried(key, from, to);
        assert(lookup(before, key) == after_move(rows, n - 1, from, to, key));
        assert(!in_tree(key, to)) by {
            if in_tree(key, to) {
                lemma_both_trees(key, from, to);
            }
        }
        assert(lookup(before, key) == lookup(rows, key)) by {
            assert(forall|i: int| 0 <= i < n - 1 ==> keys[i] != key);
        }
        let target = carried(key, from, to);
        let d = lookup(rows, key).unwrap();
        let v = carried_info(d, key, from, to);
        assert forall|other: Seq<char>| #[trigger]
            lookup(retargeted(before, key, target, v), other) == after_move(
                rows,
                n,
                from,
                to,
                other,
            ) by {
            law_retargeted(before, key, target, v, other);
            assert(lookup(before, other) == after_move(rows, n - 1, from, to, other));
            let back = carried(other, to, from);
            let fewer = keys.take(n - 1);
            let more = keys.take(n);
            if other == target {
                assert(more[n - 1] == key);
            } else {
                if more.contains(other) && other != key {
                    let i = choose|i: int| 0 <= i < more.len() && more[i] == other;
                    assert(fewer[i] == other);
                }
                if fewer.contains(other) {
                    let i = choose|i: int| 0 <= i < fewer.len() && fewer[i] == other;
                    assert(more[i] == other);
                }
                if other == key {
                    assert(more[n - 1] == key);
                }
                if in_tree(other, to) {
                    if back == key {
                        lemma_carried_back(other, from, to);
                    }
                    if more.contains(back) {
                        let i = choose|i: int| 0 <= i < more.len() && more[i] == back;
                        if i < n - 1 {
                            assert(fewer[i] == back);
                        }
                    }
                    if fewer.contains(back) {
                        let i = choose|i: int| 0 <= i < fewer.len() && fewer[i] == back;
                        assert(more[i] == back);
                    }
                }
            }
        }
        law_retargeted(before, key, target, v, key);
    } else {
        assert(keys.take(0) =~= Seq::empty());
    }
}

/// What is under `key` after the first `n` rows of the tree under `from` have moved.
spec fn after_move(rows: Rows, n: int, from: Seq<char>, to: Seq<char>, key: Seq<char>) -> Option<
    DirInfo,
> {
    let keys = tree_keys(rows, from).take(n);
    let back = carried(key, to, from);
    if in_tree(key, to) && keys.contains(back) {
        Some(carried_info(lookup(rows, back).unwrap(), back, from, to))
    } else if keys.contains(key) {
        None
    } else {
        lookup(rows, key)
    }
}

/// What was carried back is carried there again.
proof fn lemma_carried_back(path: Seq<char>, from: Seq<char>, to: Seq<char>)
    requires
        apart(from, to),
        in_tree(path, to),
    ensures
        carried(carried(path, to, from), from, to) == path,
        in_tree(carried(path, to, from), from),
{
    lemma_carried(path, to, from);
}

/// No path lies in two trees that are apart.
pub proof fn lemma_both_trees(path: Seq<char>, a: Seq<char>, b: Seq<char>)
    requires
        in_tree(path, a),
        in_tree(path, b),
    ensures
        !apart(a, b),
{
    let n = a.len() as int;
    let m = b.len() as int;
    if path != a && path != b {
        let sa = a + seq!['/'];
        let sb = b + seq!['/'];
        assert(path.subrange(0, n + 1) == sa);
        assert(path.subrange(0, m + 1) == sb);
        assert(forall|i: int| 0 <= i <= n ==> path[i] == sa[i]);
        assert(forall|i: int| 0 <= i <= m ==> path[i] == sb[i]);
        if n < m {
            assert(b.subrange(0, n + 1) =~= sa);
        } else if n == m {
            assert forall|i: int| 0 <= i < n implies a[i] == b[i] by {
                assert(path[i] == sa[i] && path[i] == sb[i]);
            }
            assert(a =~= b);
        } else {
            assert(a.subrange(0, m + 1) =~= sb);
        }
    }
}

/// Law: when a tree moves to a place apart from it, every directory in it is found
/// at its new place with all its history, nothing is left at the old places, and all
/// else is as before. As many rows move as the tree had.
pub proof fn law_rename(rows: Rows, from: Seq<char>, to: Seq<char>, path: Seq<char>)
    requires
        unique(rows),
        apart(from, to),
    ensures
        lookup(renamed(rows, from, to).0, path) == if in_tree(path, to) && lookup(
            rows,
            carried(path, to, from),
        ) is Some {
            Some(
                carried_info(
                    lookup(rows, carried(path, to, from)).unwrap(),
                    carried(path, to, from),
                    from,
                    to,
                ),
            )
        } else if in_tree(path, from) {
            None
        } else {
            lookup(rows, path)
        },
        renamed(rows, from, to).1 == tree_keys(rows, from).len(),
{
    let keys = tree_keys(rows, from);
    lemma_moved(rows, keys.len() as int, from, to);
    lemma_tree_keys(rows, from);
    assert(keys.take(keys.len() as int) =~= keys);
    let after = renamed(rows, from, to).0;
    assert(lookup(after, path) == after_move(rows, keys.len() as int, from, to, path));
    if in_tree(path, to) {
        lemma_carried_back(path, from, to);
        if in_tree(path, from) {
            lemma_both_trees(path, from, to);
        }
        let back = carried(path, to, from);
        if keys.contains(back) {
            let i = choose|i: int| 0 <= i < keys.len() && keys[i] == back;
            assert(lookup(rows, keys[i]) is Some);
        }
    }
    if keys.contains(path) {
        let i = choose|i: int| 0 <= i < keys.len() && keys[i] == path;
        assert(in_tree(keys[i], from));
    }
}

/// Law: a tree that leaves the index leaves no directory behind without history;
/// those with history keep it, outside the index; other trees are not touched.
pub proof fn law_remove_subtree(rows: Rows, root: Seq<char>, path: Seq<char>)
    requires
        unique(rows),
    ensures
        lookup(swept(rows, leave_tree(root)), path) == match lookup(rows, path) {
            Some(d) => if !in_tree(path, root) {
                Some(d)
            } else if used(d) {
                Some(DirInfo { in_index: false, ..d })
            } else {
                None
            },
            None => None,
        },
{
    law_swept(rows, leave_tree(root), path);
}

/// Law: what was put into the index is in it; a directory keeps its history when it
/// enters or leaves the index, and is forgotten only where it has none.
pub proof fn law_index(rows: Rows, path: Seq<char>, other: Seq<char>)
    ensures
        !lacks(indexed(rows, path), path),
        !lacks(ensured(rows, path), path),
        lookup(rows, path) is Some ==> ({
            let d = lookup(rows, path).unwrap();
            &&& lookup(indexed(rows, path), path) == Some(
                DirInfo { basename: base_of(path), in_index: true, ..d },
            )
            &&& lookup(ensured(rows, path), path) == Some(DirInfo { in_index: true, ..d })
            &&& used(d) ==> lookup(retired(rows, path), path) == Some(
                DirInfo { in_index: false, ..d },
            )
            &&& !used(d) ==> lookup(retired(rows, path), path) is None
        }),
        other != path ==> lookup(indexed(rows, path), other) == lookup(rows, other),
        other != path ==> lookup(ensured(rows, path), other) == lookup(rows, other),
        other != path ==> lookup(retired(rows, path), other) == lookup(rows, other),
{
    let in_entry = match lookup(rows, path) {
        Some(d) => DirInfo { basename: base_of(path), in_index: true, ..d },
        None => fresh(path),
    };
    crate::table::law_upserted(rows, path, in_entry, path);
    crate::table::law_upserted(rows, path, in_entry, other);
    crate::table::law_upserted(rows, path, fresh(path), path);
    crate::table::law_upserted(rows, path, fresh(path), other);
    crate::table::law_without(rows, path, path);
    crate::table::law_without(rows, path, other);
    if let Some(d) = lookup(rows, path) {
        crate::table::law_upserted(rows, path, DirInfo { in_index: true, ..d }, path);
        crate::table::law_upserted(rows, path, DirInfo { in_index: true, ..d }, other);
        crate::table::law_upserted(rows, path, DirInfo { in_index: false, ..d }, path);
        crate::table::law_upserted(rows, path, DirInfo { in_index: false, ..d }, other);
    }
}

/// What moving the first `n` keys leaves under a path outside the target tree.
proof fn lemma_moved_outside(
    rows: Rows,
    keys: Seq<Seq<char>>,
    n: int,
    from: Seq<char>,
    to: Seq<char>,
    path: Seq<char>,
)
    requires
        unique(rows),
        0 <= n <= keys.len(),
        forall|k: int| 0 <= k < keys.len() ==> in_tree(#[trigger] keys[k], from),
        !in_tree(path, to),
    ensures
        unique(moved(rows, keys, n, from, to).0),
        lookup(moved(rows, keys, n, from, to).0, path) == if keys.take(n).contains(path) {
            None
        } else {
            lookup(rows, path)
        },
    decreases n,
{
    if n > 0 {
        lemma_moved_outside(rows, keys, n - 1, from, to, path);
        let before = moved(rows, keys, n - 1, from, to).0;
        let key = keys[n - 1];
        let target = carried(key, from, to);
        assert(in_tree(target, to)) by {
            if key == from {
                assert(target =~= to);
            } else {
                assert((from + seq!['/']).is_prefix_of(key));
                assert(key[from.len() as int] == (from + seq!['/'])[from.len() as int]);
                assert(target.take(to.len() as int + 1) =~= to + seq!['/']);
            }
        }
        if let Some(d) = lookup(before, key) {
            law_retargeted(before, key, target, carried_info(d, key, from, to), path);
        }
        assert(keys.take(n) =~= keys.take(n - 1).push(key));
        assert(keys.take(n).contains(path) <==> keys.take(n - 1).contains(path) || key == path) by {
            let front = keys.take(n - 1);
            if front.contains(path) {
                let i = choose|i: int| 0 <= i < front.len() && front[i] == path;
                assert(keys.take(n)[i] == path);
            }
            assert(keys.take(n)[n - 1] == key);
        }
    } else {
        assert(keys.take(0) =~= Seq::empty());
    }
}

/// Law: wherever a tree moves, outside its new place nothing of it is left, and all
/// that was not in it is as before.
pub proof fn law_rename_leaves(rows: Rows, from: Seq<char>, to: Seq<char>, path: Seq<char>)
    requires
        unique(rows),
    ensures
        !in_tree(path, to) ==> lookup(renamed(rows, from, to).0, path) == if in_tree(path, from) {
            None
        } else {
            lookup(rows, path)
        },
{
    if !in_tree(path, to) {
        let keys = tree_keys(rows, from);
        lemma_tree_keys(rows, from);
        lemma_moved_outside(rows, keys, keys.len() as int, from, to, path);
        assert(keys.take(keys.len() as int) =~= keys);
        if keys.contains(path) {
            let i = choose|i: int| 0 <= i < keys.len() && keys[i] == path;
            assert(in_tree(keys[i], from));
        }
    }
}

} // verus!
