//! What is kept of each directory, and how it changes.

use crate::order::{char_lt, lex_lt, text_lt, text_relation, Relation};
use crate::path::{file_name, name_of};
use crate::table::{law_upserted, lookup, upserted, without, Change, Table};
use crate::text::{lowercase, str_eq, to_chars, from_chars};
use vstd::prelude::*;
use vstd::string::*;

verus! {

/// What is kept of one directory.
#[derive(Debug)]
pub struct DirEntry {
    /// The last component of its path, in lowercase.
    pub basename_lower: String,
    /// How often it was entered.
    pub visits: u64,
    /// How often it was picked.
    pub selections: u64,
    /// When it was last entered or picked, in seconds.
    pub last_access: u64,
    /// Whether the index holds it at present.
    pub in_index: bool,
}

/// What is kept of one directory.
pub struct DirInfo {
    pub basename: Seq<char>,
    pub visits: u64,
    pub selections: u64,
    pub last_access: u64,
    pub in_index: bool,
}

impl View for DirEntry {
    type V = DirInfo;

    open spec fn view(&self) -> DirInfo {
        DirInfo {
            basename: self.basename_lower@,
            visits: self.visits,
            selections: self.selections,
            last_access: self.last_access,
            in_index: self.in_index,
        }
    }
}

/// Rows of directories under their paths.
pub type Rows = Seq<(Seq<char>, DirInfo)>;

impl DirEntry {
    /// The same entry once more.
    pub fn copied(&self) -> (r: DirEntry)
        ensures
            r@ == self@,
    {
        DirEntry {
            basename_lower: self.basename_lower.clone(),
            visits: self.visits,
            selections: self.selections,
            last_access: self.last_access,
            in_index: self.in_index,
        }
    }

    /// Whether the directory was ever entered or picked.
    pub fn has_history(&self) -> (r: bool)
        ensures
            r == used(self@),
    {
        self.visits > 0 || self.selections > 0
    }
}

/// Whether the directory was ever entered or picked.
pub open spec fn used(d: DirInfo) -> bool {
    d.visits > 0 || d.selections > 0
}

// ---- keys ----

/// `s` without the slashes at its end.
pub open spec fn slashes_off(s: Seq<char>) -> Seq<char>
    decreases s.len(),
{
    if s.len() > 0 && s.last() == '/' {
        slashes_off(s.drop_last())
    } else {
        s
    }
}

/// The text under which a path is kept: without slashes at its end, and the root as `/`.
pub open spec fn key_of(s: Seq<char>) -> Seq<char> {
    if slashes_off(s).len() == 0 {
        seq!['/']
    } else {
        slashes_off(s)
    }
}

/// The text under which a path is kept: without slashes at its end, and the root as `/`.
pub fn trim_trailing_slash(s: &str) -> (r: String)
    ensures
        r@ == key_of(s@),
{
    let cs = to_chars(s);
    let mut to: usize = cs.len();
    assert(s@.take(to as int) =~= s@);
    while to > 0 && cs[to - 1] == '/'
        invariant
            cs@ == s@,
            to <= cs@.len(),
            slashes_off(s@) == slashes_off(s@.take(to as int)),
        decreases to,
    {
        assert(s@.take(to as int).drop_last() =~= s@.take(to - 1));
        to = to - 1;
    }
    if to == 0 {
        let mut out = String::new();
        out.push('/');
        assert(out@ =~= seq!['/']);
        return out;
    }
    assert(s@.take(to as int) =~= s@.subrange(0, to as int));
    from_chars(&cs, 0, to)
}

/// Law: the key of a path does not change when it is taken again, and slashes at the
/// end of a path do not count.
pub proof fn law_key_of(s: Seq<char>)
    ensures
        key_of(key_of(s)) == key_of(s),
        key_of(s.push('/')) == key_of(s),
{
    lemma_slashes_off(s);
    assert(s.push('/').drop_last() =~= s);
    let root = seq!['/'];
    assert(root.drop_last() =~= Seq::empty());
    assert(slashes_off(root).len() == 0) by {
        assert(slashes_off(root) == slashes_off(root.drop_last()));
    }
}

/// What is left when the slashes are off does not end in one.
proof fn lemma_slashes_off(s: Seq<char>)
    ensures
        slashes_off(s).len() > 0 ==> slashes_off(s).last() != '/',
    decreases s.len(),
{
    if s.len() > 0 && s.last() == '/' {
        lemma_slashes_off(s.drop_last());
    }
}

/// The last component of a path in lowercase, or nothing where it is no name.
pub open spec fn base_of(path: Seq<char>) -> Seq<char> {
    match name_of(path) {
        Some(name) => lowercase(name),
        None => Seq::empty(),
    }
}

/// The last component of a path in lowercase, or nothing where it is no name.
pub fn basename_lower_of(path: &str) -> (r: String)
    ensures
        r@ == base_of(path@),
{
    match file_name(path) {
        Some(name) => name.as_str().to_lowercase(),
        None => String::new(),
    }
}

// ---- subtrees ----

/// Whether `path` is `root` or is written with `root` and a slash in front.
pub open spec fn in_tree(path: Seq<char>, root: Seq<char>) -> bool {
    path == root || (root + seq!['/']).is_prefix_of(path)
}

/// The first text of a subtree and the first text behind it.
pub fn subtree_bounds(prefix: &str) -> (r: (String, String))
    ensures
        r.0@ == prefix@ + seq!['/'],
        r.1@ == prefix@ + seq!['0'],
{
    let mut lo = prefix.to_owned();
    lo.push('/');
    assert(lo@ =~= prefix@ + seq!['/']);
    let mut hi = prefix.to_owned();
    hi.push('0');
    assert(hi@ =~= prefix@ + seq!['0']);
    (lo, hi)
}

/// Law: the texts from `prefix/` up to but not including `prefix0` are those that
/// begin with `prefix/`.
pub proof fn law_subtree_bounds(prefix: Seq<char>, path: Seq<char>)
    ensures
        !text_lt(path, prefix + seq!['/']) && text_lt(path, prefix + seq!['0']) <==> (prefix
            + seq!['/']).is_prefix_of(path),
    decreases prefix.len(),
{
    let lo = prefix + seq!['/'];
    let hi = prefix + seq!['0'];
    let lt = char_lt();
    if path.len() == 0 {
        assert(lo.len() > 0);
    } else if prefix.len() == 0 {
        assert(lo =~= seq!['/']);
        assert(hi =~= seq!['0']);
        assert(lo.skip(1) =~= Seq::empty());
        assert(hi.skip(1) =~= Seq::empty());
        assert(lo[0] == '/' && hi[0] == '0');
        if path[0] == '/' {
            assert(path.subrange(0, 1) =~= lo);
        } else if lo.is_prefix_of(path) {
            assert(path.subrange(0, 1)[0] == lo[0]);
        }
        assert(lex_lt(path.skip(1), Seq::empty(), lt) == false);
    } else {
        let rest = prefix.skip(1);
        assert(lo[0] == prefix[0] && hi[0] == prefix[0]);
        assert(lo.skip(1) =~= rest + seq!['/']);
        assert(hi.skip(1) =~= rest + seq!['0']);
        if path[0] == prefix[0] {
            law_subtree_bounds(rest, path.skip(1));
            if lo.is_prefix_of(path) {
                assert(path.skip(1).subrange(0, lo.len() - 1) =~= lo.skip(1));
            }
            if lo.skip(1).is_prefix_of(path.skip(1)) {
                assert(path.subrange(0, lo.len() as int) =~= lo) by {
                    assert forall|i: int| 0 <= i < lo.len() implies path[i] == lo[i] by {
                        if i > 0 {
                            assert(path.skip(1).subrange(0, lo.len() - 1)[i - 1] == lo.skip(1)[i
                                - 1]);
                        }
                    }
                }
            }
        } else if lo.is_prefix_of(path) {
            assert(path.subrange(0, lo.len() as int)[0] == lo[0]);
        }
    }
}

/// Whether `path` lies in the tree under `root`.
pub fn in_subtree(path: &str, root: &str) -> (r: bool)
    ensures
        r == in_tree(path@, root@),
{
    if str_eq(path, root) {
        return true;
    }
    let (lo, hi) = subtree_bounds(root);
    proof {
        law_subtree_bounds(root@, path@);
    }
    text_relation(path, lo.as_str()) != Relation::Before && text_relation(path, hi.as_str())
        == Relation::Before
}

// ---- what happens to a directory ----

/// The count after one more, as far as a count can go.
pub open spec fn one_more(n: u64) -> u64 {
    if n < u64::MAX {
        (n + 1) as u64
    } else {
        n
    }
}

/// The rows after `path` was entered at `now`.
pub open spec fn visited(rows: Rows, path: Seq<char>, now: u64) -> Rows {
    let key = key_of(path);
    let entry = match lookup(rows, key) {
        Some(d) => DirInfo {
            basename: base_of(key),
            visits: one_more(d.visits),
            last_access: now,
            ..d
        },
        None => DirInfo {
            basename: base_of(key),
            visits: 1,
            selections: 0,
            last_access: now,
            in_index: false,
        },
    };
    upserted(rows, key, entry)
}

/// The rows after `path` was picked at `now`.
pub open spec fn picked(rows: Rows, path: Seq<char>, now: u64) -> Rows {
    let key = key_of(path);
    let entry = match lookup(rows, key) {
        Some(d) => DirInfo {
            basename: base_of(key),
            selections: one_more(d.selections),
            last_access: now,
            ..d
        },
        None => DirInfo {
            basename: base_of(key),
            visits: 0,
            selections: 1,
            last_access: now,
            in_index: false,
        },
    };
    upserted(rows, key, entry)
}

/// The rows after the directory at `path` was found missing: without history it is
/// forgotten, with history it only leaves the index.
pub open spec fn retired(rows: Rows, path: Seq<char>) -> Rows {
    match lookup(rows, path) {
        Some(d) => if used(d) {
            upserted(rows, path, DirInfo { in_index: false, ..d })
        } else {
            without(rows, path)
        },
        None => rows,
    }
}

/// The rows after each of the paths was found missing.
pub open spec fn all_retired(rows: Rows, paths: Seq<Seq<char>>) -> Rows
    decreases paths.len(),
{
    if paths.len() == 0 {
        rows
    } else {
        retired(all_retired(rows, paths.drop_last()), paths.last())
    }
}

/// The rows after `path` came into the index.
pub open spec fn indexed(rows: Rows, path: Seq<char>) -> Rows {
    let entry = match lookup(rows, path) {
        Some(d) => DirInfo { basename: base_of(path), in_index: true, ..d },
        None => fresh(path),
    };
    upserted(rows, path, entry)
}

/// What is kept of a directory that is only known to be there.
pub open spec fn fresh(path: Seq<char>) -> DirInfo {
    DirInfo {
        basename: base_of(path),
        visits: 0,
        selections: 0,
        last_access: 0,
        in_index: true,
    }
}

/// Whether the index lacks `path`.
pub open spec fn lacks(rows: Rows, path: Seq<char>) -> bool {
    match lookup(rows, path) {
        Some(d) => !d.in_index,
        None => true,
    }
}

/// The rows after `path` was put into the index where the index lacked it.
pub open spec fn ensured(rows: Rows, path: Seq<char>) -> Rows {
    match lookup(rows, path) {
        Some(d) => if d.in_index {
            rows
        } else {
            upserted(rows, path, DirInfo { in_index: true, ..d })
        },
        None => upserted(rows, path, fresh(path)),
    }
}

/// Law: entering a directory counts one visit and picking one counts one selection;
/// each is dated, neither touches what else is kept of the directory, and no other
/// directory changes. Slashes at the end of the path make no difference.
pub proof fn law_recorded(rows: Rows, path: Seq<char>, now: u64, other: Seq<char>)
    ensures
        other != key_of(path) ==> lookup(visited(rows, path, now), other) == lookup(rows, other),
        other != key_of(path) ==> lookup(picked(rows, path, now), other) == lookup(rows, other),
        ({
            let was = lookup(rows, key_of(path));
            &&& lookup(visited(rows, path, now), key_of(path)) matches Some(d)
            &&& used(d)
            &&& d.last_access == now
            &&& d.visits == match was {
                Some(w) => one_more(w.visits),
                None => 1,
            }
            &&& was matches Some(w) ==> d.selections == w.selections && d.in_index == w.in_index
            &&& was is None ==> d.selections == 0 && !d.in_index
        }),
        ({
            let was = lookup(rows, key_of(path));
            &&& lookup(picked(rows, path, now), key_of(path)) matches Some(d)
            &&& used(d)
            &&& d.last_access == now
            &&& d.selections == match was {
                Some(w) => one_more(w.selections),
                None => 1,
            }
            &&& was matches Some(w) ==> d.visits == w.visits && d.in_index == w.in_index
            &&& was is None ==> d.visits == 0 && !d.in_index
        }),
        visited(rows, path.push('/'), now) == visited(rows, path, now),
        picked(rows, path.push('/'), now) == picked(rows, path, now),
{
    let key = key_of(path);
    law_key_of(path);
    match lookup(rows, key) {
        Some(d) => {
            let a = DirInfo {
                basename: base_of(key),
                visits: one_more(d.visits),
                last_access: now,
                ..d
            };
            let b = DirInfo {
                basename: base_of(key),
                selections: one_more(d.selections),
                last_access: now,
                ..d
            };
            law_upserted(rows, key, a, key);
            law_upserted(rows, key, a, other);
            law_upserted(rows, key, b, key);
            law_upserted(rows, key, b, other);
        },
        None => {
            let a = DirInfo {
                basename: base_of(key),
                visits: 1,
                selections: 0,
                last_access: now,
                in_index: false,
            };
            let b = DirInfo {
                basename: base_of(key),
                visits: 0,
                selections: 1,
                last_access: now,
                in_index: false,
            };
            law_upserted(rows, key, a, key);
            law_upserted(rows, key, a, other);
            law_upserted(rows, key, b, key);
            law_upserted(rows, key, b, other);
        },
    }
}

/// What becomes of a row when the tree under `root` leaves the index.
pub open spec fn leave_tree(root: Seq<char>) -> spec_fn((Seq<char>, DirInfo)) -> Change<DirInfo> {
    |row: (Seq<char>, DirInfo)|
        if !in_tree(row.0, root) {
            Change::Keep
        } else if used(row.1) {
            Change::Write(DirInfo { in_index: false, ..row.1 })
        } else {
            Change::Delete
        }
}

/// What becomes of a row when the whole index is emptied.
pub open spec fn leave_index() -> spec_fn((Seq<char>, DirInfo)) -> Change<DirInfo> {
    |row: (Seq<char>, DirInfo)|
        if row.1.in_index {
            Change::Write(DirInfo { in_index: false, ..row.1 })
        } else {
            Change::Keep
        }
}

/// What becomes of a row when all that is neither indexed nor used is dropped.
pub open spec fn drop_stale() -> spec_fn((Seq<char>, DirInfo)) -> Change<DirInfo> {
    |row: (Seq<char>, DirInfo)|
        if !row.1.in_index && !used(row.1) {
            Change::Delete
        } else {
            Change::Keep
        }
}

/// Records that `path` was entered at `now`.
pub fn record_visit(dirs: &mut Table<DirEntry>, path: &str, now: u64)
    ensures
        final(dirs).rows() == visited(old(dirs).rows(), path@, now),
        old(dirs).leads_to(final(dirs)),
{
    let key = trim_trailing_slash(path);
    let basename_lower = basename_lower_of(key.as_str());
    let entry = match dirs.get(key.as_str()) {
        Some(d) => DirEntry {
            basename_lower,
            visits: if d.visits < u64::MAX {
                d.visits + 1
            } else {
                d.visits
            },
            selections: d.selections,
            last_access: now,
            in_index: d.in_index,
        },
        None => DirEntry {
            basename_lower,
            visits: 1,
            selections: 0,
            last_access: now,
            in_index: false,
        },
    };
    dirs.upsert(key.as_str(), entry);
}

/// Records that `path` was picked at `now`.
pub fn record_selection(dirs: &mut Table<DirEntry>, path: &str, now: u64)
    ensures
        final(dirs).rows() == picked(old(dirs).rows(), path@, now),
        old(dirs).leads_to(final(dirs)),
{
    let key = trim_trailing_slash(path);
    let basename_lower = basename_lower_of(key.as_str());
    let entry = match dirs.get(key.as_str()) {
        Some(d) => DirEntry {
            basename_lower,
            visits: d.visits,
            selections: if d.selections < u64::MAX {
                d.selections + 1
            } else {
                d.selections
            },
            last_access: now,
            in_index: d.in_index,
        },
        None => DirEntry {
            basename_lower,
            visits: 0,
            selections: 1,
            last_access: now,
            in_index: false,
        },
    };
    dirs.upsert(key.as_str(), entry);
}

/// Takes a missing directory out of the index, and forgets it where it has no history.
pub fn retire(dirs: &mut Table<DirEntry>, path: &str)
    ensures
        final(dirs).rows() == retired(old(dirs).rows(), path@),
        old(dirs).leads_to(final(dirs)),
{
    let kept: Option<DirEntry> = match dirs.get(path) {
        None => {
            return ;
        },
        Some(d) => if d.has_history() {
            let mut entry = d.copied();
            entry.in_index = false;
            Some(entry)
        } else {
            None
        },
    };
    match kept {
        Some(entry) => {
            dirs.upsert(path, entry);
        },
        None => {
            let _gone: usize = dirs.remove(path);
        },
    }
}

/// The number of rows in the index.
pub open spec fn index_size(rows: Rows) -> int
    decreases rows.len(),
{
    if rows.len() == 0 {
        0
    } else {
        index_size(rows.drop_last()) + if rows.last().1.in_index {
            1int
        } else {
            0int
        }
    }
}

/// The number of rows with history.
pub open spec fn history_size(rows: Rows) -> int
    decreases rows.len(),
{
    if rows.len() == 0 {
        0
    } else {
        history_size(rows.drop_last()) + if used(rows.last().1) {
            1int
        } else {
            0int
        }
    }
}

/// Whether any row is in the index.
pub open spec fn any_indexed(rows: Rows) -> bool {
    exists|i: int| 0 <= i < rows.len() && (#[trigger] rows[i]).1.in_index
}

/// The number of rows in the index.
pub fn count_indexed(dirs: &Table<DirEntry>) -> (r: usize)
    ensures
        r == index_size(dirs.rows()),
{
    let mut n: usize = 0;
    let mut i: usize = 0;
    let ghost rows = dirs.rows();
    assert(rows.take(0) =~= Seq::empty());
    while i < dirs.len()
        invariant
            rows == dirs.rows(),
            n <= i <= rows.len(),
            n == index_size(rows.take(i as int)),
        decreases rows.len() - i,
    {
        assert(rows.take(i + 1).drop_last() =~= rows.take(i as int));
        if dirs.value(i).in_index {
            n = n + 1;
        }
        i = i + 1;
    }
    assert(rows.take(rows.len() as int) =~= rows);
    n
}

/// The number of rows with history.
pub fn count_history(dirs: &Table<DirEntry>) -> (r: usize)
    ensures
        r == history_size(dirs.rows()),
{
    let mut n: usize = 0;
    let mut i: usize = 0;
    let ghost rows = dirs.rows();
    assert(rows.take(0) =~= Seq::empty());
    while i < dirs.len()
        invariant
            rows == dirs.rows(),
            n <= i <= rows.len(),
            n == history_size(rows.take(i as int)),
        decreases rows.len() - i,
    {
        assert(rows.take(i + 1).drop_last() =~= rows.take(i as int));
        if dirs.value(i).has_history() {
            n = n + 1;
        }
        i = i + 1;
    }
    assert(rows.take(rows.len() as int) =~= rows);
    n
}

/// Whether any row is in the index.
pub fn has_indexed(dirs: &Table<DirEntry>) -> (r: bool)
    ensures
        r == any_indexed(dirs.rows()),
{
    let mut i: usize = 0;
    while i < dirs.len()
        invariant
            i <= dirs.rows().len(),
            forall|k: int| 0 <= k < i ==> !(#[trigger] dirs.rows()[k]).1.in_index,
        decreases dirs.rows().len() - i,
    {
        if dirs.value(i).in_index {
            assert(dirs.rows()[i as int].1.in_index);
            return true;
        }
        i = i + 1;
    }
    false
}

/// Law: a path that does not end in a slash is its own key, and the key of every path is
/// what it begins with; only the root, and nothing at all, is kept as `/`.
pub proof fn law_key_is_path(s: Seq<char>)
    ensures
        s.len() > 0 && s.last() != '/' ==> key_of(s) == s,
        key_of(s) == seq!['/'] || key_of(s).is_prefix_of(s),
        s.len() > 0 && s[0] != '/' ==> key_of(s).is_prefix_of(s),
    decreases s.len(),
{
    lemma_slashes_prefix(s);
    if s.len() > 0 && s[0] != '/' {
        lemma_slashes_some(s);
    }
}

/// What is left when the slashes are off is what the text begins with.
proof fn lemma_slashes_prefix(s: Seq<char>)
    ensures
        slashes_off(s).is_prefix_of(s),
    decreases s.len(),
{
    if s.len() > 0 && s.last() == '/' {
        lemma_slashes_prefix(s.drop_last());
        assert(s.take(slashes_off(s).len() as int) =~= s.drop_last().take(
            slashes_off(s).len() as int,
        ));
    }
}

/// Something is left where the text does not begin with a slash.
proof fn lemma_slashes_some(s: Seq<char>)
    requires
        s.len() > 0,
        s[0] != '/',
    ensures
        slashes_off(s).len() > 0,
    decreases s.len(),
{
    if s.last() == '/' {
        lemma_slashes_some(s.drop_last());
    }
}

/// Law: what is recorded of a directory is kept under its own name in lowercase, and one
/// visit or selection more is one more, up to the largest count.
pub proof fn law_recorded_name(rows: Rows, path: Seq<char>, now: u64)
    ensures
        lookup(visited(rows, path, now), key_of(path)) matches Some(d) && d.basename == base_of(
            key_of(path),
        ),
        lookup(picked(rows, path, now), key_of(path)) matches Some(d) && d.basename == base_of(
            key_of(path),
        ),
        lookup(rows, key_of(path)) matches Some(w) ==> ({
            &&& w.visits < u64::MAX ==> lookup(
                visited(rows, path, now),
                key_of(path),
            ).unwrap().visits == w.visits + 1
            &&& w.selections < u64::MAX ==> lookup(
                picked(rows, path, now),
                key_of(path),
            ).unwrap().selections == w.selections + 1
            &&& lookup(visited(rows, path, now), key_of(path)).unwrap().visits >= w.visits
            &&& lookup(picked(rows, path, now), key_of(path)).unwrap().selections >= w.selections
        }),
{
    let key = key_of(path);
    law_recorded(rows, path, now, key);
    match lookup(rows, key) {
        Some(d) => {
            law_upserted(
                rows,
                key,
                DirInfo {
                    basename: base_of(key),
                    visits: one_more(d.visits),
                    last_access: now,
                    ..d
                },
                key,
            );
            law_upserted(
                rows,
                key,
                DirInfo {
                    basename: base_of(key),
                    selections: one_more(d.selections),
                    last_access: now,
                    ..d
                },
                key,
            );
        },
        None => {
            law_upserted(
                rows,
                key,
                DirInfo {
                    basename: base_of(key),
                    visits: 1,
                    selections: 0,
                    last_access: now,
                    in_index: false,
                },
                key,
            );
            law_upserted(
                rows,
                key,
                DirInfo {
                    basename: base_of(key),
                    visits: 0,
                    selections: 1,
                    last_access: now,
                    in_index: false,
                },
                key,
            );
        },
    }
}

/// Law: when directories are found missing, each of them is out of the index: with its
/// history where it has any, else forgotten; all others stay as they were.
pub proof fn law_all_retired(rows: Rows, paths: Seq<Seq<char>>, path: Seq<char>)
    ensures
        lookup(all_retired(rows, paths), path) == match lookup(rows, path) {
            Some(d) => if !paths.contains(path) {
                Some(d)
            } else if d.visits > 0 || d.selections > 0 {
                Some(DirInfo { in_index: false, ..d })
            } else {
                None
            },
            None => None,
        },
    decreases paths.len(),
{
    if paths.len() > 0 {
        let front = paths.drop_last();
        let last = paths.last();
        law_all_retired(rows, front, path);
        law_all_retired(rows, front, last);
        let before = all_retired(rows, front);
        crate::table::law_without(before, last, last);
        crate::table::law_without(before, last, path);
        if let Some(d) = lookup(before, last) {
            law_upserted(before, last, DirInfo { in_index: false, ..d }, last);
            law_upserted(before, last, DirInfo { in_index: false, ..d }, path);
        }
        assert(paths =~= front.push(last));
        if front.contains(path) {
            let i = choose|i: int| 0 <= i < front.len() && front[i] == path;
            assert(paths[i] == path);
        }
        if path == last {
            assert(paths[paths.len() - 1] == path);
        }
    }
}

/// Law: the index is as large as it holds directories: one more row makes it larger by
/// one exactly where the index holds it, and so for the history.
pub proof fn law_sizes(rows: Rows, row: (Seq<char>, DirInfo))
    ensures
        index_size(rows.push(row)) == index_size(rows) + if row.1.in_index {
            1int
        } else {
            0
        },
        history_size(rows.push(row)) == history_size(rows) + if row.1.visits > 0
            || row.1.selections > 0 {
            1int
        } else {
            0
        },
        index_size(Seq::empty()) == 0,
        history_size(Seq::empty()) == 0,
{
    assert(rows.push(row).drop_last() =~= rows);
}

} // verus!
