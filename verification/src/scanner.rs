//! Scans: how a walk over the directories brings the index up to date.

use crate::dirs::{base_of, drop_stale, ensured, fresh, indexed, lacks, leave_index, used, DirInfo, Rows};
use crate::index::{law_index, PathIndex};
use crate::table::{law_swept, law_swept_by_parts, law_unique, lookup, swept, unique, Table};
use crate::text::{str_eq, texts};
use vstd::prelude::*;

verus! {

/// How many entries are walked between two commits.
pub const BATCH_ENTRIES: usize = 2000;

/// How many threads walk at most.
pub const MAX_SCAN_THREADS: usize = 8;

/// How many threads walk where the machine does not say what it has.
pub const DEFAULT_SCAN_THREADS: usize = 2;

/// The names of directories that are left out, with all that is under them.
pub const EXCLUDE_NAMES: [&'static str; 24] = [
    ".git",
    "node_modules",
    "target",
    ".cache",
    "__pycache__",
    ".venv",
    "venv",
    ".tox",
    "dist",
    "build",
    ".gradle",
    ".m2",
    "vendor",
    ".npm",
    ".cargo",
    ".rustup",
    ".nvm",
    ".conda",
    "snap",
    ".var",
    ".steam",
    ".mozilla",
    ".thunderbird",
    ".wine",
];

/// Whether a directory of this name is left out.
pub open spec fn excluded(name: Seq<char>) -> bool {
    exists|i: int| 0 <= i < EXCLUDE_NAMES@.len() && #[trigger] EXCLUDE_NAMES@[i]@ == name
}

/// Whether a directory of this name is left out.
pub fn is_excluded_name(name: &str) -> (r: bool)
    ensures
        r == excluded(name@),
{
    let names = EXCLUDE_NAMES;
    let mut i: usize = 0;
    while i < names.len()
        invariant
            i <= names@.len(),
            names@ == EXCLUDE_NAMES@,
            forall|k: int| 0 <= k < i ==> #[trigger] EXCLUDE_NAMES@[k]@ != name@,
        decreases names@.len() - i,
    {
        if str_eq(names[i], name) {
            assert(EXCLUDE_NAMES@[i as int]@ == name@);
            return true;
        }
        i = i + 1;
    }
    false
}

/// How many threads walk, given how many the machine has, where it says so.
pub fn scan_threads(available: Option<usize>) -> (r: usize)
    ensures
        r == match available {
            Some(n) => if n <= MAX_SCAN_THREADS {
                n
            } else {
                MAX_SCAN_THREADS
            },
            None => DEFAULT_SCAN_THREADS,
        },
{
    match available {
        Some(n) => if n <= MAX_SCAN_THREADS {
            n
        } else {
            MAX_SCAN_THREADS
        },
        None => DEFAULT_SCAN_THREADS,
    }
}

/// Whether a walk goes into an entry; one whose name is not text is not left out.
pub fn keeps_entry(name: Option<&str>) -> (r: bool)
    ensures
        r == match name {
            Some(s) => !excluded(s@),
            None => true,
        },
{
    match name {
        Some(s) => !is_excluded_name(s),
        None => true,
    }
}

/// What a scan is for.
#[derive(Clone, Copy, PartialEq, Eq, Structural, Debug)]
pub enum ScanKind {
    /// To build the whole index anew.
    Full,
    /// To add what the index lacks.
    Catchup,
    /// To add a tree that came in whole.
    Subtree,
}

/// The rows when a scan begins. A full scan starts from an empty index.
pub open spec fn begun(rows: Rows, kind: ScanKind) -> Rows {
    match kind {
        ScanKind::Full => swept(rows, leave_index()),
        _ => rows,
    }
}

/// The rows after a directory was met.
pub open spec fn met(rows: Rows, kind: ScanKind, path: Seq<char>) -> Rows {
    match kind {
        ScanKind::Catchup => ensured(rows, path),
        _ => indexed(rows, path),
    }
}

/// Whether a directory that is met counts: a catch-up counts what the index lacked.
pub open spec fn counts(rows: Rows, kind: ScanKind, path: Seq<char>) -> bool {
    kind != ScanKind::Catchup || lacks(rows, path)
}

/// The rows when a scan ends. A full scan that was not cut short forgets what it did
/// not meet.
pub open spec fn ended(rows: Rows, kind: ScanKind, aborted: bool) -> Rows {
    if kind == ScanKind::Full && !aborted {
        swept(rows, drop_stale())
    } else {
        rows
    }
}

/// The rows after the directories of a walk were met, one after the other.
pub open spec fn all_met(rows: Rows, kind: ScanKind, dirs: Seq<Seq<char>>) -> Rows
    decreases dirs.len(),
{
    if dirs.len() == 0 {
        rows
    } else {
        met(all_met(rows, kind, dirs.drop_last()), kind, dirs.last())
    }
}

/// How a scan ended.
#[derive(Clone, Copy, PartialEq, Eq, Structural, Debug)]
pub struct ScanResult {
    pub count: usize,
    /// Whether a signal cut the scan short.
    pub aborted: bool,
}

/// A scan under way.
#[derive(Clone, Copy, PartialEq, Eq, Structural, Debug)]
pub struct Scan {
    pub kind: ScanKind,
    pub count: usize,
    /// How many entries were walked since the last commit.
    pub pending: usize,
    pub aborted: bool,
}

impl Scan {
    /// Whether the scan commits before a batch is overfull.
    pub open spec fn wf(&self) -> bool {
        self.pending < BATCH_ENTRIES
    }

    /// A scan that is about to begin.
    pub fn new(kind: ScanKind) -> (r: Scan)
        ensures
            r == (Scan { kind, count: 0, pending: 0, aborted: false }),
            r.wf(),
    {
        Scan { kind, count: 0, pending: 0, aborted: false }
    }

    /// Whether the scan changes rows before it meets anything.
    pub fn starts_over(&self) -> (r: bool)
        ensures
            r == (self.kind == ScanKind::Full),
            !r ==> forall|rows: Rows| #[trigger] begun(rows, self.kind) == rows,
    {
        matches!(self.kind, ScanKind::Full)
    }

    /// Begins the scan: prepares the rows, or a part of them.
    pub fn begin(&self, index: &mut PathIndex)
        ensures
            final(index).dirs.rows() == begun(old(index).dirs.rows(), self.kind),
            self.kind != ScanKind::Full ==> final(index).dirs == old(index).dirs,
            self.kind == ScanKind::Full ==> old(index).dirs.leads_to(&final(index).dirs),
    {
        if self.starts_over() {
            index.mark_all_not_indexed();
        }
    }

    /// Counts an entry of the walk, and says whether it is time to commit.
    fn walked(&mut self) -> (r: bool)
        requires
            old(self).wf(),
        ensures
            final(self).wf(),
            final(self).kind == old(self).kind,
            final(self).aborted == old(self).aborted,
            final(self).count == old(self).count,
            r == (old(self).pending + 1 == BATCH_ENTRIES),
            final(self).pending == if r {
                0
            } else {
                old(self).pending + 1
            },
    {
        if self.pending + 1 == BATCH_ENTRIES {
            self.pending = 0;
            true
        } else {
            self.pending = self.pending + 1;
            false
        }
    }

    /// Takes in a directory whose path is no text, and says whether it is time to commit.
    /// The index cannot hold it; it counts all the same, except for a catch-up.
    pub fn pass(&mut self) -> (r: bool)
        requires
            old(self).wf(),
            old(self).count < usize::MAX,
        ensures
            final(self).wf(),
            final(self).kind == old(self).kind,
            final(self).aborted == old(self).aborted,
            final(self).count == old(self).count + if old(self).kind == ScanKind::Catchup {
                0int
            } else {
                1int
            },
            r == (old(self).pending + 1 == BATCH_ENTRIES),
            final(self).pending == if r {
                0
            } else {
                old(self).pending + 1
            },
    {
        if !matches!(self.kind, ScanKind::Catchup) {
            self.count = self.count + 1;
        }
        self.walked()
    }

    /// Takes in one entry of the walk, and says whether it is time to commit.
    pub fn step(&mut self, index: &mut PathIndex, path: &str, is_dir: bool) -> (r: bool)
        requires
            old(self).wf(),
            old(self).count < usize::MAX,
        ensures
            final(self).wf(),
            final(self).kind == old(self).kind,
            final(self).aborted == old(self).aborted,
            final(self).count == old(self).count + if is_dir && counts(
                old(index).dirs.rows(),
                old(self).kind,
                path@,
            ) {
                1int
            } else {
                0int
            },
            final(index).dirs.rows() == if is_dir {
                met(old(index).dirs.rows(), old(self).kind, path@)
            } else {
                old(index).dirs.rows()
            },
            old(index).dirs.leads_to(&final(index).dirs),
            r == (old(self).pending + 1 == BATCH_ENTRIES),
            final(self).pending == if r {
                0
            } else {
                old(self).pending + 1
            },
    {
        if is_dir {
            let counted: bool = match self.kind {
                ScanKind::Catchup => index.add_if_missing(path),
                _ => {
                    index.add(path);
                    true
                },
            };
            if counted {
                self.count = self.count + 1;
            }
        }
        self.walked()
    }

    /// After a commit: stops the scan where a signal came, and says whether it goes on.
    pub fn checkpoint(&mut self, term: bool) -> (r: bool)
        ensures
            *final(self) == (Scan { aborted: old(self).aborted || term, ..*old(self) }),
            r == !final(self).aborted,
    {
        if term {
            self.aborted = true;
        }
        !self.aborted
    }

    /// How the scan ended.
    pub fn result(&self) -> (r: ScanResult)
        ensures
            r == (ScanResult { count: self.count, aborted: self.aborted }),
    {
        ScanResult { count: self.count, aborted: self.aborted }
    }

    /// Whether the scan forgets rows when it ends.
    pub fn forgets(&self) -> (r: bool)
        ensures
            r == (self.kind == ScanKind::Full && !self.aborted),
            !r ==> forall|rows: Rows| #[trigger] ended(rows, self.kind, self.aborted) == rows,
    {
        !self.aborted && matches!(self.kind, ScanKind::Full)
    }

    /// Ends the scan: cleans up the rows, or a part of them.
    pub fn finish(&self, index: &mut PathIndex)
        ensures
            final(index).dirs.rows() == ended(old(index).dirs.rows(), self.kind, self.aborted),
            self.kind != ScanKind::Full || self.aborted ==> final(index).dirs == old(index).dirs,
            self.kind == ScanKind::Full && !self.aborted ==> old(index).dirs.leads_to(
                &final(index).dirs,
            ),
    {
        if self.forgets() {
            index.cleanup_stale();
        }
    }
}

/// Puts the directories of a tree that came in whole into the index, and says how many
/// they are.
pub fn scan_subtree(index: &mut PathIndex, dirs: &Vec<String>) -> (r: usize)
    ensures
        r == dirs@.len(),
        final(index).dirs.rows() == all_met(
            old(index).dirs.rows(),
            ScanKind::Subtree,
            texts(dirs@),
        ),
        old(index).dirs.leads_to(&final(index).dirs),
{
    let ghost rows = index.dirs.rows();
    let ghost start = index.dirs;
    let mut i: usize = 0;
    assert(texts(dirs@).take(0) =~= Seq::empty());
    while i < dirs.len()
        invariant
            i <= dirs@.len(),
            index.dirs.rows() == all_met(rows, ScanKind::Subtree, texts(dirs@).take(i as int)),
            start.leads_to(&index.dirs),
        decreases dirs@.len() - i,
    {
        let ghost walk = texts(dirs@).take(i + 1);
        let ghost before = index.dirs;
        assert(walk.drop_last() =~= texts(dirs@).take(i as int));
        assert(walk.last() == dirs@[i as int]@);
        index.add(dirs[i].as_str());
        proof {
            Table::lemma_leads_on(&start, &before, &index.dirs);
        }
        i = i + 1;
    }
    assert(texts(dirs@).take(dirs@.len() as int) =~= texts(dirs@));
    i
}

/// Meeting directories makes no key stand twice.
proof fn lemma_met_unique(rows: Rows, kind: ScanKind, dirs: Seq<Seq<char>>)
    requires
        unique(rows),
    ensures
        unique(all_met(rows, kind, dirs)),
    decreases dirs.len(),
{
    if dirs.len() > 0 {
        lemma_met_unique(rows, kind, dirs.drop_last());
        let front = all_met(rows, kind, dirs.drop_last());
        let path = dirs.last();
        law_unique(front, path, fresh(path));
        if let Some(d) = lookup(front, path) {
            law_unique(front, path, DirInfo { basename: base_of(path), in_index: true, ..d });
            law_unique(front, path, DirInfo { in_index: true, ..d });
        }
    }
}

/// What meeting directories makes of one of them, and of one that was not met.
proof fn lemma_all_met(rows: Rows, kind: ScanKind, dirs: Seq<Seq<char>>, path: Seq<char>)
    ensures
        !dirs.contains(path) ==> lookup(all_met(rows, kind, dirs), path) == lookup(rows, path),
        dirs.contains(path) ==> lookup(all_met(rows, kind, dirs), path) == match lookup(
            rows,
            path,
        ) {
            Some(d) => Some(
                DirInfo {
                    basename: if kind == ScanKind::Catchup {
                        d.basename
                    } else {
                        base_of(path)
                    },
                    in_index: true,
                    ..d
                },
            ),
            None => Some(fresh(path)),
        },
    decreases dirs.len(),
{
    if dirs.len() > 0 {
        let front = dirs.drop_last();
        let before = all_met(rows, kind, front);
        lemma_all_met(rows, kind, front, path);
        law_index(before, dirs.last(), path);
        assert(dirs =~= front.push(dirs.last()));
        assert(dirs.contains(path) <==> front.contains(path) || dirs.last() == path) by {
            if front.contains(path) {
                let i = choose|i: int| 0 <= i < front.len() && front[i] == path;
                assert(dirs[i] == path);
            }
            assert(dirs[dirs.len() - 1] == dirs.last());
        }
        if dirs.last() == path {
            crate::table::law_upserted(before, path, fresh(path), path);
        }
    }
}

/// Law: a scan may begin and end over its rows part by part.
pub proof fn law_scan_by_parts(a: Rows, b: Rows, kind: ScanKind, aborted: bool)
    ensures
        begun(a + b, kind) == begun(a, kind) + begun(b, kind),
        ended(a + b, kind, aborted) == ended(a, kind, aborted) + ended(b, kind, aborted),
{
    law_swept_by_parts(a, b, leave_index());
    law_swept_by_parts(a, b, drop_stale());
}

/// Law: a full scan that ends leaves exactly the directories of the walk in the
/// index. A directory keeps its history; one that was not met is forgotten unless it
/// has some.
pub proof fn law_full_scan(rows: Rows, dirs: Seq<Seq<char>>, path: Seq<char>)
    requires
        unique(rows),
    ensures
        ({
            let after = ended(
                all_met(begun(rows, ScanKind::Full), ScanKind::Full, dirs),
                ScanKind::Full,
                false,
            );
            &&& !lacks(after, path) <==> dirs.contains(path)
            &&& lookup(after, path) == match lookup(rows, path) {
                Some(d) => if dirs.contains(path) {
                    Some(DirInfo { basename: base_of(path), in_index: true, ..d })
                } else if used(d) {
                    Some(DirInfo { in_index: false, ..d })
                } else {
                    None
                },
                None => if dirs.contains(path) {
                    Some(fresh(path))
                } else {
                    None
                },
            }
        }),
{
    let start = begun(rows, ScanKind::Full);
    let through = all_met(start, ScanKind::Full, dirs);
    law_swept(rows, leave_index(), path);
    lemma_met_unique(start, ScanKind::Full, dirs);
    lemma_all_met(start, ScanKind::Full, dirs, path);
    law_swept(through, drop_stale(), path);
}

/// Law: a full scan that is cut short forgets no directory and loses no history.
pub proof fn law_cut_short(rows: Rows, dirs: Seq<Seq<char>>, path: Seq<char>)
    requires
        unique(rows),
    ensures
        ({
            let after = ended(
                all_met(begun(rows, ScanKind::Full), ScanKind::Full, dirs),
                ScanKind::Full,
                true,
            );
            lookup(rows, path) matches Some(d) ==> ({
                &&& lookup(after, path) matches Some(e)
                &&& e.visits == d.visits
                &&& e.selections == d.selections
                &&& e.last_access == d.last_access
            })
        }),
{
    let start = begun(rows, ScanKind::Full);
    law_swept(rows, leave_index(), path);
    lemma_all_met(start, ScanKind::Full, dirs, path);
}

/// Law: a catch-up puts every directory of the walk into the index, takes none out,
/// changes nothing of those that were in it, and loses no history.
pub proof fn law_catchup(rows: Rows, dirs: Seq<Seq<char>>, path: Seq<char>)
    ensures
        ({
            let after = ended(
                all_met(begun(rows, ScanKind::Catchup), ScanKind::Catchup, dirs),
                ScanKind::Catchup,
                false,
            );
            &&& dirs.contains(path) ==> !lacks(after, path)
            &&& !dirs.contains(path) || !lacks(rows, path) ==> lookup(after, path) == lookup(
                rows,
                path,
            )
            &&& lookup(rows, path) matches Some(d) ==> lookup(after, path) == Some(
                DirInfo { in_index: d.in_index || dirs.contains(path), ..d },
            )
        }),
{
    lemma_all_met(rows, ScanKind::Catchup, dirs, path);
}

/// Law: a scan counts every directory that it puts into the index, and a catch-up only
/// those; one that counts is in the index afterwards, and one that a catch-up does not
/// count was in it before and is left as it is.
pub proof fn law_counts(rows: Rows, kind: ScanKind, path: Seq<char>)
    ensures
        !lacks(met(rows, kind, path), path),
        lacks(rows, path) ==> counts(rows, kind, path),
        kind == ScanKind::Catchup && counts(rows, kind, path) ==> lacks(rows, path),
        !counts(rows, kind, path) ==> met(rows, kind, path) == rows,
        kind != ScanKind::Catchup ==> counts(rows, kind, path),
{
    law_index(rows, path, path);
    if let Some(d) = lookup(rows, path) {
        crate::table::law_upserted(rows, path, DirInfo { in_index: true, ..d }, path);
    } else {
        crate::table::law_upserted(rows, path, fresh(path), path);
    }
}

} // verus!
