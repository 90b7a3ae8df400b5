//! The daemon's decisions: what an event does to the index, and when to scan.

use crate::dirs::{base_of, in_tree, indexed, lacks, leave_tree, DirInfo, Rows};
use crate::fan::{DirEvent, PathEvent};
use crate::index::{
    law_index,
    law_remove_subtree,
    law_rename,
    law_rename_leaves,
    lemma_both_trees,
    lemma_carried,
    lemma_tree_keys,
    renamed,
    tree_keys,
    PathIndex,
};
use crate::path::{components, is_name, lemma_parts_under, parts, path_starts_with, within};
use crate::scanner::{excluded, is_excluded_name, ScanResult};
use crate::table::{law_swept, lookup, swept, unique};
use crate::text::{
    around,
    concat2,
    decimal,
    law_decimal_round_trip,
    number_of,
    parse_number,
    str_eq,
    texts,
    to_decimal,
    trim,
    trimmed,
};
use vstd::prelude::*;
use vstd::string::*;

verus! {

// ---- which directories count ----

/// Whether a name along the path is left out.
pub open spec fn path_excluded(path: Seq<char>) -> bool {
    exists|i: int|
        0 <= i < parts(path).len() && is_name(#[trigger] parts(path)[i]) && excluded(
            parts(path)[i],
        )
}

/// Whether a name along the path is left out.
pub fn is_excluded(path: &str) -> (r: bool)
    ensures
        r == path_excluded(path@),
{
    let list = components(path);
    let ghost all = parts(path@);
    let mut i: usize = 0;
    while i < list.len()
        invariant
            i <= list@.len(),
            texts(list@) == all,
            all == parts(path@),
            forall|k: int| 0 <= k < i ==> !(is_name(#[trigger] all[k]) && excluded(all[k])),
        decreases list@.len() - i,
    {
        let part = list[i].as_str();
        assert(all[i as int] == part@);
        if is_excluded_name(part) && is_plain_name(part) {
            return true;
        }
        i = i + 1;
    }
    false
}

/// Whether a component is a name.
fn is_plain_name(part: &str) -> (r: bool)
    ensures
        r == is_name(part@),
{
    proof {
        reveal_strlit("/");
        reveal_strlit(".");
        reveal_strlit("..");
        assert("/"@ =~= seq!['/']);
        assert("."@ =~= seq!['.']);
        assert(".."@ =~= seq!['.', '.']);
    }
    !str_eq(part, "/") && !str_eq(part, ".") && !str_eq(part, "..")
}

/// Whether the index is to hold a directory.
pub open spec fn covered(path: Seq<char>, home: Seq<char>) -> bool {
    within(path, home) && !path_excluded(path)
}

// ---- what an event does ----

/// What an event does to the rows, and the tree that is to be scanned after it.
pub open spec fn after_event(rows: Rows, event: PathEvent, home: Seq<char>) -> (
    Rows,
    Option<Seq<char>>,
) {
    match event {
        PathEvent::Created(path) => if covered(path, home) {
            (indexed(rows, path), None)
        } else {
            (rows, None)
        },
        PathEvent::Deleted(path) => if within(path, home) {
            (swept(rows, leave_tree(path)), None)
        } else {
            (rows, None)
        },
        PathEvent::Renamed(from, to) => if within(from, home) && covered(to, home) {
            let moved = renamed(rows, from, to);
            (
                moved.0,
                if moved.1 == 0 {
                    Some(to)
                } else {
                    None
                },
            )
        } else if within(from, home) {
            (swept(rows, leave_tree(from)), None)
        } else if covered(to, home) {
            (rows, Some(to))
        } else {
            (rows, None)
        },
    }
}

/// Brings the index up to date with an event. What is returned is a tree that is to be
/// scanned: the kernel does not report what lies in a directory that is moved.
pub fn handle_event(index: &mut PathIndex, event: &DirEvent, home: &str) -> (r: Option<String>)
    ensures
        ({
            let after = after_event(old(index).dirs.rows(), event@, home@);
            &&& final(index).dirs.rows() == after.0
            &&& match r {
                Some(tree) => Some(tree@),
                None => None,
            } == after.1
        }),
        unique(old(index).dirs.rows()) ==> old(index).dirs.leads_to(&final(index).dirs),
{
    match event {
        DirEvent::Created(path) => {
            if path_starts_with(path.as_str(), home) && !is_excluded(path.as_str()) {
                index.add(path.as_str());
            }
            None
        },
        DirEvent::Deleted(path) => {
            if path_starts_with(path.as_str(), home) {
                index.remove_subtree(path.as_str());
            }
            None
        },
        DirEvent::Renamed(from, to) => {
            let was_in = path_starts_with(from.as_str(), home);
            let is_in = path_starts_with(to.as_str(), home) && !is_excluded(to.as_str());
            if was_in && is_in {
                if index.rename(from.as_str(), to.as_str()) == 0 {
                    Some(to.as_str().to_owned())
                } else {
                    None
                }
            } else if was_in {
                index.remove_subtree(from.as_str());
                None
            } else if is_in {
                Some(to.as_str().to_owned())
            } else {
                None
            }
        },
    }
}

/// A tree under a directory in `home` lies in `home`.
proof fn lemma_tree_within(path: Seq<char>, root: Seq<char>, home: Seq<char>)
    requires
        in_tree(path, root),
        within(root, home),
    ensures
        within(path, home),
{
    if path != root {
        let rest = path.skip(root.len() as int + 1);
        assert(path =~= root + seq!['/'] + rest);
        lemma_parts_under(root, rest);
        assert(parts(home) =~= parts(path).take(parts(home).len() as int));
    }
}

/// Law: an event changes nothing outside the home directory, and asks only for scans
/// of trees that the index is to hold.
pub proof fn law_event_stays_home(
    rows: Rows,
    event: PathEvent,
    home: Seq<char>,
    path: Seq<char>,
)
    requires
        unique(rows),
    ensures
        !within(path, home) ==> lookup(after_event(rows, event, home).0, path) == lookup(
            rows,
            path,
        ),
        after_event(rows, event, home).1 matches Some(tree) ==> covered(tree, home),
{
    if !within(path, home) {
        match event {
            PathEvent::Created(p) => {
                law_index(rows, p, path);
            },
            PathEvent::Deleted(p) => {
                law_swept(rows, leave_tree(p), path);
                if within(p, home) && in_tree(path, p) {
                    lemma_tree_within(path, p, home);
                }
            },
            PathEvent::Renamed(from, to) => {
                law_swept(rows, leave_tree(from), path);
                law_rename_leaves(rows, from, to, path);
                if within(from, home) && in_tree(path, from) {
                    lemma_tree_within(path, from, home);
                }
                if within(to, home) && in_tree(path, to) {
                    lemma_tree_within(path, to, home);
                }
            },
        }
    }
}

/// Law: what was made in the home directory is in the index, unless it is left out;
/// what was deleted there is out of it, and so is what was moved away.
pub proof fn law_event_takes_effect(
    rows: Rows,
    event: PathEvent,
    home: Seq<char>,
    path: Seq<char>,
)
    requires
        unique(rows),
    ensures
        match event {
            PathEvent::Created(p) => covered(p, home) ==> !lacks(
                after_event(rows, event, home).0,
                p,
            ),
            PathEvent::Deleted(p) => within(p, home) && in_tree(path, p) ==> lacks(
                after_event(rows, event, home).0,
                path,
            ),
            PathEvent::Renamed(from, to) => within(from, home) && in_tree(path, from) && !in_tree(
                path,
                to,
            ) ==> lacks(after_event(rows, event, home).0, path),
        },
{
    match event {
        PathEvent::Created(p) => {
            law_index(rows, p, p);
        },
        PathEvent::Deleted(p) => {
            law_swept(rows, leave_tree(p), path);
        },
        PathEvent::Renamed(from, to) => {
            law_swept(rows, leave_tree(from), path);
            law_rename_leaves(rows, from, to, path);
        },
    }
}

/// Whether a path is a directory or lies below it.
pub open spec fn at_or_below(path: Seq<char>, root: Seq<char>) -> bool {
    path == root || (root + seq!['/']).is_prefix_of(path)
}

/// Law: a directory that is made is put into the index, under its own name, where it lies
/// in the home directory and no name along its path is left out; it keeps what history it
/// had. Otherwise nothing changes. Nothing else changes in either case, and nothing is to
/// be scanned.
pub proof fn law_created(rows: Rows, made: Seq<char>, home: Seq<char>, path: Seq<char>)
    ensures
        ({
            let after = after_event(rows, PathEvent::Created(made), home);
            let kept = parts(home).is_prefix_of(parts(made)) && !path_excluded(made);
            &&& after.1 is None
            &&& !kept ==> after.0 == rows
            &&& path != made ==> lookup(after.0, path) == lookup(rows, path)
            &&& kept ==> (lookup(after.0, made) matches Some(d) && d.in_index && d.basename
                == base_of(made) && match lookup(rows, made) {
                Some(e) => d.visits == e.visits && d.selections == e.selections && d.last_access
                    == e.last_access,
                None => d.visits == 0 && d.selections == 0 && d.last_access == 0,
            })
        }),
{
    law_index(rows, made, path);
    law_index(rows, made, made);
    if lookup(rows, made) is None {
        crate::table::law_upserted(rows, made, crate::dirs::fresh(made), made);
    }
}

/// Law: when a directory in the home directory is deleted, it and everything below it is
/// out of the index: what has history keeps it, the rest is forgotten. All else stays as
/// it was, and nothing is to be scanned. What is deleted elsewhere changes nothing.
pub proof fn law_deleted(rows: Rows, gone: Seq<char>, home: Seq<char>, path: Seq<char>)
    requires
        unique(rows),
    ensures
        ({
            let after = after_event(rows, PathEvent::Deleted(gone), home);
            let counts = parts(home).is_prefix_of(parts(gone));
            &&& after.1 is None
            &&& !counts ==> after.0 == rows
            &&& counts ==> lookup(after.0, path) == match lookup(rows, path) {
                Some(d) => if !at_or_below(path, gone) {
                    Some(d)
                } else if d.visits > 0 || d.selections > 0 {
                    Some(DirInfo { in_index: false, ..d })
                } else {
                    None
                },
                None => None,
            }
        }),
{
    law_remove_subtree(rows, gone, path);
}

/// Law: when a tree in the home directory moves to a place that the index is to hold and
/// that is apart from it, each of its directories is found at its new place, however deep
/// that lies, with its visits, selections, last access and place in the index; the root
/// under its new name, the others under theirs. Nothing is left at the old place, what was
/// in the way is gone, and all else stays. The new place is to be scanned exactly where
/// no directory of the tree was kept.
pub proof fn law_moved_within_home(
    rows: Rows,
    from: Seq<char>,
    to: Seq<char>,
    home: Seq<char>,
    path: Seq<char>,
)
    requires
        unique(rows),
        parts(home).is_prefix_of(parts(from)),
        parts(home).is_prefix_of(parts(to)),
        !path_excluded(to),
        !at_or_below(from, to),
        !at_or_below(to, from),
    ensures
        ({
            let after = after_event(rows, PathEvent::Renamed(from, to), home);
            let target = to + path.skip(from.len() as int);
            let kept = exists|key: Seq<char>|
                at_or_below(key, from) && #[trigger] lookup(rows, key) is Some;
            &&& at_or_below(path, from) ==> lookup(after.0, path) is None
            &&& at_or_below(path, from) ==> (lookup(rows, path) matches Some(d) ==> lookup(
                after.0,
                target,
            ) == Some(
                DirInfo {
                    basename: if path == from {
                        base_of(to)
                    } else {
                        d.basename
                    },
                    ..d
                },
            ))
            &&& !at_or_below(path, from) && !at_or_below(path, to) ==> lookup(after.0, path)
                == lookup(rows, path)
            &&& kept ==> after.1 is None
            &&& !kept ==> after.1 == Some(to) && lookup(after.0, path) == lookup(rows, path)
        }),
{
    law_rename(rows, from, to, path);
    let target = to + path.skip(from.len() as int);
    if at_or_below(path, from) {
        law_rename(rows, from, to, target);
        lemma_carried(path, from, to);
        if in_tree(path, to) {
            lemma_both_trees(path, from, to);
        }
    }
    let keys = tree_keys(rows, from);
    lemma_tree_keys(rows, from);
    let kept = exists|key: Seq<char>|
        at_or_below(key, from) && #[trigger] lookup(rows, key) is Some;
    if kept {
        let key = choose|key: Seq<char>|
            at_or_below(key, from) && #[trigger] lookup(rows, key) is Some;
        lemma_tree_has(rows, from, key);
    } else {
        if keys.len() > 0 {
            assert(in_tree(keys[0], from) && lookup(rows, keys[0]) is Some);
        }
        if in_tree(path, to) {
            let back = to_back(path, to, from);
            lemma_carried(path, to, from);
            if lookup(rows, back) is Some {
                assert(at_or_below(back, from));
            }
        }
    }
}

/// Where a path of the tree under `to` comes from.
spec fn to_back(path: Seq<char>, to: Seq<char>, from: Seq<char>) -> Seq<char> {
    from + path.skip(to.len() as int)
}

/// A row in a tree is among the keys of the tree.
proof fn lemma_tree_has(rows: Rows, root: Seq<char>, key: Seq<char>)
    requires
        in_tree(key, root),
        lookup(rows, key) is Some,
    ensures
        tree_keys(rows, root).len() > 0,
    decreases rows.len(),
{
    if rows.len() > 0 {
        let front = rows.drop_last();
        assert(rows =~= front.push(rows.last()));
        crate::table::lemma_lookup_push(front, rows.last(), key);
        if lookup(front, key) is Some {
            lemma_tree_has(front, root, key);
        }
    }
}

/// Law: a tree that moves out of the home directory, or to a place that is left out, is
/// out of the index like one that is deleted; a tree that comes in from elsewhere, to a
/// place that the index is to hold, is to be scanned, and nothing changes before that.
/// Any other move changes nothing.
pub proof fn law_moved_across(
    rows: Rows,
    from: Seq<char>,
    to: Seq<char>,
    home: Seq<char>,
)
    ensures
        ({
            let after = after_event(rows, PathEvent::Renamed(from, to), home);
            let was_in = parts(home).is_prefix_of(parts(from));
            let is_in = parts(home).is_prefix_of(parts(to)) && !path_excluded(to);
            &&& was_in && !is_in ==> after == after_event(rows, PathEvent::Deleted(from), home)
            &&& !was_in && is_in ==> after.0 == rows && after.1 == Some(to)
            &&& !was_in && !is_in ==> after.0 == rows && after.1 is None
        }),
{
}

/// Law: a path is left out exactly where its parent is, or where its last component is a
/// name that is left out.
pub proof fn law_path_excluded(parent: Seq<char>, path: Seq<char>, last: Seq<char>)
    requires
        parts(path) == parts(parent).push(last),
    ensures
        path_excluded(path) <==> path_excluded(parent) || (is_name(last) && excluded(last)),
        parts(parent).len() == 0 ==> !path_excluded(parent),
{
    let (a, b) = (parts(parent), parts(path));
    assert(forall|i: int| 0 <= i < a.len() ==> #[trigger] a[i] == b[i]);
    if path_excluded(path) {
        let i = choose|i: int| 0 <= i < b.len() && is_name(#[trigger] b[i]) && excluded(b[i]);
        if i < a.len() {
            assert(is_name(a[i]) && excluded(a[i]));
        }
    }
    if path_excluded(parent) {
        let i = choose|i: int| 0 <= i < a.len() && is_name(#[trigger] a[i]) && excluded(a[i]);
        assert(is_name(b[i]) && excluded(b[i]));
    }
    if is_name(last) && excluded(last) {
        assert(is_name(b[b.len() - 1]) && excluded(b[b.len() - 1]));
    }
}

// ---- the pace ----

/// Seconds between two catch-ups while the kernel's events cannot be had.
pub const CATCHUP_INTERVAL_SECS: u64 = 1800;

/// Seconds between two tries to get the kernel's events.
pub const FANOTIFY_RETRY_SECS: u64 = 1800;

/// Seconds between two catch-ups for lost events, at least.
pub const OVERFLOW_CATCHUP_MIN_SECS: u64 = 300;

/// Seconds after which lost events are caught up with though events keep coming.
pub const OVERFLOW_FORCE_CATCHUP_SECS: u64 = 600;

/// Seconds that the daemon must have been down for a catch-up at its start.
pub const STARTUP_CATCHUP_MIN_DOWNTIME_SECS: u64 = 60;

/// Seconds after which the index is written out though events keep coming.
pub const FLUSH_SECS: u64 = 5;

/// Whether `secs` seconds lie between two readings of the clock, which counts
/// milliseconds.
pub open spec fn passed(since: u64, now: u64, secs: u64) -> bool {
    now - since >= secs * 1000
}

/// Whether `secs` seconds lie between two readings of the clock.
fn has_passed(since: u64, now: u64, secs: u64) -> (r: bool)
    requires
        secs <= CATCHUP_INTERVAL_SECS,
    ensures
        r == passed(since, now, secs),
{
    now >= since && now - since >= secs * 1000
}

/// What came of waiting for events.
#[derive(Clone, Copy, PartialEq, Eq, Structural, Debug)]
pub enum Polled {
    /// There were events; some were lost where `overflow` is set.
    Events { overflow: bool },
    /// There were none for a while.
    Quiet,
    /// The wait failed.
    Failed,
}

/// What is to be done after a wait.
#[derive(Clone, Copy, PartialEq, Eq, Structural, Debug)]
pub struct WatchStep {
    /// Say that events were lost.
    pub announce: bool,
    /// Write the index out.
    pub flush: bool,
    /// Catch up with what was lost.
    pub catchup: bool,
}

/// What the daemon remembers while it watches.
#[derive(Clone, Copy, PartialEq, Eq, Structural, Debug)]
pub struct Watch {
    /// When the index was last written out.
    pub last_flush: u64,
    /// Since when there are lost events to catch up with.
    pub overflow_since: Option<u64>,
    /// When it last caught up with lost events.
    pub last_catchup: Option<u64>,
}

impl Watch {
    /// Whether the times are of a clock that never ran backwards and now stands at
    /// `now`.
    pub open spec fn wf(&self, now: u64) -> bool {
        &&& self.last_flush <= now
        &&& self.overflow_since matches Some(s) ==> s <= now
        &&& self.last_catchup matches Some(t) ==> t <= now
        &&& self.overflow_since matches Some(s) ==> (self.last_catchup matches Some(t) ==> t <= s)
    }

    /// Starts to watch.
    pub fn new(now: u64) -> (r: Watch)
        ensures
            r == (Watch { last_flush: now, overflow_since: None, last_catchup: None }),
            r.wf(now),
    {
        Watch { last_flush: now, overflow_since: None, last_catchup: None }
    }

    /// Since when events are lost, after a wait.
    pub open spec fn pending(&self, polled: Polled, now: u64) -> Option<u64> {
        if polled == (Polled::Events { overflow: true }) && self.overflow_since is None {
            Some(now)
        } else {
            self.overflow_since
        }
    }

    /// Whether it is time to catch up with lost events.
    pub open spec fn due(&self, polled: Polled, now: u64) -> bool {
        &&& self.pending(polled, now) matches Some(s)
        &&& polled == Polled::Quiet || passed(s, now, OVERFLOW_FORCE_CATCHUP_SECS)
        &&& self.last_catchup matches Some(t) ==> passed(t, now, OVERFLOW_CATCHUP_MIN_SECS)
    }

    /// What is to be done after a wait.
    pub open spec fn step(&self, polled: Polled, now: u64) -> WatchStep {
        WatchStep {
            announce: polled == (Polled::Events { overflow: true }) && self.overflow_since is None,
            flush: match polled {
                Polled::Events { overflow } => passed(self.last_flush, now, FLUSH_SECS),
                Polled::Quiet => true,
                Polled::Failed => false,
            },
            catchup: self.due(polled, now),
        }
    }

    /// Decides what is to be done after a wait.
    pub fn polled(&mut self, polled: Polled, now: u64) -> (r: WatchStep)
        ensures
            r == old(self).step(polled, now),
            *final(self) == (Watch {
                last_flush: if r.flush {
                    now
                } else {
                    old(self).last_flush
                },
                overflow_since: old(self).pending(polled, now),
                last_catchup: old(self).last_catchup,
            }),
    {
        let mut announce = false;
        let mut idle = false;
        let flush: bool = match polled {
            Polled::Events { overflow } => {
                if overflow && self.overflow_since.is_none() {
                    self.overflow_since = Some(now);
                    announce = true;
                }
                has_passed(self.last_flush, now, FLUSH_SECS)
            },
            Polled::Quiet => {
                idle = true;
                true
            },
            Polled::Failed => false,
        };
        if flush {
            self.last_flush = now;
        }
        let spaced: bool = match self.last_catchup {
            Some(t) => has_passed(t, now, OVERFLOW_CATCHUP_MIN_SECS),
            None => true,
        };
        let catchup: bool = match self.overflow_since {
            Some(s) => spaced && (idle || has_passed(s, now, OVERFLOW_FORCE_CATCHUP_SECS)),
            None => false,
        };
        WatchStep { announce, flush, catchup }
    }

    /// Notes that it has caught up with lost events.
    pub fn caught_up(&mut self, now: u64)
        ensures
            *final(self) == (Watch {
                last_flush: old(self).last_flush,
                overflow_since: None,
                last_catchup: Some(now),
            }),
    {
        self.overflow_since = None;
        self.last_catchup = Some(now);
    }
}

/// Law: events that were lost are caught up with at the first quiet moment, or ten
/// minutes later though events keep coming; where the last catch-up is not five
/// minutes ago, a quiet moment does not count. Two catch-ups are at least five minutes
/// apart, and without lost events there is none.
pub proof fn law_overflow(w: Watch, polled: Polled, earlier: u64, now: u64)
    requires
        w.wf(earlier),
        earlier <= now,
    ensures
        w.overflow_since matches Some(s) ==> (passed(s, now, OVERFLOW_FORCE_CATCHUP_SECS)
            ==> w.step(polled, now).catchup),
        w.overflow_since is Some && polled == Polled::Quiet && (w.last_catchup matches Some(t)
            ==> passed(t, now, OVERFLOW_CATCHUP_MIN_SECS)) ==> w.step(polled, now).catchup,
        w.step(polled, now).catchup ==> (w.last_catchup matches Some(t) ==> passed(
            t,
            now,
            OVERFLOW_CATCHUP_MIN_SECS,
        )),
        w.overflow_since is None && polled != (Polled::Events { overflow: true }) ==> !w.step(
            polled,
            now,
        ).catchup,
        (Watch {
            last_flush: if w.step(polled, now).flush {
                now
            } else {
                w.last_flush
            },
            overflow_since: w.pending(polled, now),
            last_catchup: w.last_catchup,
        }).wf(now),
{
}

/// Law: lost events stay to be caught up with until that is done, however the waits go,
/// counted from when they were first lost; they are announced once. The index is written
/// out at every quiet moment, and after five seconds though events keep coming, but not
/// where the wait failed.
pub proof fn law_watch(w: Watch, polled: Polled, now: u64)
    ensures
        w.overflow_since is Some ==> w.pending(polled, now) == w.overflow_since && !w.step(
            polled,
            now,
        ).announce,
        w.overflow_since is None ==> w.pending(polled, now) == if polled == (Polled::Events {
            overflow: true,
        }) {
            Some(now)
        } else {
            None
        },
        w.overflow_since is None ==> (w.step(polled, now).announce <==> polled == (Polled::Events {
            overflow: true,
        })),
        polled == Polled::Quiet ==> w.step(polled, now).flush,
        polled == Polled::Failed ==> !w.step(polled, now).flush,
        polled is Events ==> (w.step(polled, now).flush <==> now - w.last_flush >= 5000),
{
}

/// What the daemon remembers while the kernel's events cannot be had.
#[derive(Clone, Copy, PartialEq, Eq, Structural, Debug)]
pub struct Waiting {
    pub last_catchup: u64,
    pub last_retry: u64,
}

impl Waiting {
    /// Starts to wait.
    pub fn new(now: u64) -> (r: Waiting)
        ensures
            r == (Waiting { last_catchup: now, last_retry: now }),
    {
        Waiting { last_catchup: now, last_retry: now }
    }

    /// Whether it is time to try for the kernel's events again; if so, the try is
    /// noted.
    pub fn retry_due(&mut self, now: u64) -> (r: bool)
        ensures
            r == passed(old(self).last_retry, now, FANOTIFY_RETRY_SECS),
            *final(self) == (Waiting {
                last_retry: if r {
                    now
                } else {
                    old(self).last_retry
                },
                ..*old(self)
            }),
    {
        if has_passed(self.last_retry, now, FANOTIFY_RETRY_SECS) {
            self.last_retry = now;
            true
        } else {
            false
        }
    }

    /// Whether it is time to catch up; never where scans are switched off.
    pub fn catchup_due(&self, now: u64, off: bool) -> (r: bool)
        ensures
            r == (!off && passed(self.last_catchup, now, CATCHUP_INTERVAL_SECS)),
    {
        !off && has_passed(self.last_catchup, now, CATCHUP_INTERVAL_SECS)
    }

    /// Notes that it has caught up.
    pub fn caught_up(&mut self, now: u64)
        ensures
            *final(self) == (Waiting { last_catchup: now, ..*old(self) }),
    {
        self.last_catchup = now;
    }
}

// ---- the start and the end ----

/// Whether the setting says that there is to be no background scan while the kernel's
/// events cannot be had.
pub fn fallback_off(setting: Option<&str>) -> (r: bool)
    ensures
        r == match setting {
            Some(value) => value@ == "off"@,
            None => false,
        },
{
    match setting {
        Some(value) => str_eq(value, "off"),
        None => false,
    }
}

/// How the daemon keeps up, as it writes it down for others to read.
pub open spec fn mode_name(watching: bool, off: bool) -> Seq<char> {
    if watching {
        "fanotify"@
    } else if off {
        "off"@
    } else {
        "poll"@
    }
}

/// How the daemon keeps up.
pub fn watch_mode(watching: bool, off: bool) -> (r: &'static str)
    ensures
        r@ == mode_name(watching, off),
{
    if watching {
        "fanotify"
    } else if off {
        "off"
    } else {
        "poll"
    }
}

/// The time of the last shutdown, as it was written down.
pub open spec fn stamp_of(text: Seq<char>) -> Option<u64> {
    match number_of(trimmed(text)) {
        Some(n) => if n <= u64::MAX {
            Some(n as u64)
        } else {
            None
        },
        None => None,
    }
}

/// Reads the time of the last shutdown.
pub fn read_timestamp(text: &str) -> (r: Option<u64>)
    ensures
        r == stamp_of(text@),
{
    let core = trim(text);
    parse_number(core.as_str(), u64::MAX)
}

/// What is written down at shutdown: the time until which the index is complete.
pub open spec fn stamp(now: u64, incomplete: bool) -> Seq<char> {
    if incomplete {
        "0"@
    } else {
        decimal(now as nat)
    }
}

/// What is written down at shutdown; zero where a scan was cut short.
pub fn write_timestamp(now: u64, incomplete: bool) -> (r: String)
    ensures
        r@ == stamp(now, incomplete),
{
    if incomplete {
        "0".to_owned()
    } else {
        to_decimal(now as u128)
    }
}

/// What the daemon does first.
#[derive(Clone, Copy, PartialEq, Eq, Structural, Debug)]
pub enum Startup {
    /// There is no index: build it.
    Build,
    /// Scans are switched off.
    Off,
    /// It was down for so many seconds only.
    Brief(u64),
    /// Catch up; the last shutdown lies so many seconds ahead where the clock went
    /// backwards.
    Catchup(Option<u64>),
    /// It is not known when it was down.
    Unknown,
}

/// What the daemon does first.
pub open spec fn startup(
    has_data: bool,
    watching: bool,
    off: bool,
    last: Option<u64>,
    now: u64,
) -> Startup {
    if !has_data {
        Startup::Build
    } else if off && !watching {
        Startup::Off
    } else {
        match last {
            Some(t) => if t > now {
                Startup::Catchup(Some((t - now) as u64))
            } else if now - t < STARTUP_CATCHUP_MIN_DOWNTIME_SECS {
                Startup::Brief((now - t) as u64)
            } else {
                Startup::Catchup(None)
            },
            None => Startup::Unknown,
        }
    }
}

/// Decides what the daemon does first.
pub fn startup_plan(
    has_data: bool,
    watching: bool,
    off: bool,
    last: Option<u64>,
    now: u64,
) -> (r: Startup)
    ensures
        r == startup(has_data, watching, off, last, now),
{
    if !has_data {
        return Startup::Build;
    }
    if off && !watching {
        return Startup::Off;
    }
    match last {
        Some(t) => if t > now {
            Startup::Catchup(Some(t - now))
        } else if now - t < STARTUP_CATCHUP_MIN_DOWNTIME_SECS {
            Startup::Brief(now - t)
        } else {
            Startup::Catchup(None)
        },
        None => Startup::Unknown,
    }
}

/// Law: the time that is written at a clean shutdown is the time that is read at the
/// next start. Where a scan was cut short, the next start catches up, however soon it
/// comes, unless it is told not to scan.
pub proof fn law_timestamp(now: u64, later: u64, watching: bool, off: bool)
    ensures
        stamp_of(stamp(now, false)) == Some(now),
        (watching || !off) && later >= STARTUP_CATCHUP_MIN_DOWNTIME_SECS ==> startup(
            true,
            watching,
            off,
            stamp_of(stamp(now, true)),
            later,
        ) == Startup::Catchup(None),
{
    law_decimal_round_trip(now as nat);
    law_decimal_round_trip(0);
    reveal_strlit("0");
    assert("0"@ =~= decimal(0));
}

/// Law: without an index the daemon builds one first. Otherwise it scans nothing where it
/// is told not to and cannot watch; where it was down for a minute or more it catches up,
/// and so where the clock went backwards; where it was down for less it does not.
pub proof fn law_startup(watching: bool, off: bool, last: u64, now: u64)
    ensures
        startup(false, watching, off, Some(last), now) == Startup::Build,
        startup(false, watching, off, None, now) == Startup::Build,
        startup(true, false, true, Some(last), now) == Startup::Off,
        startup(true, false, true, None, now) == Startup::Off,
        watching || !off ==> ({
            let s = startup(true, watching, off, Some(last), now);
            &&& s is Catchup <==> last > now || now - last >= 60
            &&& last > now ==> s == Startup::Catchup(Some((last - now) as u64))
            &&& last <= now && now - last < 60 ==> s == Startup::Brief((now - last) as u64)
            &&& startup(true, watching, off, None, now) == Startup::Unknown
        }),
{
}

// ---- what is said ----

/// Why the kernel's events cannot be had.
#[derive(Clone, Copy, PartialEq, Eq, Structural, Debug)]
pub enum FanError {
    /// The mark would cross devices.
    CrossDevice,
    /// The daemon may not ask.
    Denied,
    /// Anything else.
    Other,
}

/// What is said where the kernel's events cannot be had; `text` is what the system says.
pub open spec fn fan_error_text(kind: FanError, text: Seq<char>) -> Seq<char> {
    match kind {
        FanError::CrossDevice => text
            + " — btrfs subvolumes report inconsistent fsids, so the kernel rejects FID-mode filesystem marks (known limitation)"@,
        FanError::Denied => text
            + " — missing capabilities. Run:\n  sudo setcap cap_sys_admin,cap_dac_read_search+ep $(which gd-daemon)"@,
        FanError::Other => text,
    }
}

/// What is said where the kernel's events cannot be had.
pub fn describe_fanotify_error(kind: FanError, text: &str) -> (r: String)
    ensures
        r@ == fan_error_text(kind, text@),
{
    match kind {
        FanError::CrossDevice => concat2(
            text,
            " — btrfs subvolumes report inconsistent fsids, so the kernel rejects FID-mode filesystem marks (known limitation)",
        ),
        FanError::Denied => concat2(
            text,
            " — missing capabilities. Run:\n  sudo setcap cap_sys_admin,cap_dac_read_search+ep $(which gd-daemon)",
        ),
        FanError::Other => text.to_owned(),
    }
}

/// What a scan was for.
#[derive(Clone, Copy, PartialEq, Eq, Structural, Debug)]
pub enum Occasion {
    /// The index was built.
    Build,
    /// The daemon had been down.
    Downtime,
    /// The kernel's events could not be had for a while.
    Interval,
    /// Events were lost.
    Overflow,
}

/// What is said of a scan that ended; nothing where a routine scan found nothing.
pub open spec fn scan_said(occasion: Occasion, result: ScanResult) -> Option<Seq<char>> {
    let n = decimal(result.count as nat);
    if result.aborted {
        Some("gd-daemon: scan interrupted by shutdown signal."@)
    } else {
        match occasion {
            Occasion::Build => Some("gd-daemon: indexed "@ + n + " dirs."@),
            Occasion::Downtime => Some("gd-daemon: added "@ + n + " new dirs."@),
            Occasion::Interval => if result.count > 0 {
                Some("gd-daemon: catchup added "@ + n + " dirs."@)
            } else {
                None
            },
            Occasion::Overflow => Some(
                "gd-daemon: overflow catchup done, "@ + n + " dirs added."@,
            ),
        }
    }
}

/// What is said of a scan that ended.
pub fn scan_message(occasion: Occasion, result: ScanResult) -> (r: Option<String>)
    ensures
        match r {
            Some(text) => Some(text@),
            None => None,
        } == scan_said(occasion, result),
{
    let n: usize = result.count;
    if result.aborted {
        return Some("gd-daemon: scan interrupted by shutdown signal.".to_owned());
    }
    match occasion {
        Occasion::Build => Some(around("gd-daemon: indexed ", n, " dirs.")),
        Occasion::Downtime => Some(around("gd-daemon: added ", n, " new dirs.")),
        Occasion::Interval => if n > 0 {
            Some(around("gd-daemon: catchup added ", n, " dirs."))
        } else {
            None
        },
        Occasion::Overflow => Some(
            around("gd-daemon: overflow catchup done, ", n, " dirs added."),
        ),
    }
}

/// Law: a scan that was cut short is told as such, whatever it was for; of any other the
/// number of directories is told, unless it was one of those made at intervals and found
/// nothing.
pub proof fn law_scan_said(occasion: Occasion, other: Occasion, result: ScanResult)
    ensures
        result.aborted ==> scan_said(occasion, result) is Some && scan_said(occasion, result)
            == scan_said(other, result),
        !result.aborted ==> (scan_said(occasion, result) is None <==> occasion
            == Occasion::Interval && result.count == 0),
        !result.aborted && scan_said(occasion, result) is Some ==> crate::text::occurs_in(
            scan_said(occasion, result).unwrap(),
            decimal(result.count as nat),
        ),
{
    let n = decimal(result.count as nat);
    crate::text::lemma_occurs_between("gd-daemon: indexed "@, n, " dirs."@);
    crate::text::lemma_occurs_between("gd-daemon: added "@, n, " new dirs."@);
    crate::text::lemma_occurs_between("gd-daemon: catchup added "@, n, " dirs."@);
    crate::text::lemma_occurs_between("gd-daemon: overflow catchup done, "@, n, " dirs added."@);
}

/// Law: how the daemon keeps up is told by three words that differ: it watches, or it
/// looks again from time to time, or, where that is switched off, it does neither.
pub proof fn law_mode_name(watching: bool, off: bool)
    ensures
        mode_name(watching, off) == "fanotify"@ <==> watching,
        mode_name(watching, off) == "off"@ <==> !watching && off,
        mode_name(watching, off) == "poll"@ <==> !watching && !off,
{
    reveal_strlit("fanotify");
    reveal_strlit("off");
    reveal_strlit("poll");
    assert("fanotify"@.len() == 8 && "off"@.len() == 3 && "poll"@.len() == 4);
}

} // verus!
