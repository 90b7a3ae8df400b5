//! How gd replaces itself: where from, where to, and in what order.

use crate::path::{join_path, joined_path, opt_view, parts, path_starts_with, within};
use crate::text::concat2;
use vstd::prelude::*;
use vstd::string::*;

verus! {

// ---- where from ----

/// The text under a key of a JSON object, as `serde_json` reads it: nothing where the
/// bytes are no JSON, nothing within where there is no text under the key.
pub uninterp spec fn json_member(bytes: Seq<u8>, key: Seq<char>) -> Option<Option<Seq<char>>>;

/// `serde_json::from_slice` into a `Value`, its `get` and `as_str`: the bytes and the key
/// alone decide whether the bytes are JSON, and what text stands under the key of the
/// object that they are.
#[verifier::external_body]
fn read_member(bytes: &Vec<u8>, key: &str) -> (r: Option<Option<String>>)
    ensures
        match r {
            None => json_member(bytes@, key@) is None,
            Some(None) => json_member(bytes@, key@) == Some(None::<Seq<char>>),
            Some(Some(text)) => json_member(bytes@, key@) == Some(Some(text@)),
        },
{
    match serde_json::from_slice::<serde_json::Value>(bytes) {
        Ok(value) => Some(value.get(key).and_then(|v| v.as_str()).map(|s| s.to_owned())),
        Err(_) => None,
    }
}

/// Why it is not known where a build goes.
#[derive(Clone, Copy, PartialEq, Eq, Structural, Debug)]
pub enum NoRelease {
    /// What is said of the project cannot be read.
    Unreadable,
    /// It does not say where builds go.
    NoTarget,
}

/// Where the finished programs stand, from the directory of the builds, where that could
/// be read.
pub fn release_in(target: Option<Option<String>>) -> (r: Result<String, NoRelease>)
    ensures
        match target {
            None => r == Err::<String, NoRelease>(NoRelease::Unreadable),
            Some(None) => r == Err::<String, NoRelease>(NoRelease::NoTarget),
            Some(Some(dir)) => r matches Ok(d) && d@ == joined_path(dir@, "release"@),
        },
{
    match target {
        None => Err(NoRelease::Unreadable),
        Some(None) => Err(NoRelease::NoTarget),
        Some(Some(dir)) => Ok(join_path(dir.as_str(), "release")),
    }
}

/// Where the finished programs of a project stand, from what `cargo metadata` prints.
pub fn release_dir(metadata: &Vec<u8>) -> (r: Result<String, NoRelease>)
    ensures
        match json_member(metadata@, "target_directory"@) {
            None => r == Err::<String, NoRelease>(NoRelease::Unreadable),
            Some(None) => r == Err::<String, NoRelease>(NoRelease::NoTarget),
            Some(Some(target)) => r matches Ok(d) && d@ == joined_path(target, "release"@),
        },
{
    release_in(read_member(metadata, "target_directory"))
}

/// What is said where it is not known where a build goes.
pub fn no_release_text(why: NoRelease) -> (r: &'static str)
    ensures
        r@ == match why {
            NoRelease::Unreadable => "parse cargo metadata"@,
            NoRelease::NoTarget => "no target_directory in metadata"@,
        },
{
    match why {
        NoRelease::Unreadable => "parse cargo metadata",
        NoRelease::NoTarget => "no target_directory in metadata",
    }
}

/// The first place in a list at which a test holds, or the length of the list.
pub open spec fn first_true(flags: Seq<bool>) -> int
    decreases flags.len(),
{
    if flags.len() == 0 || flags[0] {
        0
    } else {
        1 + first_true(flags.skip(1))
    }
}

/// The first place in a list at which a test holds.
fn find_true(flags: &Vec<bool>) -> (r: usize)
    ensures
        r == first_true(flags@),
        r <= flags@.len(),
        r < flags@.len() ==> flags@[r as int],
{
    let mut i: usize = 0;
    assert(flags@.skip(0) =~= flags@);
    while i < flags.len() && !flags[i]
        invariant
            i <= flags@.len(),
            first_true(flags@) == i + first_true(flags@.skip(i as int)),
        decreases flags@.len() - i,
    {
        assert(flags@.skip(i as int).skip(1) =~= flags@.skip(i + 1));
        i = i + 1;
    }
    i
}

/// The source tree: the nearest directory around the current one that is a checkout,
/// else the tree that gd was built from, if it still is one.
pub fn source_root(
    ancestors: &Vec<String>,
    checkout: &Vec<bool>,
    built_from: Option<&str>,
    built_from_checkout: bool,
) -> (r: Option<String>)
    requires
        ancestors@.len() == checkout@.len(),
    ensures
        match r {
            Some(root) => Some(root@),
            None => None,
        } == if first_true(checkout@) < checkout@.len() {
            Some(ancestors@[first_true(checkout@)]@)
        } else if built_from_checkout {
            opt_view(built_from)
        } else {
            None
        },
{
    let at: usize = find_true(checkout);
    if at < ancestors.len() {
        return Some(ancestors[at].as_str().to_owned());
    }
    match built_from {
        Some(root) => if built_from_checkout {
            Some(root.to_owned())
        } else {
            None
        },
        None => None,
    }
}

/// What is said where there is no source tree.
pub fn no_source(built_from: Option<&str>, cwd: &str) -> (r: String)
    ensures
        r@ == "cannot find the gd source tree.\n  built from: "@ + match built_from {
            Some(root) => root@,
            None => "?"@,
        } + "\n  cwd:        "@ + cwd@
            + "\n  Run `gd --update` from inside a gd checkout (that rebuild bakes in the new location)."@,
{
    let root = match built_from {
        Some(root) => root,
        None => "?",
    };
    let mut out = concat2("cannot find the gd source tree.\n  built from: ", root);
    out.append("\n  cwd:        ");
    out.append(cwd);
    out.append(
        "\n  Run `gd --update` from inside a gd checkout (that rebuild bakes in the new location).",
    );
    out
}

// ---- where to ----

/// A directory of the search path, and the real path of the gd in it.
#[derive(Debug)]
pub struct PathDir {
    pub dir: String,
    pub gd: Option<String>,
}

/// The real path of the gd in a directory.
pub open spec fn gd_in(d: PathDir) -> Option<Seq<char>> {
    match d.gd {
        Some(path) => Some(path@),
        None => None,
    }
}

/// The first directory whose gd passes a test.
pub open spec fn first_dir(dirs: Seq<PathDir>, test: spec_fn(Seq<char>) -> bool) -> Option<Seq<char>>
    decreases dirs.len(),
{
    if dirs.len() == 0 {
        None
    } else if gd_in(dirs[0]) is Some && test(gd_in(dirs[0]).unwrap()) {
        Some(dirs[0].dir@)
    } else {
        first_dir(dirs.skip(1), test)
    }
}

/// Whether a path is the one that runs.
pub open spec fn is_exe(exe: Seq<char>) -> spec_fn(Seq<char>) -> bool {
    |path: Seq<char>| crate::path::same(path, exe)
}

/// Whether a path lies outside a tree.
pub open spec fn outside(tree: Seq<char>) -> spec_fn(Seq<char>) -> bool {
    |path: Seq<char>| !within(path, tree)
}

/// The directory of the search path whose gd is the one that runs.
pub fn running_gd_dir(dirs: &Vec<PathDir>, exe: &str) -> (r: Option<String>)
    ensures
        match r {
            Some(dir) => Some(dir@),
            None => None,
        } == first_dir(dirs@, is_exe(exe@)),
{
    let ghost test = is_exe(exe@);
    let mut i: usize = 0;
    assert(dirs@.skip(0) =~= dirs@);
    while i < dirs.len()
        invariant
            test == is_exe(exe@),
            i <= dirs@.len(),
            first_dir(dirs@, test) == first_dir(dirs@.skip(i as int), test),
        decreases dirs@.len() - i,
    {
        assert(dirs@.skip(i as int)[0] == dirs@[i as int]);
        assert(dirs@.skip(i as int).skip(1) =~= dirs@.skip(i + 1));
        if let Some(gd) = &dirs[i].gd {
            if crate::path::same_path(gd.as_str(), exe) {
                return Some(dirs[i].dir.as_str().to_owned());
            }
        }
        i = i + 1;
    }
    None
}

/// The directory of the search path whose gd lies outside a tree.
fn installed_dir(dirs: &Vec<PathDir>, tree: &str) -> (r: Option<String>)
    ensures
        match r {
            Some(dir) => Some(dir@),
            None => None,
        } == first_dir(dirs@, outside(tree@)),
{
    let ghost test = outside(tree@);
    let mut i: usize = 0;
    assert(dirs@.skip(0) =~= dirs@);
    while i < dirs.len()
        invariant
            test == outside(tree@),
            i <= dirs@.len(),
            first_dir(dirs@, test) == first_dir(dirs@.skip(i as int), test),
        decreases dirs@.len() - i,
    {
        assert(dirs@.skip(i as int)[0] == dirs@[i as int]);
        assert(dirs@.skip(i as int).skip(1) =~= dirs@.skip(i + 1));
        if let Some(gd) = &dirs[i].gd {
            if !path_starts_with(gd.as_str(), tree) {
                return Some(dirs[i].dir.as_str().to_owned());
            }
        }
        i = i + 1;
    }
    None
}

/// Where a new gd goes: where the running one is found; where it stands, if it is no
/// build product; where another is found that is none; or into the home directory.
pub open spec fn target_dir(
    dirs: Seq<PathDir>,
    exe: Seq<char>,
    exe_dir: Option<Seq<char>>,
    build_tree: Seq<char>,
    home: Option<Seq<char>>,
) -> Option<Seq<char>> {
    if first_dir(dirs, is_exe(exe)) is Some {
        first_dir(dirs, is_exe(exe))
    } else if !within(exe, build_tree) && exe_dir is Some {
        exe_dir
    } else if first_dir(dirs, outside(build_tree)) is Some {
        first_dir(dirs, outside(build_tree))
    } else {
        match home {
            Some(h) => Some(joined_path(h, ".cargo/bin"@)),
            None => None,
        }
    }
}

/// Where a new gd goes; nowhere if the home directory is needed and not known.
pub fn install_dir(
    dirs: &Vec<PathDir>,
    exe: &str,
    exe_dir: Option<&str>,
    build_tree: &str,
    home: Option<&str>,
) -> (r: Option<String>)
    ensures
        match r {
            Some(dir) => Some(dir@),
            None => None,
        } == target_dir(dirs@, exe@, opt_view(exe_dir), build_tree@, opt_view(home)),
{
    if let Some(dir) = running_gd_dir(dirs, exe) {
        return Some(dir);
    }
    if !path_starts_with(exe, build_tree) {
        if let Some(dir) = exe_dir {
            return Some(dir.to_owned());
        }
    }
    if let Some(dir) = installed_dir(dirs, build_tree) {
        return Some(dir);
    }
    match home {
        Some(h) => Some(join_path(h, ".cargo/bin")),
        None => None,
    }
}

// ---- in what order ----

/// A step of an update.
#[derive(Clone, Copy, PartialEq, Eq, Structural, Debug)]
pub enum Step {
    /// Find out where from and where to.
    Plan,
    /// Build.
    Build,
    /// Stop the daemon.
    Stop,
    /// Put the new programs into their place.
    Install,
    /// Start the daemon.
    Start,
    /// Ask whether the daemon runs.
    Check,
    /// The update is complete; whether the daemon runs.
    Done(bool),
    /// The update failed.
    Failed,
}

/// How an update stands.
#[derive(Clone, Copy, PartialEq, Eq, Structural, Debug)]
pub struct Update {
    /// What is to be done next.
    pub step: Step,
    /// Whether the new programs could not be put into their place.
    pub broken: bool,
}

/// How an update stands after a step that went well, or did not.
pub open spec fn advanced(u: Update, ok: bool) -> Update {
    match u.step {
        Step::Plan => if ok {
            Update { step: Step::Build, ..u }
        } else {
            Update { step: Step::Failed, ..u }
        },
        Step::Build => if ok {
            Update { step: Step::Stop, ..u }
        } else {
            Update { step: Step::Failed, ..u }
        },
        Step::Stop => Update { step: Step::Install, ..u },
        Step::Install => Update { step: Step::Start, broken: !ok },
        Step::Start => if u.broken {
            Update { step: Step::Failed, ..u }
        } else {
            Update { step: Step::Check, ..u }
        },
        Step::Check => Update { step: Step::Done(ok), ..u },
        _ => u,
    }
}

impl Update {
    /// Before the first step.
    pub fn new() -> (r: Update)
        ensures
            r == (Update { step: Step::Plan, broken: false }),
    {
        Update { step: Step::Plan, broken: false }
    }

    /// Notes whether the step went well, and goes on to the next.
    pub fn advance(&mut self, ok: bool)
        ensures
            *final(self) == advanced(*old(self), ok),
    {
        match self.step {
            Step::Plan => {
                self.step = if ok {
                    Step::Build
                } else {
                    Step::Failed
                };
            },
            Step::Build => {
                self.step = if ok {
                    Step::Stop
                } else {
                    Step::Failed
                };
            },
            Step::Stop => {
                self.step = Step::Install;
            },
            Step::Install => {
                self.broken = !ok;
                self.step = Step::Start;
            },
            Step::Start => {
                self.step = if self.broken {
                    Step::Failed
                } else {
                    Step::Check
                };
            },
            Step::Check => {
                self.step = Step::Done(ok);
            },
            Step::Done(_) => {},
            Step::Failed => {},
        }
    }
}

/// How an update stands after some steps.
pub open spec fn after_steps(outcomes: Seq<bool>) -> Update
    decreases outcomes.len(),
{
    if outcomes.len() == 0 {
        Update { step: Step::Plan, broken: false }
    } else {
        advanced(after_steps(outcomes.drop_last()), outcomes.last())
    }
}

/// How often a step was taken.
pub open spec fn taken(outcomes: Seq<bool>, step: Step) -> int
    decreases outcomes.len(),
{
    if outcomes.len() == 0 {
        0
    } else {
        taken(outcomes.drop_last(), step) + if after_steps(outcomes.drop_last()).step == step {
            1int
        } else {
            0int
        }
    }
}

/// How far an update that stands at a step has come.
proof fn lemma_update(outcomes: Seq<bool>)
    ensures
        ({
            let u = after_steps(outcomes);
            let stops = taken(outcomes, Step::Stop);
            let starts = taken(outcomes, Step::Start);
            match u.step {
                Step::Plan => stops == 0 && starts == 0 && !u.broken,
                Step::Build => stops == 0 && starts == 0 && !u.broken,
                Step::Stop => stops == 0 && starts == 0 && !u.broken,
                Step::Install => stops == 1 && starts == 0 && !u.broken,
                Step::Start => stops == 1 && starts == 0,
                Step::Check => stops == 1 && starts == 1 && !u.broken,
                Step::Done(_) => stops == 1 && starts == 1 && !u.broken,
                Step::Failed => stops == starts,
            }
        }),
    decreases outcomes.len(),
{
    if outcomes.len() > 0 {
        lemma_update(outcomes.drop_last());
    }
}

/// Law: whatever goes wrong, an update that is over has started the daemon as often as
/// it stopped it; where the plan or the build fails, it never touched the daemon; and
/// it is complete only where all its parts went well.
pub proof fn law_update(outcomes: Seq<bool>)
    ensures
        after_steps(outcomes).step is Done || after_steps(outcomes).step is Failed ==> taken(
            outcomes,
            Step::Stop,
        ) == taken(outcomes, Step::Start),
        (outcomes.len() >= 1 && !outcomes[0]) || (outcomes.len() >= 2 && !outcomes[1]) ==> taken(
            outcomes,
            Step::Stop,
        ) == 0 && after_steps(outcomes).step == Step::Failed,
        after_steps(outcomes).step is Done ==> !after_steps(outcomes).broken,
    decreases outcomes.len(),
{
    lemma_update(outcomes);
    if outcomes.len() > 2 {
        let front = outcomes.drop_last();
        assert(front[0] == outcomes[0] && front[1] == outcomes[1]);
        law_update(front);
    } else if outcomes.len() == 1 {
        let none = outcomes.drop_last();
        assert(none.len() == 0);
        assert(after_steps(none) == (Update { step: Step::Plan, broken: false }));
        assert(outcomes.last() == outcomes[0]);
        assert(taken(none, Step::Stop) == 0);
    } else if outcomes.len() == 2 {
        let one = outcomes.drop_last();
        let none = one.drop_last();
        assert(one.last() == outcomes[0]);
        assert(none.len() == 0);
        assert(after_steps(none) == (Update { step: Step::Plan, broken: false }));
        assert(after_steps(one) == advanced(after_steps(none), outcomes[0]));
        assert(taken(none, Step::Stop) == 0);
        assert(taken(one, Step::Stop) == 0);
    }
}

/// What is said where an update is complete.
pub fn update_message(running: bool) -> (r: &'static str)
    ensures
        r@ == if running {
            "update complete."@
        } else {
            "update complete, but gd-daemon is NOT running.\n  Check:  systemctl --user status gd-daemon\n  Retry:  systemctl --user reset-failed gd-daemon && systemctl --user start gd-daemon"@
        },
{
    if running {
        "update complete."
    } else {
        "update complete, but gd-daemon is NOT running.\n  Check:  systemctl --user status gd-daemon\n  Retry:  systemctl --user reset-failed gd-daemon && systemctl --user start gd-daemon"
    }
}

// ---- both programs or neither ----

/// How many programs are installed together.
pub const PROGRAMS: usize = 2;

/// What is to be done next while the programs are put into their place.
#[derive(Clone, Copy, PartialEq, Eq, Structural, Debug)]
pub enum Placing {
    /// Copy this program beside its place.
    Copy(usize),
    /// Move the copy of this program into its place.
    Replace(usize),
    /// All are in place.
    Finished,
    /// It failed: throw away the copies from the first of these up to, but not with,
    /// the second.
    Discard(usize, usize),
}

/// What comes after a copy or a move that went well, or did not.
pub open spec fn placed(p: Placing, ok: bool) -> Placing {
    match p {
        Placing::Copy(i) => if !ok {
            Placing::Discard(0, i)
        } else if i + 1 < PROGRAMS {
            Placing::Copy((i + 1) as usize)
        } else {
            Placing::Replace(0)
        },
        Placing::Replace(i) => if !ok {
            Placing::Discard(i, PROGRAMS)
        } else if i + 1 < PROGRAMS {
            Placing::Replace((i + 1) as usize)
        } else {
            Placing::Finished
        },
        _ => p,
    }
}

/// What comes after a copy or a move.
pub fn next_placing(p: Placing, ok: bool) -> (r: Placing)
    requires
        p matches Placing::Copy(i) ==> i < PROGRAMS,
        p matches Placing::Replace(i) ==> i < PROGRAMS,
    ensures
        r == placed(p, ok),
        r matches Placing::Copy(i) ==> i < PROGRAMS,
        r matches Placing::Replace(i) ==> i < PROGRAMS,
{
    match p {
        Placing::Copy(i) => if !ok {
            Placing::Discard(0, i)
        } else if i + 1 < PROGRAMS {
            Placing::Copy(i + 1)
        } else {
            Placing::Replace(0)
        },
        Placing::Replace(i) => if !ok {
            Placing::Discard(i, PROGRAMS)
        } else if i + 1 < PROGRAMS {
            Placing::Replace(i + 1)
        } else {
            Placing::Finished
        },
        Placing::Finished => Placing::Finished,
        Placing::Discard(from, to) => Placing::Discard(from, to),
    }
}

/// What is to be done after some copies and moves.
pub open spec fn after_placing(outcomes: Seq<bool>) -> Placing
    decreases outcomes.len(),
{
    if outcomes.len() == 0 {
        Placing::Copy(0)
    } else {
        placed(after_placing(outcomes.drop_last()), outcomes.last())
    }
}

/// Law: no program is replaced before all were copied, and all are in place only where
/// every copy and every move went well.
pub proof fn law_placing(outcomes: Seq<bool>)
    ensures
        match after_placing(outcomes) {
            Placing::Copy(i) => i == outcomes.len() && i < PROGRAMS && forall|k: int|
                0 <= k < outcomes.len() ==> #[trigger] outcomes[k],
            Placing::Replace(i) => outcomes.len() == PROGRAMS + i && i < PROGRAMS && forall|k: int|
                0 <= k < outcomes.len() ==> #[trigger] outcomes[k],
            Placing::Finished => outcomes.len() >= 2 * PROGRAMS && forall|k: int|
                0 <= k < 2 * PROGRAMS ==> #[trigger] outcomes[k],
            Placing::Discard(from, to) => from <= to <= PROGRAMS && exists|k: int|
                0 <= k < outcomes.len() && !#[trigger] outcomes[k],
        },
    decreases outcomes.len(),
{
    if outcomes.len() > 0 {
        let front = outcomes.drop_last();
        law_placing(front);
        assert(forall|k: int| 0 <= k < front.len() ==> front[k] == #[trigger] outcomes[k]);
        assert(outcomes.last() == outcomes[outcomes.len() - 1]);
        if after_placing(front) is Discard {
            let k = choose|k: int| 0 <= k < front.len() && !#[trigger] front[k];
            assert(!outcomes[k]);
        }
    }
}

/// The first place at which a test holds.
proof fn lemma_first_true(flags: Seq<bool>)
    ensures
        0 <= first_true(flags) <= flags.len(),
        first_true(flags) < flags.len() ==> flags[first_true(flags)],
        forall|k: int| 0 <= k < first_true(flags) ==> !#[trigger] flags[k],
    decreases flags.len(),
{
    if flags.len() > 0 && !flags[0] {
        let rest = flags.skip(1);
        lemma_first_true(rest);
        assert forall|k: int| 0 <= k < first_true(flags) implies !#[trigger] flags[k] by {
            if k > 0 {
                assert(rest[k - 1] == flags[k]);
            }
        }
    }
}

/// Law: the nearest directory that is a checkout is the source: the test holds there and at
/// none before it; where it holds nowhere, there is none.
pub proof fn law_first_true(flags: Seq<bool>)
    ensures
        first_true(flags) < flags.len() <==> flags.contains(true),
        first_true(flags) < flags.len() ==> flags[first_true(flags)] && forall|k: int|
            0 <= k < first_true(flags) ==> !#[trigger] flags[k],
{
    lemma_first_true(flags);
    if flags.contains(true) {
        let k = choose|k: int| 0 <= k < flags.len() && flags[k] == true;
        assert(k >= first_true(flags));
    } else if first_true(flags) < flags.len() {
        assert(flags[first_true(flags)] == true);
    }
}

/// Law: of the directories of the search path the first whose gd passes a test is taken,
/// and none where no gd does.
pub proof fn law_first_dir(dirs: Seq<PathDir>, test: spec_fn(Seq<char>) -> bool)
    ensures
        match first_dir(dirs, test) {
            Some(dir) => exists|i: int|
                0 <= i < dirs.len() && (#[trigger] dirs[i]).dir@ == dir && (gd_in(dirs[i])
                    matches Some(gd) && test(gd)) && forall|k: int|
                    0 <= k < i ==> (gd_in(#[trigger] dirs[k]) matches Some(gd) ==> !test(gd)),
            None => forall|k: int|
                0 <= k < dirs.len() ==> (gd_in(#[trigger] dirs[k]) matches Some(gd) ==> !test(gd)),
        },
    decreases dirs.len(),
{
    if dirs.len() > 0 {
        if gd_in(dirs[0]) is Some && test(gd_in(dirs[0]).unwrap()) {
            assert(dirs[0].dir@ == first_dir(dirs, test).unwrap());
        } else {
            let rest = dirs.skip(1);
            law_first_dir(rest, test);
            assert(forall|k: int| 0 <= k < rest.len() ==> #[trigger] rest[k] == dirs[k + 1]);
            match first_dir(rest, test) {
                Some(dir) => {
                    let i = choose|i: int|
                        0 <= i < rest.len() && (#[trigger] rest[i]).dir@ == dir && (gd_in(rest[i])
                            matches Some(gd) && test(gd)) && forall|k: int|
                            0 <= k < i ==> (gd_in(#[trigger] rest[k]) matches Some(gd) ==> !test(
                                gd,
                            ));
                    assert(dirs[i + 1].dir@ == dir);
                    assert forall|k: int| 0 <= k < i + 1 implies (gd_in(#[trigger] dirs[k])
                        matches Some(gd) ==> !test(gd)) by {
                        if k > 0 {
                            assert(rest[k - 1] == dirs[k]);
                        }
                    }
                },
                None => {
                    assert forall|k: int| 0 <= k < dirs.len() implies (gd_in(#[trigger] dirs[k])
                        matches Some(gd) ==> !test(gd)) by {
                        if k > 0 {
                            assert(rest[k - 1] == dirs[k]);
                        }
                    }
                },
            }
        }
    }
}

/// Law: a new gd goes to where the running one is found on the search path. Where it is not
/// found there, it goes to where the running one stands, unless that is a build product;
/// then to where another is found that is none, and last into the home directory.
pub proof fn law_target_dir(
    dirs: Seq<PathDir>,
    exe: Seq<char>,
    exe_dir: Seq<char>,
    build_tree: Seq<char>,
    home: Option<Seq<char>>,
)
    ensures
        ({
            let on_path = first_dir(dirs, |path: Seq<char>| parts(path) == parts(exe));
            let product = parts(build_tree).is_prefix_of(parts(exe));
            let other = first_dir(
                dirs,
                |path: Seq<char>| !parts(build_tree).is_prefix_of(parts(path)),
            );
            let r = target_dir(dirs, exe, Some(exe_dir), build_tree, home);
            &&& on_path is Some ==> r == on_path
            &&& on_path is None && !product ==> r == Some(exe_dir)
            &&& on_path is None && product && other is Some ==> r == other
            &&& on_path is None && product && other is None ==> r == match home {
                Some(h) => Some(joined_path(h, ".cargo/bin"@)),
                None => None,
            }
        }),
{
    let a = |path: Seq<char>| parts(path) == parts(exe);
    let b = |path: Seq<char>| !parts(build_tree).is_prefix_of(parts(path));
    assert(a =~= is_exe(exe));
    assert(b =~= outside(build_tree));
}

/// Law: an update whose parts all go well goes through its steps in order: it plans,
/// builds, stops the daemon, installs, starts the daemon again and asks whether it runs.
/// Whether the daemon could be stopped or started changes nothing; where the programs
/// could not be put into their place, the daemon is started all the same and the update
/// has failed.
pub proof fn law_update_in_order(stopped: bool, placed: bool, started: bool, runs: bool)
    ensures
        after_steps(Seq::empty()).step == Step::Plan,
        after_steps(seq![true]).step == Step::Build,
        after_steps(seq![true, true]).step == Step::Stop,
        after_steps(seq![true, true, stopped]).step == Step::Install,
        after_steps(seq![true, true, stopped, placed]).step == Step::Start,
        after_steps(seq![true, true, stopped, placed, started]).step == if placed {
            Step::Check
        } else {
            Step::Failed
        },
        after_steps(seq![true, true, stopped, true, started, runs]).step == Step::Done(runs),
        after_steps(seq![false]).step == Step::Failed,
        after_steps(seq![true, false]).step == Step::Failed,
{
    reveal_with_fuel(after_steps, 8);
    let none = Seq::<bool>::empty();
    let a = seq![true];
    let b = seq![true, true];
    let c = seq![true, true, stopped];
    let d = seq![true, true, stopped, placed];
    let e = seq![true, true, stopped, placed, started];
    let f = seq![true, true, stopped, true, started];
    let g = seq![true, true, stopped, true, started, runs];
    let h = seq![true, true, stopped, true];
    assert(a.drop_last() =~= none);
    assert(b.drop_last() =~= a);
    assert(c.drop_last() =~= b);
    assert(d.drop_last() =~= c);
    assert(e.drop_last() =~= d);
    assert(h.drop_last() =~= c);
    assert(f.drop_last() =~= h);
    assert(g.drop_last() =~= f);
    assert(seq![false].drop_last() =~= none);
    assert(seq![true, false].drop_last() =~= a);
}

/// Law: where every copy and every move goes well, all programs are in place after them.
/// Where a copy fails, the copies made before it are thrown away; where a move fails, the
/// copies that were not moved yet are.
pub proof fn law_placing_in_order(outcomes: Seq<bool>)
    requires
        forall|k: int| 0 <= k < outcomes.len() ==> #[trigger] outcomes[k],
    ensures
        outcomes.len() == 4 ==> after_placing(outcomes) == Placing::Finished,
        outcomes.len() < 2 ==> after_placing(outcomes) == Placing::Copy(outcomes.len() as usize)
            && after_placing(outcomes.push(false)) == Placing::Discard(0, outcomes.len() as usize),
        2 <= outcomes.len() < 4 ==> after_placing(outcomes) == Placing::Replace(
            (outcomes.len() - 2) as usize,
        ) && after_placing(outcomes.push(false)) == Placing::Discard(
            (outcomes.len() - 2) as usize,
            2,
        ),
    decreases outcomes.len(),
{
    assert(outcomes.push(false).drop_last() =~= outcomes);
    if outcomes.len() > 0 {
        let front = outcomes.drop_last();
        assert forall|k: int| 0 <= k < front.len() implies #[trigger] front[k] by {
            assert(outcomes[k]);
        }
        assert(outcomes[outcomes.len() - 1]);
        law_placing_in_order(front);
    }
}

} // verus!
