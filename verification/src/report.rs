//! What gd tells of its state and of what it did.

use crate::daemon::{law_mode_name, mode_name};
use crate::db::CleanReport;
use crate::path::{display_with_tilde, opt_view, tilde_shown};
use crate::setup::{detected, shell_name};
use crate::text::{
    around,
    concat2,
    decimal,
    ends_with,
    lemma_texts_push,
    number_of,
    parse_number,
    str_eq,
    texts,
    to_decimal,
    trim,
    trimmed,
};
use vstd::prelude::*;
use vstd::string::*;

verus! {

// ---- the daemon ----

/// The process that the daemon wrote down.
pub fn read_pid(text: &str) -> (r: Option<u32>)
    ensures
        match r {
            Some(pid) => number_of(trimmed(text@)) == Some(pid as nat),
            None => match number_of(trimmed(text@)) {
                Some(n) => n > u32::MAX,
                None => true,
            },
        },
{
    match parse_number(trim(text).as_str(), 0xffff_ffff) {
        Some(n) => Some(n as u32),
        None => None,
    }
}

/// Whether a process of this name is the daemon. A number alone does not tell: it may
/// have been given to another process since.
pub fn is_gd_daemon(command: Option<&str>) -> (r: bool)
    ensures
        r == match command {
            Some(name) => trimmed(name@) == "gd-daemon"@,
            None => false,
        },
{
    match command {
        Some(name) => str_eq(trim(name).as_str(), "gd-daemon"),
        None => false,
    }
}

/// What is said of the daemon, and of how it keeps up.
pub open spec fn daemon_text(running: bool, mode: Seq<char>) -> Seq<char> {
    if !running {
        "daemon: not running (systemctl --user start gd-daemon)"@
    } else if mode == "fanotify"@ {
        "daemon: running (fanotify, event-driven)"@
    } else if mode == "poll"@ {
        "daemon: running — DEGRADED: fanotify unavailable, low-frequency idle-priority rescan (why: journalctl --user -u gd-daemon; disable scanning: gd config daemon.fallback off)"@
    } else if mode == "off"@ {
        "daemon: running — fanotify unavailable, scanning disabled (daemon.fallback=off); index grows only from shell visits"@
    } else {
        "daemon: running"@
    }
}

/// What is said of the daemon. What it wrote down counts only while it runs.
pub fn daemon_line(running: bool, mode: &str) -> (r: &'static str)
    ensures
        r@ == daemon_text(running, mode@),
{
    if !running {
        "daemon: not running (systemctl --user start gd-daemon)"
    } else if str_eq(mode, "fanotify") {
        "daemon: running (fanotify, event-driven)"
    } else if str_eq(mode, "poll") {
        "daemon: running — DEGRADED: fanotify unavailable, low-frequency idle-priority rescan (why: journalctl --user -u gd-daemon; disable scanning: gd config daemon.fallback off)"
    } else if str_eq(mode, "off") {
        "daemon: running — fanotify unavailable, scanning disabled (daemon.fallback=off); index grows only from shell visits"
    } else {
        "daemon: running"
    }
}

/// What is said of a daemon that was just started.
pub fn watch_mode_line(mode: &str) -> (r: &'static str)
    ensures
        r@ == if mode@ == "fanotify"@ {
            "watch mode: fanotify — event-driven, no background scanning."@
        } else if mode@ == "poll"@ {
            "watch mode: DEGRADED — fanotify is unavailable on this filesystem (btrfs subvolume homes are the usual cause).\n  The daemon will instead rescan at idle priority every 30 min and keep retrying fanotify.\n  Details:           journalctl --user -u gd-daemon\n  Disable scanning:  gd config daemon.fallback off"@
        } else if mode@ == "off"@ {
            "watch mode: fanotify unavailable; background scanning disabled (daemon.fallback=off) — the index grows only from your shell visits."@
        } else {
            "watch mode: not reported yet — the first index build may still be running, or the daemon did not actually start.\n  Check:  systemctl --user status gd-daemon\n  Later:  gd doctor"@
        },
{
    if str_eq(mode, "fanotify") {
        "watch mode: fanotify — event-driven, no background scanning."
    } else if str_eq(mode, "poll") {
        "watch mode: DEGRADED — fanotify is unavailable on this filesystem (btrfs subvolume homes are the usual cause).\n  The daemon will instead rescan at idle priority every 30 min and keep retrying fanotify.\n  Details:           journalctl --user -u gd-daemon\n  Disable scanning:  gd config daemon.fallback off"
    } else if str_eq(mode, "off") {
        "watch mode: fanotify unavailable; background scanning disabled (daemon.fallback=off) — the index grows only from your shell visits."
    } else {
        "watch mode: not reported yet — the first index build may still be running, or the daemon did not actually start.\n  Check:  systemctl --user status gd-daemon\n  Later:  gd doctor"
    }
}

// ---- the doctor ----

/// The shell that a hint can be given for.
pub open spec fn hinted(shell_var: Option<Seq<char>>) -> Option<Seq<char>> {
    match shell_var {
        Some(s) => if "/bash"@.is_suffix_of(s) {
            Some("bash"@)
        } else if "/zsh"@.is_suffix_of(s) {
            Some("zsh"@)
        } else if "/fish"@.is_suffix_of(s) {
            Some("fish"@)
        } else {
            None
        },
        None => None,
    }
}

/// The shell that a hint can be given for.
fn hinted_shell(shell_var: Option<&str>) -> (r: Option<&'static str>)
    ensures
        match r {
            Some(name) => Some(name@),
            None => None,
        } == hinted(opt_view(shell_var)),
{
    match shell_var {
        Some(s) => if ends_with(s, "/bash") {
            Some("bash")
        } else if ends_with(s, "/zsh") {
            Some("zsh")
        } else if ends_with(s, "/fish") {
            Some("fish")
        } else {
            None
        },
        None => None,
    }
}

/// What is said of a shell.
pub open spec fn shell_texts(shell: Option<Seq<char>>) -> Seq<Seq<char>> {
    match shell {
        Some(name) => seq![
            "shell: "@ + name,
            "  hint: ensure eval \"$(gd init "@ + name + ")\" is in your shell config"@,
        ],
        None => Seq::empty(),
    }
}

/// What the doctor finds.
#[derive(Debug)]
pub struct Diagnosis {
    pub lines: Vec<String>,
    /// Whether nothing is wrong.
    pub passed: bool,
}

/// What the doctor says.
pub open spec fn diagnosis_texts(
    links: nat,
    history: nat,
    running: bool,
    mode: Seq<char>,
    has_fd: bool,
    shell_var: Option<Seq<char>>,
) -> Seq<Seq<char>> {
    seq![
        "links: "@ + decimal(links),
        "history: "@ + decimal(history) + " directories"@,
        daemon_text(running, mode),
        if has_fd {
            "scanner: fd (fast)"@
        } else {
            "scanner: find (fallback — install fd for better performance)"@
        },
    ] + shell_texts(hinted(shell_var)) + seq![
        if running {
            "all checks passed."@
        } else {
            "1 check(s) failed."@
        },
    ]
}

/// What the doctor says of the installation. All is well where the daemon runs.
pub fn diagnosis(
    links: usize,
    history: usize,
    running: bool,
    mode: &str,
    has_fd: bool,
    shell_var: Option<&str>,
) -> (r: Diagnosis)
    ensures
        texts(r.lines@) == diagnosis_texts(
            links as nat,
            history as nat,
            running,
            mode@,
            has_fd,
            opt_view(shell_var),
        ),
        r.passed == running,
{
    let mut lines: Vec<String> = Vec::new();
    lines.push(concat2("links: ", to_decimal(links as u128).as_str()));
    lines.push(around("history: ", history, " directories"));
    lines.push(daemon_line(running, mode).to_owned());
    lines.push(
        if has_fd {
            "scanner: fd (fast)".to_owned()
        } else {
            "scanner: find (fallback — install fd for better performance)".to_owned()
        },
    );
    if let Some(name) = hinted_shell(shell_var) {
        lines.push(concat2("shell: ", name));
        let mut hint = concat2("  hint: ensure eval \"$(gd init ", name);
        hint.append(")\" is in your shell config");
        lines.push(hint);
    }
    lines.push(
        if running {
            "all checks passed.".to_owned()
        } else {
            "1 check(s) failed.".to_owned()
        },
    );
    assert(texts(lines@) =~= diagnosis_texts(
        links as nat,
        history as nat,
        running,
        mode@,
        has_fd,
        opt_view(shell_var),
    ));
    Diagnosis { lines, passed: running }
}

// ---- links, boosts and what was cleaned ----

/// A link as it is listed.
pub open spec fn link_text(alias: Seq<char>, path: Seq<char>, home: Option<Seq<char>>) -> Seq<char> {
    alias + " → "@ + tilde_shown(path, home)
}

/// A link as it is listed.
fn link_line(alias: &str, path: &str, home: Option<&str>) -> (r: String)
    ensures
        r@ == link_text(alias@, path@, opt_view(home)),
{
    let mut out = concat2(alias, " → ");
    out.append(display_with_tilde(path, home).as_str());
    out
}

/// The links as they are listed; `there` says which directories are there.
pub open spec fn link_texts(
    links: Seq<(String, String)>,
    there: Seq<bool>,
    home: Option<Seq<char>>,
) -> Seq<Seq<char>> {
    Seq::new(
        links.len(),
        |i: int|
            "  "@ + link_text(links[i].0@, links[i].1@, home) + if there[i] {
                ""@
            } else {
                " (missing)"@
            },
    )
}

/// The boosts as they are listed: the path, and its multiplier as text.
pub open spec fn boost_texts(
    boosts: Seq<(String, String)>,
    home: Option<Seq<char>>,
) -> Seq<Seq<char>> {
    Seq::new(
        boosts.len(),
        |i: int| "  "@ + tilde_shown(boosts[i].0@, home) + " (×"@ + boosts[i].1@ + ")"@,
    )
}

/// The list of what is stored.
pub open spec fn listing(
    links: Seq<(String, String)>,
    there: Seq<bool>,
    boosts: Seq<(String, String)>,
    history: nat,
    home: Option<Seq<char>>,
) -> Seq<Seq<char>> {
    (if links.len() == 0 {
        seq!["no links."@]
    } else {
        seq!["links:"@] + link_texts(links, there, home)
    }) + (if boosts.len() == 0 {
        Seq::empty()
    } else {
        seq!["boosts:"@] + boost_texts(boosts, home)
    }) + seq![decimal(history) + " directories in history."@]
}

/// The list of what is stored.
pub fn list_lines(
    links: &Vec<(String, String)>,
    there: &Vec<bool>,
    boosts: &Vec<(String, String)>,
    history: usize,
    home: Option<&str>,
) -> (r: Vec<String>)
    requires
        links@.len() == there@.len(),
    ensures
        texts(r@) == listing(links@, there@, boosts@, history as nat, opt_view(home)),
{
    let ghost h = opt_view(home);
    let mut out: Vec<String> = Vec::new();
    if links.len() == 0 {
        out.push("no links.".to_owned());
    } else {
        out.push("links:".to_owned());
    }
    let ghost head = texts(out@);
    let mut i: usize = 0;
    assert(head + link_texts(links@, there@, h).take(0) =~= head);
    while i < links.len()
        invariant
            i <= links@.len(),
            links@.len() == there@.len(),
            h == opt_view(home),
            texts(out@) == head + link_texts(links@, there@, h).take(i as int),
        decreases links@.len() - i,
    {
        let mut line = concat2(
            "  ",
            link_line(links[i].0.as_str(), links[i].1.as_str(), home).as_str(),
        );
        if there[i] {
            line.append("");
        } else {
            line.append(" (missing)");
        }
        proof {
            lemma_texts_push(out@, line);
            let all = link_texts(links@, there@, h);
            assert(all.take(i + 1) =~= all.take(i as int).push(all[i as int]));
            assert(line@ =~= all[i as int]);
            assert(head + all.take(i + 1) =~= (head + all.take(i as int)).push(line@));
        }
        out.push(line);
        i = i + 1;
    }
    assert(link_texts(links@, there@, h).take(links@.len() as int) =~= link_texts(
        links@,
        there@,
        h,
    ));
    if boosts.len() > 0 {
        let title = "boosts:".to_owned();
        proof {
            lemma_texts_push(out@, title);
        }
        out.push(title);
    }
    let ghost middle = texts(out@);
    let mut j: usize = 0;
    assert(middle + boost_texts(boosts@, h).take(0) =~= middle);
    while j < boosts.len()
        invariant
            j <= boosts@.len(),
            h == opt_view(home),
            texts(out@) == middle + boost_texts(boosts@, h).take(j as int),
        decreases boosts@.len() - j,
    {
        let mut line = concat2("  ", display_with_tilde(boosts[j].0.as_str(), home).as_str());
        line.append(" (×");
        line.append(boosts[j].1.as_str());
        line.append(")");
        proof {
            lemma_texts_push(out@, line);
            let all = boost_texts(boosts@, h);
            assert(all.take(j + 1) =~= all.take(j as int).push(all[j as int]));
            assert(line@ =~= all[j as int]);
            assert(middle + all.take(j + 1) =~= (middle + all.take(j as int)).push(line@));
        }
        out.push(line);
        j = j + 1;
    }
    assert(boost_texts(boosts@, h).take(boosts@.len() as int) =~= boost_texts(boosts@, h));
    let last = concat2(to_decimal(history as u128).as_str(), " directories in history.");
    proof {
        lemma_texts_push(out@, last);
    }
    out.push(last);
    assert(texts(out@) =~= listing(links@, there@, boosts@, history as nat, h));
    out
}

/// The lines on links that were removed.
pub open spec fn unlinked_texts(
    links: Seq<(String, String)>,
    home: Option<Seq<char>>,
) -> Seq<Seq<char>> {
    Seq::new(links.len(), |i: int| "unlinked "@ + link_text(links[i].0@, links[i].1@, home))
}

/// The lines on directories that were removed.
pub open spec fn removed_texts(paths: Seq<String>, home: Option<Seq<char>>) -> Seq<Seq<char>> {
    Seq::new(paths.len(), |i: int| "removed "@ + tilde_shown(paths[i]@, home))
}

/// What is said after a clean-up: each link and each directory with history that was
/// removed, and how many there were of each kind.
pub open spec fn clean_texts(report: CleanReport, home: Option<Seq<char>>) -> Seq<Seq<char>> {
    if report.removed_links@.len() == 0 && report.removed_history@.len() == 0
        && report.removed_index == 0 {
        seq!["all paths are valid, nothing to clean."@]
    } else {
        unlinked_texts(report.removed_links@, home) + removed_texts(report.removed_history@, home)
            + seq![
            "scanned "@ + decimal(report.scanned as nat) + " path(s); removed "@ + decimal(
                report.removed_index as nat,
            ) + " index-only, "@ + decimal(report.removed_history@.len()) + " with history, "@
                + decimal(report.removed_links@.len()) + " link(s)."@,
        ]
    }
}

/// What is said after a clean-up.
pub fn clean_lines(report: &CleanReport, home: Option<&str>) -> (r: Vec<String>)
    ensures
        texts(r@) == clean_texts(*report, opt_view(home)),
{
    let ghost h = opt_view(home);
    let mut out: Vec<String> = Vec::new();
    if report.removed_links.len() == 0 && report.removed_history.len() == 0 && report.removed_index
        == 0 {
        out.push("all paths are valid, nothing to clean.".to_owned());
        assert(texts(out@) =~= clean_texts(*report, h));
        return out;
    }
    let mut i: usize = 0;
    let ghost first = unlinked_texts(report.removed_links@, h);
    let ghost second = removed_texts(report.removed_history@, h);
    assert(texts(out@) =~= first.take(0));
    while i < report.removed_links.len()
        invariant
            i <= report.removed_links@.len(),
            h == opt_view(home),
            first == unlinked_texts(report.removed_links@, h),
            texts(out@) == first.take(i as int),
        decreases report.removed_links@.len() - i,
    {
        let line = concat2(
            "unlinked ",
            link_line(
                report.removed_links[i].0.as_str(),
                report.removed_links[i].1.as_str(),
                home,
            ).as_str(),
        );
        proof {
            lemma_texts_push(out@, line);
            assert(line@ =~= first[i as int]);
            assert(first.take(i + 1) =~= first.take(i as int).push(line@));
        }
        out.push(line);
        i = i + 1;
    }
    assert(first.take(first.len() as int) =~= first);
    let mut j: usize = 0;
    assert(first + second.take(0) =~= first);
    while j < report.removed_history.len()
        invariant
            j <= report.removed_history@.len(),
            h == opt_view(home),
            second == removed_texts(report.removed_history@, h),
            texts(out@) == first + second.take(j as int),
        decreases report.removed_history@.len() - j,
    {
        let line = concat2(
            "removed ",
            display_with_tilde(report.removed_history[j].as_str(), home).as_str(),
        );
        proof {
            lemma_texts_push(out@, line);
            assert(line@ =~= second[j as int]);
            assert(second.take(j + 1) =~= second.take(j as int).push(line@));
            assert(first + second.take(j + 1) =~= (first + second.take(j as int)).push(line@));
        }
        out.push(line);
        j = j + 1;
    }
    assert(second.take(second.len() as int) =~= second);
    let mut last = around("scanned ", report.scanned, " path(s); removed ");
    last.append(around("", report.removed_index, " index-only, ").as_str());
    last.append(around("", report.removed_history.len(), " with history, ").as_str());
    last.append(around("", report.removed_links.len(), " link(s).").as_str());
    proof {
        reveal_strlit("");
        lemma_texts_push(out@, last);
        assert(last@ =~= "scanned "@ + decimal(report.scanned as nat) + " path(s); removed "@
            + decimal(report.removed_index as nat) + " index-only, "@ + decimal(
            report.removed_history@.len(),
        ) + " with history, "@ + decimal(report.removed_links@.len()) + " link(s)."@);
    }
    out.push(last);
    assert(texts(out@) =~= clean_texts(*report, h));
    out
}

/// What is said of a new link.
pub fn linked_line(alias: &str, path: &str, home: Option<&str>) -> (r: String)
    ensures
        r@ == "linked "@ + link_text(alias@, path@, opt_view(home)),
{
    concat2("linked ", link_line(alias, path, home).as_str())
}

/// What is said of a link that was removed.
pub fn unlinked_line(alias: &str) -> (r: String)
    ensures
        r@ == "unlinked '"@ + alias@ + "'"@,
{
    let mut out = concat2("unlinked '", alias);
    out.append("'");
    out
}

/// What is said of a new boost, whose multiplier is given as text.
pub fn boosted_line(path: &str, weight: &str, home: Option<&str>) -> (r: String)
    ensures
        r@ == "boosted "@ + tilde_shown(path@, opt_view(home)) + " (×"@ + weight@ + ")"@,
{
    let mut out = concat2("boosted ", display_with_tilde(path, home).as_str());
    out.append(" (×");
    out.append(weight);
    out.append(")");
    out
}

/// What is said of a boost that was removed.
pub fn unboosted_line(path: &str, home: Option<&str>) -> (r: String)
    ensures
        r@ == "removed boost for "@ + tilde_shown(path@, opt_view(home)),
{
    concat2("removed boost for ", display_with_tilde(path, home).as_str())
}

/// Law: what is told of the daemon tells how it keeps up only while it runs, and tells the
/// ways apart as the daemon wrote them down.
pub proof fn law_daemon_text(watching: bool, off: bool, mode: Seq<char>)
    ensures
        daemon_text(false, mode) == "daemon: not running (systemctl --user start gd-daemon)"@,
        daemon_text(true, mode_name(watching, off)) == if watching {
            "daemon: running (fanotify, event-driven)"@
        } else if off {
            "daemon: running — fanotify unavailable, scanning disabled (daemon.fallback=off); index grows only from shell visits"@
        } else {
            "daemon: running — DEGRADED: fanotify unavailable, low-frequency idle-priority rescan (why: journalctl --user -u gd-daemon; disable scanning: gd config daemon.fallback off)"@
        },
        mode != mode_name(true, off) && mode != mode_name(false, true) && mode != mode_name(
            false,
            false,
        ) ==> daemon_text(true, mode) == "daemon: running"@,
{
    law_mode_name(watching, off);
    law_mode_name(true, off);
    law_mode_name(false, true);
    law_mode_name(false, false);
}

/// Law: a hint is given for the shell that would be set up, where that is told by `SHELL`.
pub proof fn law_hinted(shell_var: Seq<char>, ps_modules: bool)
    ensures
        hinted(Some(shell_var)) is Some ==> hinted(Some(shell_var)) == Some(
            shell_name(detected(Some(shell_var), ps_modules)),
        ),
        hinted(Some(shell_var)) is None <==> !("/bash"@.is_suffix_of(shell_var)
            || "/zsh"@.is_suffix_of(shell_var) || "/fish"@.is_suffix_of(shell_var)),
        hinted(None) is None,
{
}

/// Law: the doctor tells how many links and directories are kept, what it found of the
/// daemon, what a search goes by, and last whether all is well, which it is exactly where
/// the daemon runs.
pub proof fn law_diagnosis(
    links: nat,
    history: nat,
    running: bool,
    mode: Seq<char>,
    has_fd: bool,
    shell_var: Option<Seq<char>>,
)
    ensures
        ({
            let lines = diagnosis_texts(links, history, running, mode, has_fd, shell_var);
            let n = lines.len() as int;
            &&& n == if hinted(shell_var) is Some {
                7int
            } else {
                5int
            }
            &&& lines[0] == "links: "@ + decimal(links)
            &&& lines[1] == "history: "@ + decimal(history) + " directories"@
            &&& lines[2] == daemon_text(running, mode)
            &&& "scanner: fd (fast)"@ == lines[3] <==> has_fd
            &&& hinted(shell_var) matches Some(name) ==> lines[4] == "shell: "@ + name
                && crate::text::occurs_in(lines[5], "gd init "@ + name)
            &&& lines[n - 1] == if running {
                "all checks passed."@
            } else {
                "1 check(s) failed."@
            }
        }),
{
    reveal_strlit("scanner: fd (fast)");
    reveal_strlit("scanner: find (fallback — install fd for better performance)");
    assert("scanner: fd (fast)"@.len()
        != "scanner: find (fallback — install fd for better performance)"@.len());
    if let Some(name) = hinted(shell_var) {
        reveal_strlit("  hint: ensure eval \"$(gd init ");
        reveal_strlit("  hint: ensure eval \"$(");
        reveal_strlit("gd init ");
        let before = "  hint: ensure eval \"$("@;
        let behind = ")\" is in your shell config"@;
        assert("  hint: ensure eval \"$(gd init "@ =~= before + "gd init "@);
        crate::text::lemma_occurs_between(before, "gd init "@ + name, behind);
        assert(before + ("gd init "@ + name) + behind =~= "  hint: ensure eval \"$(gd init "@ + name
            + behind);
    }
}

/// Law: every link is listed in its turn with its alias and its directory, and told to be
/// missing exactly where the directory is; behind them every boost in its turn, with its
/// multiplier; and last how many directories the history holds.
pub proof fn law_listing(
    links: Seq<(String, String)>,
    there: Seq<bool>,
    boosts: Seq<(String, String)>,
    history: nat,
    home: Option<Seq<char>>,
    i: int,
)
    requires
        links.len() == there.len(),
    ensures
        ({
            let lines = listing(links, there, boosts, history, home);
            let n = lines.len() as int;
            let b = 1 + links.len() + 1;
            &&& n == 1 + links.len() + (if boosts.len() > 0 {
                1 + boosts.len()
            } else {
                0
            }) + 1
            &&& 0 <= i < links.len() && there[i] ==> lines[1 + i] == "  "@ + links[i].0@ + " → "@
                + tilde_shown(links[i].1@, home)
            &&& 0 <= i < links.len() && !there[i] ==> lines[1 + i] == "  "@ + links[i].0@ + " → "@
                + tilde_shown(links[i].1@, home) + " (missing)"@
            &&& 0 <= i < boosts.len() ==> lines[b + i] == "  "@ + tilde_shown(boosts[i].0@, home)
                + " (×"@ + boosts[i].1@ + ")"@
            &&& lines[n - 1] == decimal(history) + " directories in history."@
        }),
{
    let lines = listing(links, there, boosts, history, home);
    if 0 <= i < links.len() {
        let (alias, path) = (links[i].0@, tilde_shown(links[i].1@, home));
        reveal_strlit("");
        assert("  "@ + (alias + " → "@ + path) =~= "  "@ + alias + " → "@ + path);
        assert("  "@ + (alias + " → "@ + path) + ""@ =~= "  "@ + alias + " → "@ + path);
        assert(lines[1 + i] == link_texts(links, there, home)[i]);
    }
    if 0 <= i < boosts.len() {
        assert(lines[1 + links.len() + 1 + i] == boost_texts(boosts, home)[i]);
    }
}

/// Law: a clean-up that removed nothing says so; any other names every link and every
/// directory with history that it removed, each in its turn, and last how many of each
/// kind there were.
pub proof fn law_cleaned(report: CleanReport, home: Option<Seq<char>>, i: int)
    ensures
        ({
            let lines = clean_texts(report, home);
            let l = report.removed_links@.len() as int;
            let h = report.removed_history@.len() as int;
            let nothing = l == 0 && h == 0 && report.removed_index == 0;
            &&& nothing ==> lines == seq!["all paths are valid, nothing to clean."@]
            &&& !nothing ==> lines.len() == l + h + 1
            &&& 0 <= i < l ==> lines[i] == "unlinked "@ + (report.removed_links@[i].0@ + " → "@
                + tilde_shown(report.removed_links@[i].1@, home))
            &&& 0 <= i < h ==> lines[l + i] == "removed "@ + tilde_shown(
                report.removed_history@[i]@,
                home,
            )
            &&& !nothing ==> lines[l + h] == "scanned "@ + decimal(report.scanned as nat)
                + " path(s); removed "@ + decimal(report.removed_index as nat) + " index-only, "@
                + decimal(h as nat) + " with history, "@ + decimal(l as nat) + " link(s)."@
        }),
{
}

} // verus!
