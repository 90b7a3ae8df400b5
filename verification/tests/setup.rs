use gd::db::CleanReport;
use gd::report::{
    boosted_line, clean_lines, daemon_line, diagnosis, is_gd_daemon, linked_line, list_lines,
    read_pid, unboosted_line, unlinked_line, watch_mode_line,
};
use gd::setup::{
    agrees, cd_alias, choose_shell, daemon_candidates, detect_shell, find_daemon_binary, init_line,
    read_answer, render_service_unit, shell_hook, shell_rc_path, undetected_shell, unknown_shell,
    Shell,
};
use gd::update::{
    install_dir, next_placing, no_release_text, no_source, release_dir, release_in,
    running_gd_dir, source_root, update_message, NoRelease, PathDir,
    Placing, Step, Update,
};

fn texts(list: &[&str]) -> Vec<String> {
    list.iter().map(|s| s.to_string()).collect()
}

#[test]
fn shells_are_known_by_name() {
    for (name, shell) in [
        ("bash", Shell::Bash),
        ("zsh", Shell::Zsh),
        ("fish", Shell::Fish),
        ("nu", Shell::Nu),
        ("nushell", Shell::Nu),
        ("powershell", Shell::Powershell),
        ("pwsh", Shell::Powershell),
    ] {
        assert_eq!(Shell::named(name), Some(shell));
        assert_eq!(Shell::named(shell.name()), Some(shell));
    }
    assert_eq!(Shell::named("csh"), None);
    assert_eq!(choose_shell(Some("csh"), Some("/bin/zsh"), false), Err("csh".to_string()));
    assert_eq!(choose_shell(Some("fish"), Some("/bin/zsh"), false), Ok(Shell::Fish));
    assert_eq!(choose_shell(None, Some("/bin/zsh"), false), Ok(Shell::Zsh));
    assert_eq!(choose_shell(None, None, false), Err("unknown".to_string()));
}

#[test]
fn shell_is_detected() {
    assert_eq!(detect_shell(Some("/bin/bash"), true), Some(Shell::Bash));
    assert_eq!(detect_shell(Some("/usr/bin/fish"), false), Some(Shell::Fish));
    assert_eq!(detect_shell(Some("/usr/bin/nu"), false), Some(Shell::Nu));
    assert_eq!(detect_shell(Some("/bin/sh"), true), Some(Shell::Powershell));
    assert_eq!(detect_shell(Some("bash"), false), None);
    assert_eq!(detect_shell(None, true), Some(Shell::Powershell));
}

#[test]
fn unknown_shell_gets_the_usage() {
    let text = unknown_shell("csh");
    assert!(text.starts_with("unknown shell 'csh'. Supported: bash, zsh, fish, nu, powershell\n\nAdd"));
    assert!(text.ends_with("powershell: Invoke-Expression (gd init powershell)"));
    assert!(undetected_shell().starts_with("could not detect shell. Usage:\n\nbash:       eval"));
}

#[test]
fn each_shell_has_its_file() {
    let rc = |shell, bashrc, profile, var| shell_rc_path("/h", shell, bashrc, profile, var);
    assert_eq!(rc(Shell::Zsh, false, false, None), "/h/.zshrc");
    assert_eq!(rc(Shell::Bash, true, true, None), "/h/.bashrc");
    assert_eq!(rc(Shell::Bash, false, true, None), "/h/.bash_profile");
    assert_eq!(rc(Shell::Bash, false, false, None), "/h/.bashrc");
    assert_eq!(rc(Shell::Fish, false, false, None), "/h/.config/fish/config.fish");
    assert_eq!(rc(Shell::Nu, false, false, None), "/h/.config/nushell/config.nu");
    assert_eq!(rc(Shell::Powershell, false, false, Some("/p.ps1")), "/p.ps1");
    assert_eq!(
        rc(Shell::Powershell, false, false, None),
        "/h/.config/powershell/Microsoft.PowerShell_profile.ps1"
    );
}

#[test]
fn hook_and_alias_are_added_once() {
    for shell in [Shell::Bash, Shell::Zsh, Shell::Fish, Shell::Nu, Shell::Powershell] {
        let mut rc = "# mine\n".to_string();
        let hook = shell_hook(Some(&rc), shell).unwrap();
        assert_eq!(hook, format!("\n{}\n", init_line(shell)));
        rc.push_str(&hook);
        assert_eq!(shell_hook(Some(&rc), shell), None);
        rc.push_str(&cd_alias(Some(&rc), shell).unwrap());
        assert_eq!(cd_alias(Some(&rc), shell), None);
        assert!(cd_alias(None, shell).is_some());
    }
}

#[test]
fn answer_needs_someone_to_give_it() {
    for yes in ["", "\n", "y\n", " YES \n", "Y"] {
        assert!(read_answer(true, Some(yes)), "{yes:?}");
        assert!(!read_answer(false, Some(yes)), "{yes:?}");
    }
    for no in ["n\n", "no", "yess", "ja"] {
        assert!(!read_answer(true, Some(no)), "{no:?}");
    }
    assert!(!read_answer(true, None));
    assert!(agrees("yes") && !agrees("YES"));
}

#[test]
fn unit_points_at_the_daemon() {
    let template = "[Service]\r\nExecStart=%h/.cargo/bin/gd-daemon\nNice=19";
    assert_eq!(
        render_service_unit(template, "/h", Some("/h/.local/bin/gd-daemon")),
        "[Service]\nExecStart=%h/.local/bin/gd-daemon\nNice=19\n"
    );
    assert_eq!(
        render_service_unit(template, "/h", Some("/usr/bin/gd-daemon")),
        "[Service]\nExecStart=/usr/bin/gd-daemon\nNice=19\n"
    );
    assert_eq!(render_service_unit(template, "/h", None), template);
    assert_eq!(render_service_unit("", "/h", Some("/x")), "");
    assert_eq!(render_service_unit("a\n\nb\n", "/h", Some("/x")), "a\n\nb\n");
    // A carriage return belongs to the line end only before a line feed.
    assert_eq!(render_service_unit("a\r\nb\r", "/h", Some("/x")), "a\nb\r\n");
}

#[test]
fn daemon_is_looked_for_beside_gd_first() {
    let places = daemon_candidates("/h", Some("/opt/bin"));
    assert_eq!(
        places,
        texts(&[
            "/opt/bin/gd-daemon",
            "/h/.cargo/bin/gd-daemon",
            "/h/.local/bin/gd-daemon",
            "/usr/local/bin/gd-daemon",
            "/usr/bin/gd-daemon",
        ])
    );
    let there = vec![false, false, true, false, true];
    assert_eq!(find_daemon_binary(&places, &there).as_deref(), Some("/h/.local/bin/gd-daemon"));
    assert_eq!(find_daemon_binary(&places, &vec![false; 5]), None);
    assert_eq!(daemon_candidates("/h", None).len(), 4);
}

#[test]
fn source_is_the_checkout_around() {
    let around = texts(&["/c/gd/crates", "/c/gd", "/c", "/"]);
    let flags = vec![false, true, false, false];
    assert_eq!(source_root(&around, &flags, Some("/b"), true).as_deref(), Some("/c/gd"));
    let none = vec![false; 4];
    assert_eq!(source_root(&around, &none, Some("/b"), true).as_deref(), Some("/b"));
    assert_eq!(source_root(&around, &none, Some("/b"), false), None);
    assert_eq!(source_root(&around, &none, None, true), None);
    assert!(no_source(None, "/x").contains("built from: ?\n  cwd:        /x\n"));
}

fn on_path(dir: &str, gd: Option<&str>) -> PathDir {
    PathDir { dir: dir.to_string(), gd: gd.map(|s| s.to_string()) }
}

#[test]
fn new_gd_goes_where_the_old_one_is() {
    let dirs = vec![
        on_path("/a", None),
        on_path("/b", Some("/src/target/release/gd")),
        on_path("/c", Some("/real/gd")),
    ];
    let tree = "/src/target";
    assert_eq!(running_gd_dir(&dirs, "/real/gd").as_deref(), Some("/c"));
    assert_eq!(install_dir(&dirs, "/real/gd", Some("/real"), tree, None).as_deref(), Some("/c"));
    // Not on the search path and no build product: where it stands.
    assert_eq!(
        install_dir(&dirs, "/else/gd", Some("/else"), tree, None).as_deref(),
        Some("/else")
    );
    // A build product: over the one that is installed.
    let exe = "/src/target/debug/gd";
    assert_eq!(
        install_dir(&dirs, exe, Some("/src/target/debug"), tree, None).as_deref(),
        Some("/c")
    );
    // The first installation.
    assert_eq!(
        install_dir(&vec![], exe, None, tree, Some("/h")).as_deref(),
        Some("/h/.cargo/bin")
    );
    assert_eq!(install_dir(&vec![], exe, None, tree, None), None);
}

fn run(outcomes: &[bool]) -> (Vec<Step>, Step) {
    let mut u = Update::new();
    let mut taken = Vec::new();
    for ok in outcomes {
        taken.push(u.step);
        u.advance(*ok);
    }
    (taken, u.step)
}

#[test]
fn build_goes_where_the_metadata_says() {
    let bytes = |s: &str| s.as_bytes().to_vec();
    let said = bytes(r#"{"packages": [], "target_directory": "/src/gd/target", "version": 1}"#);
    assert_eq!(release_dir(&said), Ok("/src/gd/target/release".to_string()));
    assert_eq!(release_dir(&bytes("{}")), Err(NoRelease::NoTarget));
    assert_eq!(release_dir(&bytes(r#"{"target_directory": 7}"#)), Err(NoRelease::NoTarget));
    assert_eq!(release_dir(&bytes("[1]")), Err(NoRelease::NoTarget));
    assert_eq!(release_dir(&bytes("{")), Err(NoRelease::Unreadable));
    assert_eq!(release_dir(&vec![]), Err(NoRelease::Unreadable));
    assert_eq!(release_in(Some(Some("/t/".to_string()))), Ok("/t/release".to_string()));
    assert_eq!(release_in(Some(None)), Err(NoRelease::NoTarget));
    assert_eq!(no_release_text(NoRelease::Unreadable), "parse cargo metadata");
    assert_eq!(no_release_text(NoRelease::NoTarget), "no target_directory in metadata");
}

#[test]
fn daemon_is_started_again_whatever_fails() {
    let (taken, end) = run(&[true; 6]);
    assert_eq!(end, Step::Done(true));
    assert_eq!(
        taken,
        vec![Step::Plan, Step::Build, Step::Stop, Step::Install, Step::Start, Step::Check]
    );
    let (taken, end) = run(&[true, true, true, false, true]);
    assert_eq!(end, Step::Failed);
    assert!(taken.contains(&Step::Start));
    let (taken, end) = run(&[true, false, true, true]);
    assert_eq!(end, Step::Failed);
    assert!(!taken.contains(&Step::Stop));
    assert_eq!(run(&[true, true, true, true, true, false]).1, Step::Done(false));
    assert!(update_message(false).contains("NOT running"));
    assert_eq!(update_message(true), "update complete.");
}

#[test]
fn both_programs_are_replaced_or_neither() {
    let step = |p, ok| next_placing(p, ok);
    assert_eq!(step(Placing::Copy(0), true), Placing::Copy(1));
    assert_eq!(step(Placing::Copy(1), true), Placing::Replace(0));
    assert_eq!(step(Placing::Copy(1), false), Placing::Discard(0, 1));
    assert_eq!(step(Placing::Replace(0), true), Placing::Replace(1));
    assert_eq!(step(Placing::Replace(0), false), Placing::Discard(0, 2));
    assert_eq!(step(Placing::Replace(1), true), Placing::Finished);
    assert_eq!(step(Placing::Replace(1), false), Placing::Discard(1, 2));
}

#[test]
fn doctor_fails_without_the_daemon() {
    let d = diagnosis(2, 7, true, "fanotify", true, Some("/bin/zsh"));
    assert!(d.passed);
    assert_eq!(
        d.lines,
        texts(&[
            "links: 2",
            "history: 7 directories",
            "daemon: running (fanotify, event-driven)",
            "scanner: fd (fast)",
            "shell: zsh",
            "  hint: ensure eval \"$(gd init zsh)\" is in your shell config",
            "all checks passed.",
        ])
    );
    let d = diagnosis(0, 0, false, "fanotify", false, Some("/bin/nu"));
    assert!(!d.passed);
    assert_eq!(
        d.lines,
        texts(&[
            "links: 0",
            "history: 0 directories",
            "daemon: not running (systemctl --user start gd-daemon)",
            "scanner: find (fallback — install fd for better performance)",
            "1 check(s) failed.",
        ])
    );
    assert!(daemon_line(true, "poll").contains("DEGRADED"));
    assert!(daemon_line(true, "off").contains("daemon.fallback=off"));
    assert_eq!(daemon_line(true, ""), "daemon: running");
}

#[test]
fn daemon_is_known_by_its_name() {
    assert_eq!(read_pid("4711\n"), Some(4711));
    assert_eq!(read_pid("4294967296"), None);
    assert_eq!(read_pid("x"), None);
    assert!(is_gd_daemon(Some("gd-daemon\n")));
    assert!(!is_gd_daemon(Some("docker-proxy\n")));
    assert!(!is_gd_daemon(None));
    assert!(watch_mode_line("fanotify").contains("event-driven"));
    assert!(watch_mode_line("poll").contains("DEGRADED"));
    assert!(watch_mode_line("off").contains("disabled"));
    assert!(watch_mode_line("").contains("not reported yet"));
}

#[test]
fn list_shows_links_boosts_and_history() {
    let pair = |a: &str, b: &str| (a.to_string(), b.to_string());
    let links = vec![pair("dl", "/h/down"), pair("x", "/gone")];
    let boosts = vec![pair("/h/code", "5")];
    assert_eq!(
        list_lines(&links, &vec![true, false], &boosts, 3, Some("/h")),
        texts(&[
            "links:",
            "  dl → ~/down",
            "  x → /gone (missing)",
            "boosts:",
            "  ~/code (×5)",
            "3 directories in history.",
        ])
    );
    assert_eq!(
        list_lines(&vec![], &vec![], &vec![], 0, None),
        texts(&["no links.", "0 directories in history."])
    );
}

#[test]
fn clean_tells_what_it_removed() {
    let nothing = CleanReport {
        removed_links: vec![],
        removed_history: vec![],
        removed_index: 0,
        scanned: 9,
    };
    assert_eq!(clean_lines(&nothing, None), texts(&["all paths are valid, nothing to clean."]));
    let some = CleanReport {
        removed_links: vec![("x".to_string(), "/h/gone".to_string())],
        removed_history: texts(&["/h/a", "/b"]),
        removed_index: 4,
        scanned: 20,
    };
    assert_eq!(
        clean_lines(&some, Some("/h")),
        texts(&[
            "unlinked x → ~/gone",
            "removed ~/a",
            "removed /b",
            "scanned 20 path(s); removed 4 index-only, 2 with history, 1 link(s).",
        ])
    );
}

#[test]
fn single_changes_are_told() {
    assert_eq!(linked_line("dl", "/h/d", Some("/h")), "linked dl → ~/d");
    assert_eq!(unlinked_line("dl"), "unlinked 'dl'");
    assert_eq!(boosted_line("/h/d", "2.5", Some("/h")), "boosted ~/d (×2.5)");
    assert_eq!(unboosted_line("/x", None), "removed boost for /x");
}
