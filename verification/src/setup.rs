//! Shells, and what is set up for them and for the daemon.

use crate::path::{
    join_path,
    joined_path,
    lemma_rest_after,
    opt_view,
    parts,
    rest_after,
    strip_prefix,
    within,
};
use crate::text::{
    concat2,
    contains,
    ends_with,
    from_chars,
    lemma_line_end,
    lemma_line_some,
    lemma_occurs_between,
    line_end,
    lowercase,
    occurs_in,
    starts_with,
    str_eq,
    texts,
    to_chars,
    trim,
    trimmed,
};
use vstd::prelude::*;
use vstd::string::*;

verus! {

// ---- shells ----

/// The shells that there are scripts for.
#[derive(Clone, Copy, PartialEq, Eq, Structural, Debug)]
pub enum Shell {
    Bash,
    Zsh,
    Fish,
    Nu,
    Powershell,
}

/// The shell of a name.
pub open spec fn shell_of(name: Seq<char>) -> Option<Shell> {
    if name == "bash"@ {
        Some(Shell::Bash)
    } else if name == "zsh"@ {
        Some(Shell::Zsh)
    } else if name == "fish"@ {
        Some(Shell::Fish)
    } else if name == "nu"@ || name == "nushell"@ {
        Some(Shell::Nu)
    } else if name == "powershell"@ || name == "pwsh"@ {
        Some(Shell::Powershell)
    } else {
        None
    }
}

/// The name of a shell.
pub open spec fn shell_name(shell: Option<Shell>) -> Seq<char> {
    match shell {
        Some(Shell::Bash) => "bash"@,
        Some(Shell::Zsh) => "zsh"@,
        Some(Shell::Fish) => "fish"@,
        Some(Shell::Nu) => "nu"@,
        Some(Shell::Powershell) => "powershell"@,
        None => "unknown"@,
    }
}

/// The shell that the environment speaks of: by `SHELL`, or PowerShell where its module
/// path is set.
pub open spec fn detected(shell_var: Option<Seq<char>>, ps_modules: bool) -> Option<Shell> {
    let rest = if ps_modules {
        Some(Shell::Powershell)
    } else {
        None
    };
    match shell_var {
        Some(s) => if "/bash"@.is_suffix_of(s) {
            Some(Shell::Bash)
        } else if "/zsh"@.is_suffix_of(s) {
            Some(Shell::Zsh)
        } else if "/fish"@.is_suffix_of(s) {
            Some(Shell::Fish)
        } else if occurs_in(s, "nu"@) {
            Some(Shell::Nu)
        } else {
            rest
        },
        None => rest,
    }
}

impl Shell {
    /// The shell of a name.
    pub fn named(name: &str) -> (r: Option<Shell>)
        ensures
            r == shell_of(name@),
    {
        if str_eq(name, "bash") {
            Some(Shell::Bash)
        } else if str_eq(name, "zsh") {
            Some(Shell::Zsh)
        } else if str_eq(name, "fish") {
            Some(Shell::Fish)
        } else if str_eq(name, "nu") || str_eq(name, "nushell") {
            Some(Shell::Nu)
        } else if str_eq(name, "powershell") || str_eq(name, "pwsh") {
            Some(Shell::Powershell)
        } else {
            None
        }
    }

    /// The name of the shell.
    pub fn name(self) -> (r: &'static str)
        ensures
            r@ == shell_name(Some(self)),
    {
        match self {
            Shell::Bash => "bash",
            Shell::Zsh => "zsh",
            Shell::Fish => "fish",
            Shell::Nu => "nu",
            Shell::Powershell => "powershell",
        }
    }
}

/// The shell that the environment speaks of.
pub fn detect_shell(shell_var: Option<&str>, ps_modules: bool) -> (r: Option<Shell>)
    ensures
        r == detected(opt_view(shell_var), ps_modules),
{
    if let Some(shell) = shell_var {
        if ends_with(shell, "/bash") {
            return Some(Shell::Bash);
        }
        if ends_with(shell, "/zsh") {
            return Some(Shell::Zsh);
        }
        if ends_with(shell, "/fish") {
            return Some(Shell::Fish);
        }
        if contains(shell, "nu") {
            return Some(Shell::Nu);
        }
    }
    if ps_modules {
        Some(Shell::Powershell)
    } else {
        None
    }
}

/// Law: a shell's name leads back to the shell.
pub proof fn law_shell_name(shell: Shell)
    ensures
        shell_of(shell_name(Some(shell))) == Some(shell),
        shell_of(shell_name(None)) is None,
{
    reveal_strlit("bash");
    reveal_strlit("zsh");
    reveal_strlit("fish");
    reveal_strlit("nu");
    reveal_strlit("nushell");
    reveal_strlit("powershell");
    reveal_strlit("pwsh");
    reveal_strlit("unknown");
    assert("bash"@.len() == 4 && "bash"@[0] == 'b');
    assert("zsh"@.len() == 3);
    assert("fish"@.len() == 4 && "fish"@[0] == 'f');
    assert("nu"@.len() == 2);
    assert("nushell"@.len() == 7 && "nushell"@[1] == 'u');
    assert("powershell"@.len() == 10);
    assert("pwsh"@.len() == 4 && "pwsh"@[0] == 'p');
    assert("unknown"@.len() == 7 && "unknown"@[1] == 'n');
}

/// How gd is started in each shell.
pub open spec fn usage_text() -> Seq<char> {
    "bash:       eval \"$(gd init bash)\"\nzsh:        eval \"$(gd init zsh)\"\nfish:       gd init fish | source\nnushell:    source (gd init nu)\npowershell: Invoke-Expression (gd init powershell)"@
}

/// How gd is started in each shell.
pub fn usage() -> (r: &'static str)
    ensures
        r@ == usage_text(),
{
    "bash:       eval \"$(gd init bash)\"\nzsh:        eval \"$(gd init zsh)\"\nfish:       gd init fish | source\nnushell:    source (gd init nu)\npowershell: Invoke-Expression (gd init powershell)"
}

/// What is said where a shell is not known.
pub fn unknown_shell(name: &str) -> (r: String)
    ensures
        r@ == "unknown shell '"@ + name@
            + "'. Supported: bash, zsh, fish, nu, powershell\n\nAdd to your shell config:\n\n"@
            + usage_text(),
{
    let mut out = concat2("unknown shell '", name);
    out.append("'. Supported: bash, zsh, fish, nu, powershell\n\nAdd to your shell config:\n\n");
    out.append(usage());
    out
}

/// What is said where the shell cannot be told.
pub fn undetected_shell() -> (r: String)
    ensures
        r@ == "could not detect shell. Usage:\n\n"@ + usage_text(),
{
    concat2("could not detect shell. Usage:\n\n", usage())
}

/// The shell that a script is asked for: by name, or the one that the environment
/// speaks of.
pub fn choose_shell(asked: Option<&str>, shell_var: Option<&str>, ps_modules: bool) -> (r: Result<
    Shell,
    String,
>)
    ensures
        match r {
            Ok(shell) => Some(shell) == match asked {
                Some(name) => shell_of(name@),
                None => detected(opt_view(shell_var), ps_modules),
            },
            Err(name) => match asked {
                Some(given) => shell_of(given@) is None && name@ == given@,
                None => detected(opt_view(shell_var), ps_modules) is None && name@ == "unknown"@,
            },
        },
{
    match asked {
        Some(name) => match Shell::named(name) {
            Some(shell) => Ok(shell),
            None => Err(name.to_owned()),
        },
        None => match detect_shell(shell_var, ps_modules) {
            Some(shell) => Ok(shell),
            None => Err("unknown".to_owned()),
        },
    }
}

// ---- what goes into a shell's files ----

/// The line that starts gd in a shell.
pub open spec fn init_text(shell: Shell) -> Seq<char> {
    match shell {
        Shell::Zsh => "eval \"$(gd init zsh)\""@,
        Shell::Bash => "eval \"$(gd init bash)\""@,
        Shell::Fish => "gd init fish | source"@,
        Shell::Nu => "source (gd init nu)"@,
        Shell::Powershell => "Invoke-Expression (gd init powershell)"@,
    }
}

/// The line that starts gd in a shell.
pub fn init_line(shell: Shell) -> (r: &'static str)
    ensures
        r@ == init_text(shell),
{
    match shell {
        Shell::Zsh => "eval \"$(gd init zsh)\"",
        Shell::Bash => "eval \"$(gd init bash)\"",
        Shell::Fish => "gd init fish | source",
        Shell::Nu => "source (gd init nu)",
        Shell::Powershell => "Invoke-Expression (gd init powershell)",
    }
}

/// The line that puts gd in the place of cd.
pub open spec fn alias_text(shell: Shell) -> Seq<char> {
    match shell {
        Shell::Zsh => "alias cd=gd"@,
        Shell::Bash => "alias cd=gd"@,
        Shell::Fish => "alias cd gd"@,
        Shell::Nu => "alias cd = gd"@,
        Shell::Powershell => "Set-Alias -Name cd -Value gd -Option AllScope"@,
    }
}

/// The line that puts gd in the place of cd.
pub fn cd_alias_line(shell: Shell) -> (r: &'static str)
    ensures
        r@ == alias_text(shell),
{
    match shell {
        Shell::Zsh => "alias cd=gd",
        Shell::Bash => "alias cd=gd",
        Shell::Fish => "alias cd gd",
        Shell::Nu => "alias cd = gd",
        Shell::Powershell => "Set-Alias -Name cd -Value gd -Option AllScope",
    }
}

/// The file that a shell reads when it starts.
pub open spec fn rc_file(
    home: Seq<char>,
    shell: Shell,
    has_bashrc: bool,
    has_bash_profile: bool,
    profile_var: Option<Seq<char>>,
) -> Seq<char> {
    match shell {
        Shell::Zsh => joined_path(home, ".zshrc"@),
        Shell::Bash => if !has_bashrc && has_bash_profile {
            joined_path(home, ".bash_profile"@)
        } else {
            joined_path(home, ".bashrc"@)
        },
        Shell::Fish => joined_path(home, ".config/fish/config.fish"@),
        Shell::Nu => joined_path(home, ".config/nushell/config.nu"@),
        Shell::Powershell => match profile_var {
            Some(profile) => profile,
            None => joined_path(home, ".config/powershell/Microsoft.PowerShell_profile.ps1"@),
        },
    }
}

/// The file that a shell reads when it starts. For bash it is the profile where only
/// that is there, for PowerShell the one that `PROFILE` names.
pub fn shell_rc_path(
    home: &str,
    shell: Shell,
    has_bashrc: bool,
    has_bash_profile: bool,
    profile_var: Option<&str>,
) -> (r: String)
    ensures
        r@ == rc_file(home@, shell, has_bashrc, has_bash_profile, opt_view(profile_var)),
{
    match shell {
        Shell::Zsh => join_path(home, ".zshrc"),
        Shell::Bash => if !has_bashrc && has_bash_profile {
            join_path(home, ".bash_profile")
        } else {
            join_path(home, ".bashrc")
        },
        Shell::Fish => join_path(home, ".config/fish/config.fish"),
        Shell::Nu => join_path(home, ".config/nushell/config.nu"),
        Shell::Powershell => match profile_var {
            Some(profile) => profile.to_owned(),
            None => join_path(home, ".config/powershell/Microsoft.PowerShell_profile.ps1"),
        },
    }
}

/// What is added to a file, unless what is looked for is in it: an empty line and the
/// line itself. A file that cannot be read holds nothing.
pub open spec fn addition(
    content: Option<Seq<char>>,
    needle: Seq<char>,
    line: Seq<char>,
) -> Option<Seq<char>> {
    if content is Some && occurs_in(content.unwrap(), needle) {
        None
    } else {
        Some("\n"@ + line + "\n"@)
    }
}

/// What is added to a file.
fn added(content: Option<&str>, needle: &str, line: &str) -> (r: Option<String>)
    ensures
        match r {
            Some(text) => Some(text@),
            None => None,
        } == addition(opt_view(content), needle@, line@),
{
    if let Some(text) = content {
        if contains(text, needle) {
            return None;
        }
    }
    let mut out = concat2("\n", line);
    out.append("\n");
    Some(out)
}

/// What is added to a shell's file to start gd; nothing where gd is started there.
pub fn shell_hook(content: Option<&str>, shell: Shell) -> (r: Option<String>)
    ensures
        match r {
            Some(text) => Some(text@),
            None => None,
        } == addition(opt_view(content), "gd init"@, init_text(shell)),
{
    added(content, "gd init", init_line(shell))
}

/// What is added to a shell's file to put gd in the place of cd; nothing where that is
/// done there.
pub fn cd_alias(content: Option<&str>, shell: Shell) -> (r: Option<String>)
    ensures
        match r {
            Some(text) => Some(text@),
            None => None,
        } == addition(opt_view(content), alias_text(shell), alias_text(shell)),
{
    added(content, cd_alias_line(shell), cd_alias_line(shell))
}

/// Law: what was added once is not added again.
pub proof fn law_added_once(content: Seq<char>, shell: Shell)
    ensures
        addition(Some(content), "gd init"@, init_text(shell)) matches Some(more) ==> addition(
            Some(content + more),
            "gd init"@,
            init_text(shell),
        ) is None,
        addition(Some(content), alias_text(shell), alias_text(shell)) matches Some(more)
            ==> addition(Some(content + more), alias_text(shell), alias_text(shell)) is None,
{
    let hook = init_text(shell);
    let key = "gd init"@;
    reveal_strlit("gd init");
    reveal_strlit("eval \"$(gd init zsh)\"");
    reveal_strlit("eval \"$(gd init bash)\"");
    reveal_strlit("gd init fish | source");
    reveal_strlit("source (gd init nu)");
    reveal_strlit("Invoke-Expression (gd init powershell)");
    let at = match shell {
        Shell::Zsh => 8int,
        Shell::Bash => 8int,
        Shell::Fish => 0int,
        Shell::Nu => 8int,
        Shell::Powershell => 19int,
    };
    assert(hook.subrange(at, at + 7) =~= key);
    let before = content + "\n"@ + hook.take(at);
    let after = hook.skip(at + 7) + "\n"@;
    assert(before + key + after =~= content + ("\n"@ + hook + "\n"@));
    lemma_occurs_between(before, key, after);
    let alias = alias_text(shell);
    assert(content + "\n"@ + alias + "\n"@ =~= content + ("\n"@ + alias + "\n"@));
    lemma_occurs_between(content + "\n"@, alias, "\n"@);
}

// ---- answers ----

/// Whether a lowercase answer agrees; no word at all does.
pub open spec fn agreed(answer: Seq<char>) -> bool {
    answer.len() == 0 || answer == "y"@ || answer == "yes"@
}

/// Whether a lowercase answer agrees.
pub fn agrees(answer: &str) -> (r: bool)
    ensures
        r == agreed(answer@),
{
    proof {
        reveal_strlit("");
        assert(""@ =~= Seq::empty());
        assert(answer@.len() == 0 ==> answer@ =~= ""@);
    }
    str_eq(answer, "") || str_eq(answer, "y") || str_eq(answer, "yes")
}

/// Whether the user agrees. Where nobody is there to answer, or no line came, nobody
/// did.
pub fn read_answer(interactive: bool, line: Option<&str>) -> (r: bool)
    ensures
        r == match line {
            Some(text) => interactive && agreed(lowercase(trimmed(text@))),
            None => false,
        },
{
    match line {
        Some(text) => interactive && agrees(trim(text).as_str().to_lowercase().as_str()),
        None => false,
    }
}

// ---- the daemon's unit ----

/// Where a unit finds the daemon: paths under the home directory are written with `%h`.
pub open spec fn exec_path(home: Seq<char>, bin: Seq<char>) -> Seq<char> {
    if within(bin, home) {
        "%h/"@ + rest_after(bin, parts(home).len() as int)
    } else {
        bin
    }
}

/// The line that starts at `at` and ends at `end`: without the carriage return before its
/// line feed, where it has both.
pub open spec fn line_at(text: Seq<char>, at: int, end: int) -> Seq<char> {
    let line = text.subrange(at, end);
    if end < text.len() && line.len() > 0 && line.last() == '\r' {
        line.drop_last()
    } else {
        line
    }
}

/// One line of a unit, with the daemon's path where the line gives it.
pub open spec fn unit_line(line: Seq<char>, exec: Seq<char>) -> Seq<char> {
    if "ExecStart="@.is_prefix_of(line) {
        "ExecStart="@ + exec
    } else {
        line
    }
}

/// The lines of a unit from `at` on, with the daemon's path, each with a line end.
pub open spec fn unit_from(template: Seq<char>, at: int, exec: Seq<char>) -> Seq<char>
    decreases template.len() + 1 - at,
{
    if at < 0 || at >= template.len() {
        Seq::empty()
    } else {
        let end = line_end(template, at);
        if at <= end <= template.len() {
            unit_line(line_at(template, at, end), exec) + "\n"@ + unit_from(
                template,
                end + 1,
                exec,
            )
        } else {
            Seq::empty()
        }
    }
}

/// The unit for a daemon that stands at `bin`; the template itself where that is not
/// known.
pub fn render_service_unit(template: &str, home: &str, bin: Option<&str>) -> (r: String)
    ensures
        r@ == match bin {
            Some(path) => unit_from(template@, 0, exec_path(home@, path@)),
            None => template@,
        },
{
    let path = match bin {
        Some(p) => p,
        None => {
            return template.to_owned();
        },
    };
    let exec = match strip_prefix(path, home) {
        Some(rest) => concat2("%h/", rest.as_str()),
        None => path.to_owned(),
    };
    let cs = to_chars(template);
    let mut out = String::new();
    let mut at: usize = 0;
    assert(out@ + unit_from(template@, 0, exec@) =~= unit_from(template@, 0, exec@));
    while at < cs.len()
        invariant
            cs@ == template@,
            exec@ == exec_path(home@, path@),
            at <= cs@.len(),
            out@ + unit_from(template@, at as int, exec@) == unit_from(template@, 0, exec@),
        decreases cs@.len() - at,
    {
        let from: usize = at;
        while at < cs.len() && cs[at] != '\n'
            invariant
                cs@ == template@,
                from <= at <= cs@.len(),
                line_end(template@, from as int) == line_end(template@, at as int),
            decreases cs@.len() - at,
        {
            at = at + 1;
        }
        let stop: usize = if at < cs.len() && at > from && cs[at - 1] == '\r' {
            at - 1
        } else {
            at
        };
        let line = from_chars(&cs, from, stop);
        assert(line@ =~= line_at(template@, from as int, at as int));
        let ghost before = out@;
        if starts_with(line.as_str(), "ExecStart=") {
            out.append("ExecStart=");
            out.append(exec.as_str());
        } else {
            out.append(line.as_str());
        }
        out.append("\n");
        assert(out@ =~= before + (unit_line(line@, exec@) + "\n"@));
        if at < cs.len() {
            at = at + 1;
        } else {
            assert(unit_from(template@, at + 1, exec@) =~= unit_from(template@, at as int, exec@));
        }
        assert(out@ + unit_from(template@, at as int, exec@) =~= before + unit_from(
            template@,
            from as int,
            exec@,
        ));
    }
    assert(unit_from(template@, at as int, exec@) =~= Seq::empty());
    assert(out@ =~= unit_from(template@, 0, exec@));
    out
}

/// The places where the daemon may stand: beside the gd that runs, if that is known,
/// then where it is commonly installed.
pub open spec fn daemon_places(home: Seq<char>, running: Option<Seq<char>>) -> Seq<Seq<char>> {
    let common = seq![
        joined_path(home, ".cargo/bin/gd-daemon"@),
        joined_path(home, ".local/bin/gd-daemon"@),
        "/usr/local/bin/gd-daemon"@,
        "/usr/bin/gd-daemon"@,
    ];
    match running {
        Some(dir) => seq![joined_path(dir, "gd-daemon"@)] + common,
        None => common,
    }
}

/// The places where the daemon may stand, the best first.
pub fn daemon_candidates(home: &str, running: Option<&str>) -> (r: Vec<String>)
    ensures
        texts(r@) == daemon_places(home@, opt_view(running)),
{
    let mut out: Vec<String> = Vec::new();
    if let Some(dir) = running {
        out.push(join_path(dir, "gd-daemon"));
    }
    out.push(join_path(home, ".cargo/bin/gd-daemon"));
    out.push(join_path(home, ".local/bin/gd-daemon"));
    out.push("/usr/local/bin/gd-daemon".to_owned());
    out.push("/usr/bin/gd-daemon".to_owned());
    assert(texts(out@) =~= daemon_places(home@, opt_view(running)));
    out
}

/// The first of the places at which there is a file; `present` says so of each.
pub fn find_daemon_binary(places: &Vec<String>, present: &Vec<bool>) -> (r: Option<String>)
    requires
        places@.len() == present@.len(),
    ensures
        match r {
            Some(path) => exists|i: int|
                0 <= i < places@.len() && present@[i] && path@ == #[trigger] places@[i]@ && (
                forall|k: int| 0 <= k < i ==> !#[trigger] present@[k]),
            None => forall|k: int| 0 <= k < present@.len() ==> !#[trigger] present@[k],
        },
{
    let mut i: usize = 0;
    while i < places.len()
        invariant
            i <= places@.len(),
            places@.len() == present@.len(),
            forall|k: int| 0 <= k < i ==> !#[trigger] present@[k],
        decreases places@.len() - i,
    {
        if present[i] {
            let found = places[i].as_str().to_owned();
            assert(found@ == places@[i as int]@);
            return Some(found);
        }
        i = i + 1;
    }
    None
}

/// Law: something is added to a file exactly where what is looked for is not in it, or
/// where it cannot be read; then the file holds the line, on a line of its own at its end.
pub proof fn law_addition(content: Seq<char>, needle: Seq<char>, line: Seq<char>)
    ensures
        addition(Some(content), needle, line) is None <==> occurs_in(content, needle),
        addition(None, needle, line) is Some,
        addition(Some(content), needle, line) matches Some(more) ==> occurs_in(
            content + more,
            "\n"@ + line + "\n"@,
        ),
{
    let more = "\n"@ + line + "\n"@;
    lemma_occurs_between(content, more, Seq::empty());
    assert(content + more + Seq::<char>::empty() =~= content + more);
}

/// Law: the shell is the one that `SHELL` ends in; PowerShell is told by its modules, and
/// only where `SHELL` tells nothing else.
pub proof fn law_detected(dir: Seq<char>, ps_modules: bool)
    ensures
        detected(Some(dir + "/bash"@), ps_modules) == Some(Shell::Bash),
        detected(Some(dir + "/zsh"@), ps_modules) == Some(Shell::Zsh),
        detected(Some(dir + "/fish"@), ps_modules) == Some(Shell::Fish),
        detected(None, true) == Some(Shell::Powershell),
        detected(None, false) is None,
{
    reveal_strlit("/bash");
    reveal_strlit("/zsh");
    reveal_strlit("/fish");
    let (b, z, f) = (dir + "/bash"@, dir + "/zsh"@, dir + "/fish"@);
    let n = dir.len() as int;
    assert(b.subrange(n, b.len() as int) =~= "/bash"@);
    assert(z.subrange(n, z.len() as int) =~= "/zsh"@);
    assert(f.subrange(n, f.len() as int) =~= "/fish"@);
    assert("/bash"@.len() == 5 && "/zsh"@.len() == 4 && "/fish"@.len() == 5);
    assert("/bash"@[1] == 'b' && "/zsh"@[0] == '/' && "/fish"@[1] == 'f' && "/bash"@[0] == '/');
    if "/bash"@.is_suffix_of(z) {
        assert(z[z.len() - 4] == "/bash"@[1]);
        assert(z[n] == '/');
    }
    if "/bash"@.is_suffix_of(f) {
        assert(f[f.len() - 4] == "/bash"@[1]);
        assert(f[n + 1] == 'f');
    }
    if "/zsh"@.is_suffix_of(f) {
        assert(f[f.len() - 4] == "/zsh"@[0]);
        assert(f[n + 1] == 'f');
    }
}

/// Law: the file that starts gd is the one that the shell reads: for bash the profile
/// exactly where there is a profile and no `.bashrc`, for PowerShell the profile that is
/// named, where one is.
pub proof fn law_rc_file(
    home: Seq<char>,
    has_bashrc: bool,
    has_bash_profile: bool,
    profile: Seq<char>,
)
    ensures
        rc_file(home, Shell::Bash, has_bashrc, has_bash_profile, None) == if has_bash_profile
            && !has_bashrc {
            joined_path(home, ".bash_profile"@)
        } else {
            joined_path(home, ".bashrc"@)
        },
        rc_file(home, Shell::Zsh, has_bashrc, has_bash_profile, Some(profile)) == joined_path(
            home,
            ".zshrc"@,
        ),
        rc_file(home, Shell::Fish, has_bashrc, has_bash_profile, Some(profile)) == joined_path(
            home,
            ".config/fish/config.fish"@,
        ),
        rc_file(home, Shell::Nu, has_bashrc, has_bash_profile, Some(profile)) == joined_path(
            home,
            ".config/nushell/config.nu"@,
        ),
        rc_file(home, Shell::Powershell, has_bashrc, has_bash_profile, Some(profile)) == profile,
        rc_file(home, Shell::Powershell, has_bashrc, has_bash_profile, None) == joined_path(
            home,
            ".config/powershell/Microsoft.PowerShell_profile.ps1"@,
        ),
{
}

/// Law: the daemon is looked for beside the gd that runs before it is looked for anywhere
/// else, and in the same places otherwise.
pub proof fn law_daemon_places(home: Seq<char>, running: Seq<char>)
    ensures
        daemon_places(home, Some(running))[0] == joined_path(running, "gd-daemon"@),
        daemon_places(home, Some(running)).skip(1) == daemon_places(home, None),
        daemon_places(home, None).contains(joined_path(home, ".cargo/bin/gd-daemon"@)),
        daemon_places(home, None).contains("/usr/bin/gd-daemon"@),
{
    let all = daemon_places(home, None);
    assert(daemon_places(home, Some(running)).skip(1) =~= all);
    assert(all[0] == joined_path(home, ".cargo/bin/gd-daemon"@));
    assert(all[3] == "/usr/bin/gd-daemon"@);
}

/// The lines of a unit behind a text do not depend on it.
proof fn lemma_unit_shift(a: Seq<char>, b: Seq<char>, at: int, exec: Seq<char>)
    requires
        0 <= at <= b.len(),
    ensures
        unit_from(a + b, a.len() + at, exec) == unit_from(b, at, exec),
    decreases b.len() + 1 - at,
{
    let all = a + b;
    let n = a.len() as int;
    if at < b.len() {
        lemma_line_some(b, at);
        let e = line_end(b, at);
        assert forall|k: int| n + at <= k < n + e implies #[trigger] all[k] != '\n' by {
            assert(all[k] == b[k - n]);
        }
        if e < b.len() {
            assert(all[n + e] == b[e]);
        }
        lemma_line_end(all, n + at, n + e);
        assert(all.subrange(n + at, n + e) =~= b.subrange(at, e));
        assert(line_at(all, n + at, n + e) == line_at(b, at, e));
        if e < b.len() {
            lemma_unit_shift(a, b, e + 1, exec);
        }
        assert(unit_from(all, n + e + 1, exec) == unit_from(b, e + 1, exec));
        assert(unit_from(all, n + at, exec) == unit_line(line_at(all, n + at, n + e), exec) + "\n"@
            + unit_from(all, n + e + 1, exec));
    }
}

/// Law: in a unit the line that starts the daemon names the daemon that was found, and
/// every other line stays as it is.
pub proof fn law_unit(line: Seq<char>, rest: Seq<char>, exec: Seq<char>)
    requires
        forall|k: int| 0 <= k < line.len() ==> #[trigger] line[k] != '\n' && line[k] != '\r',
    ensures
        unit_from(line + seq!['\n'] + rest, 0, exec) == (if "ExecStart="@.is_prefix_of(line) {
            "ExecStart="@ + exec
        } else {
            line
        }) + "\n"@ + unit_from(rest, 0, exec),
        unit_from(Seq::empty(), 0, exec).len() == 0,
{
    let all = line + seq!['\n'] + rest;
    let n = line.len() as int;
    assert forall|k: int| 0 <= k < n implies #[trigger] all[k] != '\n' by {
        assert(all[k] == line[k]);
    }
    assert(all[n] == '\n');
    lemma_line_end(all, 0, n);
    assert(all.subrange(0, n) =~= line);
    if n > 0 {
        assert(line[n - 1] != '\r');
    }
    lemma_unit_shift(line + seq!['\n'], rest, 0, exec);
    assert(line_at(all, 0, n) == line);
}

/// Law: in a unit a daemon that stands below the home directory is named behind `%h/` by
/// the way that leads there, and any other by its path.
pub proof fn law_exec_path(
    home: Seq<char>,
    first: Seq<char>,
    tail: Seq<char>,
    dir: Seq<char>,
    last: Seq<char>,
    other: Seq<char>,
)
    requires
        home.len() > 0,
        home + seq!['/'] + (first + tail) == dir + seq!['/'] + last,
        first.len() > 0 && first != seq!['.'],
        forall|i: int| 0 <= i < first.len() ==> #[trigger] first[i] != '/',
        tail.len() > 0 ==> tail[0] == '/',
        last.len() > 0 && last != seq!['.'],
        forall|i: int| 0 <= i < last.len() ==> #[trigger] last[i] != '/',
    ensures
        exec_path(home, home + seq!['/'] + (first + tail)) == "%h/"@ + (first + tail),
        !within(other, home) ==> exec_path(home, other) == other,
{
    lemma_rest_after(home, first, tail, dir, last);
}

/// Law: nothing, `y` and `yes` agree, and no other answer does.
pub proof fn law_agreed(answer: Seq<char>)
    ensures
        agreed(Seq::empty()) && agreed(seq!['y']) && agreed(seq!['y', 'e', 's']),
        agreed(answer) ==> answer.len() == 0 || answer == seq!['y'] || answer == seq![
            'y',
            'e',
            's',
        ],
{
    reveal_strlit("y");
    reveal_strlit("yes");
    assert("y"@ =~= seq!['y']);
    assert("yes"@ =~= seq!['y', 'e', 's']);
}

} // verus!
