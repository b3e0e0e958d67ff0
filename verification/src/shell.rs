//! Which external programs open an editor or a terminal at a path, in
//! which order they are tried, and what the user is told when none starts.
//! Spawning them is the caller's work.

use vstd::prelude::*;
use crate::assoc::views_of;
use crate::text::{chars_of, push_all};

verus! {

/// The operating system family the launchers are chosen for.
#[derive(Debug, Clone, Copy, PartialEq, Eq, Structural)]
pub enum Platform {
    Windows,
    MacOs,
    /// Linux and the other Unix-like systems.
    Other,
}

/// One program to try: a label for messages, the program, its arguments,
/// and the working directory to start it in, if any.
#[derive(Debug)]
pub struct LaunchAttempt {
    pub label: String,
    pub program: String,
    pub args: Vec<String>,
    pub current_dir: Option<String>,
}

/// The VS Code launcher: the `code.cmd` shim on Windows, `code` elsewhere.
pub open spec fn spec_vscode_program(platform: Platform) -> Seq<char> {
    match platform {
        Platform::Windows => "code.cmd"@,
        _ => "code"@,
    }
}

/// The VS Code launcher for the platform.
pub fn vscode_program(platform: Platform) -> (p: &'static str)
    ensures
        p@ == spec_vscode_program(platform),
{
    match platform {
        Platform::Windows => "code.cmd",
        _ => "code",
    }
}

/// A text with every `'` doubled, as PowerShell quotes inside `'...'`.
pub open spec fn ps_escape(s: Seq<char>) -> Seq<char>
    decreases s.len(),
{
    if s.len() == 0 {
        Seq::empty()
    } else {
        ps_escape(s.drop_last()) + if s.last() == '\'' {
            seq!['\'', '\'']
        } else {
            seq![s.last()]
        }
    }
}

/// `p` with every `'` doubled (see `ps_escape`).
pub fn ps_escaped(p: &str) -> (out: String)
    ensures
        out@ == ps_escape(p@),
{
    let cs = chars_of(p);
    let mut out = String::new();
    let mut i: usize = 0;
    while i < cs.len()
        invariant
            i <= cs@.len(),
            out@ == ps_escape(cs@.take(i as int)),
        decreases cs@.len() - i,
    {
        let c = cs[i];
        proof {
            assert(cs@.take(i + 1).drop_last() =~= cs@.take(i as int));
        }
        if c == '\'' {
            out.push('\'');
            out.push('\'');
        } else {
            out.push(c);
        }
        i += 1;
    }
    proof {
        assert(cs@.take(cs@.len() as int) =~= cs@);
    }
    out
}

/// `a` tries `program` (shown as `label`) with `args`, started in `dir`.
pub open spec fn attempt_is(a: LaunchAttempt, label: Seq<char>, program: Seq<char>, args: Seq<Seq<char>>, dir: Option<Seq<char>>) -> bool {
    &&& a.label@ == label
    &&& a.program@ == program
    &&& views_of(a.args@) == args
    &&& match a.current_dir {
        Some(d) => dir == Some(d@),
        None => dir is None,
    }
}

/// The terminals to try at `p`, in order: Windows Terminal, PowerShell 7,
/// then Windows PowerShell on Windows; Terminal.app on macOS; and
/// `x-terminal-emulator`, GNOME Terminal, Konsole, then xterm elsewhere.
pub open spec fn terminal_plan(p: Seq<char>, platform: Platform, r: Seq<LaunchAttempt>) -> bool {
    match platform {
        Platform::Windows => {
            &&& r.len() == 3
            &&& attempt_is(r[0], "wt.exe"@, "wt.exe"@, seq!["-d"@, p], None)
            &&& attempt_is(r[1], "pwsh.exe"@, "pwsh.exe"@, seq!["-NoExit"@, "-WorkingDirectory"@, p], None)
            &&& attempt_is(r[2], "powershell.exe"@, "powershell.exe"@, seq!["-NoExit"@, "-Command"@,
                "Set-Location -LiteralPath '"@ + ps_escape(p) + "'"@], None)
        },
        Platform::MacOs => {
            &&& r.len() == 1
            &&& attempt_is(r[0], "open -a Terminal"@, "open"@, seq!["-a"@, "Terminal"@, p], None)
        },
        Platform::Other => {
            &&& r.len() == 4
            &&& attempt_is(r[0], "x-terminal-emulator"@, "x-terminal-emulator"@, Seq::empty(), Some(p))
            &&& attempt_is(r[1], "gnome-terminal"@, "gnome-terminal"@, seq!["--working-directory"@, p], None)
            &&& attempt_is(r[2], "konsole"@, "konsole"@, seq!["--workdir"@, p], None)
            &&& attempt_is(r[3], "xterm"@, "xterm"@, Seq::empty(), Some(p))
        },
    }
}

fn texts(items: &[&str]) -> (v: Vec<String>)
    ensures
        v@.len() == items@.len(),
        forall|i: int| 0 <= i < items@.len() ==> #[trigger] v@[i]@ == items@[i]@,
{
    let mut v: Vec<String> = Vec::new();
    let mut i: usize = 0;
    while i < items.len()
        invariant
            i <= items@.len(),
            v@.len() == i,
            forall|k: int| 0 <= k < i ==> #[trigger] v@[k]@ == items@[k]@,
        decreases items@.len() - i,
    {
        v.push(String::from_str(items[i]));
        i += 1;
    }
    v
}

fn attempt(label: &str, program: &str, args: Vec<String>, dir: Option<String>) -> (a: LaunchAttempt)
    ensures
        a.label@ == label@,
        a.program@ == program@,
        a.args == args,
        a.current_dir == dir,
{
    LaunchAttempt { label: String::from_str(label), program: String::from_str(program), args, current_dir: dir }
}

/// The terminals to try at `path` on `platform` (see `terminal_plan`).
pub fn build_terminal_attempts(path: &str, platform: Platform) -> (r: Vec<LaunchAttempt>)
    ensures
        terminal_plan(path@, platform, r@),
{
    let mut r: Vec<LaunchAttempt> = Vec::new();
    match platform {
        Platform::Windows => {
            let a0 = texts(&["-d", path]);
            r.push(attempt("wt.exe", "wt.exe", a0, None));
            let a1 = texts(&["-NoExit", "-WorkingDirectory", path]);
            r.push(attempt("pwsh.exe", "pwsh.exe", a1, None));
            let mut cmd = String::from_str("Set-Location -LiteralPath '");
            let esc = ps_escaped(path);
            push_all(&mut cmd, &chars_of(esc.as_str()));
            cmd.push('\'');
            proof {
                reveal_strlit("'");
                assert(cmd@ =~= "Set-Location -LiteralPath '"@ + ps_escape(path@) + "'"@);
            }
            let ghost cmd_v = cmd@;
            let mut a2 = texts(&["-NoExit", "-Command"]);
            a2.push(cmd);
            r.push(attempt("powershell.exe", "powershell.exe", a2, None));
            proof {
                assert(r@[2].args@[2]@ == cmd_v);
                assert(views_of(r@[0].args@) =~= seq!["-d"@, path@]);
                assert(views_of(r@[1].args@) =~= seq!["-NoExit"@, "-WorkingDirectory"@, path@]);
                assert(views_of(r@[2].args@) =~= seq!["-NoExit"@, "-Command"@,
                    "Set-Location -LiteralPath '"@ + ps_escape(path@) + "'"@]);
            }
        },
        Platform::MacOs => {
            let a0 = texts(&["-a", "Terminal", path]);
            r.push(attempt("open -a Terminal", "open", a0, None));
            proof {
                assert(views_of(r@[0].args@) =~= seq!["-a"@, "Terminal"@, path@]);
            }
        },
        Platform::Other => {
            r.push(attempt("x-terminal-emulator", "x-terminal-emulator", Vec::new(), Some(String::from_str(path))));
            let a1 = texts(&["--working-directory", path]);
            r.push(attempt("gnome-terminal", "gnome-terminal", a1, None));
            let a2 = texts(&["--workdir", path]);
            r.push(attempt("konsole", "konsole", a2, None));
            r.push(attempt("xterm", "xterm", Vec::new(), Some(String::from_str(path))));
            proof {
                assert(views_of(r@[0].args@) =~= Seq::<Seq<char>>::empty());
                assert(views_of(r@[1].args@) =~= seq!["--working-directory"@, path@]);
                assert(views_of(r@[2].args@) =~= seq!["--workdir"@, path@]);
                assert(views_of(r@[3].args@) =~= Seq::<Seq<char>>::empty());
            }
        },
    }
    r
}

/// The items joined with `, `.
pub open spec fn comma_list(items: Seq<Seq<char>>) -> Seq<char>
    decreases items.len(),
{
    if items.len() == 0 {
        Seq::empty()
    } else if items.len() == 1 {
        items[0]
    } else {
        comma_list(items.drop_last()) + ", "@ + items.last()
    }
}

/// The labels joined with `, `.
pub fn join_labels(items: &Vec<String>) -> (s: String)
    ensures
        s@ == comma_list(views_of(items@)),
{
    let mut s = String::new();
    let mut i: usize = 0;
    while i < items.len()
        invariant
            i <= items@.len(),
            s@ == comma_list(views_of(items@).take(i as int)),
        decreases items@.len() - i,
    {
        let ghost before = s@;
        if i > 0 {
            s.append(", ");
        }
        push_all(&mut s, &chars_of(items[i].as_str()));
        proof {
            let vs = views_of(items@);
            assert(vs.take(i + 1).drop_last() =~= vs.take(i as int));
            assert(vs.take(i + 1).last() == items@[i as int]@);
            if i == 0 {
                assert(s@ =~= comma_list(vs.take(1)));
            }
        }
        i += 1;
    }
    proof {
        assert(views_of(items@).take(items@.len() as int) =~= views_of(items@));
    }
    s
}

/// The message when VS Code could not be started.
pub open spec fn spec_vscode_failed(tried: Seq<Seq<char>>) -> Seq<char> {
    "could not launch VS Code (tried: "@ + comma_list(tried)
        + "). Install VS Code and run \"Shell Command: Install 'code' command in PATH\" from its command palette."@
}

/// The message when VS Code could not be started, naming what was tried.
pub fn vscode_failed_message(tried: &Vec<String>) -> (m: String)
    ensures
        m@ == spec_vscode_failed(views_of(tried@)),
{
    let mut m = String::from_str("could not launch VS Code (tried: ");
    push_all(&mut m, &chars_of(join_labels(tried).as_str()));
    m.append("). Install VS Code and run \"Shell Command: Install 'code' command in PATH\" from its command palette.");
    m
}

/// The message when no terminal could be started.
pub open spec fn spec_terminal_failed(tried: Seq<Seq<char>>) -> Seq<char> {
    "could not launch terminal (tried: "@ + comma_list(tried) + ")"@
}

/// The message when no terminal could be started, naming what was tried.
pub fn terminal_failed_message(tried: &Vec<String>) -> (m: String)
    ensures
        m@ == spec_terminal_failed(views_of(tried@)),
{
    let mut m = String::from_str("could not launch terminal (tried: ");
    push_all(&mut m, &chars_of(join_labels(tried).as_str()));
    m.append(")");
    m
}

} // verus!
