//! What a command line does. The shell's own commands are decided here, and
//! everything else is handed to the system shell or to the remote.

use crate::num::{decimal, parse_usize, parsed_usize, show};
use crate::path::{join, joined, path_eq, same_path};
use crate::plan::{Effect, Mover, Next, OutKind, Plan, PlanRow, Target};
use crate::process::ProcessRun;
use crate::python::{interpreters, pips, venv_file, venv_pip, venv_python};
use crate::ssh::secrets::{account, account_name};
use crate::ssh::{
    bare_argument, mode_plan, parse_remote_spec, record_remote, remote_logs, remote_logs_command,
    remote_set_mode, remote_sync, remote_sync_command, remotes_page, render_remotes,
    resolve_ssh_target, spec_target, ssh_target, strip_argument, with_remote, RemoteSession,
    SessionRow,
};
use crate::state::{
    record_history_at, record_recent_dir_at, with_command, with_recent, HistoryRow, RecentRow,
    State, StateRow,
};
use crate::text::{
    chars_of, first_word, lossy_text, spells, split_first, strip_prefix, text_of, trim,
    trim_end, trimmed, trimmed_end, utf8_lossy, without_prefix, Class,
};
use crate::time::{Instant, Timestamp};
use crate::util::{
    all_history_page, dir_history_page, find_bookmark, find_history_index, find_recent_dir,
    found_history, found_path, path_from_args, recent_paths, render_history, render_history_in_dir,
    resolved, strip_home, under_home,
};
use vstd::prelude::*;

verus! {

// ---- sync and logs ----

/// The calls of git that `sync` makes, or what it says is missing.
pub open spec fn sync_calls(message: Seq<char>) -> Result<Seq<Seq<Seq<char>>>, Seq<char>> {
    let m = bare_argument(message);
    if m.len() == 0 {
        Err("sync: commit message required, e.g. sync \"my commit message\""@)
    } else {
        Ok(seq![seq!["add"@, "."@], seq!["commit"@, "-am"@, m], seq!["push"@]])
    }
}

/// The arguments of the three calls of git that `sync <message>` makes, one
/// after the other until one fails. Without a message, what to say.
pub fn sync(message: &str) -> (r: Result<Vec<Vec<String>>, String>)
    ensures
        match r {
            Ok(steps) => sync_calls(message@) == Ok::<Seq<Seq<Seq<char>>>, Seq<char>>(
                steps.deep_view(),
            ),
            Err(e) => sync_calls(message@) == Err::<Seq<Seq<Seq<char>>>, Seq<char>>(e@),
        },
{
    let m = strip_argument(message);
    if chars_of(&m).len() == 0 {
        return Err("sync: commit message required, e.g. sync \"my commit message\"".to_owned());
    }
    let ghost text = m@;
    let mut add: Vec<String> = Vec::new();
    add.push("add".to_owned());
    add.push(".".to_owned());
    assert(add.deep_view() =~= seq!["add"@, "."@]);
    let mut commit: Vec<String> = Vec::new();
    commit.push("commit".to_owned());
    commit.push("-am".to_owned());
    commit.push(m);
    assert(commit.deep_view() =~= seq!["commit"@, "-am"@, text]);
    let mut push: Vec<String> = Vec::new();
    push.push("push".to_owned());
    assert(push.deep_view() =~= seq!["push"@]);
    let mut steps: Vec<Vec<String>> = Vec::new();
    steps.push(add);
    steps.push(commit);
    steps.push(push);
    assert(steps.deep_view() =~= seq![
        seq!["add"@, "."@],
        seq!["commit"@, "-am"@, text],
        seq!["push"@],
    ]);
    Ok(steps)
}

/// Some words with a space between each two.
pub open spec fn joined_words(ws: Seq<Seq<char>>) -> Seq<char>
    decreases ws.len(),
{
    if ws.len() == 0 {
        Seq::empty()
    } else if ws.len() == 1 {
        ws[0]
    } else {
        joined_words(ws.drop_last()) + " "@ + ws.last()
    }
}

fn join_words(ws: &Vec<String>) -> (r: String)
    ensures
        r@ == joined_words(ws.deep_view()),
{
    let ghost all = ws.deep_view();
    assert(all.len() == ws@.len());
    if ws.len() == 0 {
        return String::new();
    }
    let mut r = ws[0].clone();
    let mut i: usize = 1;
    assert(all.take(1).len() == 1 && all.take(1)[0] == all[0]);
    while i < ws.len()
        invariant
            1 <= i <= ws@.len(),
            all == ws.deep_view(),
            r@ == joined_words(all.take(i as int)),
        decreases ws@.len() - i,
    {
        r = r.concat(" ").concat(&ws[i]);
        proof {
            assert(all.take(i + 1).drop_last() =~= all.take(i as int));
            assert(all.take(i + 1).last() == ws@[i as int]@);
        }
        i = i + 1;
    }
    assert(all.take(i as int) =~= all);
    r
}

/// What a process wrote, as output: first its standard output and then its
/// error output, each if there is any.
pub open spec fn written(run: ProcessRun) -> Seq<Effect<Seq<char>>> {
    let out = if run.stdout@.len() == 0 {
        Seq::empty()
    } else {
        seq![Effect::Line(OutKind::Stdout, lossy_text(run.stdout@))]
    };
    if run.stderr@.len() == 0 {
        out
    } else {
        out.push(Effect::Line(OutKind::Stderr, lossy_text(run.stderr@)))
    }
}

fn output_of(run: &ProcessRun) -> (r: Vec<Effect<String>>)
    ensures
        r.deep_view() == written(*run),
{
    let mut r: Vec<Effect<String>> = Vec::new();
    assert(r.deep_view() =~= Seq::empty());
    if run.stdout.len() > 0 {
        r.push(Effect::Line(OutKind::Stdout, utf8_lossy(&run.stdout)));
        assert(r.deep_view() =~= seq![Effect::Line(OutKind::Stdout, lossy_text(run.stdout@))]);
    }
    let ghost before = r.deep_view();
    if run.stderr.len() > 0 {
        r.push(Effect::Line(OutKind::Stderr, utf8_lossy(&run.stderr)));
        assert(r.deep_view() =~= before.push(
            Effect::Line(OutKind::Stderr, lossy_text(run.stderr@)),
        ));
    }
    r
}

/// The output of one step of `sync`.
pub open spec fn sync_output(step: Seq<Seq<char>>, run: Result<ProcessRun, String>) -> Seq<
    Effect<Seq<char>>,
> {
    match run {
        Ok(p) => if p.success {
            written(p)
        } else {
            written(p).push(
                Effect::Line(OutKind::Stderr, "sync: `git "@ + joined_words(step) + "` failed"@),
            )
        },
        Err(e) => seq![Effect::Line(OutKind::Stderr, "sync: failed to run git: "@ + e@)],
    }
}

/// Whether the step after this one is to be run.
pub open spec fn sync_goes_on(run: Result<ProcessRun, String>) -> bool {
    run is Ok && run->Ok_0.success
}

/// What a step of `sync` shows, and whether the next step is to be run: only
/// after one that succeeded.
pub fn sync_step(step: &Vec<String>, run: &Result<ProcessRun, String>) -> (r: (
    Vec<Effect<String>>,
    bool,
))
    ensures
        r.0.deep_view() == sync_output(step.deep_view(), *run),
        r.1 == (run is Ok && run->Ok_0.success),
        r.1 == sync_goes_on(*run),
{
    match run {
        Ok(p) => {
            let mut out = output_of(p);
            let ghost before = out.deep_view();
            if p.success {
                (out, true)
            } else {
                let text = "sync: `git ".to_owned().concat(&join_words(step)).concat("` failed");
                out.push(Effect::Line(OutKind::Stderr, text));
                assert(out.deep_view() =~= before.push(Effect::Line(OutKind::Stderr, text@)));
                (out, false)
            }
        },
        Err(e) => {
            let mut out: Vec<Effect<String>> = Vec::new();
            let text = "sync: failed to run git: ".to_owned().concat(e);
            out.push(Effect::Line(OutKind::Stderr, text));
            assert(out.deep_view() =~= seq![Effect::Line(OutKind::Stderr, text@)]);
            (out, false)
        },
    }
}

/// The arguments of `sudo` for the log of a service, or what is wrong. `follow`
/// asks for a live tail, else a bounded part is taken.
pub open spec fn logs_call(service: Seq<char>, follow: bool, linux: bool) -> Result<
    Seq<Seq<char>>,
    Seq<char>,
> {
    let s = bare_argument(service);
    if !linux {
        Err("logs: only supported on Linux (uses journalctl)"@)
    } else if s.len() == 0 {
        Err("logs: service required, e.g. logs gunicorn"@)
    } else if follow {
        Ok(seq!["journalctl"@, "-u"@, s, "-f"@])
    } else {
        Ok(seq!["journalctl"@, "-u"@, s, "-n"@, "200"@, "--no-pager"@])
    }
}

/// See [`logs_call`].
pub fn logs(service: &str, follow: bool, linux: bool) -> (r: Result<Vec<String>, String>)
    ensures
        match r {
            Ok(args) => logs_call(service@, follow, linux) == Ok::<Seq<Seq<char>>, Seq<char>>(
                args.deep_view(),
            ),
            Err(e) => logs_call(service@, follow, linux) == Err::<Seq<Seq<char>>, Seq<char>>(e@),
        },
{
    if !linux {
        return Err("logs: only supported on Linux (uses journalctl)".to_owned());
    }
    let s = strip_argument(service);
    if chars_of(&s).len() == 0 {
        return Err("logs: service required, e.g. logs gunicorn".to_owned());
    }
    let ghost text = s@;
    let mut args: Vec<String> = Vec::new();
    args.push("journalctl".to_owned());
    args.push("-u".to_owned());
    args.push(s);
    if follow {
        args.push("-f".to_owned());
        assert(args.deep_view() =~= seq!["journalctl"@, "-u"@, text, "-f"@]);
    } else {
        args.push("-n".to_owned());
        args.push("200".to_owned());
        args.push("--no-pager".to_owned());
        assert(args.deep_view() =~= seq![
            "journalctl"@,
            "-u"@,
            text,
            "-n"@,
            "200"@,
            "--no-pager"@,
        ]);
    }
    Ok(args)
}

/// What `logs` shows when the call is over. A live tail has written straight to
/// the terminal.
pub open spec fn logs_output(follow: bool, run: Result<ProcessRun, String>) -> Seq<
    Effect<Seq<char>>,
> {
    match run {
        Ok(p) => {
            let out = if follow {
                Seq::empty()
            } else {
                written(p)
            };
            if p.success {
                out
            } else {
                out.push(Effect::Line(OutKind::Stderr, "logs: journalctl exited non-zero"@))
            }
        },
        Err(e) => seq![Effect::Line(OutKind::Stderr, "logs: failed to run journalctl: "@ + e@)],
    }
}

/// See [`logs_output`].
pub fn logs_done(follow: bool, run: &Result<ProcessRun, String>) -> (r: Vec<Effect<String>>)
    ensures
        r.deep_view() == logs_output(follow, *run),
{
    match run {
        Ok(p) => {
            let mut out: Vec<Effect<String>> = Vec::new();
            assert(out.deep_view() =~= Seq::empty());
            if !follow {
                out = output_of(p);
            }
            let ghost before = out.deep_view();
            if !p.success {
                let text = "logs: journalctl exited non-zero".to_owned();
                out.push(Effect::Line(OutKind::Stderr, text));
                assert(out.deep_view() =~= before.push(Effect::Line(OutKind::Stderr, text@)));
            }
            out
        },
        Err(e) => {
            let mut out: Vec<Effect<String>> = Vec::new();
            let text = "logs: failed to run journalctl: ".to_owned().concat(e);
            out.push(Effect::Line(OutKind::Stderr, text));
            assert(out.deep_view() =~= seq![Effect::Line(OutKind::Stderr, text@)]);
            out
        },
    }
}

/// A chunk of output as a line: without line breaks at its end.
pub fn sink_line(text: &str) -> (r: String)
    ensures
        r@ == trimmed_end(text@, Class::One('\n')),
{
    text_of(trim_end(&chars_of(text), Class::One('\n')))
}

// ---- the system shell ----

/// The line that runs an executable of a virtual environment with the arguments
/// that were given. The path is quoted; PowerShell needs its call operator then.
pub open spec fn venv_line(exe: Seq<char>, args: Seq<char>, windows: bool) -> Seq<char> {
    let a = trimmed(args, Class::White);
    let lead = if windows {
        "& "@
    } else {
        ""@
    };
    let call = lead + "'"@ + exe + "'"@;
    if a.len() == 0 {
        call
    } else {
        call + " "@ + a
    }
}

/// See [`venv_line`].
pub fn rewrite_venv_command(exe: &str, args: &str, windows: bool) -> (r: String)
    ensures
        r@ == venv_line(exe@, args@, windows),
{
    let v = chars_of(args);
    let a = trim(&v, Class::White);
    let lead = if windows {
        "& "
    } else {
        ""
    };
    let call = lead.to_owned().concat("'").concat(exe).concat("'");
    if a.len() == 0 {
        call
    } else {
        call.concat(" ").concat(&text_of(a))
    }
}

/// The program that runs a line, and its arguments.
pub open spec fn shell_words(line: Seq<char>, windows: bool) -> Seq<Seq<char>> {
    if windows {
        seq!["pwsh"@, "-NoProfile"@, "-NoLogo"@, "-Command"@, line]
    } else {
        seq!["sh"@, "-c"@, line]
    }
}

/// See [`shell_words`].
pub fn shell_call(line: &str, windows: bool) -> (r: Vec<String>)
    ensures
        r.deep_view() == shell_words(line@, windows),
{
    let mut r: Vec<String> = Vec::new();
    if windows {
        r.push("pwsh".to_owned());
        r.push("-NoProfile".to_owned());
        r.push("-NoLogo".to_owned());
        r.push("-Command".to_owned());
    } else {
        r.push("sh".to_owned());
        r.push("-c".to_owned());
    }
    r.push(line.to_owned());
    assert(r.deep_view() =~= shell_words(line@, windows));
    r
}

// ---- command lines ----

/// What a command needs to know of the world outside.
#[derive(Debug)]
pub struct Facts {
    /// The time.
    pub now: Timestamp,
    /// Whether there is something at what [`argument_path`] names.
    pub arg_exists: bool,
    /// Those of [`crate::python::venv_probes`] for the current directory that
    /// are files.
    pub venv_files: Vec<String>,
    /// The account of the user.
    pub default_user: String,
}

pub ghost struct FactsRow {
    pub now: Instant,
    pub arg_exists: bool,
    pub venv_files: Seq<Seq<char>>,
    pub default_user: Seq<char>,
}

impl DeepView for Facts {
    type V = FactsRow;

    open spec fn deep_view(&self) -> FactsRow {
        FactsRow {
            now: self.now.deep_view(),
            arg_exists: self.arg_exists,
            venv_files: self.venv_files.deep_view(),
            default_user: self.default_user@,
        }
    }
}

/// The command and the argument of a line.
pub open spec fn command_of(input: Seq<char>) -> (Seq<char>, Seq<char>) {
    first_word(trimmed(input, Class::White))
}

/// The argument of a command line, taken relative to the current directory.
pub open spec fn argument_at(cwd: Seq<char>, input: Seq<char>, windows: bool) -> Seq<char> {
    joined(cwd, command_of(input).1, windows)
}

/// See [`argument_at`].
pub fn argument_path(cwd: &str, input: &str, windows: bool) -> (r: String)
    ensures
        r@ == joined(cwd@, command_of(input@).1, windows),
        r@ == argument_at(cwd@, input@, windows),
{
    let v = chars_of(input);
    let (_, args) = split_first(trim(&v, Class::White));
    join(cwd, &text_of(args), windows)
}

/// A state, and the plan that goes with it.
pub ghost struct Outcome {
    pub state: StateRow,
    pub plan: PlanRow,
}

impl Outcome {
    pub open spec fn of(state: StateRow, plan: PlanRow) -> Outcome {
        Outcome { state, plan }
    }
}

/// Writing the state file.
pub open spec fn save_of(s: StateRow, warning: Seq<char>) -> Effect<Seq<char>> {
    Effect::Save { contents: s.saved().text(), warning }
}

fn save_effect(s: &State, warning: &str) -> (r: Effect<String>)
    ensures
        r.deep_view() == save_of(s.deep_view(), warning@),
{
    Effect::Save { contents: s.save(), warning: warning.to_owned() }
}

/// `his` and `this`: show a page, or run an entry again by its number or its
/// letters. `dir` limits them to what was run there.
pub open spec fn recall_plan(
    s: StateRow,
    cmd: Seq<char>,
    args: Seq<char>,
    dir: Option<Seq<char>>,
) -> PlanRow {
    let page = match without_prefix(args, "p"@) {
        Some(n) => parsed_usize(n),
        None => None,
    };
    if page is Some {
        let p = if page->0 == 0 {
            0
        } else {
            page->0 - 1
        };
        PlanRow::page(
            match dir {
                Some(d) => dir_history_page(s.history, d, p, s.windows),
                None => all_history_page(s.history, p),
            },
        )
    } else {
        let found = if args.len() == 0 {
            None
        } else {
            found_history(s.history, dir, args, s.windows)
        };
        match found {
            Some(i) => PlanRow::then_do(
                OutKind::Stdout,
                "> "@ + s.history[i].text,
                Next::Rerun(s.history[i].text),
            ),
            None => PlanRow::line(
                OutKind::Stderr,
                match parsed_usize(args) {
                    Some(i) => cmd + ": no history item at index "@ + decimal(i as nat),
                    None => cmd + ": usage: "@ + cmd + " <number>, or "@ + cmd
                        + " p<page> to show a page"@,
                },
            ),
        }
    }
}

fn recall(s: &State, cmd: &str, args: &[char], here: bool) -> (r: Plan)
    ensures
        r.deep_view() == recall_plan(
            s.deep_view(),
            cmd@,
            args@,
            if here {
                Some(s.deep_view().cwd)
            } else {
                None
            },
        ),
{
    let page = match strip_prefix(args, "p") {
        Some(n) => parse_usize(n),
        None => None,
    };
    if let Some(p) = page {
        let p: usize = if p == 0 {
            0
        } else {
            p - 1
        };
        return Plan::page(
            if here {
                render_history_in_dir(&s.history, &s.cwd, p, s.windows)
            } else {
                render_history(&s.history, p)
            },
        );
    }
    let found = if args.len() == 0 {
        None
    } else {
        let dir: Option<&str> = if here {
            Some(&s.cwd)
        } else {
            None
        };
        find_history_index(&s.history, dir, &text_of(args), s.windows)
    };
    match found {
        Some(i) => {
            assert(s.deep_view().history[i as int] == s.history@[i as int].deep_view());
            let text = s.history[i].text.clone();
            Plan::then_do(
                OutKind::Stdout,
                "> ".to_owned().concat(&text),
                Next::Rerun(text),
            )
        },
        None => {
            let msg = match parse_usize(args) {
                Some(i) => cmd.to_owned().concat(": no history item at index ").concat(
                    &show(i as u64),
                ),
                None => cmd.to_owned().concat(": usage: ").concat(cmd).concat(
                    " <number>, or ",
                ).concat(cmd).concat(" p<page> to show a page"),
            };
            Plan::line(OutKind::Stderr, msg)
        },
    }
}

/// `hisd`: run an entry again in the directory it was run in.
pub open spec fn hisd_plan(s: StateRow, args: Seq<char>) -> PlanRow {
    match parsed_usize(args) {
        Some(i) => if i < s.history.len() {
            let h = s.history[i];
            PlanRow::then_do(
                OutKind::Stdout,
                "> "@ + h.text + "  (in "@ + h.dir + ")"@,
                Next::RunIn { line: h.text, dir: h.dir },
            )
        } else {
            PlanRow::line(
                OutKind::Stderr,
                "hisd: no history item at index "@ + decimal(i as nat),
            )
        },
        None => PlanRow::line(OutKind::Stderr, "hisd: usage: hisd <number>"@),
    }
}

fn hisd(s: &State, args: &[char]) -> (r: Plan)
    ensures
        r.deep_view() == hisd_plan(s.deep_view(), args@),
{
    match parse_usize(args) {
        Some(i) => if i < s.history.len() {
            let h = &s.history[i];
            assert(s.deep_view().history[i as int] == h.deep_view());
            let text = "> ".to_owned().concat(&h.text).concat("  (in ").concat(&h.dir).concat(")");
            Plan::then_do(
                OutKind::Stdout,
                text,
                Next::RunIn { line: h.text.clone(), dir: h.dir.clone() },
            )
        } else {
            Plan::line(
                OutKind::Stderr,
                "hisd: no history item at index ".to_owned().concat(&show(i as u64)),
            )
        },
        None => Plan::line(OutKind::Stderr, "hisd: usage: hisd <number>".to_owned()),
    }
}

/// `del`: delete a bookmark by its number.
pub open spec fn del_outcome(s: StateRow, args: Seq<char>) -> Outcome {
    let (sub, rest) = first_word(args);
    if sub == "bm"@ {
        match parsed_usize(rest) {
            Some(i) => if i < s.dir_bookmarks.len() {
                let after = StateRow { dir_bookmarks: s.dir_bookmarks.remove(i), ..s };
                Outcome::of(
                    after,
                    PlanRow {
                        effects: seq![
                            Effect::Line(
                                OutKind::Stdout,
                                "Deleted bookmark: "@ + s.dir_bookmarks[i],
                            ),
                            save_of(after, "del bm: failed to save bookmarks: "@),
                        ],
                        next: Next::Done,
                    },
                )
            } else {
                Outcome::of(
                    s,
                    PlanRow::line(
                        OutKind::Stderr,
                        "del bm: no bookmark at index "@ + decimal(i as nat) + " (have "@ + decimal(
                            s.dir_bookmarks.len(),
                        ) + ")"@,
                    ),
                )
            },
            None => Outcome::of(
                s,
                PlanRow::line(OutKind::Stderr, "del bm: expected a number, e.g. `del bm 4`"@),
            ),
        }
    } else if sub == ""@ {
        Outcome::of(s, PlanRow::line(OutKind::Stderr, "del: usage: del bm <number>"@))
    } else {
        Outcome::of(
            s,
            PlanRow::line(
                OutKind::Stderr,
                "del: unknown target `"@ + sub + "` (expected `bm`)"@,
            ),
        )
    }
}

fn del(s: &mut State, args: &[char]) -> (r: Plan)
    ensures
        (Outcome { state: final(s).deep_view(), plan: r.deep_view() }) == del_outcome(
            old(s).deep_view(),
            args@,
        ),
{
    let (sub, rest) = split_first(args);
    if spells(sub, "bm") {
        match parse_usize(rest) {
            Some(i) => {
                let ghost was = s.dir_bookmarks.deep_view();
                assert(was.len() == s.dir_bookmarks@.len());
                if i < s.dir_bookmarks.len() {
                    let path = s.dir_bookmarks.remove(i);
                    assert(s.dir_bookmarks.deep_view() =~= was.remove(i as int));
                    assert(path@ == was[i as int]);
                    let text = "Deleted bookmark: ".to_owned().concat(&path);
                    let save = save_effect(s, "del bm: failed to save bookmarks: ");
                    let mut effects: Vec<Effect<String>> = Vec::new();
                    effects.push(Effect::Line(OutKind::Stdout, text));
                    effects.push(save);
                    assert(effects.deep_view() =~= seq![
                        Effect::Line(OutKind::Stdout, text@),
                        save.deep_view(),
                    ]);
                    Plan { effects, next: Next::Done }
                } else {
                    Plan::line(
                        OutKind::Stderr,
                        "del bm: no bookmark at index ".to_owned().concat(&show(i as u64)).concat(
                            " (have ",
                        ).concat(&show(s.dir_bookmarks.len() as u64)).concat(")"),
                    )
                }
            },
            None => Plan::line(
                OutKind::Stderr,
                "del bm: expected a number, e.g. `del bm 4`".to_owned(),
            ),
        }
    } else if spells(sub, "") {
        Plan::line(OutKind::Stderr, "del: usage: del bm <number>".to_owned())
    } else {
        Plan::line(
            OutKind::Stderr,
            "del: unknown target `".to_owned().concat(&text_of(sub)).concat("` (expected `bm`)"),
        )
    }
}

/// Where `cd` goes for an argument that is no number: what the argument names
/// as a path or a bookmark, or else the newest recent directory that holds its
/// letters.
pub open spec fn cd_target(s: StateRow, args: Seq<char>, present: bool) -> Seq<char> {
    let p = resolved(s.home, s.cwd, s.dir_bookmarks, args, present, s.windows);
    if args.len() == 0 || args == "~"@ || under_home(args) is Some || present || found_path(
        s.dir_bookmarks,
        args,
    ) is Some {
        p
    } else {
        match found_path(recent_paths(s.recent_dirs), args) {
            Some(r) => r,
            None => p,
        }
    }
}

/// `cd`: to a recent directory by its number, or to a path.
pub open spec fn cd_plan(s: StateRow, args: Seq<char>, present: bool) -> PlanRow {
    match parsed_usize(args) {
        Some(i) => if i < s.recent_dirs.len() {
            PlanRow::just(
                Next::ChangeDir {
                    target: s.recent_dirs[i].path,
                    recent: Some(i as usize),
                    mover: Mover::Cd,
                },
            )
        } else {
            PlanRow::line(
                OutKind::Stderr,
                "cd: no recent directory at index "@ + decimal(i as nat),
            )
        },
        None => PlanRow::just(
            Next::ChangeDir {
                target: cd_target(s, args, present),
                recent: None,
                mover: Mover::Cd,
            },
        ),
    }
}

fn home_of(s: &State) -> (r: Option<&str>)
    ensures
        r.deep_view() == s.deep_view().home,
{
    match &s.home {
        Some(h) => Some(h.as_str()),
        None => None,
    }
}

fn find_cd_target(s: &State, args: &[char], present: bool) -> (r: String)
    ensures
        r@ == cd_target(s.deep_view(), args@, present),
{
    let text = text_of(args);
    let p = path_from_args(home_of(s), &s.cwd, &s.dir_bookmarks, &text, present, s.windows);
    if args.len() == 0 || spells(args, "~") || strip_home(args).is_some() || present {
        return p;
    }
    match find_bookmark(&s.dir_bookmarks, &text) {
        Some(_) => p,
        None => match find_recent_dir(&s.recent_dirs, &text) {
            Some(r) => r,
            None => p,
        },
    }
}

fn cd(s: &State, args: &[char], present: bool) -> (r: Plan)
    ensures
        r.deep_view() == cd_plan(s.deep_view(), args@, present),
{
    match parse_usize(args) {
        Some(i) => if i < s.recent_dirs.len() {
            assert(s.deep_view().recent_dirs[i as int] == s.recent_dirs@[i as int].deep_view());
            Plan::just(
                Next::ChangeDir {
                    target: s.recent_dirs[i].path.clone(),
                    recent: Some(i),
                    mover: Mover::Cd,
                },
            )
        } else {
            Plan::line(
                OutKind::Stderr,
                "cd: no recent directory at index ".to_owned().concat(&show(i as u64)),
            )
        },
        None => Plan::just(
            Next::ChangeDir {
                target: find_cd_target(s, args, present),
                recent: None,
                mover: Mover::Cd,
            },
        ),
    }
}

/// `bm`: to a bookmark by its number or its letters.
pub open spec fn bm_plan(s: StateRow, args: Seq<char>) -> PlanRow {
    let found = if args.len() == 0 {
        None
    } else {
        found_path(s.dir_bookmarks, args)
    };
    match parsed_usize(args) {
        Some(i) => if i < s.dir_bookmarks.len() {
            PlanRow::just(
                Next::ChangeDir { target: s.dir_bookmarks[i], recent: None, mover: Mover::Bm },
            )
        } else {
            PlanRow::line(OutKind::Stderr, "bm: no bookmark at index "@ + decimal(i as nat))
        },
        None => match found {
            Some(p) => PlanRow::just(
                Next::ChangeDir { target: p, recent: None, mover: Mover::Bm },
            ),
            None => PlanRow::line(OutKind::Stderr, "bm: usage: bm <number>"@),
        },
    }
}

fn bm(s: &State, args: &[char]) -> (r: Plan)
    ensures
        r.deep_view() == bm_plan(s.deep_view(), args@),
{
    match parse_usize(args) {
        Some(i) => if i < s.dir_bookmarks.len() {
            assert(s.deep_view().dir_bookmarks[i as int] == s.dir_bookmarks@[i as int]@);
            Plan::just(
                Next::ChangeDir {
                    target: s.dir_bookmarks[i].clone(),
                    recent: None,
                    mover: Mover::Bm,
                },
            )
        } else {
            Plan::line(
                OutKind::Stderr,
                "bm: no bookmark at index ".to_owned().concat(&show(i as u64)),
            )
        },
        None => {
            let found = if args.len() == 0 {
                None
            } else {
                find_bookmark(&s.dir_bookmarks, &text_of(args))
            };
            match found {
                Some(p) => Plan::just(
                    Next::ChangeDir { target: p, recent: None, mover: Mover::Bm },
                ),
                None => Plan::line(OutKind::Stderr, "bm: usage: bm <number>".to_owned()),
            }
        },
    }
}

/// `remote del`: delete a saved remote by its number, and its password.
pub open spec fn remote_del_outcome(s: StateRow, rest: Seq<char>) -> Outcome {
    match parsed_usize(rest) {
        Some(i) => if i < s.remote_terminals.len() {
            let r = s.remote_terminals[i];
            let after = StateRow { remote_terminals: s.remote_terminals.remove(i), ..s };
            Outcome::of(
                after,
                PlanRow {
                    effects: seq![
                        Effect::ForgetPassword(
                            Target { host: r.host, port: r.port, user: r.username },
                        ),
                        save_of(after, "remote: failed to save state: "@),
                        Effect::Line(
                            OutKind::Stdout,
                            "Removed remote "@ + account_name(r.host, r.port, r.username),
                        ),
                    ],
                    next: Next::Done,
                },
            )
        } else {
            Outcome::of(
                s,
                PlanRow::line(
                    OutKind::Stderr,
                    "remote: no saved remote at index "@ + decimal(i as nat),
                ),
            )
        },
        None => Outcome::of(
            s,
            PlanRow::line(OutKind::Stderr, "remote: usage: remote del <index>"@),
        ),
    }
}

/// `remote`: list, add and delete saved remotes.
pub open spec fn remote_outcome(s: StateRow, args: Seq<char>, user: Seq<char>) -> Outcome {
    let (sub, rest) = first_word(args);
    if sub == ""@ || sub == "list"@ || sub == "ls"@ {
        Outcome::of(s, PlanRow::page(remotes_page(s.remote_terminals, 0)))
    } else if sub == "add"@ {
        Outcome::of(
            s,
            if rest.len() == 0 {
                PlanRow::line(
                    OutKind::Stderr,
                    "remote: usage: remote add [user@]host[:port] [port]"@,
                )
            } else {
                PlanRow::just(Next::AddRemote(spec_target(rest, user)))
            },
        )
    } else if sub == "del"@ || sub == "rm"@ || sub == "remove"@ {
        remote_del_outcome(s, rest)
    } else {
        Outcome::of(
            s,
            PlanRow::line(
                OutKind::Stderr,
                "remote: unknown subcommand `"@ + sub + "` (expected list/add/del)"@,
            ),
        )
    }
}

fn remote_del(s: &mut State, rest: &[char]) -> (r: Plan)
    ensures
        (Outcome { state: final(s).deep_view(), plan: r.deep_view() }) == remote_del_outcome(
            old(s).deep_view(),
            rest@,
        ),
{
    match parse_usize(rest) {
        Some(i) => {
            let ghost was = s.remote_terminals.deep_view();
            assert(was.len() == s.remote_terminals@.len());
            if i < s.remote_terminals.len() {
                let r = s.remote_terminals.remove(i);
                assert(s.remote_terminals.deep_view() =~= was.remove(i as int));
                assert(r.deep_view() == was[i as int]);
                let text = "Removed remote ".to_owned().concat(
                    &account(&r.host, r.port, &r.username),
                );
                let save = save_effect(s, "remote: failed to save state: ");
                let forget = Effect::ForgetPassword(
                    Target { host: r.host, port: r.port, user: r.username },
                );
                let mut effects: Vec<Effect<String>> = Vec::new();
                effects.push(forget);
                effects.push(save);
                effects.push(Effect::Line(OutKind::Stdout, text));
                assert(effects.deep_view() =~= seq![
                    forget.deep_view(),
                    save.deep_view(),
                    Effect::Line(OutKind::Stdout, text@),
                ]);
                Plan { effects, next: Next::Done }
            } else {
                Plan::line(
                    OutKind::Stderr,
                    "remote: no saved remote at index ".to_owned().concat(&show(i as u64)),
                )
            }
        },
        None => Plan::line(OutKind::Stderr, "remote: usage: remote del <index>".to_owned()),
    }
}

/// `remote`: see [`remote_outcome`].
pub fn cmd_remote(s: &mut State, args: &[char], user: &str) -> (r: Plan)
    ensures
        (Outcome { state: final(s).deep_view(), plan: r.deep_view() }) == remote_outcome(
            old(s).deep_view(),
            args@,
            user@,
        ),
{
    let (sub, rest) = split_first(args);
    if spells(sub, "") || spells(sub, "list") || spells(sub, "ls") {
        Plan::page(render_remotes(&s.remote_terminals, 0))
    } else if spells(sub, "add") {
        if rest.len() == 0 {
            Plan::line(
                OutKind::Stderr,
                "remote: usage: remote add [user@]host[:port] [port]".to_owned(),
            )
        } else {
            Plan::just(Next::AddRemote(parse_remote_spec(&text_of(rest), user)))
        }
    } else if spells(sub, "del") || spells(sub, "rm") || spells(sub, "remove") {
        remote_del(s, rest)
    } else {
        Plan::line(
            OutKind::Stderr,
            "remote: unknown subcommand `".to_owned().concat(&text_of(sub)).concat(
                "` (expected list/add/del)",
            ),
        )
    }
}

/// The state with a line recorded: in the history, and unless it is `cd`, its
/// directory among the recent ones.
pub open spec fn recorded(s: StateRow, line: Seq<char>, cmd: Seq<char>, now: Instant) -> StateRow {
    StateRow {
        history: with_command(s.history, HistoryRow { text: line, dir: s.cwd, dt: now }, s.windows),
        recent_dirs: if cmd == "cd"@ {
            s.recent_dirs
        } else {
            with_recent(s.recent_dirs, RecentRow { path: s.cwd, dt: now }, s.windows)
        },
        ..s
    }
}

fn record(s: &mut State, line: &str, cmd: &[char], now: Timestamp)
    ensures
        final(s).deep_view() == recorded(old(s).deep_view(), line@, cmd@, now.deep_view()),
{
    let cwd = s.cwd.clone();
    record_history_at(&mut s.history, line, &cwd, now, s.windows);
    if !spells(cmd, "cd") {
        record_recent_dir_at(&mut s.recent_dirs, &cwd, now, s.windows);
    }
}

/// A line while a remote is connected. Words that manage the connection stay
/// here; `logs` and `sync` become what they mean there; everything else goes to
/// the remote as it is.
pub open spec fn remote_line_outcome(
    s: StateRow,
    line: Seq<char>,
    cmd: Seq<char>,
    args: Seq<char>,
) -> Outcome {
    if cmd == "exit"@ || cmd == "quit"@ || cmd == "logout"@ || cmd == "disconnect"@ {
        Outcome::of(
            StateRow { active_remote: None, ..s },
            PlanRow {
                effects: seq![
                    Effect::Disconnect,
                    Effect::Line(OutKind::Stdout, "ssh: disconnected"@),
                ],
                next: Next::Done,
            },
        )
    } else {
        Outcome::of(
            s,
            if cmd == "mode"@ {
                mode_plan(args)
            } else if cmd == "logs"@ {
                match remote_logs(args) {
                    Ok(c) => PlanRow::just(Next::RunRemote(c)),
                    Err(e) => PlanRow::line(OutKind::Stderr, e),
                }
            } else if cmd == "sync"@ {
                match remote_sync(args) {
                    Ok(c) => PlanRow::just(Next::RunRemote(c)),
                    Err(e) => PlanRow::line(OutKind::Stderr, e),
                }
            } else {
                PlanRow::just(Next::RunRemote(line))
            },
        )
    }
}

fn remote_line(s: &mut State, line: &str, cmd: &[char], args: &[char]) -> (r: Plan)
    ensures
        (Outcome { state: final(s).deep_view(), plan: r.deep_view() }) == remote_line_outcome(
            old(s).deep_view(),
            line@,
            cmd@,
            args@,
        ),
{
    if spells(cmd, "exit") || spells(cmd, "quit") || spells(cmd, "logout") || spells(
        cmd,
        "disconnect",
    ) {
        s.active_remote = None;
        let mut effects: Vec<Effect<String>> = Vec::new();
        let text = "ssh: disconnected".to_owned();
        effects.push(Effect::Disconnect);
        effects.push(Effect::Line(OutKind::Stdout, text));
        assert(effects.deep_view() =~= seq![
            Effect::Disconnect,
            Effect::Line(OutKind::Stdout, "ssh: disconnected"@),
        ]);
        return Plan { effects, next: Next::Done };
    }
    if spells(cmd, "mode") {
        return remote_set_mode(&text_of(args));
    }
    if spells(cmd, "logs") {
        return match remote_logs_command(&text_of(args)) {
            Ok(c) => Plan::just(Next::RunRemote(c)),
            Err(e) => Plan::line(OutKind::Stderr, e),
        };
    }
    if spells(cmd, "sync") {
        return match remote_sync_command(&text_of(args)) {
            Ok(c) => Plan::just(Next::RunRemote(c)),
            Err(e) => Plan::line(OutKind::Stderr, e),
        };
    }
    Plan::just(Next::RunRemote(line.to_owned()))
}

/// `python` and `pip`: those of the virtual environment, if there is one.
pub open spec fn venv_plan(
    exe: Option<Seq<char>>,
    line: Seq<char>,
    args: Seq<char>,
    windows: bool,
) -> PlanRow {
    PlanRow::just(
        Next::Run(
            match exe {
                Some(e) => venv_line(e, args, windows),
                None => line,
            },
        ),
    )
}

fn run_venv(exe: Option<String>, line: &str, args: &[char], windows: bool) -> (r: Plan)
    ensures
        r.deep_view() == venv_plan(exe.deep_view(), line@, args@, windows),
{
    match exe {
        Some(e) => Plan::just(Next::Run(rewrite_venv_command(&e, &text_of(args), windows))),
        None => Plan::just(Next::Run(line.to_owned())),
    }
}

/// A line with no remote connected.
pub open spec fn local_line_outcome(
    s: StateRow,
    line: Seq<char>,
    cmd: Seq<char>,
    args: Seq<char>,
    f: FactsRow,
) -> Outcome {
    if cmd == "remote"@ {
        remote_outcome(s, args, f.default_user)
    } else if cmd == "del"@ {
        del_outcome(s, args)
    } else {
        Outcome::of(
            s,
            if cmd == "exit"@ || cmd == "quit"@ {
                PlanRow::just(Next::Exit)
            } else if cmd == "ssh"@ {
                match ssh_target(s.remote_terminals, args, f.default_user) {
                    Ok(t) => PlanRow::just(Next::Connect(t)),
                    Err(e) => PlanRow::line(OutKind::Stderr, e),
                }
            } else if cmd == "sync"@ {
                PlanRow::just(Next::Sync(args))
            } else if cmd == "logs"@ {
                PlanRow::just(Next::Follow(args))
            } else if cmd == "cat"@ {
                PlanRow::just(
                    Next::Cat(
                        resolved(s.home, s.cwd, s.dir_bookmarks, args, f.arg_exists, s.windows),
                    ),
                )
            } else if cmd == "cd"@ {
                cd_plan(s, args, f.arg_exists)
            } else if cmd == "bm"@ {
                bm_plan(s, args)
            } else if cmd == "python"@ || cmd == "python3"@ {
                venv_plan(
                    venv_file(s.cwd, interpreters(), f.venv_files, s.windows),
                    line,
                    args,
                    s.windows,
                )
            } else if cmd == "pip"@ || cmd == "pip3"@ {
                venv_plan(venv_file(s.cwd, pips(), f.venv_files, s.windows), line, args, s.windows)
            } else {
                PlanRow::just(Next::Run(line))
            },
        )
    }
}

fn local_line(s: &mut State, line: &str, cmd: &[char], args: &[char], f: &Facts) -> (r: Plan)
    ensures
        (Outcome { state: final(s).deep_view(), plan: r.deep_view() }) == local_line_outcome(
            old(s).deep_view(),
            line@,
            cmd@,
            args@,
            f.deep_view(),
        ),
{
    if spells(cmd, "remote") {
        return cmd_remote(s, args, &f.default_user);
    }
    if spells(cmd, "del") {
        return del(s, args);
    }
    if spells(cmd, "exit") || spells(cmd, "quit") {
        return Plan::just(Next::Exit);
    }
    if spells(cmd, "ssh") {
        return match resolve_ssh_target(&s.remote_terminals, &text_of(args), &f.default_user) {
            Ok(t) => Plan::just(Next::Connect(t)),
            Err(e) => Plan::line(OutKind::Stderr, e),
        };
    }
    if spells(cmd, "sync") {
        return Plan::just(Next::Sync(text_of(args)));
    }
    if spells(cmd, "logs") {
        return Plan::just(Next::Follow(text_of(args)));
    }
    if spells(cmd, "cat") {
        let target = path_from_args(
            home_of(s),
            &s.cwd,
            &s.dir_bookmarks,
            &text_of(args),
            f.arg_exists,
            s.windows,
        );
        return Plan::just(Next::Cat(target));
    }
    if spells(cmd, "cd") {
        return cd(s, args, f.arg_exists);
    }
    if spells(cmd, "bm") {
        return bm(s, args);
    }
    if spells(cmd, "python") || spells(cmd, "python3") {
        return run_venv(venv_python(&s.cwd, &f.venv_files, s.windows), line, args, s.windows);
    }
    if spells(cmd, "pip") || spells(cmd, "pip3") {
        return run_venv(venv_pip(&s.cwd, &f.venv_files, s.windows), line, args, s.windows);
    }
    Plan::just(Next::Run(line.to_owned()))
}

/// What a command line does to the state, and what it asks for. A blank line
/// does nothing. Running an entry of the history again records what is run and
/// not the request. Anything else is recorded and saved first.
pub open spec fn command_outcome(s: StateRow, input: Seq<char>, f: FactsRow) -> Outcome {
    let line = trimmed(input, Class::White);
    let (cmd, args) = first_word(line);
    if line.len() == 0 {
        Outcome::of(s, PlanRow::just(Next::Done))
    } else if cmd == "his"@ || cmd == "hist"@ {
        Outcome::of(s, recall_plan(s, cmd, args, None))
    } else if cmd == "this"@ {
        Outcome::of(s, recall_plan(s, cmd, args, Some(s.cwd)))
    } else if cmd == "hisd"@ {
        Outcome::of(s, hisd_plan(s, args))
    } else {
        let t = recorded(s, line, cmd, f.now);
        let o = if t.active_remote is Some {
            remote_line_outcome(t, line, cmd, args)
        } else {
            local_line_outcome(t, line, cmd, args, f)
        };
        Outcome::of(o.state, o.plan.after(save_of(t, "warning: failed to save state: "@)))
    }
}

/// Run one command line: change the state, and say what is to be done.
pub fn run_command(state: &mut State, input: &str, facts: &Facts) -> (r: Plan)
    ensures
        (Outcome { state: final(state).deep_view(), plan: r.deep_view() }) == command_outcome(
            old(state).deep_view(),
            input@,
            facts.deep_view(),
        ),
{
    let v = chars_of(input);
    let line = trim(&v, Class::White);
    if line.len() == 0 {
        return Plan::just(Next::Done);
    }
    let (cmd, args) = split_first(line);
    if spells(cmd, "his") || spells(cmd, "hist") {
        return recall(state, &text_of(cmd), args, false);
    }
    if spells(cmd, "this") {
        return recall(state, &text_of(cmd), args, true);
    }
    if spells(cmd, "hisd") {
        return hisd(state, args);
    }
    let text = text_of(line);
    record(state, &text, cmd, facts.now);
    let save = save_effect(state, "warning: failed to save state: ");
    let plan = if state.active_remote.is_some() {
        remote_line(state, &text, cmd, args)
    } else {
        local_line(state, &text, cmd, args, facts)
    };
    plan.after(save)
}

// ---- when the outside work is done ----

/// What changing the directory came to.
#[derive(Debug)]
pub enum DirChange {
    /// The directory changed. The path is the one that the system gives for it,
    /// if it does.
    Changed(Option<String>),
    /// It did not. `not_found` tells whether that is because it does not exist.
    Failed { not_found: bool, message: String },
}

pub open spec fn mover_name(m: Mover) -> Seq<char> {
    match m {
        Mover::Cd => "cd"@,
        Mover::Bm => "bm"@,
    }
}

/// After an attempt to change the directory. A recent directory that no longer
/// exists is dropped from the list, so that it is not offered forever.
pub open spec fn moved_outcome(
    s: StateRow,
    target: Seq<char>,
    recent: Option<usize>,
    mover: Mover,
    change: DirChange,
) -> Outcome {
    match change {
        DirChange::Changed(p) => Outcome::of(
            StateRow {
                cwd: match p {
                    Some(p) => p@,
                    None => target,
                },
                ..s
            },
            PlanRow::just(Next::Done),
        ),
        DirChange::Failed { not_found, message } => {
            let said = Effect::Line(OutKind::Stderr, mover_name(mover) + ": "@ + message@);
            if not_found && recent is Some && recent->0 < s.recent_dirs.len() && path_eq(
                s.recent_dirs[recent->0 as int].path,
                target,
                s.windows,
            ) {
                let after = StateRow {
                    recent_dirs: s.recent_dirs.remove(recent->0 as int),
                    ..s
                };
                Outcome::of(
                    after,
                    PlanRow {
                        effects: seq![
                            said,
                            Effect::Line(
                                OutKind::Stderr,
                                "cd: removed stale recent-dir entry "@ + decimal(recent->0 as nat),
                            ),
                            save_of(after, "warning: failed to save state: "@),
                        ],
                        next: Next::Done,
                    },
                )
            } else {
                Outcome::of(s, PlanRow { effects: seq![said], next: Next::Done })
            }
        },
    }
}

/// See [`moved_outcome`].
pub fn directory_changed(
    state: &mut State,
    target: &str,
    recent: Option<usize>,
    mover: Mover,
    change: DirChange,
) -> (r: Plan)
    ensures
        (Outcome { state: final(state).deep_view(), plan: r.deep_view() }) == moved_outcome(
            old(state).deep_view(),
            target@,
            recent,
            mover,
            change,
        ),
{
    match change {
        DirChange::Changed(p) => {
            state.cwd = match p {
                Some(p) => p,
                None => target.to_owned(),
            };
            Plan::just(Next::Done)
        },
        DirChange::Failed { not_found, message } => {
            let name = match mover {
                Mover::Cd => "cd",
                Mover::Bm => "bm",
            };
            let said = name.to_owned().concat(": ").concat(&message);
            let ghost was = state.recent_dirs.deep_view();
            assert(was.len() == state.recent_dirs@.len());
            if not_found {
                if let Some(i) = recent {
                    if i < state.recent_dirs.len() && same_path(
                        &state.recent_dirs[i].path,
                        target,
                        state.windows,
                    ) {
                        assert(was[i as int] == state.recent_dirs@[i as int].deep_view());
                        let _ = state.recent_dirs.remove(i);
                        assert(state.recent_dirs.deep_view() =~= was.remove(i as int));
                        let text = "cd: removed stale recent-dir entry ".to_owned().concat(
                            &show(i as u64),
                        );
                        let save = save_effect(state, "warning: failed to save state: ");
                        let mut effects: Vec<Effect<String>> = Vec::new();
                        effects.push(Effect::Line(OutKind::Stderr, said));
                        effects.push(Effect::Line(OutKind::Stderr, text));
                        effects.push(save);
                        assert(effects.deep_view() =~= seq![
                            Effect::Line(OutKind::Stderr, said@),
                            Effect::Line(OutKind::Stderr, text@),
                            save.deep_view(),
                        ]);
                        return Plan { effects, next: Next::Done };
                    }
                }
            }
            Plan::line(OutKind::Stderr, said)
        },
    }
}

/// What `ssh` asks a password with.
pub fn connect_prompt(t: &Target<String>) -> (r: String)
    ensures
        r@ == "Password for "@ + t.deep_view().user + "@"@ + t.deep_view().host + ": "@,
{
    "Password for ".to_owned().concat(&t.user).concat("@").concat(&t.host).concat(": ")
}

/// What `remote add` asks a password with.
pub fn add_prompt(t: &Target<String>) -> (r: String)
    ensures
        r@ == "Password for "@ + t.deep_view().user + "@"@ + t.deep_view().host
            + " (blank to skip): "@,
{
    "Password for ".to_owned().concat(&t.user).concat("@").concat(&t.host).concat(
        " (blank to skip): ",
    )
}

/// What is shown while `ssh` connects.
pub fn connecting_line(t: &Target<String>) -> (r: String)
    ensures
        r@ == "Connecting to "@ + account_name(
            t.deep_view().host,
            t.deep_view().port,
            t.deep_view().user,
        ) + " …"@,
{
    "Connecting to ".to_owned().concat(&account(&t.host, t.port, &t.user)).concat(" …")
}

/// A connection is made: commands go there now, in command mode, and the remote
/// is saved.
pub open spec fn connected_outcome(s: StateRow, t: Target<Seq<char>>) -> Outcome {
    let saved = StateRow { remote_terminals: with_remote(s.remote_terminals, t), ..s };
    Outcome::of(
        StateRow { active_remote: Some(SessionRow::fresh(t)), ..saved },
        PlanRow {
            effects: seq![
                Effect::Line(
                    OutKind::Stdout,
                    "Connected to "@ + t.user + "@"@ + t.host
                        + ". Commands run remotely; `mode pty` opens an interactive shell (python, vim, …), `exit` disconnects."@,
                ),
                save_of(saved, "warning: failed to save state: "@),
            ],
            next: Next::Done,
        },
    )
}

/// See [`connected_outcome`].
pub fn cmd_ssh(state: &mut State, t: &Target<String>) -> (r: Plan)
    ensures
        (Outcome { state: final(state).deep_view(), plan: r.deep_view() }) == connected_outcome(
            old(state).deep_view(),
            t.deep_view(),
        ),
{
    let text = "Connected to ".to_owned().concat(&t.user).concat("@").concat(&t.host).concat(
        ". Commands run remotely; `mode pty` opens an interactive shell (python, vim, …), `exit` disconnects.",
    );
    record_remote(&mut state.remote_terminals, &t.host, t.port, &t.user);
    let save = save_effect(state, "warning: failed to save state: ");
    state.active_remote = Some(RemoteSession::new(&t.host, t.port, &t.user));
    let mut effects: Vec<Effect<String>> = Vec::new();
    effects.push(Effect::Line(OutKind::Stdout, text));
    effects.push(save);
    assert(effects.deep_view() =~= seq![
        Effect::Line(OutKind::Stdout, text@),
        save.deep_view(),
    ]);
    Plan { effects, next: Next::Done }
}

/// A remote is saved.
pub open spec fn added_outcome(s: StateRow, t: Target<Seq<char>>) -> Outcome {
    let after = StateRow { remote_terminals: with_remote(s.remote_terminals, t), ..s };
    Outcome::of(
        after,
        PlanRow {
            effects: seq![
                save_of(after, "remote: failed to save state: "@),
                Effect::Line(
                    OutKind::Stdout,
                    "Saved remote "@ + account_name(t.host, t.port, t.user),
                ),
            ],
            next: Next::Done,
        },
    )
}

/// See [`added_outcome`].
pub fn remote_added(state: &mut State, t: &Target<String>) -> (r: Plan)
    ensures
        (Outcome { state: final(state).deep_view(), plan: r.deep_view() }) == added_outcome(
            old(state).deep_view(),
            t.deep_view(),
        ),
{
    record_remote(&mut state.remote_terminals, &t.host, t.port, &t.user);
    let save = save_effect(state, "remote: failed to save state: ");
    let text = "Saved remote ".to_owned().concat(&account(&t.host, t.port, &t.user));
    let mut effects: Vec<Effect<String>> = Vec::new();
    effects.push(save);
    effects.push(Effect::Line(OutKind::Stdout, text));
    assert(effects.deep_view() =~= seq![
        save.deep_view(),
        Effect::Line(OutKind::Stdout, text@),
    ]);
    Plan { effects, next: Next::Done }
}

} // verus!
