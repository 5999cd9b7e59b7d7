use shell::commands::{
    argument_path, directory_changed, logs, logs_done, rewrite_venv_command, run_command,
    shell_call, sink_line, sync, sync_step, DirChange, Facts,
};
use shell::plan::{Effect, Mover, Next, OutKind, Plan};
use shell::process::ProcessRun;
use shell::state::State;
use shell::time::Timestamp;

fn facts() -> Facts {
    Facts {
        now: Timestamp::new(60, 0).unwrap(),
        arg_exists: false,
        venv_files: Vec::new(),
        default_user: "me".to_string(),
    }
}

fn state() -> State {
    State::new(Some("/home/u".to_string()), "/work".to_string(), None, false)
}

/// What a plan shows, saves aside.
fn lines(p: &Plan) -> Vec<(OutKind, &str)> {
    p.effects
        .iter()
        .filter_map(|e| match e {
            Effect::Line(kind, text) => Some((*kind, text.as_str())),
            _ => None,
        })
        .collect()
}

fn warnings(p: &Plan) -> Vec<&str> {
    p.effects
        .iter()
        .filter_map(|e| match e {
            Effect::Save { warning, .. } => Some(warning.as_str()),
            _ => None,
        })
        .collect()
}

fn run(s: &mut State, input: &str) -> Plan {
    run_command(s, input, &facts())
}

#[test]
fn a_command_is_recorded_saved_and_passed_on() {
    let mut s = state();
    let p = run(&mut s, "  ls -l  ");
    assert!(matches!(&p.next, Next::Run(t) if t == "ls -l"));
    assert_eq!(s.history.len(), 1);
    assert_eq!((s.history[0].text.as_str(), s.history[0].dir.as_str()), ("ls -l", "/work"));
    assert_eq!(s.recent_dirs[0].path, "/work");
    assert_eq!(p.effects.len(), 1);
    assert!(matches!(
        &p.effects[0],
        Effect::Save { contents, warning }
            if contents.contains("HIS 1970-01-01T00:01:00Z\t/work\tls -l\n")
                && contents.contains("REC_DIR 1970-01-01T00:01:00Z /work\n")
                && warning == "warning: failed to save state: "
    ));
}

#[test]
fn blank_lines_are_ignored() {
    let mut s = state();
    let p = run(&mut s, " \t ");
    assert!(matches!(p.next, Next::Done));
    assert!(p.effects.is_empty() && s.history.is_empty());
}

#[test]
fn repeats_move_to_the_end_of_the_history() {
    let mut s = state();
    run(&mut s, "a");
    run(&mut s, "b");
    run(&mut s, "a");
    let texts: Vec<_> = s.history.iter().map(|h| h.text.as_str()).collect();
    assert_eq!(texts, ["b", "a"]);
    assert_eq!(s.recent_dirs.len(), 1);
}

#[test]
fn leaving_the_shell() {
    assert!(matches!(run(&mut state(), "exit").next, Next::Exit));
    assert!(matches!(run(&mut state(), "quit now").next, Next::Exit));
}

#[test]
fn his_runs_entries_again() {
    let mut s = state();
    run(&mut s, "make all");
    run(&mut s, "ls");
    let p = run(&mut s, "his 0");
    assert_eq!(lines(&p), [(OutKind::Stdout, "> make all")]);
    assert!(matches!(&p.next, Next::Rerun(t) if t == "make all"));
    let p = run(&mut s, "hist MAKE");
    assert!(matches!(&p.next, Next::Rerun(t) if t == "make all"));
    let p = run(&mut s, "his 9");
    assert_eq!(lines(&p), [(OutKind::Stderr, "his: no history item at index 9")]);
    let p = run(&mut s, "hist");
    assert_eq!(
        lines(&p),
        [(OutKind::Stderr, "hist: usage: hist <number>, or hist p<page> to show a page")]
    );
    let p = run(&mut s, "his zzz");
    assert_eq!(
        lines(&p),
        [(OutKind::Stderr, "his: usage: his <number>, or his p<page> to show a page")]
    );
    let p = run(&mut s, "his p1");
    assert!(matches!(&p.effects[0], Effect::Page(t) if t.contains("Command History.") && t.contains("1:  ls\n")));
    assert_eq!(s.history.len(), 2);
}

#[test]
fn his_pages_count_from_one() {
    let mut s = state();
    for i in 0..25 {
        run(&mut s, &format!("c{i}"));
    }
    let page = |s: &mut State, line: &str| match run(s, line).effects.remove(0) {
        Effect::Page(t) => t,
        _ => String::new(),
    };
    let first = page(&mut s, "his p1");
    assert_eq!(page(&mut s, "his p0"), first);
    assert!(first.contains("Page 1/2") && first.contains("24:  c24") && !first.contains("4:  c4\n4"));
    let second = page(&mut s, "his p2");
    assert!(second.contains("Page 2/2") && second.contains("0:  c0\n") && !second.contains("5:  c5"));
    assert_eq!(page(&mut s, "his p99"), second);
}

#[test]
fn this_is_limited_to_the_current_directory() {
    let mut s = state();
    run(&mut s, "here");
    s.cwd = "/else".to_string();
    run(&mut s, "there");
    let p = run(&mut s, "this 0");
    assert_eq!(lines(&p), [(OutKind::Stderr, "this: no history item at index 0")]);
    let p = run(&mut s, "this ere");
    assert!(matches!(&p.next, Next::Rerun(t) if t == "there"));
    let p = run(&mut s, "this p1");
    assert!(matches!(&p.effects[0], Effect::Page(t) if t.contains("1:  there") && !t.contains("here\n0") && !t.contains("0:  here")));
}

#[test]
fn hisd_runs_where_the_entry_was_run() {
    let mut s = state();
    run(&mut s, "make");
    s.cwd = "/else".to_string();
    let p = run(&mut s, "hisd 0");
    assert_eq!(lines(&p), [(OutKind::Stdout, "> make  (in /work)")]);
    assert!(matches!(&p.next, Next::RunIn { line, dir } if line == "make" && dir == "/work"));
    assert_eq!(lines(&run(&mut s, "hisd 5")), [(OutKind::Stderr, "hisd: no history item at index 5")]);
    assert_eq!(lines(&run(&mut s, "hisd x")), [(OutKind::Stderr, "hisd: usage: hisd <number>")]);
}

#[test]
fn cd_goes_by_number_path_bookmark_and_letters() {
    let mut s = state();
    s.dir_bookmarks = vec!["/data/Projects".to_string()];
    let now = Timestamp::new(0, 0).unwrap();
    shell::state::record_recent_dir_at(&mut s.recent_dirs, "/var/Logs", now, false);
    let target = |p: Plan| match p.next {
        Next::ChangeDir { target, recent, mover } => {
            assert_eq!(mover, Mover::Cd);
            (target, recent)
        }
        _ => (String::new(), None),
    };
    assert_eq!(target(run(&mut s, "cd 0")), ("/var/Logs".to_string(), Some(0)));
    assert_eq!(target(run(&mut s, "cd")), ("/home/u".to_string(), None));
    assert_eq!(target(run(&mut s, "cd ~/x")), ("/home/u/x".to_string(), None));
    assert_eq!(target(run(&mut s, "cd proj")), ("/data/Projects".to_string(), None));
    assert_eq!(target(run(&mut s, "cd LOGS")), ("/var/Logs".to_string(), None));
    assert_eq!(target(run(&mut s, "cd nowhere")), ("/work/nowhere".to_string(), None));
    let f = Facts { arg_exists: true, ..facts() };
    assert_eq!(target(run_command(&mut s, "cd logs", &f)), ("/work/logs".to_string(), None));
    assert_eq!(s.recent_dirs.len(), 1);
    assert_eq!(
        lines(&run(&mut s, "cd 7")),
        [(OutKind::Stderr, "cd: no recent directory at index 7")]
    );
}

#[test]
fn a_changed_directory_is_taken_over() {
    let mut s = state();
    directory_changed(&mut s, "/t/../x", None, Mover::Cd, DirChange::Changed(Some("/x".to_string())));
    assert_eq!(s.cwd, "/x");
    directory_changed(&mut s, "/y", None, Mover::Bm, DirChange::Changed(None));
    assert_eq!(s.cwd, "/y");
}

#[test]
fn stale_recent_directories_are_dropped() {
    let mut s = state();
    let now = Timestamp::new(0, 0).unwrap();
    shell::state::record_recent_dir_at(&mut s.recent_dirs, "/a", now, false);
    shell::state::record_recent_dir_at(&mut s.recent_dirs, "/b", now, false);
    let gone = |not_found: bool| DirChange::Failed { not_found, message: "gone".to_string() };
    let p = directory_changed(&mut s, "/a", Some(0), Mover::Cd, gone(false));
    assert_eq!(lines(&p), [(OutKind::Stderr, "cd: gone")]);
    assert_eq!(s.recent_dirs.len(), 2);
    let p = directory_changed(&mut s, "/b", Some(0), Mover::Cd, gone(true));
    assert_eq!(lines(&p), [(OutKind::Stderr, "cd: gone")]);
    let p = directory_changed(&mut s, "/a", None, Mover::Bm, gone(true));
    assert_eq!(lines(&p), [(OutKind::Stderr, "bm: gone")]);
    let p = directory_changed(&mut s, "/a", Some(0), Mover::Cd, gone(true));
    assert_eq!(
        lines(&p),
        [
            (OutKind::Stderr, "cd: gone"),
            (OutKind::Stderr, "cd: removed stale recent-dir entry 0")
        ]
    );
    assert_eq!(warnings(&p), ["warning: failed to save state: "]);
    assert_eq!(s.recent_dirs.len(), 1);
    assert_eq!(s.recent_dirs[0].path, "/b");
    assert_eq!(s.cwd, "/work");
}

#[test]
fn bm_goes_to_bookmarks() {
    let mut s = state();
    s.dir_bookmarks = vec!["/a/Code".to_string(), "/b".to_string()];
    for (line, dir) in [("bm 1", "/b"), ("bm code", "/a/Code")] {
        let p = run(&mut s, line);
        assert!(
            matches!(&p.next, Next::ChangeDir { target, recent: None, mover: Mover::Bm } if target == dir)
        );
    }
    assert_eq!(lines(&run(&mut s, "bm 2")), [(OutKind::Stderr, "bm: no bookmark at index 2")]);
    assert_eq!(lines(&run(&mut s, "bm zzz")), [(OutKind::Stderr, "bm: usage: bm <number>")]);
    assert_eq!(lines(&run(&mut s, "bm")), [(OutKind::Stderr, "bm: usage: bm <number>")]);
}

#[test]
fn del_deletes_bookmarks() {
    let mut s = state();
    s.dir_bookmarks = vec!["/a".to_string(), "/b".to_string()];
    let p = run(&mut s, "del bm 0");
    assert_eq!(lines(&p), [(OutKind::Stdout, "Deleted bookmark: /a")]);
    assert_eq!(
        warnings(&p),
        ["warning: failed to save state: ", "del bm: failed to save bookmarks: "]
    );
    assert!(matches!(&p.effects[2], Effect::Save { contents, .. } if !contents.contains("BM /a") && contents.contains("BM /b")));
    assert_eq!(s.dir_bookmarks, ["/b"]);
    for (line, said) in [
        ("del bm 5", "del bm: no bookmark at index 5 (have 1)"),
        ("del bm x", "del bm: expected a number, e.g. `del bm 4`"),
        ("del", "del: usage: del bm <number>"),
        ("del it 1", "del: unknown target `it` (expected `bm`)"),
    ] {
        assert_eq!(lines(&run(&mut s, line)), [(OutKind::Stderr, said)]);
    }
}

#[test]
fn cat_resolves_its_argument() {
    let mut s = state();
    s.dir_bookmarks = vec!["/home/u/notes".to_string()];
    let there = Facts { arg_exists: true, ..facts() };
    assert!(matches!(run_command(&mut s, "cat notes", &there).next, Next::Cat(t) if t == "/work/notes"));
    assert!(matches!(run(&mut s, "cat notes").next, Next::Cat(t) if t == "/home/u/notes"));
    assert!(matches!(run(&mut s, "cat notes.txt").next, Next::Cat(t) if t == "/work/notes.txt"));
    assert_eq!(argument_path("/work", " cat  notes.txt ", false), "/work/notes.txt");
    assert_eq!(argument_path("/work", "cat", false), "/work/");
}

#[test]
fn python_and_pip_are_those_of_the_environment() {
    let mut s = state();
    let f = Facts {
        venv_files: vec![
            "/work/.venv/pyvenv.cfg".to_string(),
            "/work/.venv/bin/python".to_string(),
            "/work/.venv/bin/pip3".to_string(),
        ],
        ..facts()
    };
    let line = |p: Plan| match p.next {
        Next::Run(t) => t,
        _ => String::new(),
    };
    assert_eq!(line(run_command(&mut s, "python  -m x ", &f)), "'/work/.venv/bin/python' -m x");
    assert_eq!(line(run_command(&mut s, "pip3", &f)), "'/work/.venv/bin/pip3'");
    assert_eq!(line(run(&mut s, "python3 a.py")), "python3 a.py");
    let w = Facts {
        venv_files: vec![
            "C:\\work\\.venv\\pyvenv.cfg".to_string(),
            "C:\\work\\.venv\\Scripts/python.exe".to_string(),
        ],
        ..facts()
    };
    s.windows = true;
    s.cwd = "C:\\work".to_string();
    assert_eq!(
        line(run_command(&mut s, "python3 a.py", &w)),
        "& 'C:\\work\\.venv\\Scripts/python.exe' a.py"
    );
    assert_eq!(rewrite_venv_command("/x y", "  ", false), "'/x y'");
}

#[test]
fn the_system_shell_runs_lines() {
    assert_eq!(shell_call("ls | wc", false), ["sh", "-c", "ls | wc"]);
    assert_eq!(
        shell_call("dir", true),
        ["pwsh", "-NoProfile", "-NoLogo", "-Command", "dir"]
    );
}

#[test]
fn sync_adds_commits_and_pushes() {
    let steps = sync(" \"A commit message\" ").unwrap();
    assert_eq!(steps[0], ["add", "."]);
    assert_eq!(steps[1], ["commit", "-am", "A commit message"]);
    assert_eq!(steps[2], ["push"]);
    assert_eq!(steps.len(), 3);
    assert_eq!(
        sync("\"\"").unwrap_err(),
        "sync: commit message required, e.g. sync \"my commit message\""
    );
    assert!(matches!(run(&mut state(), "sync it all").next, Next::Sync(t) if t == "it all"));
}

fn ran(success: bool, out: &[u8], err: &[u8]) -> Result<ProcessRun, String> {
    Ok(ProcessRun { success, stdout: out.to_vec(), stderr: err.to_vec() })
}

fn texts(effects: &[Effect<String>]) -> Vec<(OutKind, &str)> {
    effects
        .iter()
        .filter_map(|e| match e {
            Effect::Line(k, t) => Some((*k, t.as_str())),
            _ => None,
        })
        .collect()
}

#[test]
fn sync_stops_at_the_first_failure() {
    let step = vec!["commit".to_string(), "-am".to_string(), "m".to_string()];
    let (out, go_on) = sync_step(&step, &ran(true, b"done\n", b""));
    assert_eq!((texts(&out), go_on), (vec![(OutKind::Stdout, "done\n")], true));
    let (out, go_on) = sync_step(&step, &ran(false, b"o", b"e\xff"));
    assert_eq!(
        (texts(&out), go_on),
        (
            vec![
                (OutKind::Stdout, "o"),
                (OutKind::Stderr, "e\u{fffd}"),
                (OutKind::Stderr, "sync: `git commit -am m` failed")
            ],
            false
        )
    );
    let (out, go_on) = sync_step(&step, &Err("no git".to_string()));
    assert_eq!(
        (texts(&out), go_on),
        (vec![(OutKind::Stderr, "sync: failed to run git: no git")], false)
    );
    assert_eq!(sink_line("a\n\n"), "a");
    assert_eq!(sink_line("a\r\n"), "a\r");
}

#[test]
fn logs_follow_or_take_a_part() {
    assert_eq!(logs(" gunicorn ", true, true).unwrap(), ["journalctl", "-u", "gunicorn", "-f"]);
    assert_eq!(
        logs("\"a b\"", false, true).unwrap(),
        ["journalctl", "-u", "a b", "-n", "200", "--no-pager"]
    );
    assert_eq!(logs("", true, true).unwrap_err(), "logs: service required, e.g. logs gunicorn");
    assert_eq!(
        logs("x", true, false).unwrap_err(),
        "logs: only supported on Linux (uses journalctl)"
    );
    assert!(matches!(run(&mut state(), "logs x").next, Next::Follow(t) if t == "x"));
    assert!(logs_done(true, &ran(true, b"x", b"y")).is_empty());
    assert_eq!(
        texts(&logs_done(true, &ran(false, b"x", b""))),
        [(OutKind::Stderr, "logs: journalctl exited non-zero")]
    );
    assert_eq!(
        texts(&logs_done(false, &ran(false, b"x", b"y"))),
        [
            (OutKind::Stdout, "x"),
            (OutKind::Stderr, "y"),
            (OutKind::Stderr, "logs: journalctl exited non-zero")
        ]
    );
    assert_eq!(
        texts(&logs_done(false, &Err("e".to_string()))),
        [(OutKind::Stderr, "logs: failed to run journalctl: e")]
    );
}
