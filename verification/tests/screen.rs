use shell::git::{branch_indicator, branch_query, current_branch, truncate_branch};
use shell::key_handling::{ArrowAction, CliNav, NavAxis, NavKind, Pager};
use shell::nav::NavState;
use shell::plan::Target;
use shell::process::{runnable_files, ProcessRun};
use shell::python::{venv_indicator, venv_pip, venv_probes, venv_python};
use shell::render::{
    highlight_input, highlight_prompt, render_bookmarks, render_history, render_recent_dirs,
    render_word, suggestion, tokenize_words, unknown_word,
};
use shell::state::{HistoryItem, RecentDir, State};
use shell::time::Timestamp;
use shell::util::DirEntry;

fn item(text: &str) -> HistoryItem {
    HistoryItem { text: text.to_string(), dir: "/".to_string(), dt: Timestamp::now() }
}

fn dir(path: &str) -> RecentDir {
    RecentDir { path: path.to_string(), dt: Timestamp::now() }
}

#[test]
fn lists_are_framed() {
    let h = vec![item("ls"), item("make")];
    assert_eq!(
        render_history(&h, 0),
        "\nHistory  (← older page  → newer page).  Use `his <number>` to run; e.g. `his 4`.  Page 1/1:\n----------\n0:  ls\n1:  make\n----------\n\n"
    );
    let r = vec![dir("/home/u/a"), dir("/b")];
    let bookmarks = vec!["/b/".to_string()];
    assert_eq!(
        render_recent_dirs(&r, &bookmarks, Some("/home/u"), 0, false),
        "\nRecent directories  (← older page  → newer page).  Use `cd <number>` to go; e.g. `cd 4`.  Page 1/1:\n----------\n0:  ~/a\n1:  */b\n----------\n\n"
    );
    assert_eq!(
        render_bookmarks(&bookmarks, None, 0, false),
        "\nBookmarks  (← older page  → newer page).  Use `del bm <number>` to delete; e.g. `del bm 4`.  Page 1/1:\n----------\n0:  /b/\n----------\n\n"
    );
    assert!(render_bookmarks(&[], None, 3, false).contains("(no bookmarks)\n"));
    assert!(render_recent_dirs(&[], &[], None, 0, false).contains("(no recent directories)\n"));
    assert!(render_history(&[], 0).contains("(no history)\n"));
    let many: Vec<_> = (0..21).map(|i| item(&format!("c{i}"))).collect();
    let second = render_history(&many, 1);
    assert!(second.contains("Page 2/2:\n----------\n0:  c0\n----------"));
}

#[test]
fn words_keep_quoted_spaces() {
    let line = "git commit -m \"a b\" 'c'd \u{3000}é";
    let words: Vec<_> = tokenize_words(line).iter().map(|&(a, b)| &line[a..b]).collect();
    assert_eq!(words, ["git", "commit", "-m", "\"a b\"", "'c'd", "é"]);
    assert_eq!(tokenize_words("  "), []);
    assert_eq!(tokenize_words("a 'b c"), [(0, 1), (2, 6)]);
    assert_eq!(tokenize_words("\"it's\" x"), [(0, 6), (7, 8)]);
}

#[test]
fn input_is_colored_by_word() {
    assert_eq!(
        highlight_input("git -v commit now", true),
        "\x1b[96mgit\x1b[0m \x1b[92m-v\x1b[0m \x1b[95mcommit\x1b[0m \x1b[96mnow\x1b[0m"
    );
    assert_eq!(highlight_input(" gti ", false), " \x1b[91mgti\x1b[0m ");
    assert_eq!(highlight_input("", true), "");
    let mut out = "> ".to_string();
    render_word(&mut out, "a'b", "<");
    assert_eq!(out, "> <a\x1b[0m\x1b[38;5;208m'\x1b[0m<b\x1b[0m");
}

#[test]
fn unknown_commands_are_told() {
    assert_eq!(unknown_word("cd x"), None);
    assert_eq!(unknown_word("  if true"), None);
    assert_eq!(unknown_word("frobnicate x").as_deref(), Some("frobnicate"));
    assert_eq!(unknown_word("").as_deref(), Some(""));
}

#[test]
fn the_newest_match_is_suggested() {
    let h = vec![item("git status"), item("git"), item("git push"), item("ls")];
    assert_eq!(suggestion(&h, "git").as_deref(), Some(" push"));
    assert_eq!(suggestion(&h, "git s").as_deref(), Some("tatus"));
    assert_eq!(suggestion(&h, "ls"), None);
    assert_eq!(suggestion(&h, ""), None);
}

#[test]
fn the_prompt_is_colored() {
    assert_eq!(
        highlight_prompt("S /a branch: main his 2 $ "),
        "\x1b[93mS\x1b[0m /a \x1b[95mbranch: main\x1b[0m \x1b[92mhis 2\x1b[0m \x1b[93m$\x1b[0m "
    );
    assert_eq!(highlight_prompt("S /a $ "), "\x1b[93mS\x1b[0m /a \x1b[93m$\x1b[0m ");
    assert_eq!(
        highlight_prompt("S /my cd 1 dir cd 3 $ x"),
        "\x1b[93mS\x1b[0m /my cd 1 dir \x1b[92mcd 3\x1b[0m \x1b[93m$\x1b[0m x"
    );
    assert_eq!(highlight_prompt("> "), "> ");
    assert_eq!(highlight_prompt("S /a"), "S /a");
}

#[test]
fn the_prompt_tells_where_the_shell_is() {
    let mut s = State::new(None, "/w".to_string(), Some("a-long-branch".to_string()), false);
    let mut nav = NavState::new();
    assert_eq!(s.prompt(&nav, &[]), "S /w branch: a-long-bra... $ ");
    s.dir_bookmarks.push("/w/".to_string());
    s.branch = None;
    nav.his_cursor = Some(29);
    let files = vec!["/w/venv/pyvenv.cfg".to_string(), "/w/venv/bin/python3".to_string()];
    assert_eq!(s.prompt(&nav, &files), "S */w venv his 29 $ ");
    shell::commands::cmd_ssh(
        &mut s,
        &Target { host: "h".to_string(), port: 1, user: "u".to_string() },
    );
    assert_eq!(s.prompt(&NavState::new(), &[]), "S [u@h:~] $ ");
    if let Some(r) = s.active_remote.as_mut() {
        r.set_mode(shell::SshMode::Pty, true);
        r.run("\u{1}__SHELL_REMOTE_CWD__\u{1}/x".as_bytes());
    }
    nav.his_cursor = None;
    nav.cd_cursor = Some(1);
    assert_eq!(s.prompt(&nav, &[]), "S [u@h:/x] (pty) cd 1 $ ");
}

#[test]
fn the_branch_is_what_git_prints() {
    assert_eq!(branch_query(), ["rev-parse", "--abbrev-ref", "HEAD"]);
    let run = |success: bool, out: &[u8]| ProcessRun { success, stdout: out.to_vec(), stderr: vec![] };
    assert_eq!(current_branch(Some(&run(true, b"main\n"))).as_deref(), Some("main"));
    assert_eq!(current_branch(Some(&run(true, b"x\xff\n"))).as_deref(), Some("x\u{fffd}"));
    assert_eq!(current_branch(Some(&run(true, b" \n"))), None);
    assert_eq!(current_branch(Some(&run(false, b"main\n"))), None);
    assert_eq!(current_branch(None), None);
    let mut s = State::new(None, "/".to_string(), None, false);
    s.refresh_branch(Some(&run(true, b"dev\n")));
    assert_eq!(s.branch.as_deref(), Some("dev"));
    assert_eq!(branch_indicator(Some("dev")), " branch: dev");
    assert_eq!(branch_indicator(None), "");
    assert_eq!(truncate_branch("äöü", 3), "äöü");
    assert_eq!(truncate_branch("äöüß", 3), "äöü...");
    assert_eq!(truncate_branch("x", 0), "...");
}

#[test]
fn virtual_environments_are_found_by_their_files() {
    let files = |names: &[&str]| -> Vec<String> { names.iter().map(|n| n.to_string()).collect() };
    let both = files(&[
        "/d/.venv/pyvenv.cfg",
        "/d/.venv/bin/python3",
        "/d/venv/pyvenv.cfg",
        "/d/venv/bin/python",
        "/d/venv/Scripts/pip.exe",
    ]);
    assert_eq!(venv_python("/d", &both, false).as_deref(), Some("/d/.venv/bin/python3"));
    assert_eq!(venv_pip("/d", &both, false).as_deref(), Some("/d/venv/Scripts/pip.exe"));
    assert_eq!(venv_indicator("/d", &both, false), " venv");
    let unmarked = files(&["/d/venv/bin/python"]);
    assert_eq!(venv_python("/d", &unmarked, false), None);
    assert_eq!(venv_indicator("/d", &unmarked, false), "");
    let probes = venv_probes("/d", false);
    assert_eq!(probes.len(), 18);
    assert_eq!(probes[0], "/d/.venv/pyvenv.cfg");
    assert!(both.iter().all(|f| probes.contains(f)));
}

#[test]
fn arrows_recall_at_the_prompt() {
    let h = vec![item("ls")];
    let r = vec![dir("/home/u/x")];
    let home = Some("/home/u");
    let mut c = CliNav::new();
    assert_eq!(c.arrow(NavAxis::His, true, &h, &r, home, "", false), ArrowAction::Restart);
    assert_eq!(c.pending_restart.as_deref(), Some("ls"));
    assert_eq!(c.arrow(NavAxis::His, true, &h, &r, home, "ls", false), ArrowAction::Noop);
    assert_eq!(c.arrow(NavAxis::Cd, true, &h, &r, home, "ls", false), ArrowAction::Pass);
    c.reset();
    assert!(c.pending_restart.is_none());
    assert_eq!(c.arrow(NavAxis::Cd, true, &h, &r, home, "", false), ArrowAction::Restart);
    assert_eq!(c.pending_restart.as_deref(), Some("cd ~/x"));
    assert_eq!(c.arrow(NavAxis::Cd, false, &h, &r, home, "cd ~/x", false), ArrowAction::Restart);
    assert_eq!(c.pending_restart.as_deref(), Some(""));
    assert_eq!(c.arrow(NavAxis::Cd, false, &h, &r, home, "", false), ArrowAction::Noop);
}

#[test]
fn the_same_key_turns_pages() {
    let mut p = Pager::new();
    assert_eq!(p.press(NavKind::History, 41), 0);
    assert_eq!(p.press(NavKind::History, 41), 1);
    assert_eq!(p.press(NavKind::History, 41), 2);
    assert_eq!(p.press(NavKind::History, 41), 0);
    assert_eq!(p.press(NavKind::History, 41), 1);
    assert_eq!(p.press(NavKind::Bookmarks, 41), 0);
}

#[test]
fn a_state_keeps_its_listing() {
    let mut s = State::new(None, "/".to_string(), None, false);
    s.refresh_browser_files(
        &[DirEntry {
            path: "/a".to_string(),
            name: "a".to_string(),
            is_dir: Some(true),
            mode: None,
            hidden: false,
        }],
    );
    assert_eq!(s.browser_files.len(), 1);
    assert!(s.browser_files[0].is_folder);
}

fn plain(colored: &str) -> String {
    let mut out = String::new();
    let mut inside = false;
    for c in colored.chars() {
        if c == '\u{1b}' {
            inside = true;
        } else if inside {
            inside = c != 'm';
        } else {
            out.push(c);
        }
    }
    out
}

#[test]
fn colors_leave_the_text_as_it_is() {
    for prompt in ["S /a $ ", "S /a branch: b his 3 $ ", "S /x cd 1 $ y $ ", "no prompt", ""] {
        assert_eq!(plain(&highlight_prompt(prompt)), prompt);
    }
    for line in ["", "  ", "git commit -m 'a b'  ", "é \"x"] {
        assert_eq!(plain(&highlight_input(line, true)), line);
        assert_eq!(plain(&highlight_input(line, false)), line);
    }
}

#[test]
fn command_words_name_files() {
    let dirs = vec!["/bin".to_string(), "/usr/bin/".to_string()];
    assert_eq!(runnable_files("ls", &dirs, false), ["/bin/ls", "/usr/bin/ls"]);
    assert_eq!(runnable_files("./ls", &dirs, false), ["./ls"]);
    assert_eq!(runnable_files("a\\ls", &dirs, false), ["/bin/a\\ls", "/usr/bin/a\\ls"]);
    assert!(runnable_files("ls", &[], false).is_empty());
    let dirs = vec!["C:\\bin".to_string()];
    assert_eq!(
        runnable_files("ls", &dirs, true),
        [
            "C:\\bin\\ls",
            "C:\\bin\\ls.exe",
            "C:\\bin\\ls.cmd",
            "C:\\bin\\ls.bat",
            "C:\\bin\\ls.com",
            "C:\\bin\\ls.ps1",
        ]
    );
    assert_eq!(runnable_files("a\\ls", &dirs, true), ["a\\ls"]);
}
