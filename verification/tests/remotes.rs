use shell::commands::{cmd_ssh, remote_added, run_command, Facts};
use shell::plan::{Effect, Next, OutKind, Plan, Target};
use shell::ssh::interactive::{
    key_to_bytes, leave_terminal, terminal_step, Key, KeyPress, PasswordEntry, TerminalAction,
    TerminalEvent, Typing,
};
use shell::ssh::login::{asked, begin, kept, tried, LoginStep, Purpose};
use shell::ssh::quote::escape;
use shell::ssh::secrets::{account, delete_password, get_password, set_password, Forgotten, SERVICE};
use shell::ssh::{
    default_user, parse_remote_spec, record_remote, remote_logs_command, remote_set_mode,
    remote_sync_command, render_remotes, resolve_ssh_target, ModeChange, RemoteSession, SshMode,
};
use shell::state::{RemoteTerminal, State};
use shell::time::Timestamp;

fn facts() -> Facts {
    Facts {
        now: Timestamp::new(0, 0).unwrap(),
        arg_exists: false,
        venv_files: Vec::new(),
        default_user: "me".to_string(),
    }
}

fn state() -> State {
    State::new(None, "/work".to_string(), None, false)
}

fn target(host: &str, port: u16, user: &str) -> Target<String> {
    Target { host: host.to_string(), port, user: user.to_string() }
}

fn parts(t: &Target<String>) -> (&str, u16, &str) {
    (t.host.as_str(), t.port, t.user.as_str())
}

fn lines(effects: &[Effect<String>]) -> Vec<(OutKind, &str)> {
    effects
        .iter()
        .filter_map(|e| match e {
            Effect::Line(k, t) => Some((*k, t.as_str())),
            _ => None,
        })
        .collect()
}

fn run(s: &mut State, input: &str) -> Plan {
    run_command(s, input, &facts())
}

#[test]
fn remote_texts_are_taken_apart() {
    for (text, host, port, user) in [
        ("h", "h", 22, "me"),
        ("u@h", "h", 22, "u"),
        ("u@h:2222", "h", 2222, "u"),
        ("u@h:2222 99", "h", 99, "u"),
        ("h 70000", "h", 22, "me"),
        ("h:bad", "h", 22, "me"),
        ("@h", "h", 22, ""),
        ("a@b@c:1:2", "b@c", 22, "a"),
        ("h x 99", "h", 22, "me"),
    ] {
        assert_eq!(parts(&parse_remote_spec(text, "me")), (host, port, user), "{text}");
    }
}

#[test]
fn ssh_takes_numbers_and_texts() {
    let list = vec![RemoteTerminal { host: "h".to_string(), port: 7, username: "u".to_string() }];
    assert_eq!(parts(&resolve_ssh_target(&list, " 0 ", "me").unwrap()), ("h", 7, "u"));
    assert_eq!(
        resolve_ssh_target(&list, "1", "me").unwrap_err(),
        "ssh: no saved remote at index 1 (see `remote list`)"
    );
    assert_eq!(
        resolve_ssh_target(&list, "  ", "me").unwrap_err(),
        "ssh: usage: ssh [user@]host [port]  |  ssh <saved-index>  (see `remote list`)"
    );
    assert_eq!(parts(&resolve_ssh_target(&list, "x 5", "me").unwrap()), ("x", 5, "me"));
    let mut s = state();
    s.remote_terminals = list;
    assert!(matches!(run(&mut s, "ssh 0").next, Next::Connect(t) if parts(&t) == ("h", 7, "u")));
    let p = run(&mut s, "ssh");
    assert_eq!(lines(&p.effects)[0].0, OutKind::Stderr);
}

#[test]
fn the_default_account() {
    let s = |t: &str| Some(t.to_string());
    assert_eq!(default_user(s("w"), s("u")), "w");
    assert_eq!(default_user(None, s("u")), "u");
    assert_eq!(default_user(None, None), "root");
}

#[test]
fn remotes_are_saved_once() {
    let mut list = Vec::new();
    record_remote(&mut list, "a", 22, "u");
    record_remote(&mut list, "b", 22, "u");
    record_remote(&mut list, "a", 23, "u");
    record_remote(&mut list, "a", 22, "u");
    let shown: Vec<_> = list.iter().map(|r| (r.host.as_str(), r.port)).collect();
    assert_eq!(shown, [("b", 22), ("a", 23), ("a", 22)]);
    assert_eq!(
        render_remotes(&list, 0),
        "\nRemotes.  Use `ssh <number>` to connect, `remote del <number>` to delete; e.g. `ssh 0`.  Page 1/1:\n----------\n0:  u@b:22\n1:  u@a:23\n2:  u@a:22\n----------\n\n"
    );
    assert!(render_remotes(&[], 0).contains("(no saved remotes — add one with `remote add user@host`)"));
}

#[test]
fn remote_manages_the_list() {
    let mut s = state();
    s.remote_terminals = vec![RemoteTerminal { host: "h".to_string(), port: 7, username: "u".to_string() }];
    for line in ["remote", "remote list", "remote ls x"] {
        assert!(matches!(&run(&mut s, line).effects[1], Effect::Page(t) if t.contains("0:  u@h:7")));
    }
    assert!(matches!(run(&mut s, "remote add x@y:5").next, Next::AddRemote(t) if parts(&t) == ("y", 5, "x")));
    for (line, said) in [
        ("remote add", "remote: usage: remote add [user@]host[:port] [port]"),
        ("remote del", "remote: usage: remote del <index>"),
        ("remote rm 3", "remote: no saved remote at index 3"),
        ("remote what", "remote: unknown subcommand `what` (expected list/add/del)"),
    ] {
        assert_eq!(lines(&run(&mut s, line).effects), [(OutKind::Stderr, said)]);
    }
    let p = run(&mut s, "remote remove 0");
    assert!(s.remote_terminals.is_empty());
    assert!(matches!(&p.effects[1], Effect::ForgetPassword(t) if parts(t) == ("h", 7, "u")));
    assert!(matches!(&p.effects[2], Effect::Save { warning, contents } if warning == "remote: failed to save state: " && !contents.contains("REMOTE_TERMINAL")));
    assert_eq!(lines(&p.effects), [(OutKind::Stdout, "Removed remote u@h:7")]);
}

#[test]
fn a_saved_remote_is_announced() {
    let mut s = state();
    let p = remote_added(&mut s, &target("h", 7, "u"));
    assert_eq!(lines(&p.effects), [(OutKind::Stdout, "Saved remote u@h:7")]);
    assert!(matches!(&p.effects[0], Effect::Save { contents, .. } if contents.contains("REMOTE_TERMINAL h\t7\tu\n")));
    assert_eq!(s.remote_terminals.len(), 1);
}

#[test]
fn getting_in_with_and_without_a_stored_password() {
    let t = target("h", 22, "u");
    let l = begin(Purpose::Connect, &t, Some("pw".to_string()));
    assert!(matches!(l.step, LoginStep::Connect(p) if p == "pw"));
    assert_eq!(lines(&l.shown), [(OutKind::Stdout, "Connecting to u@h:22 …")]);
    let l = begin(Purpose::Connect, &t, None);
    assert!(matches!(l.step, LoginStep::Ask(p) if p == "Password for u@h: "));
    let l = begin(Purpose::Add, &t, Some("pw".to_string()));
    assert!(matches!(l.step, LoginStep::Ask(p) if p == "Password for u@h (blank to skip): "));

    let l = asked(Purpose::Connect, Ok(String::new()));
    assert!(matches!(l.step, LoginStep::Keep(p) if p.is_empty()));
    assert!(matches!(asked(Purpose::Add, Ok(String::new())).step, LoginStep::Save));
    let l = asked(Purpose::Add, Err("no".to_string()));
    assert!(matches!(l.step, LoginStep::Over));
    assert_eq!(lines(&l.shown), [(OutKind::Stderr, "remote: no")]);

    let l = kept(Purpose::Connect, &t, "pw".to_string(), Err("locked".to_string()));
    assert!(matches!(l.step, LoginStep::Connect(p) if p == "pw"));
    assert_eq!(
        lines(&l.shown),
        [
            (OutKind::Stderr, "ssh: warning: couldn't save password to keyring: locked"),
            (OutKind::Stdout, "Connecting to u@h:22 …")
        ]
    );
    assert!(matches!(kept(Purpose::Add, &t, "pw".to_string(), Ok(())).step, LoginStep::Save));

    let mut s = state();
    let p = tried(&mut s, &t, Err("refused".to_string()));
    assert_eq!(lines(&p.effects), [(OutKind::Stderr, "ssh: refused")]);
    assert!(s.active_remote.is_none());
    tried(&mut s, &t, Ok(()));
    assert_eq!(s.active_remote.unwrap().mode(), SshMode::Exec);
}

fn connected() -> State {
    let mut s = state();
    let p = cmd_ssh(&mut s, &target("h", 22, "u"));
    assert_eq!(
        lines(&p.effects),
        [(
            OutKind::Stdout,
            "Connected to u@h. Commands run remotely; `mode pty` opens an interactive shell (python, vim, …), `exit` disconnects."
        )]
    );
    assert_eq!(s.remote_terminals.len(), 1);
    s
}

#[test]
fn lines_go_to_the_remote() {
    let mut s = connected();
    let sent = |p: Plan| match p.next {
        Next::RunRemote(t) => t,
        _ => String::new(),
    };
    assert_eq!(sent(run(&mut s, " cd /x ")), "cd /x");
    assert_eq!(sent(run(&mut s, "logs 'a'")), "sudo journalctl -u ''\\''a'\\''' -n 200 --no-pager");
    assert_eq!(
        sent(run(&mut s, "sync it's done")),
        "git add . && git commit -am 'it'\\''s done' && git push"
    );
    assert_eq!(
        lines(&run(&mut s, "sync").effects),
        [(OutKind::Stderr, "sync: commit message required, e.g. sync \"my commit message\"")]
    );
    assert_eq!(
        lines(&run(&mut s, "logs \"\"").effects),
        [(OutKind::Stderr, "logs: service required, e.g. logs gunicorn")]
    );
    assert!(matches!(run(&mut s, "mode pty").next, Next::EnterPty));
    assert!(matches!(run(&mut s, "mode").next, Next::EnterExec));
    assert_eq!(
        lines(&run(&mut s, "mode x").effects),
        [(OutKind::Stderr, "mode: expected `exec` or `pty`, got `x`")]
    );
    for word in ["exit", "quit", "logout", "disconnect"] {
        let mut s = connected();
        let p = run(&mut s, word);
        assert!(matches!(p.next, Next::Done));
        assert!(matches!(p.effects[1], Effect::Disconnect));
        assert_eq!(lines(&p.effects), [(OutKind::Stdout, "ssh: disconnected")]);
        assert!(s.active_remote.is_none());
    }
}

#[test]
fn modes_by_their_names() {
    for a in ["pty", " interactive", "shell "] {
        assert!(matches!(remote_set_mode(a).next, Next::EnterPty));
    }
    for a in ["exec", "cmd", ""] {
        assert!(matches!(remote_set_mode(a).next, Next::EnterExec));
    }
    assert!(remote_sync_command(" ").is_err() && remote_logs_command("\"").is_err());
}

#[test]
fn a_session_tracks_its_directory() {
    let mut r = RemoteSession::new("h", 22, "u");
    assert_eq!((r.label().as_str(), r.host(), r.user(), r.port(), r.cwd()), ("u@h", "h", "u", 22, ""));
    let mark = "\u{1}__SHELL_REMOTE_CWD__\u{1}";
    assert_eq!(r.run_line("ls"), format!("ls\nprintf '%s\\n' '{mark}'; pwd"));
    assert_eq!(r.run(format!("out\nmore\n{mark}\n/it's here\n").as_bytes()).as_deref(), Some("out\nmore"));
    assert_eq!(r.cwd(), "/it's here");
    assert_eq!(
        r.run_line("ls"),
        format!("cd '/it'\\''s here' 2>/dev/null; ls\nprintf '%s\\n' '{mark}'; pwd")
    );
    assert_eq!(r.run(format!("{mark}\n").as_bytes()), None);
    assert_eq!(r.cwd(), "/it's here");
    assert_eq!(r.run(b"no mark\xff").as_deref(), Some("no mark\u{fffd}"));
    assert_eq!(r.run(b""), None);
    assert_eq!(r.run(format!("{mark} x {mark}\n/b").as_bytes()).as_deref(), Some(format!("{mark} x ").as_str()));
    assert_eq!(r.cwd(), "/b");
}

#[test]
fn modes_change_as_the_connection_allows() {
    let mut r = RemoteSession::new("h", 22, "u");
    assert_eq!(SshMode::default(), SshMode::Pty);
    assert_eq!(r.mode_change(SshMode::Exec), ModeChange::Nothing);
    assert_eq!(r.mode_change(SshMode::Pty), ModeChange::OpenTerminal);
    assert!(!r.set_mode(SshMode::Pty, false));
    assert_eq!(r.mode(), SshMode::Exec);
    assert!(r.set_mode(SshMode::Pty, true));
    assert_eq!(r.mode_change(SshMode::Exec), ModeChange::CloseTerminal);
    let mut s = Some(r);
    assert_eq!(
        leave_terminal(&mut s, false).as_deref(),
        Some("ssh: detached to command mode (`mode pty` resumes the interactive shell, `exit` disconnects)")
    );
    assert_eq!(s.as_ref().unwrap().mode(), SshMode::Exec);
    assert_eq!(leave_terminal(&mut s, true).as_deref(), Some("ssh: remote shell exited; disconnected"));
    assert!(s.is_none());
    assert_eq!(leave_terminal(&mut s, true), None);
}

#[test]
fn quoting_survives_the_shell() {
    assert_eq!(escape("it's"), "it'\\''s");
    assert_eq!(escape("''"), "'\\'''\\''");
    assert_eq!(escape("plain"), "plain");
}

#[test]
fn keys_become_bytes() {
    let b = |k: Key, ctrl: bool| key_to_bytes(k, ctrl).unwrap_or_default();
    assert_eq!(b(Key::Char('a'), false), b"a");
    assert_eq!(b(Key::Char('ä'), false), "ä".as_bytes());
    assert_eq!(b(Key::Char('😀'), true), "😀".as_bytes());
    assert_eq!(b(Key::Char('c'), true), [3]);
    assert_eq!(b(Key::Char('Z'), true), [26]);
    assert_eq!(b(Key::Char(' '), true), [0]);
    assert_eq!(b(Key::Char('\\'), true), [0x1c]);
    assert_eq!(b(Key::Char('1'), true), b"1");
    assert_eq!(b(Key::Enter, false), b"\r");
    assert_eq!(b(Key::Backspace, false), [0x7f]);
    assert_eq!(b(Key::Tab, false), b"\t");
    assert_eq!(b(Key::Esc, false), [0x1b]);
    assert_eq!(b(Key::Up, false), b"\x1b[A");
    assert_eq!(b(Key::Down, false), b"\x1b[B");
    assert_eq!(b(Key::Right, false), b"\x1b[C");
    assert_eq!(b(Key::Left, false), b"\x1b[D");
    assert_eq!(b(Key::Home, false), b"\x1b[H");
    assert_eq!(b(Key::End, false), b"\x1b[F");
    assert_eq!(b(Key::Delete, false), b"\x1b[3~");
    assert_eq!(b(Key::PageUp, false), b"\x1b[5~");
    assert_eq!(b(Key::PageDown, false), b"\x1b[6~");
    assert!(key_to_bytes(Key::Other, false).is_none());
}

#[test]
fn terminal_events_lead_to_actions() {
    let press = |key: Key, ctrl: bool, release: bool| {
        terminal_step(TerminalEvent::Key(KeyPress { key, ctrl, release }))
    };
    assert!(matches!(press(Key::Char(']'), true, false), TerminalAction::Detach));
    assert!(matches!(press(Key::Char(']'), false, false), TerminalAction::Send(b) if b == b"]"));
    assert!(matches!(press(Key::Char(']'), true, true), TerminalAction::Nothing));
    assert!(matches!(press(Key::Other, false, false), TerminalAction::Nothing));
    assert!(matches!(terminal_step(TerminalEvent::Resize(80, 24)), TerminalAction::Resize(80, 24)));
    assert!(matches!(terminal_step(TerminalEvent::Other), TerminalAction::Nothing));
}

#[test]
fn passwords_are_typed_unseen() {
    let mut e = PasswordEntry::new();
    let mut press = |key: Key, ctrl: bool, release: bool| e.press(KeyPress { key, ctrl, release });
    assert_eq!(press(Key::Backspace, false, false), Typing::More);
    assert_eq!(press(Key::Char('a'), false, false), Typing::More);
    assert_eq!(press(Key::Char('a'), false, true), Typing::More);
    assert_eq!(press(Key::Char('b'), false, false), Typing::More);
    assert_eq!(press(Key::Backspace, false, false), Typing::More);
    assert_eq!(press(Key::Char('c'), false, false), Typing::More);
    assert_eq!(press(Key::Up, false, false), Typing::More);
    assert_eq!(press(Key::Esc, false, false), Typing::Cancelled);
    assert_eq!(press(Key::Char('c'), true, false), Typing::Cancelled);
    assert_eq!(press(Key::Enter, false, false), Typing::Finished);
    assert_eq!(e.text(), "ac");
}

#[test]
fn the_credential_store_is_answered() {
    assert_eq!(SERVICE, "shell-ssh");
    assert_eq!(account("h", 22, "u"), "u@h:22");
    assert!(delete_password(Forgotten::Removed).is_ok());
    assert!(delete_password(Forgotten::NoEntry).is_ok());
    assert_eq!(delete_password(Forgotten::Failed("x".to_string())).unwrap_err(), "keyring: x");
    assert_eq!(set_password(Err("x".to_string())).unwrap_err(), "keyring: x");
    assert!(set_password(Ok(())).is_ok());
    assert_eq!(get_password(Ok("p".to_string())).as_deref(), Some("p"));
    assert_eq!(get_password(Err("x".to_string())), None);
}

#[test]
fn control_letters_send_codes_of_their_own() {
    let mut codes: Vec<Vec<u8>> = ('a'..='z').filter_map(|c| key_to_bytes(Key::Char(c), true)).collect();
    assert_eq!(codes.len(), 26);
    codes.dedup();
    assert_eq!(codes.len(), 26);
    assert!(codes.iter().all(|c| c.len() == 1 && (1..=26).contains(&c[0])));
}

#[test]
fn connecting_again_saves_a_remote_once() {
    let mut s = state();
    for host in ["a", "b", "a"] {
        cmd_ssh(&mut s, &target(host, 22, "u"));
    }
    let hosts: Vec<_> = s.remote_terminals.iter().map(|r| r.host.as_str()).collect();
    assert_eq!(hosts, ["b", "a"]);
}
