//! Connections to remotes: what to connect to, what to send, and what to make
//! of the reply.

use crate::lists::without;
use crate::num::{decimal, parse_u16, parse_usize, parsed_u16, parsed_usize, show};
use crate::plan::{Next, OutKind, Plan, PlanRow, Target};
use crate::ssh::quote::{escape, escaped};
use crate::ssh::secrets::{account, account_name};
use crate::state::{RemoteRow, RemoteTerminal};
use crate::text::{
    chars_of, first_word, spells, split_at_char, split_first, split_once, split_words, text_of,
    trim, trimmed, words, Class,
};
use crate::util::{
    first_set, is_page, lemma_pages, numbered, numbered_row, page_end, page_heading, page_start,
    page_text, render_page, texts, DISP_PAGE_LEN,
};
use vstd::prelude::*;

pub mod exec;
pub mod interactive;
pub mod login;
pub mod quote;
pub mod secrets;

verus! {

/// How commands reach a remote.
#[derive(Clone, Copy, Debug, PartialEq, Eq, Structural)]
pub enum SshMode {
    /// Each command in a shell of its own, with its output captured.
    Exec,
    /// A terminal with a login shell, with bytes going both ways.
    Pty,
}

impl Default for SshMode {
    fn default() -> (r: SshMode)
        ensures
            r == SshMode::Pty,
    {
        SshMode::Pty
    }
}

/// A connection to a remote, as far as the shell reads it.
#[derive(Debug)]
pub struct RemoteSession {
    pub(crate) user: String,
    pub(crate) host: String,
    pub(crate) port: u16,
    pub(crate) mode: SshMode,
    /// The directory that commands run in. Empty until a command has told it.
    pub(crate) cwd: String,
}

pub ghost struct SessionRow {
    pub user: Seq<char>,
    pub host: Seq<char>,
    pub port: u16,
    pub mode: SshMode,
    pub cwd: Seq<char>,
}

impl DeepView for RemoteSession {
    type V = SessionRow;

    closed spec fn deep_view(&self) -> SessionRow {
        SessionRow {
            user: self.user@,
            host: self.host@,
            port: self.port,
            mode: self.mode,
            cwd: self.cwd@,
        }
    }
}

impl SessionRow {
    /// A connection as it starts: in command mode, with no directory known.
    pub open spec fn fresh(t: Target<Seq<char>>) -> SessionRow {
        SessionRow {
            user: t.user,
            host: t.host,
            port: t.port,
            mode: SshMode::Exec,
            cwd: Seq::empty(),
        }
    }

    /// `user@host`.
    pub open spec fn label(self) -> Seq<char> {
        self.user + "@"@ + self.host
    }
}

/// What changing the mode asks of the connection.
#[derive(Clone, Copy, Debug, PartialEq, Eq, Structural)]
pub enum ModeChange {
    Nothing,
    OpenTerminal,
    CloseTerminal,
}

impl RemoteSession {
    /// The session of a connection that was just made, before a mode is chosen.
    pub fn new(host: &str, port: u16, user: &str) -> (r: RemoteSession)
        ensures
            r.deep_view() == SessionRow::fresh(Target { host: host@, port, user: user@ }),
    {
        RemoteSession {
            user: user.to_owned(),
            host: host.to_owned(),
            port,
            mode: SshMode::Exec,
            cwd: String::new(),
        }
    }

    /// `user@host`, for the prompt.
    pub fn label(&self) -> (r: String)
        ensures
            r@ == self.deep_view().label(),
    {
        self.user.clone().concat("@").concat(&self.host)
    }

    pub fn host(&self) -> (r: &str)
        ensures
            r@ == self.deep_view().host,
    {
        &self.host
    }

    pub fn user(&self) -> (r: &str)
        ensures
            r@ == self.deep_view().user,
    {
        &self.user
    }

    pub fn port(&self) -> (r: u16)
        ensures
            r == self.deep_view().port,
    {
        self.port
    }

    pub fn mode(&self) -> (r: SshMode)
        ensures
            r == self.deep_view().mode,
    {
        self.mode
    }

    /// The directory that commands run in; empty before the first command.
    pub fn cwd(&self) -> (r: &str)
        ensures
            r@ == self.deep_view().cwd,
    {
        &self.cwd
    }

    /// What the connection has to do to get to a mode.
    pub fn mode_change(&self, mode: SshMode) -> (r: ModeChange)
        ensures
            r == (if mode == self.deep_view().mode {
                ModeChange::Nothing
            } else if mode == SshMode::Pty {
                ModeChange::OpenTerminal
            } else {
                ModeChange::CloseTerminal
            }),
            r == change_needed(self.deep_view().mode, mode),
    {
        if mode == self.mode {
            ModeChange::Nothing
        } else {
            match mode {
                SshMode::Pty => ModeChange::OpenTerminal,
                SshMode::Exec => ModeChange::CloseTerminal,
            }
        }
    }

    /// Switch the mode. `opened` tells whether the terminal could be opened,
    /// where [`RemoteSession::mode_change`] asked for it. Where it could not, the
    /// mode stays.
    pub fn set_mode(&mut self, mode: SshMode, opened: bool) -> (r: bool)
        ensures
            r == (mode == old(self).deep_view().mode || mode == SshMode::Exec || opened),
            final(self).deep_view() == (SessionRow {
                mode: if r {
                    mode
                } else {
                    old(self).deep_view().mode
                },
                ..old(self).deep_view()
            }),
            (final(self).deep_view(), r) == switched(old(self).deep_view(), mode, opened),
    {
        if mode == self.mode {
            return true;
        }
        match mode {
            SshMode::Pty => if !opened {
                return false;
            },
            SshMode::Exec => {},
        }
        self.mode = mode;
        true
    }
}

// ---- targets ----

/// What has to be done to get from one mode to another.
pub open spec fn change_needed(from: SshMode, to: SshMode) -> ModeChange {
    if from == to {
        ModeChange::Nothing
    } else if to == SshMode::Pty {
        ModeChange::OpenTerminal
    } else {
        ModeChange::CloseTerminal
    }
}

/// A session after a switch of its mode, and whether it is in that mode then.
pub open spec fn switched(s: SessionRow, mode: SshMode, opened: bool) -> (SessionRow, bool) {
    if mode == s.mode || mode == SshMode::Exec || opened {
        (SessionRow { mode, ..s }, true)
    } else {
        (s, false)
    }
}

/// A terminal is opened to get into terminal mode and closed to get out of it,
/// and nothing is done for the mode that a session is in. A session changes its
/// mode, and nothing else, unless a terminal was needed and could not be opened.
pub proof fn modes_change_as_asked(s: SessionRow, mode: SshMode, opened: bool)
    ensures
        change_needed(s.mode, mode) == ModeChange::Nothing <==> mode == s.mode,
        change_needed(s.mode, mode) == ModeChange::OpenTerminal <==> mode != s.mode && mode
            == SshMode::Pty,
        ({
            let (after, done) = switched(s, mode, opened);
            let refused = change_needed(s.mode, mode) == ModeChange::OpenTerminal && !opened;
            &&& done == !refused
            &&& after.mode == (if refused {
                s.mode
            } else {
                mode
            })
            &&& after.host == s.host && after.port == s.port && after.user == s.user && after.cwd
                == s.cwd
        }),
{
}

/// The account that is used where none is given: the first of the two that is
/// set, or else `root`.
pub fn default_user(username: Option<String>, user: Option<String>) -> (r: String)
    ensures
        r@ == match (username, user) {
            (Some(u), _) => u@,
            (None, Some(u)) => u@,
            (None, None) => "root"@,
        },
        first_set(username.deep_view(), user.deep_view()) is Some ==> Some(r@) == first_set(
            username.deep_view(),
            user.deep_view(),
        ),
{
    match username {
        Some(u) => u,
        None => match user {
            Some(u) => u,
            None => "root".to_owned(),
        },
    }
}

/// The host, port and user that a `[user@]host[:port] [port]` text names. A port
/// behind the text wins over one in it; without any it is 22.
pub open spec fn spec_target(spec: Seq<char>, default_user: Seq<char>) -> Target<Seq<char>> {
    let (target, rest) = first_word(spec);
    let given = if words(rest).len() > 0 {
        parsed_u16(words(rest)[0])
    } else {
        None
    };
    let (user, hostport) = match split_at_char(target, '@') {
        Some((u, h)) => (u, h),
        None => (default_user, target),
    };
    let (host, port) = match split_at_char(hostport, ':') {
        Some((h, p)) => (
            h,
            match parsed_u16(p) {
                Some(n) => n,
                None => 22,
            },
        ),
        None => (hostport, 22),
    };
    Target {
        host,
        port: match given {
            Some(n) => n as u16,
            None => port as u16,
        },
        user,
    }
}

fn given_port(rest: &[char]) -> (r: Option<u16>)
    ensures
        match r {
            Some(n) => words(rest@).len() > 0 && parsed_u16(words(rest@)[0]) == Some(n as int),
            None => words(rest@).len() == 0 || parsed_u16(words(rest@)[0]) is None,
        },
{
    let ws = split_words(rest);
    if ws.len() > 0 {
        parse_u16(ws[0])
    } else {
        None
    }
}

/// See [`spec_target`].
pub fn parse_remote_spec(spec: &str, default_user: &str) -> (r: Target<String>)
    ensures
        r.deep_view() == spec_target(spec@, default_user@),
{
    let v = chars_of(spec);
    let (target, rest) = split_first(&v);
    let given = given_port(rest);
    let d = chars_of(default_user);
    let (user, hostport): (&[char], &[char]) = match split_once(target, '@') {
        Some((u, h)) => (u, h),
        None => (&d, target),
    };
    let (host, port): (&[char], u16) = match split_once(hostport, ':') {
        Some((h, p)) => (
            h,
            match parse_u16(p) {
                Some(n) => n,
                None => 22,
            },
        ),
        None => (hostport, 22),
    };
    Target {
        host: text_of(host),
        port: match given {
            Some(n) => n,
            None => port,
        },
        user: text_of(user),
    }
}

/// What `ssh` connects to, or what it says is wrong.
pub open spec fn ssh_target(
    remotes: Seq<RemoteRow>,
    args: Seq<char>,
    default_user: Seq<char>,
) -> Result<Target<Seq<char>>, Seq<char>> {
    let a = trimmed(args, Class::White);
    if a.len() == 0 {
        Err(
            "ssh: usage: ssh [user@]host [port]  |  ssh <saved-index>  (see `remote list`)"@,
        )
    } else {
        match parsed_usize(a) {
            Some(i) => if i < remotes.len() {
                let r = remotes[i];
                Ok(Target { host: r.host, port: r.port, user: r.username })
            } else {
                Err(
                    "ssh: no saved remote at index "@ + decimal(i as nat)
                        + " (see `remote list`)"@,
                )
            },
            None => Ok(spec_target(a, default_user)),
        }
    }
}

/// What `ssh` connects to: a saved remote by its number, or the remote that the
/// text spells out. Else what to say.
pub fn resolve_ssh_target(remotes: &[RemoteTerminal], args: &str, default_user: &str) -> (r: Result<
    Target<String>,
    String,
>)
    ensures
        match r {
            Ok(t) => ssh_target(remotes.deep_view(), args@, default_user@) == Ok::<
                Target<Seq<char>>,
                Seq<char>,
            >(t.deep_view()),
            Err(e) => ssh_target(remotes.deep_view(), args@, default_user@) == Err::<
                Target<Seq<char>>,
                Seq<char>,
            >(e@),
        },
{
    let v = chars_of(args);
    let a = trim(&v, Class::White);
    if a.len() == 0 {
        return Err(
            "ssh: usage: ssh [user@]host [port]  |  ssh <saved-index>  (see `remote list`)".to_owned(),
        );
    }
    match parse_usize(a) {
        Some(i) => if i < remotes.len() {
            let r = &remotes[i];
            assert(remotes.deep_view()[i as int] == r.deep_view());
            Ok(Target { host: r.host.clone(), port: r.port, user: r.username.clone() })
        } else {
            Err(
                "ssh: no saved remote at index ".to_owned().concat(&show(i as u64)).concat(
                    " (see `remote list`)",
                ),
            )
        },
        None => Ok(parse_remote_spec(&text_of(a), default_user)),
    }
}

// ---- saved remotes ----

pub open spec fn same_remote(t: Target<Seq<char>>) -> spec_fn(RemoteRow) -> bool {
    |r: RemoteRow| r.host == t.host && r.port == t.port && r.username == t.user
}

/// The saved remotes with one at the end, and nowhere else.
pub open spec fn with_remote(list: Seq<RemoteRow>, t: Target<Seq<char>>) -> Seq<RemoteRow> {
    without(list, same_remote(t)).push(
        RemoteRow { host: t.host, port: t.port, username: t.user },
    )
}

/// Save a remote. One that is there already moves to the end.
pub fn record_remote(list: &mut Vec<RemoteTerminal>, host: &str, port: u16, user: &str)
    ensures
        final(list).deep_view() == with_remote(
            old(list).deep_view(),
            Target { host: host@, port, user: user@ },
        ),
{
    let ghost start = list.deep_view();
    let ghost gone = same_remote(Target { host: host@, port, user: user@ });
    let host_text = host.to_owned();
    let user_text = user.to_owned();
    let mut i: usize = 0;
    let ghost mut seen: int = 0;
    assert(start.skip(0) =~= start);
    assert(without(start.take(0), gone) + start.skip(0) =~= start);
    while i < list.len()
        invariant
            gone == same_remote(Target { host: host@, port, user: user@ }),
            host_text@ == host@,
            user_text@ == user@,
            0 <= seen <= start.len(),
            i <= list@.len(),
            i == without(start.take(seen), gone).len(),
            list.deep_view() == without(start.take(seen), gone) + start.skip(seen),
        decreases list@.len() - i,
    {
        let ghost before = list.deep_view();
        let ghost kept = without(start.take(seen), gone);
        proof {
            assert(before.len() == list@.len());
            assert(before[i as int] == start.skip(seen)[0]);
            assert(list@[i as int].deep_view() == before[i as int]);
            assert(start.take(seen + 1).drop_last() =~= start.take(seen));
            assert(start.take(seen + 1).last() == start[seen]);
        }
        if list[i].host == host_text && list[i].port == port && list[i].username == user_text {
            let _ = list.remove(i);
            proof {
                assert(list.deep_view() =~= before.remove(i as int));
                assert(list.deep_view() =~= kept + start.skip(seen + 1));
            }
        } else {
            i = i + 1;
            proof {
                assert(kept.push(start[seen]) + start.skip(seen + 1) =~= kept + start.skip(seen));
            }
        }
        proof {
            seen = seen + 1;
        }
    }
    proof {
        assert(list.deep_view().len() == list@.len());
        assert(start.take(seen) =~= start);
        assert(list.deep_view() =~= without(start, gone));
    }
    let ghost kept = list.deep_view();
    list.push(RemoteTerminal { host: host_text, port, username: user_text });
    assert(list.deep_view() =~= kept.push(RemoteRow { host: host@, port, username: user@ }));
}

/// A page of the saved remotes.
pub open spec fn remotes_page(list: Seq<RemoteRow>, page: int) -> Seq<char> {
    let per_page = DISP_PAGE_LEN as int;
    let total = list.len() as int;
    let start = page_start(total, page, per_page);
    page_text(
        page_heading(
            "Remotes"@,
            "Ctrl+R again: older page"@,
            "Use `ssh <number>` to connect, `remote del <number>` to delete; e.g. `ssh 0`"@,
            total,
            page,
            per_page,
        ),
        "(no saved remotes — add one with `remote add user@host`)"@,
        total,
        Seq::new(
            (page_end(total, page, per_page) - start) as nat,
            |k: int|
                numbered(
                    start + k,
                    account_name(
                        list[start + k].host,
                        list[start + k].port,
                        list[start + k].username,
                    ),
                ),
        ),
    )
}

/// One page of the saved remotes.
pub fn render_remotes(remotes: &[RemoteTerminal], page: usize) -> (r: String)
    ensures
        r@ == remotes_page(remotes.deep_view(), page as int),
{
    let row = |i: usize, t: &RemoteTerminal| -> (s: String)
        ensures
            s@ == numbered(i as int, account_name(t.host@, t.port, t.username@)),
        { numbered_row(i, &account(&t.host, t.port, &t.username)) };
    let r = render_page(
        "Remotes",
        "Ctrl+R again: older page",
        "Use `ssh <number>` to connect, `remote del <number>` to delete; e.g. `ssh 0`",
        "(no saved remotes — add one with `remote add user@host`)",
        remotes,
        page,
        DISP_PAGE_LEN,
        row,
    );
    proof {
        let list = remotes.deep_view();
        let total = list.len() as int;
        let per_page = DISP_PAGE_LEN as int;
        lemma_pages(total, page as int, per_page);
        let start = page_start(total, page as int, per_page);
        let rows = choose|rows: Seq<String>| #[trigger]
            is_page(remotes@, page as int, per_page, row, rows) && r@ == page_text(
                page_heading(
                    "Remotes"@,
                    "Ctrl+R again: older page"@,
                    "Use `ssh <number>` to connect, `remote del <number>` to delete; e.g. `ssh 0`"@,
                    total,
                    page as int,
                    per_page,
                ),
                "(no saved remotes — add one with `remote add user@host`)"@,
                total,
                texts(rows),
            );
        assert forall|k: int| 0 <= k < rows.len() implies (#[trigger] texts(rows)[k]) == numbered(
            start + k,
            account_name(list[start + k].host, list[start + k].port, list[start + k].username),
        ) by {
            assert(start + k < remotes.len());
            assert(list[start + k] == remotes@[start + k].deep_view());
            assert(rows[k]@ == texts(rows)[k]);
        }
        assert(texts(rows) =~= Seq::new(
            (page_end(total, page as int, per_page) - start) as nat,
            |k: int|
                numbered(
                    start + k,
                    account_name(
                        list[start + k].host,
                        list[start + k].port,
                        list[start + k].username,
                    ),
                ),
        ));
    }
    r
}

// ---- built-in commands on a remote ----

/// An argument without white space and then quotation marks around it.
pub open spec fn bare_argument(s: Seq<char>) -> Seq<char> {
    trimmed(trimmed(s, Class::White), Class::One('"'))
}

/// See [`bare_argument`].
pub fn strip_argument(s: &str) -> (r: String)
    ensures
        r@ == bare_argument(s@),
{
    let v = chars_of(s);
    text_of(trim(trim(&v, Class::White), Class::One('"')))
}

/// The line that `sync` runs on a remote, or what it says is missing.
pub open spec fn remote_sync(message: Seq<char>) -> Result<Seq<char>, Seq<char>> {
    let m = bare_argument(message);
    if m.len() == 0 {
        Err("sync: commit message required, e.g. sync \"my commit message\""@)
    } else {
        Ok("git add . && git commit -am '"@ + escaped(m) + "' && git push"@)
    }
}

/// See [`remote_sync`].
pub fn remote_sync_command(message: &str) -> (r: Result<String, String>)
    ensures
        match r {
            Ok(t) => remote_sync(message@) == Ok::<Seq<char>, Seq<char>>(t@),
            Err(e) => remote_sync(message@) == Err::<Seq<char>, Seq<char>>(e@),
        },
{
    let m = strip_argument(message);
    if chars_of(&m).len() == 0 {
        Err("sync: commit message required, e.g. sync \"my commit message\"".to_owned())
    } else {
        Ok(
            "git add . && git commit -am '".to_owned().concat(&escape(&m)).concat(
                "' && git push",
            ),
        )
    }
}

/// The line that `logs` runs on a remote, or what it says is missing.
pub open spec fn remote_logs(service: Seq<char>) -> Result<Seq<char>, Seq<char>> {
    let s = bare_argument(service);
    if s.len() == 0 {
        Err("logs: service required, e.g. logs gunicorn"@)
    } else {
        Ok("sudo journalctl -u '"@ + escaped(s) + "' -n 200 --no-pager"@)
    }
}

/// See [`remote_logs`].
pub fn remote_logs_command(service: &str) -> (r: Result<String, String>)
    ensures
        match r {
            Ok(t) => remote_logs(service@) == Ok::<Seq<char>, Seq<char>>(t@),
            Err(e) => remote_logs(service@) == Err::<Seq<char>, Seq<char>>(e@),
        },
{
    let s = strip_argument(service);
    if chars_of(&s).len() == 0 {
        Err("logs: service required, e.g. logs gunicorn".to_owned())
    } else {
        Ok(
            "sudo journalctl -u '".to_owned().concat(&escape(&s)).concat(
                "' -n 200 --no-pager",
            ),
        )
    }
}

/// What `mode` asks for on a remote.
pub open spec fn mode_plan(args: Seq<char>) -> PlanRow {
    let a = trimmed(args, Class::White);
    if a == "pty"@ || a == "interactive"@ || a == "shell"@ {
        PlanRow::just(Next::EnterPty)
    } else if a == "exec"@ || a == "cmd"@ || a == ""@ {
        PlanRow::just(Next::EnterExec)
    } else {
        PlanRow::line(OutKind::Stderr, "mode: expected `exec` or `pty`, got `"@ + a + "`"@)
    }
}

/// See [`mode_plan`].
pub fn remote_set_mode(args: &str) -> (r: Plan)
    ensures
        r.deep_view() == mode_plan(args@),
{
    let v = chars_of(args);
    let a = trim(&v, Class::White);
    if spells(a, "pty") || spells(a, "interactive") || spells(a, "shell") {
        Plan::just(Next::EnterPty)
    } else if spells(a, "exec") || spells(a, "cmd") || spells(a, "") {
        Plan::just(Next::EnterExec)
    } else {
        Plan::line(
            OutKind::Stderr,
            "mode: expected `exec` or `pty`, got `".to_owned().concat(&text_of(a)).concat("`"),
        )
    }
}

} // verus!
