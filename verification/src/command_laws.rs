//! What holds of every command line.

use crate::commands::{
    added_outcome, bm_plan, cd_plan, command_of, command_outcome, connected_outcome, del_outcome,
    hisd_plan, local_line_outcome, moved_outcome, recall_plan, recorded, remote_line_outcome,
    save_of, DirChange, FactsRow,
};
use crate::lists::{without, without_is_exact};
use crate::num::{
    all_digits, decimal, decimal_round_trip, is_digit, lemma_decimal, parsed_usize, value_of,
};
use crate::path::path_eq;
use crate::plan::{Effect, Mover, Next, OutKind, PlanRow, Target};
use crate::ssh::{same_remote, ssh_target, with_remote};
use crate::state::{
    distinct_commands, distinct_paths, recording_keeps_commands_distinct,
    recording_keeps_paths_distinct, with_command, with_recent, HistoryRow, RecentRow, RemoteRow,
    StateRow,
};
use crate::text::{first_word, lemma_trimmed_clean, starts, trimmed, without_prefix, Class};
use vstd::prelude::*;

verus! {

/// The words that work on the history and are not recorded themselves.
pub open spec fn recalls(cmd: Seq<char>) -> bool {
    cmd == "his"@ || cmd == "hist"@ || cmd == "this"@ || cmd == "hisd"@
}

/// The line that an input holds.
pub open spec fn line_of(input: Seq<char>) -> Seq<char> {
    trimmed(input, Class::White)
}

/// No two saved remotes are the same.
pub open spec fn distinct_remotes(list: Seq<RemoteRow>) -> bool {
    forall|i: int, j: int| 0 <= i < j < list.len() ==> #[trigger] list[i] != #[trigger] list[j]
}

/// What every state of the shell keeps: no repeated commands in a directory, no
/// repeated directories, no repeated remotes.
pub open spec fn tidy(s: StateRow) -> bool {
    distinct_commands(s.history, s.windows) && distinct_paths(
        s.recent_dirs,
        s.windows,
    ) && distinct_remotes(
        s.remote_terminals,
    )
}

/// A blank line does nothing.
pub proof fn blank_lines_do_nothing(s: StateRow, input: Seq<char>, f: FactsRow)
    requires
        line_of(input).len() == 0,
    ensures
        command_outcome(s, input, f).state == s,
        command_outcome(s, input, f).plan == PlanRow::just(Next::Done),
{
}

/// Asking for a page of the history, or for an entry to be run again, leaves the
/// state as it is: only what is then run is recorded.
pub proof fn recalls_are_not_recorded(s: StateRow, input: Seq<char>, f: FactsRow)
    requires
        recalls(command_of(input).0),
    ensures
        command_outcome(s, input, f).state == s,
{
}

/// Every other line is the newest entry of the history, with the directory it
/// was typed in, and the state file is written with it before anything else is
/// done.
pub proof fn commands_are_recorded_first(s: StateRow, input: Seq<char>, f: FactsRow)
    requires
        line_of(input).len() > 0,
        !recalls(command_of(input).0),
    ensures
        ({
            let o = command_outcome(s, input, f);
            &&& o.state.history.len() > 0
            &&& o.state.history.last() == (HistoryRow {
                text: line_of(input),
                dir: s.cwd,
                dt: f.now,
            })
            &&& o.plan.effects.len() > 0
            &&& o.plan.effects[0] == save_of(
                recorded(s, line_of(input), command_of(input).0, f.now),
                "warning: failed to save state: "@,
            )
        }),
{
    let line = line_of(input);
    let (cmd, args) = first_word(line);
    let t = recorded(s, line, cmd, f.now);
    let o = if t.active_remote is Some {
        remote_line_outcome(t, line, cmd, args)
    } else {
        local_line_outcome(t, line, cmd, args, f)
    };
    assert(o.state.history == t.history);
}

/// With a remote connected, what is not a word of the connection is sent there
/// as it is.
pub proof fn other_lines_go_to_the_remote(s: StateRow, input: Seq<char>, f: FactsRow)
    requires
        s.active_remote is Some,
        line_of(input).len() > 0,
        !recalls(command_of(input).0),
        ({
            let c = command_of(input).0;
            c != "exit"@ && c != "quit"@ && c != "logout"@ && c != "disconnect"@ && c != "mode"@
                && c != "logs"@ && c != "sync"@
        }),
    ensures
        command_outcome(s, input, f).plan.next == Next::RunRemote(line_of(input)),
        command_outcome(s, input, f).state.active_remote == s.active_remote,
{
}

/// With a remote connected, `exit` closes the connection and not the shell.
pub proof fn exit_leaves_the_remote_first(s: StateRow, input: Seq<char>, f: FactsRow)
    requires
        s.active_remote is Some,
        command_of(input).0 == "exit"@ || command_of(input).0 == "quit"@,
        line_of(input).len() > 0,
    ensures
        command_outcome(s, input, f).plan.next == Next::<Seq<char>>::Done,
        command_outcome(s, input, f).state.active_remote is None,
        command_outcome(s, input, f).plan.effects.contains(Effect::Disconnect),
{
    reveal_strlit("exit");
    reveal_strlit("quit");
    reveal_strlit("his");
    reveal_strlit("hist");
    reveal_strlit("this");
    reveal_strlit("hisd");
    assert("exit"@[0] == 'e' && "quit"@[0] == 'q');
    assert("hist"@[0] == 'h' && "this"@[0] == 't' && "hisd"@[0] == 'h' && "his"@[0] == 'h');
    assert(!recalls(command_of(input).0));
    assert(command_outcome(s, input, f).plan.effects[1] == Effect::<Seq<char>>::Disconnect);
}

proof fn lemma_remove_keeps_remotes(list: Seq<RemoteRow>, i: int)
    requires
        distinct_remotes(list),
        0 <= i < list.len(),
    ensures
        distinct_remotes(list.remove(i)),
{
    let r = list.remove(i);
    assert forall|a: int, b: int| 0 <= a < b < r.len() implies #[trigger] r[a]
        != #[trigger] r[b] by {
        let x = if a < i {
            a
        } else {
            a + 1
        };
        let y = if b < i {
            b
        } else {
            b + 1
        };
        assert(r[a] == list[x] && r[b] == list[y]);
    }
}

proof fn lemma_remove_keeps_paths(list: Seq<RecentRow>, i: int, windows: bool)
    requires
        distinct_paths(list, windows),
        0 <= i < list.len(),
    ensures
        distinct_paths(list.remove(i), windows),
{
    let r = list.remove(i);
    assert forall|a: int, b: int| 0 <= a < b < r.len() implies !path_eq(
        (#[trigger] r[a]).path,
        (#[trigger] r[b]).path,
        windows,
    ) by {
        let x = if a < i {
            a
        } else {
            a + 1
        };
        let y = if b < i {
            b
        } else {
            b + 1
        };
        assert(r[a] == list[x] && r[b] == list[y]);
    }
}

proof fn lemma_without_keeps_remotes(list: Seq<RemoteRow>, f: spec_fn(RemoteRow) -> bool)
    requires
        distinct_remotes(list),
    ensures
        distinct_remotes(without(list, f)),
    decreases list.len(),
{
    if list.len() > 0 {
        let t = list.drop_last();
        let r = without(list, f);
        let q = without(t, f);
        lemma_without_keeps_remotes(t, f);
        without_is_exact(t, f);
        assert forall|i: int, j: int| 0 <= i < j < r.len() implies #[trigger] r[i]
            != #[trigger] r[j] by {
            if j < q.len() {
                assert(r[i] == q[i] && r[j] == q[j]);
            } else {
                assert(r[i] == q[i]);
                assert(t.contains(q[i]));
                let x = choose|x: int| 0 <= x < t.len() && t[x] == q[i];
                assert(list[x] == q[i] && list[list.len() - 1] == r[j]);
            }
        }
    }
}

/// Saving a remote keeps the saved remotes free of repeats, with the one just
/// saved at the end.
pub proof fn saving_keeps_remotes_distinct(list: Seq<RemoteRow>, t: Target<Seq<char>>)
    requires
        distinct_remotes(list),
    ensures
        distinct_remotes(with_remote(list, t)),
        with_remote(list, t).last() == (RemoteRow { host: t.host, port: t.port, username: t.user }),
{
    let f = same_remote(t);
    let q = without(list, f);
    let r = with_remote(list, t);
    lemma_without_keeps_remotes(list, f);
    without_is_exact(list, f);
    assert forall|i: int, j: int| 0 <= i < j < r.len() implies #[trigger] r[i] != #[trigger] r[j] by {
        assert(r[i] == q[i]);
        if j < q.len() {
            assert(r[j] == q[j]);
        } else {
            assert(!f(q[i]));
        }
    }
}

proof fn lemma_record_keeps_tidy(s: StateRow, f: FactsRow, line: Seq<char>, cmd: Seq<char>)
    requires
        tidy(s),
    ensures
        tidy(recorded(s, line, cmd, f.now)),
{
    recording_keeps_commands_distinct(
        s.history,
        HistoryRow { text: line, dir: s.cwd, dt: f.now },
        s.windows,
    );
    recording_keeps_paths_distinct(s.recent_dirs, RecentRow { path: s.cwd, dt: f.now }, s.windows);
}

/// No command line brings a repeat into the lists.
pub proof fn commands_keep_the_lists_tidy(s: StateRow, input: Seq<char>, f: FactsRow)
    requires
        tidy(s),
    ensures
        tidy(command_outcome(s, input, f).state),
{
    let line = line_of(input);
    let (cmd, args) = first_word(line);
    lemma_record_keeps_tidy(s, f, line, cmd);
    let t = recorded(s, line, cmd, f.now);
    let o = local_line_outcome(t, line, cmd, args, f);
    assert(o.state.history == t.history && o.state.recent_dirs == t.recent_dirs);
    let (_, rest) = first_word(args);
    match parsed_usize(rest) {
        Some(i) => {
            if i < t.remote_terminals.len() && 0 <= i {
                lemma_remove_keeps_remotes(t.remote_terminals, i);
            }
        },
        None => {},
    }
    lemma_parsed_is_nat(rest);
    assert(distinct_remotes(o.state.remote_terminals));
}

proof fn lemma_parsed_is_nat(s: Seq<char>)
    ensures
        match parsed_usize(s) {
            Some(i) => 0 <= i,
            None => true,
        },
{
    let d = if s.len() > 0 && s[0] == '+' {
        s.skip(1)
    } else {
        s
    };
    if all_digits(d) {
        lemma_value_is_nat(d);
    }
}

proof fn lemma_value_is_nat(s: Seq<char>)
    requires
        all_digits(s),
    ensures
        0 <= value_of(s),
    decreases s.len(),
{
    if s.len() > 0 {
        let t = s.drop_last();
        assert forall|i: int| 0 <= i < t.len() implies is_digit(#[trigger] t[i]) by {
            assert(t[i] == s[i]);
        }
        lemma_value_is_nat(t);
        assert(is_digit(s[s.len() - 1]));
    }
}

/// Nor does what follows a command: a change of directory, a connection, or a
/// remote that is saved.
pub proof fn continuations_keep_the_lists_tidy(
    s: StateRow,
    target: Seq<char>,
    recent: Option<usize>,
    mover: Mover,
    change: DirChange,
    remote: Target<Seq<char>>,
)
    requires
        tidy(s),
    ensures
        tidy(moved_outcome(s, target, recent, mover, change).state),
        tidy(connected_outcome(s, remote).state),
        tidy(added_outcome(s, remote).state),
{
    saving_keeps_remotes_distinct(s.remote_terminals, remote);
    match recent {
        Some(i) => {
            if i < s.recent_dirs.len() {
                lemma_remove_keeps_paths(s.recent_dirs, i as int, s.windows);
            }
        },
        None => {},
    }
}

/// A change of directory that fails, other than because the directory does not
/// exist, changes nothing.
pub proof fn failed_moves_change_nothing(
    s: StateRow,
    target: Seq<char>,
    recent: Option<usize>,
    mover: Mover,
    message: String,
)
    ensures
        moved_outcome(
            s,
            target,
            recent,
            mover,
            DirChange::Failed { not_found: false, message },
        ).state == s,
{
}

proof fn lemma_number(i: nat)
    requires
        i <= usize::MAX,
    ensures
        parsed_usize(decimal(i)) == Some(i as int),
        decimal(i).len() > 0,
        without_prefix(decimal(i), "p"@) is None,
        trimmed(decimal(i), Class::White) == decimal(i),
{
    decimal_round_trip(i, usize::MAX as int);
    lemma_decimal(i);
    reveal_strlit("p");
    let d = decimal(i);
    assert(is_digit(d[0]) && is_digit(d.last()));
    if starts(d, "p"@) {
        assert(d.take(1)[0] == "p"@[0]);
    }
    lemma_trimmed_clean(d, Class::White);
}

/// The number that a list shows for an entry names that entry in the commands:
/// `his`, `this` and `hisd` run the command with it, `cd` and `bm` go to the
/// directory with it, and `ssh` connects to the remote with it.
pub proof fn shown_numbers_name_their_entries(s: StateRow, cmd: Seq<char>, i: nat, user: Seq<char>)
    requires
        i <= usize::MAX,
    ensures
        i < s.history.len() ==> recall_plan(s, cmd, decimal(i), None).next == Next::Rerun(
            s.history[i as int].text,
        ),
        i < s.history.len() && path_eq(s.history[i as int].dir, s.cwd, s.windows) ==> recall_plan(
            s,
            cmd,
            decimal(i),
            Some(s.cwd),
        ).next == Next::Rerun(s.history[i as int].text),
        i < s.history.len() ==> hisd_plan(s, decimal(i)).next == (Next::RunIn {
            line: s.history[i as int].text,
            dir: s.history[i as int].dir,
        }),
        forall|present: bool|
            i < s.recent_dirs.len() ==> (#[trigger] cd_plan(s, decimal(i), present)).next == (
            Next::ChangeDir {
                target: s.recent_dirs[i as int].path,
                recent: Some(i as usize),
                mover: Mover::Cd,
            }),
        i < s.dir_bookmarks.len() ==> bm_plan(s, decimal(i)).next == (Next::ChangeDir {
            target: s.dir_bookmarks[i as int],
            recent: None,
            mover: Mover::Bm,
        }),
        i < s.remote_terminals.len() ==> ssh_target(s.remote_terminals, decimal(i), user) == Ok::<
            Target<Seq<char>>,
            Seq<char>,
        >(
            Target {
                host: s.remote_terminals[i as int].host,
                port: s.remote_terminals[i as int].port,
                user: s.remote_terminals[i as int].username,
            },
        ),
{
    lemma_number(i);
}

/// A number that no entry has is answered on the error stream, and nothing is
/// run or changed.
pub proof fn missing_numbers_are_refused(s: StateRow, cmd: Seq<char>, i: nat, user: Seq<char>)
    requires
        i <= usize::MAX,
    ensures
        i >= s.history.len() ==> recall_plan(s, cmd, decimal(i), None) == PlanRow::line(
            OutKind::Stderr,
            cmd + ": no history item at index "@ + decimal(i),
        ),
        i >= s.history.len() ==> hisd_plan(s, decimal(i)) == PlanRow::line(
            OutKind::Stderr,
            "hisd: no history item at index "@ + decimal(i),
        ),
        forall|present: bool|
            i >= s.recent_dirs.len() ==> #[trigger] cd_plan(s, decimal(i), present)
                == PlanRow::line(
                OutKind::Stderr,
                "cd: no recent directory at index "@ + decimal(i),
            ),
        i >= s.dir_bookmarks.len() ==> bm_plan(s, decimal(i)) == PlanRow::line(
            OutKind::Stderr,
            "bm: no bookmark at index "@ + decimal(i),
        ),
        i >= s.remote_terminals.len() ==> ssh_target(s.remote_terminals, decimal(i), user) == Err::<
            Target<Seq<char>>,
            Seq<char>,
        >("ssh: no saved remote at index "@ + decimal(i) + " (see `remote list`)"@),
{
    lemma_number(i);
}

/// A line changes only what it is for: only `del` changes the bookmarks, only
/// `remote` the saved remotes, and only a word that leaves a remote ends a
/// connection. Where the shell is, and what else it has loaded, stays as it is.
pub proof fn commands_change_only_what_they_are_for(s: StateRow, input: Seq<char>, f: FactsRow)
    ensures
        ({
            let t = command_outcome(s, input, f).state;
            let cmd = command_of(input).0;
            let leaves = cmd == "exit"@ || cmd == "quit"@ || cmd == "logout"@ || cmd
                == "disconnect"@;
            &&& cmd != "del"@ || s.active_remote is Some ==> t.dir_bookmarks == s.dir_bookmarks
            &&& cmd != "remote"@ || s.active_remote is Some ==> t.remote_terminals
                == s.remote_terminals
            &&& !leaves ==> t.active_remote == s.active_remote
            &&& s.active_remote is None ==> t.active_remote is None
            &&& t.cwd == s.cwd && t.home == s.home && t.windows == s.windows
            &&& t.branch == s.branch && t.browser_files == s.browser_files
            &&& t.panel_vis == s.panel_vis && t.window_size == s.window_size
            &&& t.open_tabs == s.open_tabs && t.font_size == s.font_size
        }),
{
    let line = line_of(input);
    let (cmd, args) = first_word(line);
    let r = recorded(s, line, cmd, f.now);
    let o = local_line_outcome(r, line, cmd, args, f);
    assert(cmd != "del"@ ==> o.state.dir_bookmarks == s.dir_bookmarks);
    assert(cmd != "remote"@ ==> o.state.remote_terminals == s.remote_terminals);
}

/// With every line but those about the history the current directory becomes the
/// newest recent directory, unless the line is a `cd`; then the recent directories
/// stay as they are.
pub proof fn commands_record_their_directory(s: StateRow, input: Seq<char>, f: FactsRow)
    requires
        line_of(input).len() > 0,
        !recalls(command_of(input).0),
    ensures
        ({
            let t = command_outcome(s, input, f).state;
            &&& command_of(input).0 == "cd"@ ==> t.recent_dirs == s.recent_dirs
            &&& command_of(input).0 != "cd"@ ==> t.recent_dirs == with_recent(
                s.recent_dirs,
                RecentRow { path: s.cwd, dt: f.now },
                s.windows,
            )
            &&& t.history == with_command(
                s.history,
                HistoryRow { text: line_of(input), dir: s.cwd, dt: f.now },
                s.windows,
            )
        }),
{
    let line = line_of(input);
    let (cmd, args) = first_word(line);
    let r = recorded(s, line, cmd, f.now);
    let o = local_line_outcome(r, line, cmd, args, f);
    assert(o.state.recent_dirs == r.recent_dirs && o.state.history == r.history);
}

/// With a remote connected, `logout` and `disconnect` close the connection as
/// `exit` and `quit` do, and leave the shell running.
pub proof fn leaving_words_close_the_connection(s: StateRow, input: Seq<char>, f: FactsRow)
    requires
        s.active_remote is Some,
        command_of(input).0 == "logout"@ || command_of(input).0 == "disconnect"@,
        line_of(input).len() > 0,
    ensures
        command_outcome(s, input, f).plan.next == Next::<Seq<char>>::Done,
        command_outcome(s, input, f).state.active_remote is None,
        command_outcome(s, input, f).plan.effects.contains(Effect::Disconnect),
{
    crate::line_laws::lemma_command_words();
    assert(!recalls(command_of(input).0));
    assert(command_outcome(s, input, f).plan.effects[1] == Effect::<Seq<char>>::Disconnect);
}

/// `del` deletes nothing unless it is told `bm` and the number of a bookmark, and
/// `remote` nothing unless it is told `del`, `rm` or `remove` and the number of a
/// saved remote.
pub proof fn nothing_else_is_deleted(s: StateRow, input: Seq<char>, f: FactsRow)
    ensures
        ({
            let t = command_outcome(s, input, f).state;
            let (cmd, args) = command_of(input);
            let (sub, rest) = first_word(args);
            let n = parsed_usize(rest);
            &&& t.dir_bookmarks != s.dir_bookmarks ==> cmd == "del"@ && sub == "bm"@ && n is Some
                && 0 <= n->0 < s.dir_bookmarks.len() && t.dir_bookmarks == s.dir_bookmarks.remove(
                n->0,
            )
            &&& t.remote_terminals != s.remote_terminals ==> cmd == "remote"@ && (sub == "del"@
                || sub == "rm"@ || sub == "remove"@) && n is Some && 0 <= n->0
                < s.remote_terminals.len() && t.remote_terminals == s.remote_terminals.remove(n->0)
        }),
{
    let line = line_of(input);
    let (cmd, args) = first_word(line);
    let (sub, rest) = first_word(args);
    lemma_parsed_is_nat(rest);
    let r = recorded(s, line, cmd, f.now);
    let o = local_line_outcome(r, line, cmd, args, f);
    assert(r.dir_bookmarks == s.dir_bookmarks && r.remote_terminals == s.remote_terminals);
    if cmd == "del"@ {
        assert(o.state == r || o == del_outcome(r, args) || cmd == "remote"@);
    }
}

} // verus!
