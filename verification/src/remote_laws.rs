//! What remotes are named by, what is sent to them, and what a connection changes.

use crate::commands::{
    added_outcome, command_of, command_outcome, connected_outcome, recorded, remote_line_outcome,
    save_of, FactsRow, Outcome,
};
use crate::line_laws::{
    clean, lemma_bare_line, lemma_command_words, lemma_line, lemma_not_history, one_word, plain,
};
use crate::num::{decimal, decimal_round_trip, is_digit, lemma_decimal, parsed_u16};
use crate::plan::{Next, Target};
use crate::recall_laws::said;
use crate::ssh::exec::wrapped;
use crate::ssh::quote::{escaped, shell_reads, shell_reads_quoted};
use crate::ssh::secrets::account_name;
use crate::ssh::{mode_plan, remote_logs, remote_sync, spec_target, with_remote, SshMode};
use crate::state::{RemoteRow, StateRow};
use crate::text::{
    is_white, lemma_span_is, lemma_trimmed_clean, split_at_char, trimmed, words, Class,
};
use vstd::prelude::*;

verus! {

/// A name of a host or an account: a word without `@` and `:`.
pub open spec fn simple_name(s: Seq<char>) -> bool {
    &&& one_word(s)
    &&& forall|i: int| 0 <= i < s.len() ==> #[trigger] s[i] != '@' && s[i] != ':'
}

proof fn lemma_split(a: Seq<char>, c: char, b: Seq<char>)
    requires
        forall|i: int| 0 <= i < a.len() ==> #[trigger] a[i] != c,
    ensures
        split_at_char(a + seq![c] + b, c) == Some((a, b)),
{
    let k = Class::One(c);
    let s = a + seq![c] + b;
    assert forall|i: int| 0 <= i < a.len() implies k.has(#[trigger] s[i]) == false by {
        assert(s[i] == a[i]);
    }
    assert(s[a.len() as int] == c);
    lemma_span_is(s, k, false, a.len());
    assert(s.take(a.len() as int) =~= a);
    assert(s.skip(a.len() as int + 1) =~= b);
}

proof fn lemma_no_split(a: Seq<char>, c: char)
    requires
        forall|i: int| 0 <= i < a.len() ==> #[trigger] a[i] != c,
    ensures
        split_at_char(a, c) is None,
{
    let k = Class::One(c);
    assert forall|i: int| 0 <= i < a.len() implies k.has(#[trigger] a[i]) == false by {}
    lemma_span_is(a, k, false, a.len());
}

proof fn lemma_port(n: nat)
    requires
        n <= u16::MAX,
    ensures
        parsed_u16(decimal(n)) == Some(n as int),
        one_word(decimal(n)),
        clean(decimal(n)),
        forall|i: int| 0 <= i < decimal(n).len() ==> #[trigger] decimal(n)[i] != '@',
{
    decimal_round_trip(n, u16::MAX as int);
    lemma_decimal(n);
    let d = decimal(n);
    assert forall|x: int| 0 <= x < d.len() implies !is_white(#[trigger] d[x]) && d[x] != '@' by {
        assert(is_digit(d[x]));
    }
    assert(is_digit(d[0]) && is_digit(d.last()));
}

/// A target without white space, in parts.
spec fn target_of(user: Option<Seq<char>>, host: Seq<char>, port: Option<nat>) -> Seq<char> {
    let hp = match port {
        Some(n) => host + seq![':'] + decimal(n),
        None => host,
    };
    match user {
        Some(u) => u + seq!['@'] + hp,
        None => hp,
    }
}

proof fn lemma_target(user: Option<Seq<char>>, host: Seq<char>, port: Option<nat>)
    requires
        simple_name(host),
        user is Some ==> simple_name(user->0),
        port is Some ==> port->0 <= u16::MAX,
    ensures
        one_word(target_of(user, host, port)),
        match user {
            Some(u) => split_at_char(target_of(user, host, port), '@') == Some(
                (u, target_of(None, host, port)),
            ),
            None => split_at_char(target_of(user, host, port), '@') is None,
        },
        match port {
            Some(n) => split_at_char(target_of(None, host, port), ':') == Some((host, decimal(n))),
            None => split_at_char(target_of(None, host, port), ':') is None,
        },
{
    let hp = target_of(None, host, port);
    match port {
        Some(n) => {
            lemma_port(n);
            lemma_split(host, ':', decimal(n));
        },
        None => {
            lemma_no_split(host, ':');
        },
    }
    assert forall|i: int| 0 <= i < hp.len() implies #[trigger] hp[i] != '@' && !is_white(hp[i]) by {
        if i < host.len() {
            assert(hp[i] == host[i]);
        } else if i > host.len() {
            assert(hp[i] == decimal(port->0)[i - host.len() - 1]);
        }
    }
    let t = target_of(user, host, port);
    match user {
        Some(u) => {
            lemma_split(u, '@', hp);
            assert forall|i: int| 0 <= i < t.len() implies !is_white(#[trigger] t[i]) by {
                if i < u.len() {
                    assert(t[i] == u[i]);
                } else if i > u.len() {
                    assert(t[i] == hp[i - u.len() - 1]);
                }
            }
        },
        None => {
            lemma_no_split(hp, '@');
        },
    }
}

proof fn lemma_words_one(w: Seq<char>)
    requires
        one_word(w),
    ensures
        words(w).len() > 0,
        words(w)[0] == w,
{
    let k = Class::White;
    assert forall|i: int| 0 <= i < w.len() implies k.has(#[trigger] w[i]) == false by {}
    lemma_trimmed_clean(w, k);
    lemma_span_is(w, k, false, w.len());
    assert(w.take(w.len() as int) =~= w);
}

/// A remote is written `host`, with `user@` in front or not and `:port` behind or
/// not. The account is the given one or the default, the port the given one or
/// 22, and a port that is given behind a space wins.
pub proof fn remotes_are_spelled_out(
    user: Option<Seq<char>>,
    host: Seq<char>,
    port: Option<nat>,
    last: nat,
    default_user: Seq<char>,
)
    requires
        simple_name(host),
        user is Some ==> simple_name(user->0),
        port is Some ==> port->0 <= u16::MAX,
        last <= u16::MAX,
    ensures
        ({
            let hp = match port {
                Some(n) => host + ":"@ + decimal(n),
                None => host,
            };
            let t = match user {
                Some(u) => u + "@"@ + hp,
                None => hp,
            };
            let account = match user {
                Some(u) => u,
                None => default_user,
            };
            &&& spec_target(t, default_user) == (Target {
                host,
                port: match port {
                    Some(n) => n as u16,
                    None => 22u16,
                },
                user: account,
            })
            &&& spec_target(t + " "@ + decimal(last), default_user) == (Target {
                host,
                port: last as u16,
                user: account,
            })
        }),
{
    reveal_strlit(":");
    reveal_strlit("@");
    assert(":"@ =~= seq![':'] && "@"@ =~= seq!['@']);
    let t = target_of(user, host, port);
    lemma_target(user, host, port);
    if port is Some {
        lemma_port(port->0);
    }
    lemma_port(last);
    lemma_bare_line(t);
    assert(words(Seq::<char>::empty()).len() == 0);
    lemma_line(t, decimal(last));
    lemma_words_one(decimal(last));
}

/// Saving a remote puts it last and leaves the others in their order.
pub proof fn saved_remotes_keep_their_order(list: Seq<RemoteRow>, t: Target<Seq<char>>)
    ensures
        ({
            let after = with_remote(list, t);
            &&& after.len() > 0
            &&& after.last() == (RemoteRow { host: t.host, port: t.port, username: t.user })
            &&& kept_in_order(
                after.drop_last(),
                list,
                |r: RemoteRow| !(r.host == t.host && r.port == t.port && r.username == t.user),
            )
        }),
{
    let f = crate::ssh::same_remote(t);
    let g = |r: RemoteRow| !(r.host == t.host && r.port == t.port && r.username == t.user);
    without_keeps_order(list, f, g);
    assert(with_remote(list, t).drop_last() =~= crate::lists::without(list, f));
}

/// A command for the remote starts in the tracked directory, which the shell
/// there reads as one word, whatever it holds; without one it is sent as it is.
/// Behind it the directory is asked for.
pub proof fn commands_run_in_the_tracked_directory(cwd: Seq<char>, command: Seq<char>)
    ensures
        exists|asks: Seq<char>|
            {
                &&& #[trigger] wrapped(Seq::empty(), command) == command + asks
                &&& asks == "\nprintf '%s\\n' '"@ + crate::ssh::exec::CWD_MARK@ + "'; pwd"@
                &&& cwd.len() > 0 ==> exists|word: Seq<char>|
                    #[trigger] shell_reads(word, false) == Some(cwd) && wrapped(cwd, command)
                        == "cd "@ + word + " 2>/dev/null; "@ + command + asks
            },
{
    let asks = "\nprintf '%s\\n' '"@ + crate::ssh::exec::CWD_MARK@ + "'; pwd"@;
    let none = Seq::<char>::empty();
    assert(wrapped(none, command) =~= command + asks);
    if cwd.len() > 0 {
        shell_reads_quoted(cwd);
        let word = seq!['\''] + escaped(cwd) + seq!['\''];
        reveal_strlit("cd '");
        reveal_strlit("cd ");
        reveal_strlit("' 2>/dev/null; ");
        reveal_strlit(" 2>/dev/null; ");
        assert("cd '"@ =~= "cd "@ + seq!['\'']);
        assert("' 2>/dev/null; "@ =~= seq!['\''] + " 2>/dev/null; "@);
        assert(wrapped(cwd, command) =~= "cd "@ + word + " 2>/dev/null; "@ + command + asks);
    }
}

// ---- a connection ----

/// A connection that is made is to what was asked for, in command mode and with
/// no directory known, and that remote is saved; nothing else of the state
/// changes.
pub proof fn connecting_opens_a_session(s: StateRow, t: Target<Seq<char>>)
    ensures
        ({
            let o = connected_outcome(s, t).state;
            &&& o.active_remote is Some
            &&& o.active_remote->0.host == t.host
            &&& o.active_remote->0.port == t.port
            &&& o.active_remote->0.user == t.user
            &&& o.active_remote->0.mode == SshMode::Exec
            &&& o.active_remote->0.cwd.len() == 0
            &&& o.remote_terminals.last() == (RemoteRow {
                host: t.host,
                port: t.port,
                username: t.user,
            })
            &&& o.history == s.history && o.dir_bookmarks == s.dir_bookmarks && o.recent_dirs
                == s.recent_dirs && o.cwd == s.cwd
        }),
        ({
            let o = added_outcome(s, t).state;
            &&& o.active_remote == s.active_remote
            &&& o.remote_terminals.last() == (RemoteRow {
                host: t.host,
                port: t.port,
                username: t.user,
            })
            &&& o.history == s.history && o.dir_bookmarks == s.dir_bookmarks && o.recent_dirs
                == s.recent_dirs && o.cwd == s.cwd
        }),
{
}

proof fn lemma_remote(s: StateRow, w: Seq<char>, input: Seq<char>, args: Seq<char>, f: FactsRow)
    requires
        s.active_remote is Some,
        w != "his"@ && w != "hist"@ && w != "this"@ && w != "hisd"@,
        command_of(input) == (w, args),
        trimmed(input, Class::White) == input,
        input.len() > 0,
    ensures
        ({
            let t = recorded(s, input, w, f.now);
            let o = remote_line_outcome(t, input, w, args);
            command_outcome(s, input, f) == Outcome::of(
                o.state,
                o.plan.after(save_of(t, "warning: failed to save state: "@)),
            )
        }),
{
}

proof fn lemma_remote_words(t: StateRow, line: Seq<char>, args: Seq<char>)
    ensures
        "mode"@ != "his"@ && "mode"@ != "hist"@ && "mode"@ != "this"@ && "mode"@ != "hisd"@,
        one_word("mode"@),
        remote_line_outcome(t, line, "mode"@, args) == Outcome::of(t, mode_plan(args)),
        remote_line_outcome(t, line, "sync"@, args).plan.next == (match remote_sync(args) {
            Ok(c) => Next::RunRemote(c),
            Err(_) => Next::Done,
        }),
        remote_line_outcome(t, line, "logs"@, args).plan.next == (match remote_logs(args) {
            Ok(c) => Next::RunRemote(c),
            Err(_) => Next::Done,
        }),
{
    lemma_command_words();
}

/// With a remote connected, `sync` and `logs` run there, and `mode pty` and `mode
/// exec` change the mode of the connection.
pub proof fn remote_words_work_on_the_remote(s: StateRow, m: Seq<char>, f: FactsRow)
    requires
        s.active_remote is Some,
        plain(m),
    ensures
        remote_sync(m) is Ok && command_outcome(s, said("sync"@, m), f).plan.next
            == Next::RunRemote(remote_sync(m)->Ok_0),
        remote_logs(m) is Ok && command_outcome(s, said("logs"@, m), f).plan.next
            == Next::RunRemote(remote_logs(m)->Ok_0),
        command_outcome(s, said("mode"@, "pty"@), f).plan.next == Next::<Seq<char>>::EnterPty,
        command_outcome(s, said("mode"@, "exec"@), f).plan.next == Next::<Seq<char>>::EnterExec,
{
    crate::line_laws::remote_lines_hold_the_whole_argument(m);
    lemma_not_history("sync"@);
    lemma_not_history("logs"@);
    lemma_line("sync"@, m);
    lemma_line("logs"@, m);
    lemma_remote(s, "sync"@, said("sync"@, m), m, f);
    lemma_remote(s, "logs"@, said("logs"@, m), m, f);
    let t = recorded(s, said("sync"@, m), "sync"@, f.now);
    lemma_remote_words(t, said("sync"@, m), m);
    let u = recorded(s, said("logs"@, m), "logs"@, f.now);
    lemma_remote_words(u, said("logs"@, m), m);
    lemma_mode(s, "pty"@, f);
    lemma_mode(s, "exec"@, f);
    reveal_strlit("pty");
    reveal_strlit("exec");
    reveal_strlit("interactive");
    reveal_strlit("shell");
    assert("exec"@[0] == 'e' && "pty"@[0] == 'p' && "interactive"@[0] == 'i' && "shell"@[0] == 's');
}

proof fn lemma_mode(s: StateRow, a: Seq<char>, f: FactsRow)
    requires
        s.active_remote is Some,
        a == "pty"@ || a == "exec"@,
    ensures
        command_outcome(s, said("mode"@, a), f).plan.next == mode_plan(a).next,
        trimmed(a, Class::White) == a,
{
    reveal_strlit("pty");
    reveal_strlit("exec");
    assert(clean(a));
    lemma_trimmed_clean(a, Class::White);
    let t = recorded(s, said("mode"@, a), "mode"@, f.now);
    lemma_remote_words(t, said("mode"@, a), a);
    lemma_line("mode"@, a);
    lemma_remote(s, "mode"@, said("mode"@, a), a, f);
}

// ---- lists that are kept in order ----

/// `q` are the items of `s` that `keep` holds of, all of them and in their order.
pub open spec fn kept_in_order<T>(q: Seq<T>, s: Seq<T>, keep: spec_fn(T) -> bool) -> bool {
    exists|at: Seq<int>|
        {
            &&& #[trigger] at.len() == q.len()
            &&& forall|x: int|
                0 <= x < at.len() ==> 0 <= #[trigger] at[x] < s.len() && q[x] == s[at[x]] && keep(
                    s[at[x]],
                )
            &&& forall|x: int, y: int|
                0 <= x < y < at.len() ==> #[trigger] at[x] < #[trigger] at[y]
            &&& forall|i: int| 0 <= i < s.len() && keep(#[trigger] s[i]) ==> at.contains(i)
        }
}

/// Leaving items out leaves the others in their order.
pub(crate) proof fn without_keeps_order<T>(
    s: Seq<T>,
    f: spec_fn(T) -> bool,
    keep: spec_fn(T) -> bool,
)
    requires
        forall|x: T| #[trigger] keep(x) == !f(x),
    ensures
        kept_in_order(crate::lists::without(s, f), s, keep),
    decreases s.len(),
{
    let q = crate::lists::without(s, f);
    if s.len() == 0 {
        let at = Seq::<int>::empty();
        assert(at.len() == q.len());
    } else {
        let t = s.drop_last();
        without_keeps_order(t, f, keep);
        let p = crate::lists::without(t, f);
        let at0 = choose|at: Seq<int>|
            {
                &&& #[trigger] at.len() == p.len()
                &&& forall|x: int|
                    0 <= x < at.len() ==> 0 <= #[trigger] at[x] < t.len() && p[x] == t[at[x]]
                        && keep(t[at[x]])
                &&& forall|x: int, y: int|
                    0 <= x < y < at.len() ==> #[trigger] at[x] < #[trigger] at[y]
                &&& forall|i: int| 0 <= i < t.len() && keep(#[trigger] t[i]) ==> at.contains(i)
            };
        let n = s.len() - 1;
        assert(s.last() == s[n]);
        assert(keep(s[n]) == !f(s[n]));
        let at = if f(s.last()) {
            at0
        } else {
            at0.push(n)
        };
        assert(at.len() == q.len());
        assert forall|x: int| 0 <= x < at.len() implies 0 <= #[trigger] at[x] < s.len() && q[x]
            == s[at[x]] && keep(s[at[x]]) by {
            if x < at0.len() {
                assert(at[x] == at0[x]);
                assert(p[x] == t[at0[x]]);
            }
        }
        assert forall|x: int, y: int| 0 <= x < y < at.len() implies #[trigger] at[x]
            < #[trigger] at[y] by {
            assert(at[x] == at0[x]);
            if y < at0.len() {
                assert(at[y] == at0[y]);
            }
        }
        assert forall|i: int| 0 <= i < s.len() && keep(#[trigger] s[i]) implies at.contains(i) by {
            if i < n {
                assert(t[i] == s[i]);
                assert(at0.contains(i));
                let x = choose|x: int| 0 <= x < at0.len() && at0[x] == i;
                assert(at[x] == i);
            } else {
                assert(at[at.len() - 1] == n);
            }
        }
    }
}

// ---- accounts ----

/// The password of a remote is filed under a name that no other remote has.
pub proof fn accounts_tell_remotes_apart(
    host: Seq<char>,
    port: u16,
    user: Seq<char>,
    other_host: Seq<char>,
    other_port: u16,
    other_user: Seq<char>,
)
    requires
        simple_name(host),
        simple_name(user),
        simple_name(other_host),
        simple_name(other_user),
        account_name(host, port, user) == account_name(other_host, other_port, other_user),
    ensures
        host == other_host,
        port == other_port,
        user == other_user,
{
    lemma_account(host, port, user);
    lemma_account(other_host, other_port, other_user);
}

proof fn lemma_account(host: Seq<char>, port: u16, user: Seq<char>)
    requires
        simple_name(host),
        simple_name(user),
    ensures
        ({
            let a = account_name(host, port, user);
            let rest = host + seq![':'] + decimal(port as nat);
            &&& split_at_char(a, '@') == Some((user, rest))
            &&& split_at_char(rest, ':') == Some((host, decimal(port as nat)))
            &&& parsed_u16(decimal(port as nat)) == Some(port as int)
        }),
{
    reveal_strlit("@");
    reveal_strlit(":");
    assert("@"@ =~= seq!['@'] && ":"@ =~= seq![':']);
    let rest = host + seq![':'] + decimal(port as nat);
    assert(account_name(host, port, user) =~= user + seq!['@'] + rest);
    lemma_split(user, '@', rest);
    lemma_split(host, ':', decimal(port as nat));
    lemma_port(port as nat);
}

} // verus!
