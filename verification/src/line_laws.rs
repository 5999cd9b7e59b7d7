//! What command lines do, told by what is typed.

use crate::commands::{
    command_of, command_outcome, local_line_outcome, logs_call, recorded, remote_del_outcome,
    remote_outcome, save_of, sync_calls, FactsRow, Outcome,
};
use crate::num::{decimal, decimal_round_trip, is_digit, lemma_decimal, parsed_usize};
use crate::plan::{Effect, Next, OutKind, Target};
use crate::ssh::quote::{escaped, shell_reads, shell_reads_quoted};
use crate::ssh::secrets::account_name;
use crate::ssh::{bare_argument, remote_logs, remote_sync};
use crate::state::StateRow;
use crate::text::{
    first_word, is_white, lemma_rspan_is, lemma_span_is, lemma_trimmed_clean, trimmed, Class,
};
use vstd::prelude::*;

verus! {

/// Text with something in it and no white space around it.
pub open spec fn clean(a: Seq<char>) -> bool {
    a.len() > 0 && !is_white(a[0]) && !is_white(a.last())
}

/// A single word.
pub open spec fn one_word(w: Seq<char>) -> bool {
    w.len() > 0 && forall|i: int| 0 <= i < w.len() ==> !is_white(#[trigger] w[i])
}

// ---- reading a line ----

/// A word, a space, and more: the word is the command and the rest its argument.
pub(crate) proof fn lemma_line(w: Seq<char>, rest: Seq<char>)
    requires
        one_word(w),
        clean(rest),
    ensures
        first_word(w + " "@ + rest) == (w, rest),
        trimmed(w + " "@ + rest, Class::White) == w + " "@ + rest,
        command_of(w + " "@ + rest) == (w, rest),
        (w + " "@ + rest).len() > 0,
        clean(w + " "@ + rest),
{
    reveal_strlit(" ");
    let k = Class::White;
    let s = w + " "@ + rest;
    let n = w.len();
    assert(s[n as int] == ' ');
    assert forall|i: int| 0 <= i < n implies k.has(#[trigger] s[i]) == false by {
        assert(s[i] == w[i]);
    }
    lemma_span_is(s, k, false, n);
    assert(s.take(n as int) =~= w);
    let t = s.skip(n as int);
    assert(t =~= " "@ + rest);
    assert(t[1] == rest[0]);
    lemma_span_is(t, k, true, 1);
    assert(t.skip(1) =~= rest);
    lemma_trimmed_clean(rest, k);
    assert(s[0] == w[0] && s.last() == rest.last());
    lemma_trimmed_clean(s, k);
}

/// A single word is a command without an argument.
pub(crate) proof fn lemma_bare_line(w: Seq<char>)
    requires
        one_word(w),
    ensures
        first_word(w) == (w, Seq::<char>::empty()),
        trimmed(w, Class::White) == w,
        command_of(w) == (w, Seq::<char>::empty()),
{
    let k = Class::White;
    assert forall|i: int| 0 <= i < w.len() implies k.has(#[trigger] w[i]) == false by {}
    lemma_span_is(w, k, false, w.len());
    lemma_trimmed_clean(w, k);
}

/// The words that commands are told by are single words, and all different.
pub(crate) proof fn lemma_command_words()
    ensures
        one_word("his"@) && "his"@.len() == 3 && "his"@[0] == 'h',
        one_word("hist"@) && "hist"@.len() == 4 && "hist"@[0] == 'h' && "hist"@[3] == 't',
        one_word("hisd"@) && "hisd"@.len() == 4 && "hisd"@[0] == 'h' && "hisd"@[3] == 'd',
        one_word("this"@) && "this"@.len() == 4 && "this"@[0] == 't',
        one_word("exit"@) && "exit"@.len() == 4 && "exit"@[0] == 'e',
        one_word("quit"@) && "quit"@.len() == 4 && "quit"@[0] == 'q',
        one_word("logout"@) && "logout"@.len() == 6 && "logout"@[0] == 'l',
        one_word("disconnect"@) && "disconnect"@.len() == 10 && "disconnect"@[0] == 'd',
        one_word("mode"@) && "mode"@.len() == 4 && "mode"@[0] == 'm',
        one_word("logs"@) && "logs"@.len() == 4 && "logs"@[0] == 'l',
        one_word("sync"@) && "sync"@.len() == 4 && "sync"@[0] == 's',
        one_word("remote"@) && "remote"@.len() == 6 && "remote"@[0] == 'r',
        one_word("del"@) && "del"@.len() == 3 && "del"@[0] == 'd',
        one_word("ssh"@) && "ssh"@.len() == 3 && "ssh"@[0] == 's',
        one_word("cat"@) && "cat"@.len() == 3 && "cat"@[0] == 'c',
        one_word("cd"@) && "cd"@.len() == 2 && "cd"@[0] == 'c',
        one_word("bm"@) && "bm"@.len() == 2 && "bm"@[0] == 'b',
        one_word("python"@) && "python"@.len() == 6 && "python"@[0] == 'p',
        one_word("python3"@) && "python3"@.len() == 7 && "python3"@[0] == 'p',
        one_word("pip"@) && "pip"@.len() == 3 && "pip"@[0] == 'p',
        one_word("pip3"@) && "pip3"@.len() == 4 && "pip3"@[0] == 'p',
        one_word("list"@) && "list"@.len() == 4 && "list"@[0] == 'l',
        one_word("ls"@) && "ls"@.len() == 2 && "ls"@[0] == 'l',
        one_word("add"@) && "add"@.len() == 3 && "add"@[0] == 'a',
        one_word("rm"@) && "rm"@.len() == 2 && "rm"@[0] == 'r',
        one_word("remove"@) && "remove"@.len() == 6 && "remove"@[0] == 'r',
        ""@.len() == 0,
{
    reveal_strlit("his");
    reveal_strlit("hist");
    reveal_strlit("hisd");
    reveal_strlit("this");
    reveal_strlit("exit");
    reveal_strlit("quit");
    reveal_strlit("logout");
    reveal_strlit("disconnect");
    reveal_strlit("mode");
    reveal_strlit("logs");
    reveal_strlit("sync");
    reveal_strlit("remote");
    reveal_strlit("del");
    reveal_strlit("ssh");
    reveal_strlit("cat");
    reveal_strlit("cd");
    reveal_strlit("bm");
    reveal_strlit("python");
    reveal_strlit("python3");
    reveal_strlit("pip");
    reveal_strlit("pip3");
    reveal_strlit("list");
    reveal_strlit("ls");
    reveal_strlit("add");
    reveal_strlit("rm");
    reveal_strlit("remove");
    reveal_strlit("");
}

/// The decimal of a number reads as that number.
pub(crate) proof fn lemma_number(i: nat)
    requires
        i <= usize::MAX,
    ensures
        parsed_usize(decimal(i)) == Some(i as int),
        one_word(decimal(i)),
        clean(decimal(i)),
        decimal(i)[0] != 'p',
{
    decimal_round_trip(i, usize::MAX as int);
    lemma_decimal(i);
    let d = decimal(i);
    assert forall|x: int| 0 <= x < d.len() implies !is_white(#[trigger] d[x]) by {
        assert(is_digit(d[x]));
    }
    assert(is_digit(d[0]) && is_digit(d.last()));
}

/// Two words and an argument.
pub(crate) proof fn lemma_two_words(w: Seq<char>, sub: Seq<char>, rest: Seq<char>)
    requires
        w == "remote"@ && (sub == "del"@ || sub == "add"@) || w == "del"@ && sub == "bm"@,
        clean(rest),
    ensures
        ({
            let more = sub + " "@ + rest;
            let line = w + " "@ + more;
            &&& first_word(more) == (sub, rest)
            &&& command_of(line) == (w, more)
            &&& trimmed(line, Class::White) == line
            &&& line.len() > 0
        }),
{
    lemma_command_words();
    lemma_line(sub, rest);
    lemma_line(w, sub + " "@ + rest);
}

/// With no remote connected, a line of a word that is not about the history is
/// recorded and saved, and then does what its word does.
pub(crate) proof fn lemma_local(
    s: StateRow,
    w: Seq<char>,
    input: Seq<char>,
    args: Seq<char>,
    f: FactsRow,
)
    requires
        s.active_remote is None,
        w != "his"@ && w != "hist"@ && w != "this"@ && w != "hisd"@,
        command_of(input) == (w, args),
        trimmed(input, Class::White) == input,
        input.len() > 0,
    ensures
        ({
            let t = recorded(s, input, w, f.now);
            let o = local_line_outcome(t, input, w, args, f);
            command_outcome(s, input, f) == Outcome::of(
                o.state,
                o.plan.after(save_of(t, "warning: failed to save state: "@)),
            )
        }),
{
}

/// What a line does comes behind the record of it.
proof fn lemma_behind_record(
    s: StateRow,
    w: Seq<char>,
    input: Seq<char>,
    args: Seq<char>,
    f: FactsRow,
    o: Outcome,
)
    requires
        s.active_remote is None,
        w != "his"@ && w != "hist"@ && w != "this"@ && w != "hisd"@,
        command_of(input) == (w, args),
        trimmed(input, Class::White) == input,
        input.len() > 0,
        local_line_outcome(recorded(s, input, w, f.now), input, w, args, f) == o,
    ensures
        ({
            let r = command_outcome(s, input, f);
            &&& r.state == o.state
            &&& r.plan.next == o.plan.next
            &&& r.plan.effects.len() == o.plan.effects.len() + 1
            &&& forall|i: int|
                1 <= i <= o.plan.effects.len() ==> #[trigger] r.plan.effects[i] == o.plan.effects[i
                    - 1]
        }),
{
    lemma_local(s, w, input, args, f);
}

/// The words of the shell's own commands differ from those about the history.
pub(crate) proof fn lemma_not_history(w: Seq<char>)
    requires
        w == "remote"@ || w == "del"@ || w == "exit"@ || w == "quit"@ || w == "ssh"@ || w == "sync"@
            || w == "logs"@ || w == "cat"@ || w == "cd"@ || w == "bm"@ || w == "python"@
            || w == "python3"@ || w == "pip"@ || w == "pip3"@,
    ensures
        w != "his"@ && w != "hist"@ && w != "this"@ && w != "hisd"@,
        one_word(w),
{
    lemma_command_words();
}

// ---- deleting ----

proof fn lemma_del_text(d: Seq<char>)
    ensures
        "del bm "@ + d == "del"@ + " "@ + ("bm"@ + " "@ + d),
{
    reveal_strlit("del bm ");
    reveal_strlit("del");
    reveal_strlit("bm");
    reveal_strlit(" ");
    assert("del bm "@ =~= "del"@ + " "@ + "bm"@ + " "@);
    assert("del bm "@ + d =~= "del"@ + " "@ + ("bm"@ + " "@ + d));
}

proof fn lemma_del(t: StateRow, line: Seq<char>, rest: Seq<char>, i: nat, f: FactsRow)
    requires
        i < t.dir_bookmarks.len() <= usize::MAX,
        first_word(rest) == ("bm"@, decimal(i)),
    ensures
        ({
            let o = local_line_outcome(t, line, "del"@, rest, f);
            &&& o.state == (StateRow { dir_bookmarks: t.dir_bookmarks.remove(i as int), ..t })
            &&& o.plan.effects == seq![
                Effect::Line(OutKind::Stdout, "Deleted bookmark: "@ + t.dir_bookmarks[i as int]),
                save_of(o.state, "del bm: failed to save bookmarks: "@),
            ]
            &&& o.plan.next == Next::<Seq<char>>::Done
        }),
{
    lemma_number(i);
    assert("del"@ != "remote"@) by {
        lemma_command_words();
    }
}

/// `del bm` with the number of a bookmark deletes that bookmark: the ones before
/// it stay where they are, the ones behind it move up, and the path that is said
/// to be deleted is its path. Nothing else that is listed changes but the record
/// of the line, and what is then written to the state file holds the new list.
#[verifier::spinoff_prover]
#[verifier::rlimit(40)]
pub proof fn bookmarks_are_deleted_by_number(s: StateRow, i: nat, f: FactsRow)
    requires
        s.active_remote is None,
        i < s.dir_bookmarks.len() <= usize::MAX,
    ensures
        ({
            let o = command_outcome(s, "del bm "@ + decimal(i), f);
            let left = o.state.dir_bookmarks;
            &&& left.len() == s.dir_bookmarks.len() - 1
            &&& forall|j: int| 0 <= j < i ==> #[trigger] left[j] == s.dir_bookmarks[j]
            &&& forall|j: int| i <= j < left.len() ==> #[trigger] left[j] == s.dir_bookmarks[j + 1]
            &&& o.plan.effects.len() == 3
            &&& o.plan.effects[1] == Effect::Line(
                OutKind::Stdout,
                "Deleted bookmark: "@ + s.dir_bookmarks[i as int],
            )
            &&& o.plan.effects[2] matches Effect::Save { contents, .. }
            &&& contents == o.state.saved().text()
            &&& o.plan.next == Next::<Seq<char>>::Done
            &&& o.state.remote_terminals == s.remote_terminals
            &&& o.state.cwd == s.cwd
            &&& o.state.active_remote is None
        }),
{
    let rest = "bm"@ + " "@ + decimal(i);
    let line = "del"@ + " "@ + rest;
    lemma_number(i);
    lemma_del_text(decimal(i));
    lemma_two_words("del"@, "bm"@, decimal(i));
    let t = recorded(s, line, "del"@, f.now);
    lemma_not_history("del"@);
    lemma_del(t, line, rest, i, f);
    lemma_behind_record(
        s,
        "del"@,
        line,
        rest,
        f,
        local_line_outcome(t, line, "del"@, rest, f),
    );
}

proof fn lemma_remote_del_text(d: Seq<char>)
    ensures
        "remote del "@ + d == "remote"@ + " "@ + ("del"@ + " "@ + d),
{
    reveal_strlit("remote del ");
    reveal_strlit("remote");
    reveal_strlit("del");
    reveal_strlit(" ");
    assert("remote del "@ =~= "remote"@ + " "@ + "del"@ + " "@);
    assert("remote del "@ + d =~= "remote"@ + " "@ + ("del"@ + " "@ + d));
}

proof fn lemma_remote_del(t: StateRow, line: Seq<char>, rest: Seq<char>, i: nat, f: FactsRow)
    requires
        i < t.remote_terminals.len() <= usize::MAX,
        first_word(rest) == ("del"@, decimal(i)),
    ensures
        ({
            let o = local_line_outcome(t, line, "remote"@, rest, f);
            let r = t.remote_terminals[i as int];
            &&& o.state == (StateRow { remote_terminals: t.remote_terminals.remove(i as int), ..t })
            &&& o.plan.effects == seq![
                Effect::ForgetPassword(Target { host: r.host, port: r.port, user: r.username }),
                save_of(o.state, "remote: failed to save state: "@),
                Effect::Line(
                    OutKind::Stdout,
                    "Removed remote "@ + account_name(r.host, r.port, r.username),
                ),
            ]
            &&& o.plan.next == Next::<Seq<char>>::Done
        }),
{
    lemma_number(i);
    assert("del"@ != ""@ && "del"@ != "list"@ && "del"@ != "ls"@ && "del"@ != "add"@) by {
        lemma_command_words();
    }
    assert(remote_outcome(t, rest, f.default_user) == remote_del_outcome(t, decimal(i)));
}

/// `remote del` with the number of a saved remote deletes that remote and has
/// its password forgotten, its own and no other.
#[verifier::spinoff_prover]
#[verifier::rlimit(40)]
pub proof fn remotes_are_deleted_by_number(s: StateRow, i: nat, f: FactsRow)
    requires
        s.active_remote is None,
        i < s.remote_terminals.len() <= usize::MAX,
    ensures
        ({
            let o = command_outcome(s, "remote del "@ + decimal(i), f);
            let left = o.state.remote_terminals;
            let r = s.remote_terminals[i as int];
            &&& left.len() == s.remote_terminals.len() - 1
            &&& forall|j: int| 0 <= j < i ==> #[trigger] left[j] == s.remote_terminals[j]
            &&& forall|j: int|
                i <= j < left.len() ==> #[trigger] left[j] == s.remote_terminals[j + 1]
            &&& o.plan.effects.len() == 4
            &&& o.plan.effects[1] == Effect::ForgetPassword(
                Target { host: r.host, port: r.port, user: r.username },
            )
            &&& o.plan.effects[2] matches Effect::Save { contents, .. }
            &&& contents == o.state.saved().text()
            &&& o.plan.effects[3] == Effect::Line(
                OutKind::Stdout,
                "Removed remote "@ + account_name(r.host, r.port, r.username),
            )
            &&& o.plan.next == Next::<Seq<char>>::Done
            &&& o.state.dir_bookmarks == s.dir_bookmarks
            &&& o.state.cwd == s.cwd
        }),
{
    let rest = "del"@ + " "@ + decimal(i);
    let line = "remote"@ + " "@ + rest;
    lemma_number(i);
    lemma_remote_del_text(decimal(i));
    lemma_two_words("remote"@, "del"@, decimal(i));
    let t = recorded(s, line, "remote"@, f.now);
    lemma_not_history("remote"@);
    lemma_remote_del(t, line, rest, i, f);
    lemma_behind_record(
        s,
        "remote"@,
        line,
        rest,
        f,
        local_line_outcome(t, line, "remote"@, rest, f),
    );
}

// ---- sync and logs ----

/// Text that trimming leaves alone: no white space and no quotation mark at
/// either end.
pub open spec fn plain(m: Seq<char>) -> bool {
    clean(m) && m[0] != '"' && m.last() != '"'
}

/// Quotation marks around a message are optional.
proof fn lemma_bare_argument(m: Seq<char>)
    requires
        plain(m),
    ensures
        bare_argument(m) == m,
        bare_argument("\""@ + m + "\""@) == m,
{
    reveal_strlit("\"");
    let q = "\""@ + m + "\""@;
    let k = Class::One('"');
    lemma_trimmed_clean(m, Class::White);
    lemma_trimmed_clean(m, k);
    assert(q[0] == '"' && q.last() == '"');
    lemma_trimmed_clean(q, Class::White);
    assert(q[1] == m[0]);
    lemma_span_is(q, k, true, 1);
    let t = q.skip(1);
    assert(t =~= m + "\""@);
    assert(t[t.len() - 2] == m.last());
    lemma_rspan_is(t, k, true, 1);
    assert(t.take(t.len() - 1) =~= m);
}

/// `sync` commits with the message as it was given, all of it, and with
/// quotation marks around it or without them does the same.
pub proof fn sync_takes_the_whole_message(m: Seq<char>)
    requires
        plain(m),
    ensures
        sync_calls(m) is Ok,
        sync_calls(m)->Ok_0.len() == 3,
        sync_calls(m)->Ok_0[0] == seq!["add"@, "."@],
        sync_calls(m)->Ok_0[1] == seq!["commit"@, "-am"@, m],
        sync_calls(m)->Ok_0[2] == seq!["push"@],
        sync_calls("\""@ + m + "\""@) == sync_calls(m),
{
    lemma_bare_argument(m);
}

/// `logs` follows the log of the service that was named, all of the name, with
/// quotation marks around it or without them; where it does not follow, it takes
/// the last part of the log. Elsewhere than on Linux it refuses.
pub proof fn logs_names_the_service(m: Seq<char>)
    requires
        plain(m),
    ensures
        logs_call(m, true, true) == Ok::<Seq<Seq<char>>, Seq<char>>(
            seq!["journalctl"@, "-u"@, m, "-f"@],
        ),
        logs_call(m, false, true) == Ok::<Seq<Seq<char>>, Seq<char>>(
            seq!["journalctl"@, "-u"@, m, "-n"@, "200"@, "--no-pager"@],
        ),
        forall|follow: bool| #[trigger]
            logs_call("\""@ + m + "\""@, follow, true) == logs_call(m, follow, true),
        forall|follow: bool| #[trigger] logs_call(m, follow, false) is Err,
{
    lemma_bare_argument(m);
}

/// Without a message or a service, `sync` and `logs` say what is missing.
pub proof fn sync_and_logs_need_an_argument(blank: Seq<char>, follow: bool)
    requires
        forall|i: int| 0 <= i < blank.len() ==> is_white(#[trigger] blank[i]),
    ensures
        sync_calls(blank) is Err,
        logs_call(blank, follow, true) is Err,
        remote_sync(blank) is Err,
        remote_logs(blank) is Err,
{
    let k = Class::White;
    assert forall|i: int| 0 <= i < blank.len() implies k.has(#[trigger] blank[i]) == true by {}
    lemma_span_is(blank, k, true, blank.len());
    let none = blank.skip(blank.len() as int);
    assert(none =~= Seq::<char>::empty());
    lemma_trimmed_clean(none, k);
    lemma_trimmed_clean(none, Class::One('"'));
}

/// On a remote, `sync` and `logs` become a line in which the shell there reads
/// the whole message or service as one word.
pub proof fn remote_lines_hold_the_whole_argument(m: Seq<char>)
    requires
        plain(m),
    ensures
        remote_sync(m) is Ok,
        exists|word: Seq<char>|
            #[trigger] shell_reads(word, false) == Some(m) && remote_sync(m)->Ok_0
                == "git add . && git commit -am "@ + word + " && git push"@,
        remote_sync("\""@ + m + "\""@) == remote_sync(m),
        remote_logs(m) is Ok,
        exists|word: Seq<char>|
            #[trigger] shell_reads(word, false) == Some(m) && remote_logs(m)->Ok_0
                == "sudo journalctl -u "@ + word + " -n 200 --no-pager"@,
        remote_logs("\""@ + m + "\""@) == remote_logs(m),
{
    lemma_bare_argument(m);
    shell_reads_quoted(m);
    let word = "'"@ + escaped(m) + "'"@;
    reveal_strlit("'");
    assert(word =~= seq!['\''] + escaped(m) + seq!['\'']);
    reveal_strlit("git add . && git commit -am ");
    reveal_strlit("git add . && git commit -am '");
    reveal_strlit("' && git push");
    reveal_strlit(" && git push");
    assert("git add . && git commit -am '"@ =~= "git add . && git commit -am "@ + "'"@);
    assert("' && git push"@ =~= "'"@ + " && git push"@);
    assert(remote_sync(m)->Ok_0 =~= "git add . && git commit -am "@ + word + " && git push"@);
    reveal_strlit("sudo journalctl -u ");
    reveal_strlit("sudo journalctl -u '");
    reveal_strlit("' -n 200 --no-pager");
    reveal_strlit(" -n 200 --no-pager");
    assert("sudo journalctl -u '"@ =~= "sudo journalctl -u "@ + "'"@);
    assert("' -n 200 --no-pager"@ =~= "'"@ + " -n 200 --no-pager"@);
    assert(remote_logs(m)->Ok_0 =~= "sudo journalctl -u "@ + word + " -n 200 --no-pager"@);
}

} // verus!
