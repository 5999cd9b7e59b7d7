//! What numbers, letters and paths name on a command line.

use crate::commands::{
    bm_plan, cd_plan, command_of, command_outcome, local_line_outcome, recall_plan, recorded,
    remote_outcome, save_of, venv_line, venv_plan, FactsRow, Outcome,
};
use crate::key_handling::cd_text;
use crate::line_laws::{
    clean, lemma_bare_line, lemma_command_words, lemma_line, lemma_local, lemma_not_history,
    lemma_number, lemma_two_words, one_word,
};
use crate::lists::last_such_is_exact;
use crate::num::{decimal, parsed_usize};
use crate::path::{absolute, joined, path_eq, relative};
use crate::path_laws::{reads_alike, shown_path_resolves, stays_below};
use crate::plan::{Effect, Mover, Next, OutKind, PlanRow, Target};
use crate::python::{interpreters, pips, venv_file};
use crate::ssh::ssh_target;
use crate::state::{HistoryRow, RecentRow, StateRow};
use crate::text::{
    is_white, lemma_rspan_is, lemma_span_is, lemma_trimmed_clean, lowercase, occurs, replaced,
    starts, trimmed, without_prefix, Class,
};
use crate::util::{
    all_history_page, dir_history_page, found_history, found_path, recent_paths, resolved, tilded,
    under_home,
};
use vstd::prelude::*;

verus! {

/// A command and its argument.
pub open spec fn said(w: Seq<char>, args: Seq<char>) -> Seq<char> {
    w + " "@ + args
}

/// The text holds the letters, letter case aside.
pub open spec fn has_letters(text: Seq<char>, q: Seq<char>) -> bool {
    occurs(lowercase(text), lowercase(q))
}

/// A line with no remote connected does what the plan of its command says, behind
/// the record of the line.
proof fn lemma_said(s: StateRow, w: Seq<char>, args: Seq<char>, f: FactsRow)
    requires
        s.active_remote is None,
        w == "cd"@ || w == "bm"@ || w == "ssh"@ || w == "cat"@ || w == "sync"@ || w == "logs"@,
        clean(args),
    ensures
        ({
            let t = recorded(s, said(w, args), w, f.now);
            let o = local_line_outcome(t, said(w, args), w, args, f);
            command_outcome(s, said(w, args), f) == Outcome::of(
                o.state,
                o.plan.after(save_of(t, "warning: failed to save state: "@)),
            )
        }),
{
    lemma_not_history(w);
    lemma_line(w, args);
    lemma_local(s, w, said(w, args), args, f);
}

proof fn lemma_plans(t: StateRow, line: Seq<char>, args: Seq<char>, f: FactsRow)
    ensures
        local_line_outcome(t, line, "cd"@, args, f) == Outcome::of(
            t,
            cd_plan(t, args, f.arg_exists),
        ),
        local_line_outcome(t, line, "bm"@, args, f) == Outcome::of(t, bm_plan(t, args)),
        local_line_outcome(t, line, "sync"@, args, f) == Outcome::of(
            t,
            PlanRow::just(Next::Sync(args)),
        ),
        local_line_outcome(t, line, "logs"@, args, f) == Outcome::of(
            t,
            PlanRow::just(Next::Follow(args)),
        ),
        local_line_outcome(t, line, "cat"@, args, f) == Outcome::of(
            t,
            PlanRow::just(
                Next::Cat(resolved(t.home, t.cwd, t.dir_bookmarks, args, f.arg_exists, t.windows)),
            ),
        ),
        local_line_outcome(t, line, "ssh"@, args, f) == Outcome::of(
            t,
            match ssh_target(t.remote_terminals, args, f.default_user) {
                Ok(x) => PlanRow::just(Next::Connect(x)),
                Err(e) => PlanRow::line(OutKind::Stderr, e),
            },
        ),
{
    lemma_command_words();
}

// ---- numbers ----

/// `his` and `hist` with the number of an entry run that entry again, `hisd`
/// runs it in the directory it was run in, and `this` runs it if it was run in
/// the current directory. None of them changes the state.
pub proof fn numbers_run_history_entries(s: StateRow, i: nat, f: FactsRow)
    requires
        i < s.history.len() <= usize::MAX,
    ensures
        ({
            let h = s.history[i as int];
            let again = PlanRow {
                effects: seq![Effect::Line(OutKind::Stdout, "> "@ + h.text)],
                next: Next::Rerun(h.text),
            };
            &&& command_outcome(s, said("his"@, decimal(i)), f) == Outcome::of(s, again)
            &&& command_outcome(s, said("hist"@, decimal(i)), f) == Outcome::of(s, again)
            &&& path_eq(h.dir, s.cwd, s.windows) ==> command_outcome(
                s,
                said("this"@, decimal(i)),
                f,
            ) == Outcome::of(s, again)
            &&& command_outcome(s, said("hisd"@, decimal(i)), f).state == s
            &&& command_outcome(s, said("hisd"@, decimal(i)), f).plan.next == (Next::RunIn {
                line: h.text,
                dir: h.dir,
            })
        }),
{
    lemma_number(i);
    lemma_his_words(decimal(i));
    lemma_recall_number(s, "his"@, i);
    lemma_recall_number(s, "hist"@, i);
    lemma_recall_number(s, "this"@, i);
}

proof fn lemma_his_words(args: Seq<char>)
    requires
        clean(args),
    ensures
        command_of(said("his"@, args)) == ("his"@, args),
        command_of(said("hist"@, args)) == ("hist"@, args),
        command_of(said("this"@, args)) == ("this"@, args),
        command_of(said("hisd"@, args)) == ("hisd"@, args),
        trimmed(said("his"@, args), Class::White).len() > 0,
        trimmed(said("hist"@, args), Class::White).len() > 0,
        trimmed(said("this"@, args), Class::White).len() > 0,
        trimmed(said("hisd"@, args), Class::White).len() > 0,
        "this"@ != "his"@ && "this"@ != "hist"@ && "hisd"@ != "his"@ && "hisd"@ != "hist"@
            && "hisd"@ != "this"@,
{
    lemma_command_words();
    lemma_line("his"@, args);
    lemma_line("hist"@, args);
    lemma_line("this"@, args);
    lemma_line("hisd"@, args);
}

proof fn lemma_recall_number(s: StateRow, cmd: Seq<char>, i: nat)
    requires
        i <= usize::MAX,
    ensures
        without_prefix(decimal(i), "p"@) is None,
        i < s.history.len() ==> recall_plan(s, cmd, decimal(i), None) == (PlanRow {
            effects: seq![Effect::Line(OutKind::Stdout, "> "@ + s.history[i as int].text)],
            next: Next::Rerun(s.history[i as int].text),
        }),
        i < s.history.len() && path_eq(s.history[i as int].dir, s.cwd, s.windows) ==> recall_plan(
            s,
            cmd,
            decimal(i),
            Some(s.cwd),
        ) == (PlanRow {
            effects: seq![Effect::Line(OutKind::Stdout, "> "@ + s.history[i as int].text)],
            next: Next::Rerun(s.history[i as int].text),
        }),
        i >= s.history.len() || !path_eq(s.history[i as int].dir, s.cwd, s.windows) ==> {
            let p = recall_plan(s, cmd, decimal(i), Some(s.cwd));
            p.next == Next::<Seq<char>>::Done && p.effects.len() == 1 && p.effects[0] matches Effect::Line(
                OutKind::Stderr,
                _,
            )
        },
        i >= s.history.len() ==> {
            let p = recall_plan(s, cmd, decimal(i), None);
            p.next == Next::<Seq<char>>::Done && p.effects.len() == 1 && p.effects[0] matches Effect::Line(
                OutKind::Stderr,
                _,
            )
        },
{
    lemma_number(i);
    reveal_strlit("p");
    let d = decimal(i);
    if starts(d, "p"@) {
        assert(d.take(1)[0] == "p"@[0]);
    }
}

/// A number that no entry of the history has, or for `this` none of the current
/// directory, is answered with one line on the error stream, and nothing is run
/// or changed.
pub proof fn missing_history_numbers_are_refused(s: StateRow, i: nat, f: FactsRow)
    requires
        i <= usize::MAX,
    ensures
        i >= s.history.len() ==> refused(s, command_outcome(s, said("his"@, decimal(i)), f)),
        i >= s.history.len() ==> refused(s, command_outcome(s, said("hist"@, decimal(i)), f)),
        i >= s.history.len() ==> refused(s, command_outcome(s, said("hisd"@, decimal(i)), f)),
        i >= s.history.len() || !path_eq(s.history[i as int].dir, s.cwd, s.windows) ==> refused(
            s,
            command_outcome(s, said("this"@, decimal(i)), f),
        ),
{
    lemma_number(i);
    lemma_his_words(decimal(i));
    lemma_recall_number(s, "his"@, i);
    lemma_recall_number(s, "hist"@, i);
    lemma_recall_number(s, "this"@, i);
}

/// One line on the error stream, and no change.
pub open spec fn refused(s: StateRow, o: Outcome) -> bool {
    &&& o.state == s
    &&& o.plan.next == Next::<Seq<char>>::Done
    &&& o.plan.effects.len() == 1
    &&& o.plan.effects[0] matches Effect::Line(OutKind::Stderr, _)
}

/// `cd` with the number of a recent directory goes there, `bm` with the number of
/// a bookmark goes there, and `ssh` with the number of a saved remote connects to
/// it with its host, port and user. A number that there is no entry for leads
/// nowhere.
pub proof fn numbers_name_places(s: StateRow, i: nat, f: FactsRow)
    requires
        s.active_remote is None,
        i <= usize::MAX,
    ensures
        i < s.recent_dirs.len() ==> command_outcome(s, said("cd"@, decimal(i)), f).plan.next == (
        Next::ChangeDir {
            target: s.recent_dirs[i as int].path,
            recent: Some(i as usize),
            mover: Mover::Cd,
        }),
        i < s.dir_bookmarks.len() ==> command_outcome(s, said("bm"@, decimal(i)), f).plan.next == (
        Next::ChangeDir { target: s.dir_bookmarks[i as int], recent: None, mover: Mover::Bm }),
        i < s.remote_terminals.len() ==> command_outcome(s, said("ssh"@, decimal(i)), f).plan.next
            == Next::Connect(
            Target {
                host: s.remote_terminals[i as int].host,
                port: s.remote_terminals[i as int].port,
                user: s.remote_terminals[i as int].username,
            },
        ),
        i >= s.recent_dirs.len() ==> command_outcome(s, said("cd"@, decimal(i)), f).plan.next
            == Next::<Seq<char>>::Done,
        i >= s.dir_bookmarks.len() ==> command_outcome(s, said("bm"@, decimal(i)), f).plan.next
            == Next::<Seq<char>>::Done,
        i >= s.remote_terminals.len() ==> command_outcome(s, said("ssh"@, decimal(i)), f).plan.next
            == Next::<Seq<char>>::Done,
{
    lemma_number(i);
    lemma_trimmed_clean(decimal(i), Class::White);
    lemma_said(s, "cd"@, decimal(i), f);
    lemma_said(s, "bm"@, decimal(i), f);
    lemma_said(s, "ssh"@, decimal(i), f);
    lemma_plans(
        recorded(s, said("cd"@, decimal(i)), "cd"@, f.now),
        said("cd"@, decimal(i)),
        decimal(i),
        f,
    );
    lemma_plans(
        recorded(s, said("bm"@, decimal(i)), "bm"@, f.now),
        said("bm"@, decimal(i)),
        decimal(i),
        f,
    );
    lemma_plans(
        recorded(s, said("ssh"@, decimal(i)), "ssh"@, f.now),
        said("ssh"@, decimal(i)),
        decimal(i),
        f,
    );
}

// ---- letters ----

/// The argument is neither a number nor, with a `p` in front, the number of a
/// page.
pub open spec fn lettered(q: Seq<char>) -> bool {
    &&& clean(q)
    &&& parsed_usize(q) is None
    &&& q[0] == 'p' ==> parsed_usize(q.skip(1)) is None
}

/// `his` with letters runs the newest entry that holds them, in any letter case,
/// and `this` the newest one of the current directory. Where there is none,
/// nothing is run.
pub proof fn letters_find_the_newest_command(s: StateRow, q: Seq<char>, i: int, f: FactsRow)
    requires
        lettered(q),
        0 <= i < s.history.len(),
        has_letters(s.history[i].text, q),
    ensures
        (forall|j: int|
            i < j < s.history.len() ==> !has_letters((#[trigger] s.history[j]).text, q))
            ==> command_outcome(s, said("his"@, q), f) == Outcome::of(
            s,
            PlanRow {
                effects: seq![Effect::Line(OutKind::Stdout, "> "@ + s.history[i].text)],
                next: Next::Rerun(s.history[i].text),
            },
        ),
        path_eq(s.history[i].dir, s.cwd, s.windows) && (forall|j: int|
            i < j < s.history.len() && path_eq((#[trigger] s.history[j]).dir, s.cwd, s.windows)
                ==> !has_letters(s.history[j].text, q)) ==> command_outcome(
            s,
            said("this"@, q),
            f,
        ) == Outcome::of(
            s,
            PlanRow {
                effects: seq![Effect::Line(OutKind::Stdout, "> "@ + s.history[i].text)],
                next: Next::Rerun(s.history[i].text),
            },
        ),
{
    lemma_his_words(q);
    lemma_no_page(q);
    let h = s.history;
    if forall|j: int| i < j < h.len() ==> !has_letters((#[trigger] h[j]).text, q) {
        lemma_found(h, None, q, i, s.windows);
    }
    if path_eq(h[i].dir, s.cwd, s.windows) && (forall|j: int|
        i < j < h.len() && path_eq((#[trigger] h[j]).dir, s.cwd, s.windows) ==> !has_letters(
            h[j].text,
            q,
        )) {
        lemma_found(h, Some(s.cwd), q, i, s.windows);
    }
}

proof fn lemma_no_page(q: Seq<char>)
    requires
        lettered(q),
    ensures
        match without_prefix(q, "p"@) {
            Some(n) => parsed_usize(n) is None,
            None => true,
        },
{
    reveal_strlit("p");
    if starts(q, "p"@) {
        assert(q.take(1)[0] == 'p');
    }
}

proof fn lemma_found(
    h: Seq<HistoryRow>,
    dir: Option<Seq<char>>,
    q: Seq<char>,
    i: int,
    windows: bool,
)
    requires
        parsed_usize(q) is None,
        0 <= i < h.len(),
        has_letters(h[i].text, q),
        dir is Some ==> path_eq(h[i].dir, dir->0, windows),
        forall|j: int|
            i < j < h.len() && (dir is Some ==> path_eq((#[trigger] h[j]).dir, dir->0, windows))
                ==> !has_letters(h[j].text, q),
    ensures
        found_history(h, dir, q, windows) == Some(i),
{
    let g = |x: int|
        crate::util::run_in(h[x], dir, windows) && crate::util::holds_letters(h[x].text, q);
    last_such_is_exact(h.len() as int, g);
    assert(g(i));
    match crate::lists::last_such(h.len() as int, g) {
        Some(k) => {
            assert(g(k));
            if i < k {
                assert(!has_letters(h[k].text, q));
            } else if k < i {
                assert(!g(i));
            }
        },
        None => {
            assert(!g(i));
        },
    }
}

proof fn lemma_found_path(paths: Seq<Seq<char>>, q: Seq<char>)
    ensures
        match found_path(paths, q) {
            Some(p) => exists|i: int|
                0 <= i < paths.len() && p == #[trigger] paths[i] && has_letters(paths[i], q)
                    && forall|j: int| i < j < paths.len() ==> !has_letters(#[trigger] paths[j], q),
            None => forall|j: int| 0 <= j < paths.len() ==> !has_letters(#[trigger] paths[j], q),
        },
        forall|i: int|
            0 <= i < paths.len() && has_letters(#[trigger] paths[i], q) && (forall|j: int|
                i < j < paths.len() ==> !has_letters(#[trigger] paths[j], q)) ==> found_path(
                paths,
                q,
            ) == Some(paths[i]),
{
    let g = |x: int| crate::util::holds_letters(paths[x], q);
    last_such_is_exact(paths.len() as int, g);
    match crate::lists::last_such(paths.len() as int, g) {
        Some(k) => {
            assert(g(k));
            assert forall|j: int| k < j < paths.len() implies !has_letters(#[trigger] paths[j], q) by {
                assert(!g(j));
            }
            assert forall|i: int|
                0 <= i < paths.len() && has_letters(#[trigger] paths[i], q) && (forall|j: int|
                    i < j < paths.len() ==> !has_letters(#[trigger] paths[j], q)) implies i == k by {
                if i < k {
                    assert(!has_letters(paths[k], q));
                }
            }
        },
        None => {
            assert forall|j: int| 0 <= j < paths.len() implies !has_letters(#[trigger] paths[j], q) by {
                assert(!g(j));
            }
        },
    }
}

/// `bm` with letters goes to the newest bookmark whose path holds them, in any
/// letter case, and nowhere if none does.
pub proof fn letters_find_the_newest_bookmark(s: StateRow, q: Seq<char>, f: FactsRow)
    requires
        s.active_remote is None,
        clean(q),
        parsed_usize(q) is None,
    ensures
        forall|i: int|
            0 <= i < s.dir_bookmarks.len() && has_letters(#[trigger] s.dir_bookmarks[i], q) && (
            forall|j: int|
                i < j < s.dir_bookmarks.len() ==> !has_letters(#[trigger] s.dir_bookmarks[j], q))
                ==> command_outcome(s, said("bm"@, q), f).plan.next == (Next::ChangeDir {
                target: s.dir_bookmarks[i],
                recent: None,
                mover: Mover::Bm,
            }),
        (forall|i: int|
            0 <= i < s.dir_bookmarks.len() ==> !has_letters(#[trigger] s.dir_bookmarks[i], q))
            ==> command_outcome(s, said("bm"@, q), f).plan.next == Next::<Seq<char>>::Done,
{
    lemma_said(s, "bm"@, q, f);
    lemma_plans(recorded(s, said("bm"@, q), "bm"@, f.now), said("bm"@, q), q, f);
    lemma_found_path(s.dir_bookmarks, q);
}

// ---- paths ----

/// The argument is not about the home directory.
pub open spec fn not_home(q: Seq<char>) -> bool {
    q[0] != '~'
}

proof fn lemma_not_home(q: Seq<char>)
    requires
        q.len() > 0,
        not_home(q),
    ensures
        q != "~"@,
        under_home(q) is None,
{
    reveal_strlit("~");
    reveal_strlit("~/");
    reveal_strlit("~\\");
    if starts(q, "~/"@) || starts(q, "~\\"@) {
        assert(q.take(2)[0] == '~');
    }
}

/// What `cd` goes to for an argument that is no number and not about the home
/// directory: what is there by that path, taken from the current directory; else
/// the newest bookmark that holds its letters; else the newest recent directory
/// that does; else the path all the same.
pub proof fn cd_goes_to_what_is_named(s: StateRow, q: Seq<char>, f: FactsRow)
    requires
        s.active_remote is None,
        clean(q),
        parsed_usize(q) is None,
        not_home(q),
    ensures
        ({
            let o = command_outcome(s, said("cd"@, q), f);
            let b = s.dir_bookmarks;
            let r = s.recent_dirs;
            &&& o.plan.next matches Next::ChangeDir { target, recent, mover }
            &&& recent is None && mover == Mover::Cd
            &&& f.arg_exists ==> target == joined(s.cwd, q, s.windows)
            &&& forall|i: int|
                !f.arg_exists && 0 <= i < b.len() && has_letters(#[trigger] b[i], q) && (forall|
                    j: int,
                |
                    i < j < b.len() ==> !has_letters(#[trigger] b[j], q)) ==> target == b[i]
            &&& forall|i: int|
                !f.arg_exists && (forall|j: int|
                    0 <= j < b.len() ==> !has_letters(#[trigger] b[j], q)) && 0 <= i < r.len()
                    && has_letters((#[trigger] r[i]).path, q) && (forall|j: int|
                    i < j < r.len() ==> !has_letters((#[trigger] r[j]).path, q)) ==> target
                    == r[i].path
            &&& !f.arg_exists && (forall|j: int|
                0 <= j < b.len() ==> !has_letters(#[trigger] b[j], q)) && (forall|j: int|
                0 <= j < r.len() ==> !has_letters((#[trigger] r[j]).path, q)) ==> target == joined(
                s.cwd,
                q,
                s.windows,
            )
        }),
{
    lemma_said(s, "cd"@, q, f);
    let t = recorded(s, said("cd"@, q), "cd"@, f.now);
    lemma_plans(t, said("cd"@, q), q, f);
    lemma_not_home(q);
    let b = s.dir_bookmarks;
    let r = s.recent_dirs;
    let ps = recent_paths(r);
    lemma_found_path(b, q);
    lemma_found_path(ps, q);
    assert(t.recent_dirs == r);
    assert(ps.len() == r.len());
    assert forall|i: int| 0 <= i < r.len() implies #[trigger] ps[i] == r[i].path by {}
    assert forall|i: int|
        0 <= i < r.len() && has_letters((#[trigger] r[i]).path, q) && (forall|j: int|
            i < j < r.len() ==> !has_letters((#[trigger] r[j]).path, q)) implies found_path(ps, q)
        == Some(r[i].path) by {
        assert(has_letters(ps[i], q));
        assert forall|j: int| i < j < ps.len() implies !has_letters(#[trigger] ps[j], q) by {
            assert(!has_letters(r[j].path, q));
        }
    }
    if forall|j: int| 0 <= j < r.len() ==> !has_letters((#[trigger] r[j]).path, q) {
        assert forall|j: int| 0 <= j < ps.len() implies !has_letters(#[trigger] ps[j], q) by {
            assert(!has_letters(r[j].path, q));
        }
    }
}

/// `cd` alone and `cd ~` go home, and `cd ~/` with more goes to that under the
/// home directory, whatever else there is.
pub proof fn cd_knows_the_home_directory(s: StateRow, h: Seq<char>, more: Seq<char>, f: FactsRow)
    requires
        s.active_remote is None,
        s.home == Some(h),
        clean(more),
    ensures
        command_outcome(s, "cd"@, f).plan.next == (Next::ChangeDir {
            target: h,
            recent: None,
            mover: Mover::Cd,
        }),
        command_outcome(s, said("cd"@, "~"@), f).plan.next == (Next::ChangeDir {
            target: h,
            recent: None,
            mover: Mover::Cd,
        }),
        command_outcome(s, said("cd"@, "~/"@ + more), f).plan.next == (Next::ChangeDir {
            target: joined(h, more, s.windows),
            recent: None,
            mover: Mover::Cd,
        }),
        command_outcome(s, said("cat"@, "~/"@ + more), f).plan.next == Next::Cat(
            joined(h, more, s.windows),
        ),
{
    let none = Seq::<char>::empty();
    let q = "~/"@ + more;
    reveal_strlit("~");
    reveal_strlit("~/");
    assert(clean("~"@));
    assert(q[0] == '~' && q.last() == more.last());
    assert(q.take(2) =~= "~/"@ && q.skip(2) =~= more);
    assert(q != "~"@);
    assert(parsed_usize("~"@) is None && parsed_usize(q) is None && parsed_usize(none) is None) by {
        assert(!crate::num::is_digit('~'));
        if crate::num::all_digits("~"@) {
            assert(crate::num::is_digit("~"@[0]));
        }
        if crate::num::all_digits(q) {
            assert(crate::num::is_digit(q[0]));
        }
    }
    lemma_not_history("cd"@);
    lemma_bare_line("cd"@);
    lemma_local(s, "cd"@, "cd"@, none, f);
    lemma_plans(recorded(s, "cd"@, "cd"@, f.now), "cd"@, none, f);
    lemma_said(s, "cd"@, "~"@, f);
    lemma_plans(recorded(s, said("cd"@, "~"@), "cd"@, f.now), said("cd"@, "~"@), "~"@, f);
    lemma_said(s, "cd"@, q, f);
    lemma_plans(recorded(s, said("cd"@, q), "cd"@, f.now), said("cd"@, q), q, f);
    lemma_said(s, "cat"@, q, f);
    lemma_plans(recorded(s, said("cat"@, q), "cat"@, f.now), said("cat"@, q), q, f);
}

/// `cat` shows what is there by the path that is given, taken from the current
/// directory. Where there is nothing, the newest bookmark that holds its letters
/// counts, and else the path all the same.
pub proof fn cat_shows_what_is_named(s: StateRow, q: Seq<char>, f: FactsRow)
    requires
        s.active_remote is None,
        clean(q),
        not_home(q),
    ensures
        ({
            let o = command_outcome(s, said("cat"@, q), f);
            let b = s.dir_bookmarks;
            &&& o.plan.next matches Next::Cat(target)
            &&& f.arg_exists ==> target == joined(s.cwd, q, s.windows)
            &&& forall|i: int|
                !f.arg_exists && 0 <= i < b.len() && has_letters(#[trigger] b[i], q) && (forall|
                    j: int,
                |
                    i < j < b.len() ==> !has_letters(#[trigger] b[j], q)) ==> target == b[i]
            &&& !f.arg_exists && (forall|j: int|
                0 <= j < b.len() ==> !has_letters(#[trigger] b[j], q)) ==> target == joined(
                s.cwd,
                q,
                s.windows,
            )
        }),
{
    lemma_said(s, "cat"@, q, f);
    lemma_plans(recorded(s, said("cat"@, q), "cat"@, f.now), said("cat"@, q), q, f);
    lemma_not_home(q);
    lemma_found_path(s.dir_bookmarks, q);
}

// ---- other commands ----

/// The words that the shell takes itself.
pub open spec fn own_word(w: Seq<char>) -> bool {
    ||| w == "his"@
    ||| w == "hist"@
    ||| w == "this"@
    ||| w == "hisd"@
    ||| w == "remote"@
    ||| w == "del"@
    ||| w == "exit"@
    ||| w == "quit"@
    ||| w == "ssh"@
    ||| w == "sync"@
    ||| w == "logs"@
    ||| w == "cat"@
    ||| w == "cd"@
    ||| w == "bm"@
    ||| w == "python"@
    ||| w == "python3"@
    ||| w == "pip"@
    ||| w == "pip3"@
}

/// A line whose command is none of the shell's own runs in the system shell just
/// as it was typed, white space around it aside.
pub proof fn other_lines_run_as_they_are(s: StateRow, w: Seq<char>, args: Seq<char>, f: FactsRow)
    requires
        s.active_remote is None,
        one_word(w),
        !own_word(w),
        clean(args),
    ensures
        command_outcome(s, said(w, args), f).plan.next == Next::Run(said(w, args)),
        command_outcome(s, w, f).plan.next == Next::Run(w),
{
    let none = Seq::<char>::empty();
    lemma_line(w, args);
    lemma_bare_line(w);
    lemma_local(s, w, said(w, args), args, f);
    lemma_local(s, w, w, none, f);
}

/// White space around a line does not count.
pub proof fn white_space_around_a_line_does_not_count(
    s: StateRow,
    a: Seq<char>,
    line: Seq<char>,
    b: Seq<char>,
    f: FactsRow,
)
    requires
        clean(line),
        forall|i: int| 0 <= i < a.len() ==> is_white(#[trigger] a[i]),
        forall|i: int| 0 <= i < b.len() ==> is_white(#[trigger] b[i]),
    ensures
        command_outcome(s, a + line + b, f) == command_outcome(s, line, f),
{
    let k = Class::White;
    let x = a + line + b;
    assert forall|i: int| 0 <= i < a.len() implies k.has(#[trigger] x[i]) == true by {
        assert(x[i] == a[i]);
    }
    assert(x[a.len() as int] == line[0]);
    lemma_span_is(x, k, true, a.len());
    let y = x.skip(a.len() as int);
    assert(y =~= line + b);
    assert forall|i: int| y.len() - b.len() <= i < y.len() implies k.has(#[trigger] y[i]) == true by {
        assert(y[i] == b[i - line.len()]);
    }
    assert(y[y.len() - 1 - b.len()] == line.last());
    lemma_rspan_is(y, k, true, b.len());
    assert(y.take(line.len() as int) =~= line);
    lemma_trimmed_clean(line, k);
    assert(trimmed(x, k) == trimmed(line, k));
}

/// `exit` and `quit` leave the shell; `sync` and `logs` hand on their argument as
/// it was typed.
pub proof fn own_words_do_their_work(s: StateRow, args: Seq<char>, f: FactsRow)
    requires
        s.active_remote is None,
        clean(args),
    ensures
        command_outcome(s, "exit"@, f).plan.next == Next::<Seq<char>>::Exit,
        command_outcome(s, "quit"@, f).plan.next == Next::<Seq<char>>::Exit,
        command_outcome(s, said("sync"@, args), f).plan.next == Next::Sync(args),
        command_outcome(s, said("logs"@, args), f).plan.next == Next::Follow(args),
{
    let none = Seq::<char>::empty();
    lemma_not_history("exit"@);
    lemma_not_history("quit"@);
    lemma_bare_line("exit"@);
    lemma_bare_line("quit"@);
    lemma_local(s, "exit"@, "exit"@, none, f);
    lemma_local(s, "quit"@, "quit"@, none, f);
    lemma_exit_words(recorded(s, "exit"@, "exit"@, f.now), "exit"@, f);
    lemma_exit_words(recorded(s, "quit"@, "quit"@, f.now), "quit"@, f);
    lemma_said(s, "sync"@, args, f);
    lemma_plans(recorded(s, said("sync"@, args), "sync"@, f.now), said("sync"@, args), args, f);
    lemma_said(s, "logs"@, args, f);
    lemma_plans(recorded(s, said("logs"@, args), "logs"@, f.now), said("logs"@, args), args, f);
}

proof fn lemma_exit_words(t: StateRow, w: Seq<char>, f: FactsRow)
    requires
        w == "exit"@ || w == "quit"@,
    ensures
        local_line_outcome(t, w, w, Seq::empty(), f).plan == PlanRow::just(Next::Exit),
{
    lemma_command_words();
}

/// A line is recorded with the time it was entered; the directory it was entered
/// in becomes the newest recent directory, unless the line is a `cd`. What
/// bookmarks and remotes are saved, where the shell is and whether it is
/// connected stays as it is for a line that runs in the system shell.
pub proof fn lines_are_recorded(s: StateRow, w: Seq<char>, args: Seq<char>, f: FactsRow)
    requires
        s.active_remote is None,
        one_word(w),
        !own_word(w),
        clean(args),
    ensures
        ({
            let o = command_outcome(s, said(w, args), f);
            &&& o.state.history.last() == (HistoryRow { text: said(w, args), dir: s.cwd, dt: f.now })
            &&& o.state.recent_dirs.last() == (RecentRow { path: s.cwd, dt: f.now })
            &&& o.state.dir_bookmarks == s.dir_bookmarks
            &&& o.state.remote_terminals == s.remote_terminals
            &&& o.state.cwd == s.cwd
            &&& o.state.active_remote is None
            &&& o.plan.effects.len() == 1
            &&& o.plan.effects[0] matches Effect::Save { contents, .. }
            &&& contents == o.state.saved().text()
        }),
        forall|q: Seq<char>| #[trigger]
            clean(q) ==> command_outcome(s, said("cd"@, q), f).state.recent_dirs == s.recent_dirs,
{
    lemma_line(w, args);
    lemma_local(s, w, said(w, args), args, f);
    assert forall|q: Seq<char>| #[trigger] clean(q) implies command_outcome(
        s,
        said("cd"@, q),
        f,
    ).state.recent_dirs == s.recent_dirs by {
        lemma_said(s, "cd"@, q, f);
        lemma_plans(recorded(s, said("cd"@, q), "cd"@, f.now), said("cd"@, q), q, f);
    }
}

/// `his p` with the number of a page shows that page, counted from 1, and `this p`
/// the page of the current directory; neither changes anything.
pub proof fn pages_are_shown_by_number(s: StateRow, n: nat, f: FactsRow)
    requires
        1 <= n <= usize::MAX,
    ensures
        command_outcome(s, said("his"@, "p"@ + decimal(n)), f) == Outcome::of(
            s,
            PlanRow::page(all_history_page(s.history, n - 1)),
        ),
        command_outcome(s, said("this"@, "p"@ + decimal(n)), f) == Outcome::of(
            s,
            PlanRow::page(dir_history_page(s.history, s.cwd, n - 1, s.windows)),
        ),
{
    let q = "p"@ + decimal(n);
    reveal_strlit("p");
    lemma_number(n);
    assert(q[0] == 'p' && q.last() == decimal(n).last());
    lemma_his_words(q);
    assert(q.take(1) =~= "p"@ && q.skip(1) =~= decimal(n));
}

// ---- virtual environments ----

/// `python` and `pip`, with a `3` or without, run what the virtual environment of
/// the current directory has for them, with the arguments that were given; where
/// it has nothing, the line runs as it is.
pub proof fn python_lines_use_the_environment(
    s: StateRow,
    w: Seq<char>,
    args: Seq<char>,
    f: FactsRow,
)
    requires
        s.active_remote is None,
        w == "python"@ || w == "python3"@ || w == "pip"@ || w == "pip3"@,
        clean(args),
    ensures
        ({
            let exe = venv_file(
                s.cwd,
                if w == "python"@ || w == "python3"@ {
                    interpreters()
                } else {
                    pips()
                },
                f.venv_files,
                s.windows,
            );
            let call = if s.windows {
                "& '"@
            } else {
                "'"@
            };
            command_outcome(s, said(w, args), f).plan.next == Next::Run(
                match exe {
                    Some(e) => call + e + "' "@ + args,
                    None => said(w, args),
                },
            )
        }),
{
    lemma_venv_said(s, w, args, f);
    let exe = venv_file(
        s.cwd,
        if w == "python"@ || w == "python3"@ {
            interpreters()
        } else {
            pips()
        },
        f.venv_files,
        s.windows,
    );
    if exe is Some {
        lemma_venv_line(exe->0, args, s.windows);
    }
}

proof fn lemma_venv_line(exe: Seq<char>, args: Seq<char>, windows: bool)
    requires
        clean(args),
    ensures
        venv_line(exe, args, windows) == (if windows {
            "& '"@
        } else {
            "'"@
        }) + exe + "' "@ + args,
{
    reveal_strlit("& ");
    reveal_strlit("& '");
    reveal_strlit("");
    reveal_strlit("'");
    reveal_strlit("' ");
    reveal_strlit(" ");
    lemma_trimmed_clean(args, Class::White);
    assert(venv_line(exe, args, windows) =~= (if windows {
        "& '"@
    } else {
        "'"@
    }) + exe + "' "@ + args);
}

proof fn lemma_venv_said(s: StateRow, w: Seq<char>, args: Seq<char>, f: FactsRow)
    requires
        s.active_remote is None,
        w == "python"@ || w == "python3"@ || w == "pip"@ || w == "pip3"@,
        clean(args),
    ensures
        command_outcome(s, said(w, args), f).plan.next == venv_plan(
            venv_file(
                s.cwd,
                if w == "python"@ || w == "python3"@ {
                    interpreters()
                } else {
                    pips()
                },
                f.venv_files,
                s.windows,
            ),
            said(w, args),
            args,
            s.windows,
        ).next,
{
    lemma_not_history(w);
    lemma_line(w, args);
    lemma_local(s, w, said(w, args), args, f);
    let t = recorded(s, said(w, args), w, f.now);
    lemma_venv_word(t, said(w, args), w, args, f);
}

proof fn lemma_venv_word(
    t: StateRow,
    line: Seq<char>,
    w: Seq<char>,
    args: Seq<char>,
    f: FactsRow,
)
    requires
        w == "python"@ || w == "python3"@ || w == "pip"@ || w == "pip3"@,
    ensures
        local_line_outcome(t, line, w, args, f).plan == venv_plan(
            venv_file(
                t.cwd,
                if w == "python"@ || w == "python3"@ {
                    interpreters()
                } else {
                    pips()
                },
                f.venv_files,
                t.windows,
            ),
            line,
            args,
            t.windows,
        ),
{
    lemma_command_words();
}

// ---- remotes ----

/// `ssh` with a text that is no number connects to what the text spells out, and
/// `remote add` asks to save what its text spells out.
pub proof fn remotes_are_named_on_the_line(s: StateRow, q: Seq<char>, f: FactsRow)
    requires
        s.active_remote is None,
        clean(q),
    ensures
        parsed_usize(q) is None ==> command_outcome(s, said("ssh"@, q), f).plan.next
            == Next::Connect(crate::ssh::spec_target(q, f.default_user)),
        command_outcome(s, said("remote"@, said("add"@, q)), f).plan.next == Next::AddRemote(
            crate::ssh::spec_target(q, f.default_user),
        ),
{
    lemma_trimmed_clean(q, Class::White);
    lemma_said(s, "ssh"@, q, f);
    lemma_plans(recorded(s, said("ssh"@, q), "ssh"@, f.now), said("ssh"@, q), q, f);
    lemma_two_words("remote"@, "add"@, q);
    lemma_not_history("remote"@);
    let line = said("remote"@, said("add"@, q));
    lemma_local(s, "remote"@, line, said("add"@, q), f);
    let t = recorded(s, line, "remote"@, f.now);
    assert("add"@ != ""@ && "add"@ != "list"@ && "add"@ != "ls"@) by {
        lemma_command_words();
    }
    assert(local_line_outcome(t, line, "remote"@, said("add"@, q), f) == remote_outcome(
        t,
        said("add"@, q),
        f.default_user,
    ));
}

/// The line that recalling a recent directory puts in goes to that directory.
pub proof fn recalled_directories_are_gone_to(s: StateRow, path: Seq<char>, f: FactsRow)
    requires
        s.active_remote is None,
        f.arg_exists,
        clean(tilded(path, s.home, s.windows)),
        parsed_usize(tilded(path, s.home, s.windows)) is None,
        match s.home {
            Some(h) if relative(path, h, s.windows) is Some => if s.windows {
                let rest = replaced(relative(path, h, s.windows)->0, Class::One('\\'), '/');
                stays_below(h, rest, s.windows) && reads_alike(path, h, rest, s.windows)
            } else {
                !path.contains('\\')
            },
            _ => absolute(path, s.windows),
        },
    ensures
        ({
            let line = cd_text(path, s.home, s.windows);
            &&& command_outcome(s, line, f).plan.next matches Next::ChangeDir { target, .. }
            &&& path_eq(target, path, s.windows)
        }),
{
    let q = tilded(path, s.home, s.windows);
    reveal_strlit("cd ");
    reveal_strlit("cd");
    reveal_strlit(" ");
    assert("cd "@ =~= "cd"@ + " "@);
    assert(cd_text(path, s.home, s.windows) =~= said("cd"@, q));
    lemma_said(s, "cd"@, q, f);
    lemma_plans(recorded(s, said("cd"@, q), "cd"@, f.now), said("cd"@, q), q, f);
    shown_path_resolves(path, s.home, s.cwd, s.dir_bookmarks, true, s.windows);
}

/// `remote` alone, `remote list` and `remote ls` show the first page of the saved
/// remotes.
pub proof fn remotes_are_listed(s: StateRow, f: FactsRow)
    requires
        s.active_remote is None,
    ensures
        command_outcome(s, "remote"@, f).plan.effects.len() == 2,
        command_outcome(s, "remote"@, f).plan.effects[1] == Effect::Page(
            crate::ssh::remotes_page(s.remote_terminals, 0),
        ),
        command_outcome(s, said("remote"@, "list"@), f).plan.effects.len() == 2,
        command_outcome(s, said("remote"@, "list"@), f).plan.effects[1] == Effect::Page(
            crate::ssh::remotes_page(s.remote_terminals, 0),
        ),
{
    let none = Seq::<char>::empty();
    lemma_not_history("remote"@);
    lemma_bare_line("remote"@);
    lemma_local(s, "remote"@, "remote"@, none, f);
    lemma_remote_list(recorded(s, "remote"@, "remote"@, f.now), "remote"@, none, f);
    assert(one_word("list"@) && clean("list"@)) by {
        lemma_command_words();
        reveal_strlit("list");
    }
    lemma_line("remote"@, "list"@);
    lemma_local(s, "remote"@, said("remote"@, "list"@), "list"@, f);
    lemma_remote_list(
        recorded(s, said("remote"@, "list"@), "remote"@, f.now),
        said("remote"@, "list"@),
        "list"@,
        f,
    );
}

proof fn lemma_remote_list(t: StateRow, line: Seq<char>, args: Seq<char>, f: FactsRow)
    requires
        args.len() == 0 || args == "list"@,
    ensures
        local_line_outcome(t, line, "remote"@, args, f) == Outcome::of(
            t,
            PlanRow::page(crate::ssh::remotes_page(t.remote_terminals, 0)),
        ),
{
    if args.len() == 0 {
        reveal_strlit("");
        assert(args =~= ""@);
        lemma_span_is(args, Class::White, false, 0);
    } else {
        lemma_command_words();
        lemma_bare_line("list"@);
    }
}

} // verus!
