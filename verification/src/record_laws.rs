//! What is recorded, what is read from the state file, and what the work outside
//! comes to.

use crate::commands::{
    argument_at, logs_output, moved_outcome, shell_words, sync_goes_on, sync_output, written,
    DirChange,
};
use crate::line_laws::{clean, lemma_line, one_word};
use crate::lists::{picked_is_exact, without};
use crate::path::{joined, path_eq};
use crate::plan::{Effect, Mover, Next, OutKind, Target};
use crate::process::{extensions, runnable, runnable_below, runnable_in, ProcessRun};
use crate::recall_laws::said;
use crate::remote_laws::{kept_in_order, without_keeps_order};
use crate::round_trip::saved_state_reads_back;
use crate::save_data::{
    absorbed, flattened, lines_of, panel_shown, panel_word, read_back, state_file, LoadedRow,
};
use crate::ssh::login::{after_asking, after_keeping, first_step, LoginStep, Purpose};
use crate::state::{
    at_path, deduped, newest_of_its_kind, same_command, with_command, with_recent, HistoryRow,
    PanelVis, RecentRow, SizeRow, StateRow,
};
use crate::tab_laws::all_white;
use crate::text::{ascii_lower, is_white, lemma_span_is, lossy_text, starts, trimmed_start, Class};
use crate::util::first_set;
use vstd::prelude::*;

verus! {

// ---- the history and the recent directories ----

/// A command that is recorded is the newest, and everything else stays in its
/// order, but for an older record of that command in that directory.
pub proof fn history_keeps_its_order(h: Seq<HistoryRow>, row: HistoryRow, windows: bool)
    ensures
        ({
            let after = with_command(h, row, windows);
            &&& after.len() > 0
            &&& after.last() == row
            &&& kept_in_order(
                after.drop_last(),
                h,
                |r: HistoryRow| !(r.text == row.text && path_eq(r.dir, row.dir, windows)),
            )
        }),
{
    let f = same_command(row.text, row.dir, windows);
    let g = |r: HistoryRow| !(r.text == row.text && path_eq(r.dir, row.dir, windows));
    without_keeps_order(h, f, g);
    assert(with_command(h, row, windows).drop_last() =~= without(h, f));
}

/// A directory that is recorded is the newest, and the others stay in their
/// order, but for an older record of that directory.
pub proof fn recent_directories_keep_their_order(
    list: Seq<RecentRow>,
    row: RecentRow,
    windows: bool,
)
    ensures
        ({
            let after = with_recent(list, row, windows);
            &&& after.len() > 0
            &&& after.last() == row
            &&& kept_in_order(
                after.drop_last(),
                list,
                |r: RecentRow| !path_eq(r.path, row.path, windows),
            )
        }),
{
    let f = at_path(row.path, windows);
    let g = |r: RecentRow| !path_eq(r.path, row.path, windows);
    without_keeps_order(list, f, g);
    assert(with_recent(list, row, windows).drop_last() =~= without(list, f));
}

/// Entry `i` is repeated later: the same command in the same directory.
pub open spec fn repeated(h: Seq<HistoryRow>, i: int, windows: bool) -> bool {
    exists|j: int|
        i < j < h.len() && (#[trigger] h[j]).text == h[i].text && path_eq(h[j].dir, h[i].dir, windows)
}

/// Of a history with repeats exactly the entries are left that are not repeated
/// later, in their order.
pub proof fn dedup_drops_just_the_repeats(h: Seq<HistoryRow>, windows: bool)
    ensures
        exists|at: Seq<int>|
            {
                let r = deduped(h, windows);
                &&& #[trigger] at.len() == r.len()
                &&& forall|x: int|
                    0 <= x < at.len() ==> 0 <= #[trigger] at[x] < h.len() && r[x] == h[at[x]]
                        && !repeated(h, at[x], windows)
                &&& forall|x: int, y: int|
                    0 <= x < y < at.len() ==> #[trigger] at[x] < #[trigger] at[y]
                &&& forall|i: int|
                    0 <= i < h.len() && !#[trigger] repeated(h, i, windows) ==> at.contains(i)
            },
{
    let f = |i: int| newest_of_its_kind(h, i, windows);
    let at = crate::lists::picked(h.len(), f);
    picked_is_exact(h.len(), f);
    let r = deduped(h, windows);
    assert(at.len() == r.len());
    assert forall|i: int| 0 <= i < h.len() implies f(i) == !#[trigger] repeated(h, i, windows) by {
        if f(i) && repeated(h, i, windows) {
            let j = choose|j: int|
                i < j < h.len() && (#[trigger] h[j]).text == h[i].text && path_eq(
                    h[j].dir,
                    h[i].dir,
                    windows,
                );
            assert(!same_command(h[i].text, h[i].dir, windows)(h[j]));
        }
        if !f(i) {
            let j = choose|j: int|
                i < j < h.len() && same_command(h[i].text, h[i].dir, windows)(#[trigger] h[j]);
            assert(h[j].text == h[i].text);
        }
    }
    assert forall|x: int| 0 <= x < at.len() implies 0 <= #[trigger] at[x] < h.len() && r[x]
        == h[at[x]] && !repeated(h, at[x], windows) by {
        assert(f(at[x]));
    }
    assert forall|i: int| 0 <= i < h.len() && !#[trigger] repeated(h, i, windows) implies at.contains(
        i,
    ) by {
        assert(f(i));
    }
}

// ---- the work outside ----

/// A change of directory that worked moves the shell there, to the path that the
/// system gives for it if it gives one, and changes nothing else. One that failed
/// leaves the shell where it is and says so; only if the directory was a recent
/// one that no longer exists is it taken off the list, it and no other.
pub proof fn moves_change_the_directory(
    s: StateRow,
    target: Seq<char>,
    recent: Option<usize>,
    mover: Mover,
    change: DirChange,
)
    ensures
        ({
            let o = moved_outcome(s, target, recent, mover, change);
            &&& o.plan.next == Next::<Seq<char>>::Done
            &&& change matches DirChange::Changed(p) ==> {
                &&& o.state.cwd == (if p is Some {
                    p->0@
                } else {
                    target
                })
                &&& o.state == (StateRow { cwd: o.state.cwd, ..s })
                &&& o.plan.effects.len() == 0
            }
            &&& change matches DirChange::Failed { not_found, message } ==> {
                let stale = not_found && recent is Some && recent->0 < s.recent_dirs.len()
                    && path_eq(s.recent_dirs[recent->0 as int].path, target, s.windows);
                let left = o.state.recent_dirs;
                &&& o.state == (StateRow { recent_dirs: left, ..s })
                &&& o.plan.effects.len() > 0
                &&& o.plan.effects[0] == Effect::Line(
                    OutKind::Stderr,
                    (if mover == Mover::Cd {
                        "cd: "@
                    } else {
                        "bm: "@
                    }) + message@,
                )
                &&& !stale ==> left == s.recent_dirs && o.plan.effects.len() == 1
                &&& stale ==> left.len() == s.recent_dirs.len() - 1 && (forall|j: int|
                    0 <= j < recent->0 ==> #[trigger] left[j] == s.recent_dirs[j]) && (forall|j: int|
                    recent->0 <= j < left.len() ==> #[trigger] left[j] == s.recent_dirs[j + 1])
                    && (o.plan.effects.last() is Save) && o.plan.effects.last()->contents
                    == o.state.saved().text()
            }
        }),
{
    reveal_strlit("cd");
    reveal_strlit("bm");
    reveal_strlit(": ");
    reveal_strlit("cd: ");
    reveal_strlit("bm: ");
    assert("cd"@ + ": "@ =~= "cd: "@);
    assert("bm"@ + ": "@ =~= "bm: "@);
}

/// What a process wrote is shown: what it wrote to its standard output first and
/// then what it wrote to its error output, each on that stream, and nothing for a
/// stream it did not write to.
pub proof fn output_is_shown_in_order(run: ProcessRun)
    ensures
        run.stdout@.len() > 0 && run.stderr@.len() > 0 ==> written(run) == seq![
            Effect::Line(OutKind::Stdout, lossy_text(run.stdout@)),
            Effect::Line(OutKind::Stderr, lossy_text(run.stderr@)),
        ],
        run.stdout@.len() > 0 && run.stderr@.len() == 0 ==> written(run) == seq![
            Effect::Line(OutKind::Stdout, lossy_text(run.stdout@)),
        ],
        run.stdout@.len() == 0 && run.stderr@.len() > 0 ==> written(run) == seq![
            Effect::Line(OutKind::Stderr, lossy_text(run.stderr@)),
        ],
        run.stdout@.len() == 0 && run.stderr@.len() == 0 ==> written(run).len() == 0,
{
    let out = Effect::Line(OutKind::Stdout, lossy_text(run.stdout@));
    let err = Effect::Line(OutKind::Stderr, lossy_text(run.stderr@));
    if run.stdout@.len() > 0 && run.stderr@.len() > 0 {
        assert(written(run) =~= seq![out, err]);
    }
    if run.stdout@.len() == 0 && run.stderr@.len() > 0 {
        assert(written(run) =~= seq![err]);
    }
}

/// A step of `sync` shows what git wrote; one that failed adds a line that names
/// the call, on the error stream, and no further step is run. The output of `logs`
/// is shown unless it was followed, and a failure adds a line.
pub proof fn failures_are_told(step: Seq<Seq<char>>, p: ProcessRun, e: String, follow: bool)
    ensures
        sync_goes_on(Ok(p)) == p.success,
        !sync_goes_on(Err(e)),
        p.success ==> sync_output(step, Ok(p)) == written(p),
        !p.success ==> sync_output(step, Ok(p)).drop_last() == written(p) && (sync_output(
            step,
            Ok(p),
        ).last() matches Effect::Line(OutKind::Stderr, _)),
        sync_output(step, Err(e)).len() == 1 && (sync_output(step, Err(e))[0] matches Effect::Line(
            OutKind::Stderr,
            _,
        )),
        logs_output(false, Ok(p)).len() == written(p).len() + (if p.success {
            0int
        } else {
            1
        }),
        logs_output(false, Ok(p)).take(written(p).len() as int) == written(p),
        logs_output(true, Ok(p)).len() == (if p.success {
            0int
        } else {
            1
        }),
        !p.success ==> (logs_output(follow, Ok(p)).last() matches Effect::Line(OutKind::Stderr, _)),
        logs_output(follow, Err(e)).len() == 1 && (logs_output(follow, Err(e))[0] matches Effect::Line(
            OutKind::Stderr,
            _,
        )),
{
    if !p.success {
        assert(sync_output(step, Ok(p)).drop_last() =~= written(p));
    }
    assert(logs_output(false, Ok(p)).take(written(p).len() as int) =~= written(p));
}

// ---- the state file ----

/// A line of the state file that starts with none of the tags changes nothing,
/// and neither does a line of white space or a comment.
pub proof fn unknown_lines_are_skipped(acc: LoadedRow, line: Seq<char>)
    requires
        ({
            let t = trimmed_start(line, Class::White);
            t.len() == 0 || t[0] == '#' || (!starts(t, "BM "@) && !starts(t, "REC_DIR "@) && !starts(
                t,
                "HIS "@,
            ) && !starts(t, "REMOTE_TERMINAL "@) && !starts(t, "PANEL_VIS "@) && !starts(
                t,
                "WINDOW_SIZE "@,
            ) && !starts(t, "OPEN_TAB "@) && !starts(t, "ACTIVE_TAB "@) && !starts(
                t,
                "FONT_SIZE "@,
            ))
        }),
    ensures
        absorbed(acc, line) == acc,
{
}

/// A panel is shown for `1` and `true`, hidden for `0` and `false`, and at its
/// default for any other value, whatever it was before; the other panels stay.
pub proof fn panels_follow_their_values(v: PanelVis, key: Seq<char>, value: Seq<char>, k: Seq<char>)
    requires
        forall|i: int| 0 <= i < key.len() ==> #[trigger] key[i] != '=',
        panel_name(key),
        panel_name(k),
    ensures
        ({
            let after = panel_word(v, key + "="@ + value);
            &&& panel_shown(after, key) == (if value == "1"@ || ascii_lower(value) == "true"@ {
                true
            } else if value == "0"@ || ascii_lower(value) == "false"@ {
                false
            } else {
                key != "remote_terminals"@
            })
            &&& k != key ==> panel_shown(after, k) == panel_shown(v, k)
        }),
{
    reveal_strlit("=");
    let c = Class::One('=');
    let s = key + "="@ + value;
    assert forall|i: int| 0 <= i < key.len() implies c.has(#[trigger] s[i]) == false by {
        assert(s[i] == key[i]);
    }
    assert(s[key.len() as int] == '=');
    lemma_span_is(s, c, false, key.len());
    assert(s.take(key.len() as int) =~= key);
    assert(s.skip(key.len() as int + 1) =~= value);
    reveal_strlit("bookmarks");
    reveal_strlit("recent_dirs");
    reveal_strlit("recent_cmds");
    reveal_strlit("recent_cmds_in_dir");
    reveal_strlit("remote_terminals");
    reveal_strlit("file_browser");
    assert("recent_dirs"@[7] == 'd' && "recent_cmds"@[7] == 'c');
    assert("remote_terminals"@.len() == 16 && "recent_cmds"@.len() == 11);
}

pub open spec fn panel_name(k: Seq<char>) -> bool {
    k == "bookmarks"@ || k == "recent_dirs"@ || k == "recent_cmds"@ || k == "recent_cmds_in_dir"@
        || k == "remote_terminals"@ || k == "file_browser"@
}

// ---- passwords ----

/// The password that is typed for `ssh` is the one that is kept and the one that
/// is connected with, whether or not it could be kept. For `remote add` it is kept
/// unless it is blank, and the remote is saved either way. Where nothing could be
/// read, it is over.
pub proof fn typed_passwords_are_used(
    t: Target<Seq<char>>,
    pw: String,
    kept: Result<(), String>,
    e: String,
    p: Purpose,
)
    ensures
        after_asking(Purpose::Connect, Ok(pw)).step == LoginStep::Keep(pw@),
        after_keeping(Purpose::Connect, t, pw@, kept).step == LoginStep::Connect(pw@),
        pw@.len() > 0 ==> after_asking(Purpose::Add, Ok(pw)).step == LoginStep::Keep(pw@),
        pw@.len() == 0 ==> after_asking(Purpose::Add, Ok(pw)).step == LoginStep::<Seq<char>>::Save,
        after_keeping(Purpose::Add, t, pw@, kept).step == LoginStep::<Seq<char>>::Save,
        after_asking(p, Err(e)).step == LoginStep::<Seq<char>>::Over,
        first_step(Purpose::Connect, t, None).step is Ask,
        forall|stored: Option<Seq<char>>| #[trigger]
            first_step(Purpose::Add, t, stored).step is Ask,
{
}

// ---- what a command word can name ----

/// A word with a separator names just the file at that path. Any other names a
/// file in each of the directories, in their order, and in each with each of the
/// extensions, in their order.
pub proof fn command_words_name_files(
    word: Seq<char>,
    dirs: Seq<Seq<char>>,
    windows: bool,
    d: int,
    x: int,
)
    requires
        0 <= d < dirs.len(),
        0 <= x < extensions(windows).len(),
    ensures
        ({
            let per = extensions(windows).len() as int;
            let r = runnable(word, dirs, windows);
            let slashed = exists|i: int|
                0 <= i < word.len() && ((#[trigger] word[i]) == '/' || (windows && word[i] == '\\'));
            &&& slashed ==> r == seq![word]
            &&& !slashed ==> r.len() == dirs.len() * per && 0 <= d * per + x < r.len() && r[d * per
                + x] == joined(dirs[d], word + extensions(windows)[x], windows)
        }),
        extensions(windows)[0] == ""@,
        !windows ==> extensions(windows).len() == 1,
{
    let k = crate::path::separator(windows);
    crate::text::lemma_span(word, k, false);
    let n = crate::text::span(word, k, false) as int;
    let slashed = exists|i: int|
        0 <= i < word.len() && ((#[trigger] word[i]) == '/' || (windows && word[i] == '\\'));
    if n < word.len() {
        assert(k.has(word[n]));
        assert(word[n] == '/' || (windows && word[n] == '\\'));
        assert(slashed);
    } else {
        assert forall|i: int| 0 <= i < word.len() implies !((#[trigger] word[i]) == '/' || (windows
            && word[i] == '\\')) by {
            assert(k.has(word[i]) == false);
        }
        assert(!slashed);
        lemma_runnable(word, dirs, windows, d, x);
    }
}

proof fn lemma_runnable(word: Seq<char>, dirs: Seq<Seq<char>>, windows: bool, d: int, x: int)
    requires
        0 <= x < extensions(windows).len(),
    ensures
        ({
            let per = extensions(windows).len() as int;
            let r = runnable_below(word, dirs, windows);
            &&& r.len() == dirs.len() * per
            &&& 0 <= d < dirs.len() ==> 0 <= d * per + x < r.len() && r[d * per + x] == joined(
                dirs[d],
                word + extensions(windows)[x],
                windows,
            )
        }),
    decreases dirs.len(),
{
    let per = extensions(windows).len() as int;
    let r = runnable_below(word, dirs, windows);
    if dirs.len() > 0 {
        let t = dirs.drop_last();
        let q = runnable_below(word, t, windows);
        let more = runnable_in(word, dirs.last(), windows);
        lemma_runnable(word, t, windows, d, x);
        assert(more.len() == per);
        assert(r.len() == q.len() + per);
        assert(dirs.len() * per == t.len() * per + per) by (nonlinear_arith)
            requires
                dirs.len() == t.len() + 1,
        ;
        if d == dirs.len() - 1 {
            assert(d * per == q.len()) by (nonlinear_arith)
                requires
                    d == t.len(),
                    q.len() == t.len() * per,
            ;
            assert(r[d * per + x] == more[x]);
            assert(dirs.last() == dirs[d]);
        } else if 0 <= d < t.len() {
            assert(r[d * per + x] == q[d * per + x]);
            assert(t[d] == dirs[d]);
        }
    } else {
        assert(dirs.len() * per == 0) by (nonlinear_arith)
            requires
                dirs.len() == 0,
        ;
    }
}

// ---- what is stored and what comes back ----

/// A field of the state file is the text itself, with a space for each line break
/// and each tab and nothing else changed, so that it stays on its line.
pub proof fn fields_stay_on_their_line(s: Seq<char>)
    ensures
        flattened(s).len() == s.len(),
        forall|i: int|
            0 <= i < s.len() ==> #[trigger] flattened(s)[i] == (if s[i] == '\n' || s[i] == '\r'
                || s[i] == '\t' {
                ' '
            } else {
                s[i]
            }),
{
}

/// White space in front of a line of the state file does not count.
pub proof fn indentation_does_not_count(acc: LoadedRow, gap: Seq<char>, line: Seq<char>)
    requires
        all_white(gap),
        line.len() > 0 ==> !is_white(line[0]),
    ensures
        absorbed(acc, gap + line) == absorbed(acc, line),
{
    let k = Class::White;
    let x = gap + line;
    assert forall|i: int| 0 <= i < gap.len() implies k.has(#[trigger] x[i]) == true by {
        assert(x[i] == gap[i]);
    }
    if line.len() > 0 {
        assert(x[gap.len() as int] == line[0]);
    }
    lemma_span_is(x, k, true, gap.len());
    assert(x.skip(gap.len() as int) =~= line);
    lemma_span_is(line, k, true, 0);
    assert(line.skip(0) =~= line);
}

/// A state that is loaded has all that was read, each list as it was, and is
/// where the shell is, with no remote connected and nothing listed yet.
pub proof fn loading_restores_the_lists(
    l: LoadedRow,
    home: Option<Seq<char>>,
    cwd: Seq<char>,
    branch: Option<Seq<char>>,
    size: Option<SizeRow>,
    font: Option<Seq<char>>,
    windows: bool,
)
    ensures
        ({
            let s = StateRow::restored(l, home, cwd, branch, size, font, windows);
            &&& s.history == l.history && s.dir_bookmarks == l.bookmarks
            &&& s.recent_dirs == l.recent_dirs && s.remote_terminals == l.remote_terminals
            &&& s.panel_vis == l.panel_vis && s.open_tabs == l.open_tabs
            &&& s.window_size == size && s.font_size == font
            &&& s.home == home && s.cwd == cwd && s.branch == branch && s.windows == windows
            &&& s.active_remote is None && s.browser_files.len() == 0
            &&& s.saved().bookmarks == l.bookmarks && s.saved().history == l.history
            &&& s.saved().recent_dirs == l.recent_dirs && s.saved().remote_terminals
                == l.remote_terminals
            &&& s.saved().panel_vis == l.panel_vis && s.saved().open_tabs == l.open_tabs
            &&& s.saved().window_size == size && s.saved().font_size == font
        }),
{
}

/// The first of two settings wins where both are there, and the second counts
/// where only it is.
pub proof fn first_setting_wins(a: Seq<char>, b: Option<Seq<char>>)
    ensures
        first_set(Some(a), b) == Some(a),
        first_set(None, b) == b,
{
}

/// The system shell gets the line as it is, as its last argument behind the flag
/// that makes it run one.
pub proof fn system_shell_gets_the_line(line: Seq<char>, windows: bool)
    ensures
        ({
            let c = shell_words(line, windows);
            &&& c.len() >= 3
            &&& c[0] == (if windows {
                "pwsh"@
            } else {
                "sh"@
            })
            &&& c[c.len() - 2] == (if windows {
                "-Command"@
            } else {
                "-c"@
            })
            &&& c[c.len() - 1] == line
        }),
{
}

/// What is looked at for the argument of a line is the argument, taken from the
/// current directory.
pub proof fn arguments_are_looked_at_in_place(
    cwd: Seq<char>,
    w: Seq<char>,
    q: Seq<char>,
    windows: bool,
)
    requires
        one_word(w),
        clean(q),
    ensures
        argument_at(cwd, said(w, q), windows) == joined(cwd, q, windows),
{
    lemma_line(w, q);
}

/// The state file is `shell_state.ss` in the home directory. Without one nothing is
/// loaded: the lists are empty, and the panels are shown that are by default.
pub proof fn state_file_is_at_home(h: Seq<char>, windows: bool)
    ensures
        state_file(Some(h), windows) == Some(joined(h, "shell_state.ss"@, windows)),
        state_file(None, windows) is None,
        ({
            let l = read_back(None, windows);
            &&& l.bookmarks.len() == 0 && l.recent_dirs.len() == 0 && l.history.len() == 0
            &&& l.remote_terminals.len() == 0 && l.window_size.len() == 0 && l.font_size.len() == 0
            &&& l.open_tabs.paths.len() == 0
            &&& l.panel_vis.bookmarks && l.panel_vis.recent_dirs && l.panel_vis.recent_cmds
            &&& l.panel_vis.recent_cmds_in_dir && l.panel_vis.file_browser
            &&& !l.panel_vis.remote_terminals
        }),
{
}

/// What is written to the state file is what is loaded from it, for all that the
/// file can hold.
pub proof fn saved_states_load_again(s: StateRow, windows: bool)
    requires
        s.saved().storable(),
        s.saved().times_read_back(),
    ensures
        read_back(Some(s.saved().text()), windows) == s.saved().reread(windows),
{
    saved_state_reads_back(s.saved(), windows);
}

/// The lines of the state file end with a line break, with a carriage return
/// before it or without.
pub proof fn line_ends_do_not_matter(a: Seq<char>, b: Seq<char>)
    requires
        forall|i: int| 0 <= i < a.len() ==> #[trigger] a[i] != '\n',
        a.len() > 0 ==> a.last() != '\r',
    ensures
        lines_of(a + "\n"@ + b) == seq![a] + lines_of(b),
        lines_of(a + "\r\n"@ + b) == seq![a] + lines_of(b),
{
    reveal_strlit("\n");
    reveal_strlit("\r\n");
    lemma_line_of(a, a, b);
    assert(a + seq!['\n'] + b =~= a + "\n"@ + b);
    lemma_line_of(a.push('\r'), a, b);
    assert(a.push('\r') + seq!['\n'] + b =~= a + "\r\n"@ + b);
    assert(a.push('\r').drop_last() =~= a);
}

proof fn lemma_line_of(x: Seq<char>, a: Seq<char>, b: Seq<char>)
    requires
        forall|i: int| 0 <= i < x.len() ==> #[trigger] x[i] != '\n',
    ensures
        lines_of(x + seq!['\n'] + b) == seq![crate::save_data::without_cr(x)] + lines_of(b),
{
    let k = Class::One('\n');
    let s = x + seq!['\n'] + b;
    assert forall|i: int| 0 <= i < x.len() implies k.has(#[trigger] s[i]) == false by {
        assert(s[i] == x[i]);
    }
    assert(s[x.len() as int] == '\n');
    lemma_span_is(s, k, false, x.len());
    assert(s.take(x.len() as int) =~= x);
    assert(s.skip(x.len() as int + 1) =~= b);
}

} // verus!
