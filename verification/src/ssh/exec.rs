//! Command mode: one remote shell for each command.
//!
//! Such a shell starts in its own directory, so a `cd` would be lost. The
//! directory is therefore tracked: a command goes there first, and prints a mark
//! and its directory when it is done.

use crate::ssh::quote::{escape, escaped};
use crate::ssh::{RemoteSession, SessionRow};
use crate::text::{
    chars_of, from, last_at, lemma_last_at, lossy_text, occurs_at, rfind_text, text_of, trim,
    trimmed, upto, utf8_lossy, Class,
};
use vstd::prelude::*;

verus! {

/// What separates the output of a command from the directory behind it.
pub const CWD_MARK: &'static str = "\x01__SHELL_REMOTE_CWD__\x01";

/// A command as it is sent: from the tracked directory, with the mark and the
/// directory behind it.
pub open spec fn wrapped(cwd: Seq<char>, command: Seq<char>) -> Seq<char> {
    (if cwd.len() == 0 {
        Seq::empty()
    } else {
        "cd '"@ + escaped(cwd) + "' 2>/dev/null; "@
    }) + command + "\nprintf '%s\\n' '"@ + CWD_MARK@ + "'; pwd"@
}

/// `s` without one line break at its end.
pub open spec fn without_newline(s: Seq<char>) -> Seq<char> {
    if s.len() > 0 && s.last() == '\n' {
        s.drop_last()
    } else {
        s
    }
}

/// What the output of a command tells: what to show, and the directory it ended
/// in.
pub ghost struct Reply {
    pub shown: Option<Seq<char>>,
    pub cwd: Option<Seq<char>>,
}

pub open spec fn nonempty(s: Seq<char>) -> Option<Seq<char>> {
    if s.len() == 0 {
        None
    } else {
        Some(s)
    }
}

/// What a text says, split at the last mark. Without one, all of it is output.
pub open spec fn reply_of(text: Seq<char>) -> Reply {
    match last_at(text, CWD_MARK@, text.len() as int) {
        Some(i) => Reply {
            shown: nonempty(without_newline(text.take(i))),
            cwd: nonempty(trimmed(text.skip(i + CWD_MARK@.len()), Class::White)),
        },
        None => Reply { shown: nonempty(text), cwd: None },
    }
}

impl RemoteSession {
    /// What to send to the remote to run `command` in the tracked directory.
    pub fn run_line(&self, command: &str) -> (r: String)
        ensures
            r@ == wrapped(self.deep_view().cwd, command@),
    {
        let prefix = if chars_of(&self.cwd).len() == 0 {
            String::new()
        } else {
            "cd '".to_owned().concat(&escape(&self.cwd)).concat("' 2>/dev/null; ")
        };
        prefix.concat(command).concat("\nprintf '%s\\n' '").concat(CWD_MARK).concat("'; pwd")
    }

    /// Take in what the command wrote: keep the directory it ended in, and give
    /// back what there is to show.
    pub fn run(&mut self, stdout: &[u8]) -> (r: Option<String>)
        ensures
            ({
                let reply = reply_of(lossy_text(stdout@));
                &&& r.deep_view() == reply.shown
                &&& final(self).deep_view() == (SessionRow {
                    cwd: match reply.cwd {
                        Some(d) => d,
                        None => old(self).deep_view().cwd,
                    },
                    ..old(self).deep_view()
                })
            }),
            (final(self).deep_view(), r.deep_view()) == after_output(
                old(self).deep_view(),
                lossy_text(stdout@),
            ),
    {
        let text = utf8_lossy(stdout);
        let v = chars_of(&text);
        let mark = chars_of(CWD_MARK);
        match rfind_text(&v, &mark) {
            Some(i) => {
                assert(i + mark.len() <= v.len());
                let behind = trim(from(&v, i + mark.len()), Class::White);
                if behind.len() > 0 {
                    self.cwd = text_of(behind);
                }
                let out = upto(&v, i);
                let shown = if out.len() > 0 && out[out.len() - 1] == '\n' {
                    let s = upto(out, out.len() - 1);
                    assert(s@ =~= out@.drop_last());
                    s
                } else {
                    out
                };
                if shown.len() == 0 {
                    None
                } else {
                    Some(text_of(shown))
                }
            },
            None => if v.len() == 0 {
                None
            } else {
                Some(text)
            },
        }
    }
}

/// What a remote writes for a command: its output, the mark, and the directory
/// it ended in.
pub open spec fn remote_writes(out: Seq<char>, dir: Seq<char>) -> Seq<char> {
    out + CWD_MARK@ + "\n"@ + dir + "\n"@
}

/// The mark has its control character at both ends and nowhere else.
proof fn lemma_mark()
    ensures
        CWD_MARK@.len() > 2,
        CWD_MARK@[0] == '\x01',
        CWD_MARK@[1] != '\n',
        forall|i: int| 0 < i < CWD_MARK@.len() - 1 ==> #[trigger] CWD_MARK@[i] != '\x01',
{
    reveal_strlit("\x01__SHELL_REMOTE_CWD__\x01");
}

proof fn lemma_mark_is_last(out: Seq<char>, dir: Seq<char>)
    requires
        forall|i: int| 0 <= i < dir.len() ==> #[trigger] dir[i] != '\x01',
    ensures
        ({
            let text = remote_writes(out, dir);
            last_at(text, CWD_MARK@, text.len() as int) == Some(out.len() as int)
        }),
{
    let text = remote_writes(out, dir);
    let mark = CWD_MARK@;
    lemma_mark();
    reveal_strlit("\n");
    let n = out.len() as int;
    let m = mark.len() as int;
    assert(text.subrange(n, n + m) =~= mark);
    assert(occurs_at(text, mark, n));
    lemma_last_at(text, mark, text.len() as int);
    assert forall|x: int| n < x <= text.len() implies !#[trigger] occurs_at(text, mark, x) by {
        if occurs_at(text, mark, x) {
            assert(text.subrange(x, x + m)[0] == mark[0]);
            assert(text[x] == '\x01');
            if x < n + m {
                assert(text[x] == mark[x - n]);
                assert(x == n + m - 1);
                assert(text.subrange(x, x + m)[1] == mark[1]);
                assert(text[x + 1] == '\n');
            } else if x > n + m && x < n + m + 1 + dir.len() {
                assert(text[x] == dir[x - n - m - 1]);
            }
        }
    }
}

/// A `cd` on the remote lasts: the directory that a command ends in is tracked,
/// and its output is shown without the mark.
pub proof fn remote_directory_is_tracked(out: Seq<char>, dir: Seq<char>)
    requires
        dir.len() > 0,
        !crate::text::is_white(dir[0]),
        !crate::text::is_white(dir.last()),
        forall|i: int| 0 <= i < dir.len() ==> #[trigger] dir[i] != '\x01',
    ensures
        reply_of(remote_writes(out, dir)).cwd == Some(dir),
        reply_of(remote_writes(out, dir)).shown == nonempty(without_newline(out)),
{
    let text = remote_writes(out, dir);
    lemma_mark_is_last(out, dir);
    reveal_strlit("\n");
    let n = out.len() as int;
    let m = CWD_MARK@.len() as int;
    assert(text.take(n) =~= out);
    let behind = text.skip(n + m);
    assert(behind =~= seq!['\n'] + dir + seq!['\n']);
    assert(behind[1] == dir[0]);
    crate::text::lemma_span_is(behind, Class::White, true, 1);
    let t = behind.skip(1);
    assert(t =~= dir + seq!['\n']);
    assert(t[t.len() - 2] == dir.last());
    crate::text::lemma_rspan_is(t, Class::White, true, 1);
    assert(t.take(t.len() - 1) =~= dir);
}

/// A session after the output of a command, and what of it is shown.
pub open spec fn after_output(s: SessionRow, text: Seq<char>) -> (SessionRow, Option<Seq<char>>) {
    let reply = reply_of(text);
    (
        SessionRow {
            cwd: match reply.cwd {
                Some(d) => d,
                None => s.cwd,
            },
            ..s
        },
        reply.shown,
    )
}

/// The next command starts in the directory that the last one ended in; a command
/// that did not get as far as to tell leaves the directory as it was. Nothing else
/// of the session changes, and the output is shown, without the mark.
pub proof fn next_command_starts_where_the_last_ended(
    s: SessionRow,
    out: Seq<char>,
    dir: Seq<char>,
    command: Seq<char>,
)
    requires
        dir.len() > 0,
        !crate::text::is_white(dir[0]),
        !crate::text::is_white(dir.last()),
        forall|i: int| 0 <= i < dir.len() ==> #[trigger] dir[i] != '\x01',
        out.len() > 0,
        out.last() != '\n',
    ensures
        after_output(s, remote_writes(out, dir)).0 == (SessionRow { cwd: dir, ..s }),
        after_output(s, remote_writes(out, dir)).1 == Some(out),
        wrapped(after_output(s, remote_writes(out, dir)).0.cwd, command) == wrapped(dir, command),
        !crate::text::occurs(out, CWD_MARK@) ==> after_output(s, out) == (s, Some(out)),
{
    remote_directory_is_tracked(out, dir);
    crate::text::lemma_last_at(out, CWD_MARK@, out.len() as int);
}

} // verus!
