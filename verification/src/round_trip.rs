//! What is written to the state file reads back.

use crate::num::{decimal, decimal_round_trip, is_digit, lemma_decimal};
use crate::save_data::{
    absorbed, absorbed_all, active_line, bit, bookmark_line, flattened, font_line, history_line,
    history_of, joined_lines, keyed, lines_of, loaded, panel_line, panel_set, panel_word,
    panel_words, pushed, recent_line, recent_of, remote_line, remote_of, size_line, size_of_line,
    tab_line, LoadedRow, SavedRow, ACTIVE_TAB_TAG, BOOKMARK_TAG, FONT_SIZE_TAG, HEADER, HISTORY_TAG,
    OPEN_TAB_TAG, PANEL_VIS_TAG, RECENT_DIR_TAG, REMOTE_TERMINAL_TAG, WINDOW_SIZE_TAG,
};
use crate::state::{deduped, HistoryRow, PanelVis, RecentRow, RemoteRow, SizeRow, TabsRow};
use crate::text::{
    ascii_lower, index_of, is_white, lemma_rspan_is, lemma_span, lemma_span_is, span,
    split_at_char, starts, trimmed_end, trimmed_start, without_prefix, words, Class,
};
use crate::time::{four_digit_year, is_time_char, is_time_text, read};
use vstd::prelude::*;

verus! {

/// `s` has no `c` in it.
pub open spec fn free_of(s: Seq<char>, c: char) -> bool {
    forall|i: int| 0 <= i < s.len() ==> #[trigger] s[i] != c
}

/// `s` has no white space in it.
pub open spec fn unspaced(s: Seq<char>) -> bool {
    forall|i: int| 0 <= i < s.len() ==> !is_white(#[trigger] s[i])
}

/// A path on one line, with no white space at its end.
pub open spec fn line_path(p: Seq<char>) -> bool {
    free_of(p, '\n') && (p.len() > 0 ==> !is_white(p.last()))
}

impl SavedRow {
    /// The entries that a line can hold as they are. A path that holds a line
    /// break, or ends in white space, does not come back; nor does a recent
    /// directory that is empty or starts with white space, the directory of a
    /// command if it holds a tab, or a year that takes more than four digits.
    pub open spec fn storable(self) -> bool {
        &&& forall|i: int| 0 <= i < self.bookmarks.len() ==> line_path(#[trigger] self.bookmarks[i])
        &&& forall|i: int|
            0 <= i < self.recent_dirs.len() ==> {
                let r = #[trigger] self.recent_dirs[i];
                line_path(r.path) && r.path.len() > 0 && !is_white(r.path[0]) && four_digit_year(
                    r.dt.secs,
                )
            }
        &&& forall|i: int|
            0 <= i < self.history.len() ==> {
                let h = #[trigger] self.history[i];
                free_of(h.dir, '\n') && free_of(h.dir, '\t') && four_digit_year(h.dt.secs)
            }
        &&& forall|i: int|
            0 <= i < self.open_tabs.paths.len() ==> line_path(#[trigger] self.open_tabs.paths[i])
        &&& self.open_tabs.paths.len() == 0 ==> self.open_tabs.active == 0
        &&& match self.window_size {
            Some(w) => unspaced(w.x) && unspaced(w.y),
            None => true,
        }
        &&& match self.font_size {
            Some(s) => unspaced(s),
            None => true,
        }
    }

    /// Every time in the lists reads back from its text.
    pub open spec fn times_read_back(self) -> bool {
        &&& forall|i: int|
            0 <= i < self.recent_dirs.len() ==> #[trigger] self.recent_dirs[i].dt.reads_back()
        &&& forall|i: int|
            0 <= i < self.history.len() ==> #[trigger] self.history[i].dt.reads_back()
    }

    /// What comes back: everything, with times cut to whole seconds and with
    /// line breaks and tabs in commands, hosts and user names turned to spaces.
    /// Of a command that is there twice in a directory, the newest entry.
    pub open spec fn reread(self, windows: bool) -> LoadedRow {
        LoadedRow {
            bookmarks: self.bookmarks,
            recent_dirs: self.recent_dirs.map_values(|r: RecentRow| reread_recent(r)),
            history: deduped(self.history.map_values(|h: HistoryRow| reread_history(h)), windows),
            remote_terminals: self.remote_terminals.map_values(|r: RemoteRow| reread_remote(r)),
            panel_vis: self.panel_vis,
            window_size: match self.window_size {
                Some(w) => seq![w],
                None => Seq::empty(),
            },
            open_tabs: self.open_tabs,
            font_size: match self.font_size {
                Some(s) => seq![s],
                None => Seq::empty(),
            },
        }
    }
}

pub open spec fn reread_recent(r: RecentRow) -> RecentRow {
    RecentRow { path: r.path, dt: r.dt.whole() }
}

pub open spec fn reread_history(h: HistoryRow) -> HistoryRow {
    HistoryRow { text: flattened(h.text), dir: h.dir, dt: h.dt.whole() }
}

pub open spec fn reread_remote(r: RemoteRow) -> RemoteRow {
    RemoteRow { host: flattened(r.host), port: r.port, username: flattened(r.username) }
}

/// A line that holds no line break and does not end in a carriage return.
spec fn unbroken(l: Seq<char>) -> bool {
    free_of(l, '\n') && (l.len() > 0 ==> l.last() != '\r')
}

proof fn lemma_joined_front(l: Seq<char>, t: Seq<Seq<char>>)
    ensures
        joined_lines(seq![l] + t) == l + "\n"@ + joined_lines(t),
    decreases t.len(),
{
    let all = seq![l] + t;
    if t.len() == 0 {
        assert(all.drop_last() =~= Seq::<Seq<char>>::empty());
        assert(all.last() == l);
        assert(joined_lines(all.drop_last()) =~= Seq::<char>::empty());
        assert(joined_lines(t) =~= Seq::<char>::empty());
        assert(joined_lines(all) =~= l + "\n"@ + joined_lines(t));
    } else {
        assert(all.drop_last() =~= seq![l] + t.drop_last());
        assert(all.last() == t.last());
        lemma_joined_front(l, t.drop_last());
        assert(joined_lines(all) =~= l + "\n"@ + joined_lines(t));
    }
}

proof fn lemma_lines_of_joined(ls: Seq<Seq<char>>)
    requires
        forall|i: int| 0 <= i < ls.len() ==> unbroken(#[trigger] ls[i]),
    ensures
        lines_of(joined_lines(ls)) == ls,
    decreases ls.len(),
{
    if ls.len() == 0 {
        assert(lines_of(joined_lines(ls)) =~= ls);
    } else {
        let l = ls[0];
        let t = ls.skip(1);
        assert(ls =~= seq![l] + t);
        lemma_joined_front(l, t);
        let s = joined_lines(ls);
        assert forall|i: int| 0 <= i < t.len() implies unbroken(#[trigger] t[i]) by {
            assert(t[i] == ls[i + 1]);
        }
        lemma_lines_of_joined(t);
        reveal_strlit("\n");
        assert(unbroken(l));
        assert(s[l.len() as int] == '\n');
        assert forall|i: int| 0 <= i < l.len() implies Class::One('\n').has(#[trigger] s[i])
            == false by {
            assert(s[i] == l[i]);
        }
        lemma_span_is(s, Class::One('\n'), false, l.len());
        assert(s.take(l.len() as int) =~= l);
        assert(s.skip(l.len() as int + 1) =~= joined_lines(t));
        assert(lines_of(s) =~= ls);
    }
}

proof fn lemma_absorbed_add(acc: LoadedRow, a: Seq<Seq<char>>, b: Seq<Seq<char>>)
    ensures
        absorbed_all(acc, a + b) == absorbed_all(absorbed_all(acc, a), b),
    decreases b.len(),
{
    if b.len() == 0 {
        assert(a + b =~= a);
    } else {
        assert((a + b).drop_last() =~= a + b.drop_last());
        assert((a + b).last() == b.last());
        lemma_absorbed_add(acc, a, b.drop_last());
    }
}

/// A text does not start with a tag from which it differs somewhere.
proof fn lemma_other_tag(line: Seq<char>, tag: Seq<char>, k: int)
    requires
        0 <= k < tag.len(),
        k < line.len() ==> line[k] != tag[k],
    ensures
        without_prefix(line, tag) is None,
{
    if starts(line, tag) {
        assert(line.take(tag.len() as int)[k] == tag[k]);
    }
}

/// A tag in front of a text comes off again.
proof fn lemma_own_tag(tag: Seq<char>, rest: Seq<char>)
    requires
        tag.len() > 0,
        !is_white(tag[0]),
        tag[0] != '#',
    ensures
        trimmed_start(tag + rest, Class::White) == tag + rest,
        without_prefix(tag + rest, tag) == Some(rest),
{
    let line = tag + rest;
    assert(line[0] == tag[0]);
    lemma_span_is(line, Class::White, true, 0);
    assert(line.skip(0) =~= line);
    assert(line.take(tag.len() as int) =~= tag);
    assert(line.skip(tag.len() as int) =~= rest);
}

proof fn lemma_tags()
    ensures
        BOOKMARK_TAG@.len() == 3 && BOOKMARK_TAG@[0] == 'B',
        RECENT_DIR_TAG@.len() == 8 && RECENT_DIR_TAG@[0] == 'R' && RECENT_DIR_TAG@[2] == 'C',
        HISTORY_TAG@.len() == 4 && HISTORY_TAG@[0] == 'H',
        REMOTE_TERMINAL_TAG@.len() == 16 && REMOTE_TERMINAL_TAG@[0] == 'R' && REMOTE_TERMINAL_TAG@[2]
            == 'M',
        PANEL_VIS_TAG@.len() == 10 && PANEL_VIS_TAG@[0] == 'P',
        WINDOW_SIZE_TAG@.len() == 12 && WINDOW_SIZE_TAG@[0] == 'W',
        OPEN_TAB_TAG@.len() == 9 && OPEN_TAB_TAG@[0] == 'O',
        ACTIVE_TAB_TAG@.len() == 11 && ACTIVE_TAB_TAG@[0] == 'A',
        FONT_SIZE_TAG@.len() == 10 && FONT_SIZE_TAG@[0] == 'F',
        HEADER@.len() > 0 && HEADER@[0] == '#',
        free_of(BOOKMARK_TAG@, '\n'),
        free_of(RECENT_DIR_TAG@, '\n'),
        free_of(HISTORY_TAG@, '\n'),
        free_of(REMOTE_TERMINAL_TAG@, '\n'),
        free_of(PANEL_VIS_TAG@, '\n'),
        free_of(WINDOW_SIZE_TAG@, '\n'),
        free_of(OPEN_TAB_TAG@, '\n'),
        free_of(ACTIVE_TAB_TAG@, '\n'),
        free_of(FONT_SIZE_TAG@, '\n'),
        unbroken(HEADER@),
        BOOKMARK_TAG@.last() == ' ',
        OPEN_TAB_TAG@.last() == ' ',
{
    reveal_strlit("BM ");
    reveal_strlit("REC_DIR ");
    reveal_strlit("HIS ");
    reveal_strlit("REMOTE_TERMINAL ");
    reveal_strlit("PANEL_VIS ");
    reveal_strlit("WINDOW_SIZE ");
    reveal_strlit("OPEN_TAB ");
    reveal_strlit("ACTIVE_TAB ");
    reveal_strlit("FONT_SIZE ");
    reveal_strlit("# Shell state — auto-generated. Do not edit while shell is running.");
}

/// None of the tags but `tag` is in front of `tag` and a rest.
proof fn lemma_tag_alone(tag: Seq<char>, rest: Seq<char>, other: Seq<char>)
    requires
        tag.len() > 0,
        other.len() > 0,
        tag[0] != other[0] || (tag.len() > 2 && other.len() > 2 && tag[2] != other[2]),
    ensures
        without_prefix(tag + rest, other) is None,
{
    let line = tag + rest;
    if tag[0] != other[0] {
        assert(line[0] == tag[0]);
        lemma_other_tag(line, other, 0);
    } else {
        assert(line[2] == tag[2]);
        lemma_other_tag(line, other, 2);
    }
}

proof fn lemma_no_other_tags(tag: Seq<char>, rest: Seq<char>)
    requires
        tag.len() > 2,
    ensures
        tag[0] != 'B' ==> without_prefix(tag + rest, BOOKMARK_TAG@) is None,
        tag[0] != 'R' || tag[2] != 'C' ==> without_prefix(tag + rest, RECENT_DIR_TAG@) is None,
        tag[0] != 'H' ==> without_prefix(tag + rest, HISTORY_TAG@) is None,
        tag[0] != 'P' ==> without_prefix(tag + rest, PANEL_VIS_TAG@) is None,
        tag[0] != 'W' ==> without_prefix(tag + rest, WINDOW_SIZE_TAG@) is None,
        tag[0] != 'O' ==> without_prefix(tag + rest, OPEN_TAB_TAG@) is None,
        tag[0] != 'A' ==> without_prefix(tag + rest, ACTIVE_TAB_TAG@) is None,
        tag[0] != 'F' ==> without_prefix(tag + rest, FONT_SIZE_TAG@) is None,
        tag[0] != 'R' || tag[2] != 'M' ==> without_prefix(tag + rest, REMOTE_TERMINAL_TAG@) is None,
{
    lemma_tags();
    if tag[0] != 'B' {
        lemma_tag_alone(tag, rest, BOOKMARK_TAG@);
    }
    if tag[0] != 'R' || tag[2] != 'C' {
        lemma_tag_alone(tag, rest, RECENT_DIR_TAG@);
    }
    if tag[0] != 'H' {
        lemma_tag_alone(tag, rest, HISTORY_TAG@);
    }
    if tag[0] != 'P' {
        lemma_tag_alone(tag, rest, PANEL_VIS_TAG@);
    }
    if tag[0] != 'W' {
        lemma_tag_alone(tag, rest, WINDOW_SIZE_TAG@);
    }
    if tag[0] != 'O' {
        lemma_tag_alone(tag, rest, OPEN_TAB_TAG@);
    }
    if tag[0] != 'A' {
        lemma_tag_alone(tag, rest, ACTIVE_TAB_TAG@);
    }
    if tag[0] != 'F' {
        lemma_tag_alone(tag, rest, FONT_SIZE_TAG@);
    }
    if tag[0] != 'R' || tag[2] != 'M' {
        lemma_tag_alone(tag, rest, REMOTE_TERMINAL_TAG@);
    }
}

/// `a`, a `c` and `b` split at the `c`, where `a` has none.
proof fn lemma_split(a: Seq<char>, c: char, b: Seq<char>)
    requires
        free_of(a, c),
    ensures
        split_at_char(a + seq![c] + b, c) == Some((a, b)),
        index_of(a + seq![c] + b, Class::One(c)) == Some(a.len() as int),
{
    let s = a + seq![c] + b;
    assert forall|i: int| 0 <= i < a.len() implies Class::One(c).has(#[trigger] s[i]) == false by {
        assert(s[i] == a[i]);
    }
    assert(s[a.len() as int] == c);
    lemma_span_is(s, Class::One(c), false, a.len());
    assert(s.take(a.len() as int) =~= a);
    assert(s.skip(a.len() as int + 1) =~= b);
}

proof fn lemma_no_split(a: Seq<char>, c: char)
    requires
        free_of(a, c),
    ensures
        split_at_char(a, c) is None,
{
    lemma_span_is(a, Class::One(c), false, a.len());
}

proof fn lemma_flattened(s: Seq<char>)
    ensures
        free_of(flattened(s), '\n'),
        free_of(flattened(s), '\r'),
        free_of(flattened(s), '\t'),
{
}

proof fn lemma_no_trailing(s: Seq<char>, k: Class)
    requires
        s.len() > 0 ==> !k.has(s.last()),
    ensures
        trimmed_end(s, k) == s,
{
    lemma_rspan_is(s, k, true, 0);
    assert(s.take(s.len() as int) =~= s);
}

proof fn lemma_bookmark(acc: LoadedRow, p: Seq<char>)
    requires
        line_path(p),
    ensures
        absorbed(acc, bookmark_line(p)) == (LoadedRow { bookmarks: acc.bookmarks.push(p), ..acc }),
        unbroken(bookmark_line(p)),
{
    lemma_tags();
    lemma_own_tag(BOOKMARK_TAG@, p);
    lemma_no_trailing(p, Class::White);
    assert((BOOKMARK_TAG@ + p)[0] == 'B');
}

proof fn lemma_tab(acc: LoadedRow, p: Seq<char>)
    requires
        line_path(p),
    ensures
        absorbed(acc, tab_line(p)) == (LoadedRow {
            open_tabs: TabsRow { paths: acc.open_tabs.paths.push(p), ..acc.open_tabs },
            ..acc
        }),
        unbroken(tab_line(p)),
{
    lemma_tags();
    lemma_own_tag(OPEN_TAB_TAG@, p);
    lemma_no_other_tags(OPEN_TAB_TAG@, p);
    lemma_no_trailing(p, Class::White);
    assert((OPEN_TAB_TAG@ + p)[0] == 'O');
}

proof fn lemma_active(acc: LoadedRow, i: usize)
    ensures
        absorbed(acc, active_line(i)) == (LoadedRow {
            open_tabs: TabsRow { active: i, ..acc.open_tabs },
            ..acc
        }),
        unbroken(active_line(i)),
{
    let d = decimal(i as nat);
    lemma_tags();
    lemma_decimal(i as nat);
    lemma_own_tag(ACTIVE_TAB_TAG@, d);
    lemma_no_other_tags(ACTIVE_TAB_TAG@, d);
    assert(is_digit(d.last()));
    lemma_no_trailing(d, Class::White);
    decimal_round_trip(i as nat, usize::MAX as int);
    assert((ACTIVE_TAB_TAG@ + d)[0] == 'A');
    assert forall|x: int| 0 <= x < d.len() implies #[trigger] d[x] != '\n' by {
        assert(is_digit(d[x]));
    }
}

proof fn lemma_recent_tag(acc: LoadedRow, rest: Seq<char>)
    ensures
        absorbed(acc, RECENT_DIR_TAG@ + rest) == (LoadedRow {
            recent_dirs: pushed(acc.recent_dirs, recent_of(rest)),
            ..acc
        }),
{
    lemma_tags();
    lemma_own_tag(RECENT_DIR_TAG@, rest);
    lemma_no_other_tags(RECENT_DIR_TAG@, rest);
    assert((RECENT_DIR_TAG@ + rest)[0] == 'R');
}

proof fn lemma_history_tag(acc: LoadedRow, rest: Seq<char>)
    ensures
        absorbed(acc, HISTORY_TAG@ + rest) == (LoadedRow {
            history: pushed(acc.history, history_of(rest)),
            ..acc
        }),
{
    lemma_tags();
    lemma_own_tag(HISTORY_TAG@, rest);
    lemma_no_other_tags(HISTORY_TAG@, rest);
    assert((HISTORY_TAG@ + rest)[0] == 'H');
}

proof fn lemma_remote_tag(acc: LoadedRow, rest: Seq<char>)
    ensures
        absorbed(acc, REMOTE_TERMINAL_TAG@ + rest) == (LoadedRow {
            remote_terminals: pushed(acc.remote_terminals, remote_of(rest)),
            ..acc
        }),
{
    lemma_tags();
    lemma_own_tag(REMOTE_TERMINAL_TAG@, rest);
    lemma_no_other_tags(REMOTE_TERMINAL_TAG@, rest);
    assert((REMOTE_TERMINAL_TAG@ + rest)[0] == 'R');
}

/// Two texts without a line break make one without.
proof fn lemma_free_add(a: Seq<char>, b: Seq<char>, c: char)
    requires
        free_of(a, c),
        free_of(b, c),
    ensures
        free_of(a + b, c),
{
}

proof fn lemma_time_free(t: Seq<char>, c: char)
    requires
        is_time_text(t),
        !is_time_char(c),
    ensures
        free_of(t, c),
{
    assert forall|i: int| 0 <= i < t.len() implies #[trigger] t[i] != c by {
        assert(is_time_char(t[i]));
    }
}

proof fn lemma_decimal_free(n: nat, c: char)
    requires
        !is_digit(c),
    ensures
        free_of(decimal(n), c),
{
    lemma_decimal(n);
    let d = decimal(n);
    assert forall|i: int| 0 <= i < d.len() implies #[trigger] d[i] != c by {
        assert(is_digit(d[i]));
    }
}

proof fn lemma_recent_rest(t: Seq<char>, path: Seq<char>)
    requires
        path.len() > 0,
        !is_white(path[0]),
        !is_white(path.last()),
        is_time_text(t),
    ensures
        recent_of(t + seq![' '] + path) == match read(t) {
            Some(dt) => Some(RecentRow { path, dt }),
            None => None,
        },
{
    let rest = t + seq![' '] + path;
    assert(rest.last() == path.last());
    lemma_no_trailing(rest, Class::White);
    lemma_time_free(t, ' ');
    lemma_split(t, ' ', path);
    let tail = rest.skip(t.len() as int);
    assert(tail =~= seq![' '] + path);
    assert(tail[1] == path[0]);
    lemma_span_is(tail, Class::White, true, 1);
    assert(tail.skip(1) =~= path);
    assert(rest.take(t.len() as int) =~= t);
}

proof fn lemma_recent(acc: LoadedRow, r: RecentRow)
    requires
        line_path(r.path),
        r.path.len() > 0,
        !is_white(r.path[0]),
        r.dt.reads_back(),
    ensures
        absorbed(acc, recent_line(r)) == (LoadedRow {
            recent_dirs: acc.recent_dirs.push(reread_recent(r)),
            ..acc
        }),
        unbroken(recent_line(r)),
{
    let t = r.dt.text();
    let rest = t + seq![' '] + r.path;
    reveal_strlit(" ");
    assert(" "@ =~= seq![' ']);
    assert(recent_line(r) =~= RECENT_DIR_TAG@ + rest);
    lemma_recent_tag(acc, rest);
    lemma_recent_rest(t, r.path);
    assert(unbroken(recent_line(r))) by {
        lemma_tags();
        lemma_time_free(t, '\n');
        lemma_free_add(t, seq![' '], '\n');
        lemma_free_add(t + seq![' '], r.path, '\n');
        lemma_free_add(RECENT_DIR_TAG@, rest, '\n');
        assert(recent_line(r).last() == r.path.last());
    }
}

proof fn lemma_history_rest(t: Seq<char>, dir: Seq<char>, text: Seq<char>)
    requires
        is_time_text(t),
        free_of(dir, '\t'),
        free_of(text, '\r'),
    ensures
        history_of(t + seq!['\t'] + (dir + seq!['\t'] + text)) == match read(t) {
            Some(dt) => Some(HistoryRow { text, dir, dt }),
            None => None,
        },
{
    let more = dir + seq!['\t'] + text;
    let rest = t + seq!['\t'] + more;
    assert(rest.last() == if text.len() > 0 {
        text.last()
    } else {
        '\t'
    });
    lemma_no_trailing(rest, Class::One('\r'));
    lemma_time_free(t, '\t');
    lemma_split(t, '\t', more);
    lemma_split(dir, '\t', text);
}

proof fn lemma_history(acc: LoadedRow, h: HistoryRow)
    requires
        free_of(h.dir, '\n'),
        free_of(h.dir, '\t'),
        h.dt.reads_back(),
    ensures
        absorbed(acc, history_line(h)) == (LoadedRow {
            history: acc.history.push(reread_history(h)),
            ..acc
        }),
        unbroken(history_line(h)),
{
    let t = h.dt.text();
    let f = flattened(h.text);
    let more = h.dir + seq!['\t'] + f;
    let rest = t + seq!['\t'] + more;
    reveal_strlit("\t");
    assert("\t"@ =~= seq!['\t']);
    assert(history_line(h) =~= HISTORY_TAG@ + rest);
    lemma_flattened(h.text);
    lemma_history_tag(acc, rest);
    lemma_history_rest(t, h.dir, f);
    assert(unbroken(history_line(h))) by {
        lemma_tags();
        lemma_time_free(t, '\n');
        lemma_free_add(h.dir, seq!['\t'], '\n');
        lemma_free_add(h.dir + seq!['\t'], f, '\n');
        lemma_free_add(t, seq!['\t'], '\n');
        lemma_free_add(t + seq!['\t'], more, '\n');
        lemma_free_add(HISTORY_TAG@, rest, '\n');
        assert(history_line(h).last() == if f.len() > 0 {
            f.last()
        } else {
            '\t'
        });
    }
}

proof fn lemma_remote_rest(host: Seq<char>, port: u16, user: Seq<char>)
    requires
        free_of(host, '\t'),
        free_of(user, '\t'),
        free_of(user, '\r'),
    ensures
        remote_of(host + seq!['\t'] + (decimal(port as nat) + seq!['\t'] + user)) == Some(
            RemoteRow { host, port, username: user },
        ),
{
    let d = decimal(port as nat);
    let more = d + seq!['\t'] + user;
    let rest = host + seq!['\t'] + more;
    assert(rest.last() == if user.len() > 0 {
        user.last()
    } else {
        '\t'
    });
    lemma_no_trailing(rest, Class::One('\r'));
    lemma_split(host, '\t', more);
    lemma_decimal_free(port as nat, '\t');
    lemma_split(d, '\t', user);
    lemma_no_split(user, '\t');
    decimal_round_trip(port as nat, u16::MAX as int);
}

proof fn lemma_remote(acc: LoadedRow, r: RemoteRow)
    ensures
        absorbed(acc, remote_line(r)) == (LoadedRow {
            remote_terminals: acc.remote_terminals.push(reread_remote(r)),
            ..acc
        }),
        unbroken(remote_line(r)),
{
    let host = flattened(r.host);
    let user = flattened(r.username);
    let d = decimal(r.port as nat);
    let more = d + seq!['\t'] + user;
    let rest = host + seq!['\t'] + more;
    reveal_strlit("\t");
    assert("\t"@ =~= seq!['\t']);
    lemma_flattened(r.host);
    lemma_flattened(r.username);
    assert(remote_line(r) =~= REMOTE_TERMINAL_TAG@ + rest);
    lemma_remote_tag(acc, rest);
    lemma_remote_rest(host, r.port, user);
    assert(unbroken(remote_line(r))) by {
        lemma_tags();
        lemma_decimal_free(r.port as nat, '\n');
        lemma_free_add(d, seq!['\t'], '\n');
        lemma_free_add(d + seq!['\t'], user, '\n');
        lemma_free_add(host, seq!['\t'], '\n');
        lemma_free_add(host + seq!['\t'], more, '\n');
        lemma_free_add(REMOTE_TERMINAL_TAG@, rest, '\n');
        assert(remote_line(r).last() == if user.len() > 0 {
            user.last()
        } else {
            '\t'
        });
    }
}

/// A space in front makes no difference to the words of a text.
proof fn lemma_words_space(s: Seq<char>)
    ensures
        words(seq![' '] + s) == words(s),
{
    let t = seq![' '] + s;
    assert(t.skip(1) =~= s);
    let n = span(s, Class::White, true);
    assert(span(t, Class::White, true) == 1 + n);
    lemma_span(s, Class::White, true);
    assert(trimmed_start(t, Class::White) =~= trimmed_start(s, Class::White));
}

/// The first of some words comes off.
proof fn lemma_words_cons(w: Seq<char>, more: Seq<char>)
    requires
        w.len() > 0,
        unspaced(w),
    ensures
        words(w + seq![' '] + more) == seq![w] + words(more),
{
    let s = w + seq![' '] + more;
    assert(s[0] == w[0]);
    lemma_span_is(s, Class::White, true, 0);
    assert(s.skip(0) =~= s);
    assert forall|i: int| 0 <= i < w.len() implies Class::White.has(#[trigger] s[i]) == false by {
        assert(s[i] == w[i]);
    }
    assert(s[w.len() as int] == ' ');
    lemma_span_is(s, Class::White, false, w.len());
    assert(s.take(w.len() as int) =~= w);
    assert(s.skip(w.len() as int) =~= seq![' '] + more);
    lemma_words_space(more);
}

proof fn lemma_words_one(w: Seq<char>)
    requires
        w.len() > 0,
        unspaced(w),
    ensures
        words(w) == seq![w],
{
    lemma_span_is(w, Class::White, true, 0);
    assert(w.skip(0) =~= w);
    lemma_span_is(w, Class::White, false, w.len());
    assert(w.take(w.len() as int) =~= w);
    let e = w.skip(w.len() as int);
    assert(e.len() == 0);
    assert(words(e) =~= Seq::<Seq<char>>::empty());
    assert(words(w) =~= seq![w]);
}

/// The word for one panel.
spec fn pair(key: Seq<char>, value: Seq<char>) -> Seq<char> {
    key + seq!['='] + value
}

proof fn lemma_bit(b: bool)
    ensures
        unspaced(bit(b)),
        bit(b).len() == 1,
        (bit(b) == "1"@ || ascii_lower(bit(b)) == "true"@) == b,
        free_of(bit(b), '\n'),
        bit(b)[0] != '\r',
{
    reveal_strlit("1");
    reveal_strlit("0");
    reveal_strlit("true");
    if b {
        assert(bit(b) == "1"@);
    } else {
        assert("0"@[0] != "1"@[0]);
        assert(ascii_lower("0"@).len() == 1);
    }
}

proof fn lemma_pair(key: Seq<char>, value: Seq<char>)
    requires
        free_of(key, '='),
        unspaced(key),
        unspaced(value),
    ensures
        split_at_char(pair(key, value), '=') == Some((key, value)),
        unspaced(pair(key, value)),
        pair(key, value).len() > 0,
{
    lemma_split(key, '=', value);
}

proof fn lemma_panel_keys()
    ensures
        free_of("bookmarks"@, '=') && unspaced("bookmarks"@),
        "bookmarks="@ == "bookmarks"@ + seq!['='],
        free_of("recent_dirs"@, '=') && unspaced("recent_dirs"@),
        "recent_dirs="@ == "recent_dirs"@ + seq!['='],
        free_of("recent_cmds"@, '=') && unspaced("recent_cmds"@),
        "recent_cmds="@ == "recent_cmds"@ + seq!['='],
        free_of("recent_cmds_in_dir"@, '=') && unspaced("recent_cmds_in_dir"@),
        "recent_cmds_in_dir="@ == "recent_cmds_in_dir"@ + seq!['='],
        free_of("remote_terminals"@, '=') && unspaced("remote_terminals"@),
        "remote_terminals="@ == "remote_terminals"@ + seq!['='],
        free_of("file_browser"@, '=') && unspaced("file_browser"@),
        "file_browser="@ == "file_browser"@ + seq!['='],
        " recent_dirs="@ == seq![' '] + "recent_dirs="@,
        " recent_cmds="@ == seq![' '] + "recent_cmds="@,
        " recent_cmds_in_dir="@ == seq![' '] + "recent_cmds_in_dir="@,
        " remote_terminals="@ == seq![' '] + "remote_terminals="@,
        " file_browser="@ == seq![' '] + "file_browser="@,
        "bookmarks"@ != "recent_dirs"@,
        "bookmarks"@ != "recent_cmds"@,
        "bookmarks"@ != "recent_cmds_in_dir"@,
        "bookmarks"@ != "remote_terminals"@,
        "bookmarks"@ != "file_browser"@,
        "recent_dirs"@ != "recent_cmds"@,
        "recent_dirs"@ != "recent_cmds_in_dir"@,
        "recent_dirs"@ != "remote_terminals"@,
        "recent_dirs"@ != "file_browser"@,
        "recent_cmds"@ != "recent_cmds_in_dir"@,
        "recent_cmds"@ != "remote_terminals"@,
        "recent_cmds"@ != "file_browser"@,
        "recent_cmds_in_dir"@ != "remote_terminals"@,
        "recent_cmds_in_dir"@ != "file_browser"@,
        "remote_terminals"@ != "file_browser"@,
{
    reveal_strlit("bookmarks");
    reveal_strlit("bookmarks=");
    reveal_strlit("recent_dirs");
    reveal_strlit("recent_dirs=");
    reveal_strlit("recent_cmds");
    reveal_strlit("recent_cmds=");
    reveal_strlit("recent_cmds_in_dir");
    reveal_strlit("recent_cmds_in_dir=");
    reveal_strlit("remote_terminals");
    reveal_strlit("remote_terminals=");
    reveal_strlit("file_browser");
    reveal_strlit("file_browser=");
    reveal_strlit(" recent_dirs=");
    reveal_strlit(" recent_cmds=");
    reveal_strlit(" recent_cmds_in_dir=");
    reveal_strlit(" remote_terminals=");
    reveal_strlit(" file_browser=");
    assert("bookmarks="@ =~= "bookmarks"@ + seq!['=']);
    assert("recent_dirs="@ =~= "recent_dirs"@ + seq!['=']);
    assert("recent_cmds="@ =~= "recent_cmds"@ + seq!['=']);
    assert("recent_cmds_in_dir="@ =~= "recent_cmds_in_dir"@ + seq!['=']);
    assert("remote_terminals="@ =~= "remote_terminals"@ + seq!['=']);
    assert("file_browser="@ =~= "file_browser"@ + seq!['=']);
    assert(" recent_dirs="@ =~= seq![' '] + "recent_dirs="@);
    assert(" recent_cmds="@ =~= seq![' '] + "recent_cmds="@);
    assert(" recent_cmds_in_dir="@ =~= seq![' '] + "recent_cmds_in_dir="@);
    assert(" remote_terminals="@ =~= seq![' '] + "remote_terminals="@);
    assert(" file_browser="@ =~= seq![' '] + "file_browser="@);
    assert("recent_dirs"@[7] != "recent_cmds"@[7]);
}

/// Some words with a space between each two.
spec fn spaced(ws: Seq<Seq<char>>) -> Seq<char>
    decreases ws.len(),
{
    if ws.len() == 0 {
        Seq::empty()
    } else if ws.len() == 1 {
        ws[0]
    } else {
        ws[0] + seq![' '] + spaced(ws.skip(1))
    }
}

proof fn lemma_spaced(ws: Seq<Seq<char>>)
    requires
        ws.len() > 0,
        forall|i: int| 0 <= i < ws.len() ==> (#[trigger] ws[i]).len() > 0 && unspaced(ws[i]),
    ensures
        words(spaced(ws)) == ws,
        free_of(spaced(ws), '\n'),
        spaced(ws).len() > 0,
        spaced(ws).last() != '\r',
    decreases ws.len(),
{
    lemma_unspaced_free(ws[0]);
    if ws.len() == 1 {
        lemma_words_one(ws[0]);
        assert(seq![ws[0]] =~= ws);
    } else {
        let t = ws.skip(1);
        assert forall|i: int| 0 <= i < t.len() implies (#[trigger] t[i]).len() > 0 && unspaced(
            t[i],
        ) by {
            assert(t[i] == ws[i + 1]);
        }
        lemma_spaced(t);
        lemma_words_cons(ws[0], spaced(t));
        assert(seq![ws[0]] + t =~= ws);
        lemma_free_pair(ws[0], spaced(t));
        assert(spaced(ws).last() == spaced(t).last());
    }
}

proof fn lemma_spaced_push(ws: Seq<Seq<char>>, w: Seq<char>)
    requires
        ws.len() > 0,
    ensures
        spaced(ws.push(w)) == spaced(ws) + seq![' '] + w,
    decreases ws.len(),
{
    let all = ws.push(w);
    if ws.len() == 1 {
        assert(all.skip(1) =~= seq![w]);
        assert(spaced(all.skip(1)) == w);
    } else {
        lemma_spaced_push(ws.skip(1), w);
        assert(all.skip(1) =~= ws.skip(1).push(w));
        let a = ws[0];
        let b = spaced(ws.skip(1));
        assert(a + seq![' '] + (b + seq![' '] + w) =~= a + seq![' '] + b + seq![' '] + w);
    }
}

proof fn lemma_panel_pair(v: PanelVis, key: Seq<char>, on: bool)
    requires
        free_of(key, '='),
        unspaced(key),
    ensures
        panel_word(v, pair(key, bit(on))) == panel_set(v, key, on),
{
    lemma_bit(on);
    lemma_pair(key, bit(on));
}

proof fn lemma_panel_step(v: PanelVis, ws: Seq<Seq<char>>, w: Seq<char>)
    ensures
        panel_words(v, ws.push(w)) == panel_word(panel_words(v, ws), w),
{
    assert(ws.push(w).drop_last() =~= ws);
    assert(ws.push(w).last() == w);
}

/// The words of the panel line, up to and with the one numbered `n`.
spec fn panel_pairs(x: PanelVis, n: nat) -> Seq<Seq<char>>
    decreases n,
{
    if n == 0 {
        seq![pair("bookmarks"@, bit(x.bookmarks))]
    } else if n == 1 {
        panel_pairs(x, 0).push(pair("recent_dirs"@, bit(x.recent_dirs)))
    } else if n == 2 {
        panel_pairs(x, 1).push(pair("recent_cmds"@, bit(x.recent_cmds)))
    } else if n == 3 {
        panel_pairs(x, 2).push(pair("recent_cmds_in_dir"@, bit(x.recent_cmds_in_dir)))
    } else if n == 4 {
        panel_pairs(x, 3).push(pair("remote_terminals"@, bit(x.remote_terminals)))
    } else {
        panel_pairs(x, 4).push(pair("file_browser"@, bit(x.file_browser)))
    }
}

/// Each panel's word sets that panel.
proof fn lemma_panel_words(v: PanelVis, x: PanelVis)
    ensures
        panel_words(v, panel_pairs(x, 5)) == x,
{
    lemma_panel_keys();
    reveal_with_fuel(panel_pairs, 7);
    let e = Seq::<Seq<char>>::empty();
    assert(panel_pairs(x, 0) =~= e.push(pair("bookmarks"@, bit(x.bookmarks))));
    assert(panel_words(v, e) == v);
    lemma_panel_step(v, e, pair("bookmarks"@, bit(x.bookmarks)));
    lemma_panel_pair(v, "bookmarks"@, x.bookmarks);
    let v0 = panel_set(v, "bookmarks"@, x.bookmarks);
    lemma_panel_step(v, panel_pairs(x, 0), pair("recent_dirs"@, bit(x.recent_dirs)));
    lemma_panel_pair(v0, "recent_dirs"@, x.recent_dirs);
    let v1 = panel_set(v0, "recent_dirs"@, x.recent_dirs);
    lemma_panel_step(v, panel_pairs(x, 1), pair("recent_cmds"@, bit(x.recent_cmds)));
    lemma_panel_pair(v1, "recent_cmds"@, x.recent_cmds);
    let v2 = panel_set(v1, "recent_cmds"@, x.recent_cmds);
    lemma_panel_step(v, panel_pairs(x, 2), pair("recent_cmds_in_dir"@, bit(x.recent_cmds_in_dir)));
    lemma_panel_pair(v2, "recent_cmds_in_dir"@, x.recent_cmds_in_dir);
    let v3 = panel_set(v2, "recent_cmds_in_dir"@, x.recent_cmds_in_dir);
    lemma_panel_step(v, panel_pairs(x, 3), pair("remote_terminals"@, bit(x.remote_terminals)));
    lemma_panel_pair(v3, "remote_terminals"@, x.remote_terminals);
    let v4 = panel_set(v3, "remote_terminals"@, x.remote_terminals);
    lemma_panel_step(v, panel_pairs(x, 4), pair("file_browser"@, bit(x.file_browser)));
    lemma_panel_pair(v4, "file_browser"@, x.file_browser);
    let v5 = panel_set(v4, "file_browser"@, x.file_browser);
}

/// Appends one more panel word to a line.
proof fn lemma_append_pair(
    tag: Seq<char>,
    ws: Seq<Seq<char>>,
    lead: Seq<char>,
    key: Seq<char>,
    value: Seq<char>,
)
    requires
        ws.len() > 0,
        lead == seq![' '] + (key + seq!['=']),
    ensures
        tag + spaced(ws) + lead + value == tag + spaced(ws.push(pair(key, value))),
{
    lemma_spaced_push(ws, pair(key, value));
    let s = spaced(ws);
    assert(tag + s + lead + value =~= tag + (s + seq![' '] + pair(key, value)));
}

proof fn lemma_panel_text(x: PanelVis)
    ensures
        panel_line(x) == PANEL_VIS_TAG@ + spaced(panel_pairs(x, 5)),
        panel_pairs(x, 5).len() == 6,
{
    lemma_panel_keys();
    reveal_with_fuel(panel_pairs, 7);
    let tag = PANEL_VIS_TAG@;
    let w = pair("bookmarks"@, bit(x.bookmarks));
    assert(spaced(panel_pairs(x, 0)) == w);
    assert(tag + "bookmarks="@ + bit(x.bookmarks) =~= tag + w);
    lemma_append_pair(tag, panel_pairs(x, 0), " recent_dirs="@, "recent_dirs"@, bit(x.recent_dirs));
    lemma_append_pair(tag, panel_pairs(x, 1), " recent_cmds="@, "recent_cmds"@, bit(x.recent_cmds));
    lemma_append_pair(
        tag,
        panel_pairs(x, 2),
        " recent_cmds_in_dir="@,
        "recent_cmds_in_dir"@,
        bit(x.recent_cmds_in_dir),
    );
    lemma_append_pair(
        tag,
        panel_pairs(x, 3),
        " remote_terminals="@,
        "remote_terminals"@,
        bit(x.remote_terminals),
    );
    lemma_append_pair(
        tag,
        panel_pairs(x, 4),
        " file_browser="@,
        "file_browser"@,
        bit(x.file_browser),
    );
}

proof fn lemma_panel_line(acc: LoadedRow, x: PanelVis)
    ensures
        absorbed(acc, panel_line(x)) == (LoadedRow { panel_vis: x, ..acc }),
        unbroken(panel_line(x)),
{
    let ws = panel_pairs(x, 5);
    lemma_panel_text(x);
    assert forall|i: int| 0 <= i < ws.len() implies (#[trigger] ws[i]).len() > 0 && unspaced(
        ws[i],
    ) by {
        lemma_panel_keys();
        reveal_with_fuel(panel_pairs, 7);
        lemma_bit(x.bookmarks);
        lemma_pair("bookmarks"@, bit(x.bookmarks));
        lemma_bit(x.recent_dirs);
        lemma_pair("recent_dirs"@, bit(x.recent_dirs));
        lemma_bit(x.recent_cmds);
        lemma_pair("recent_cmds"@, bit(x.recent_cmds));
        lemma_bit(x.recent_cmds_in_dir);
        lemma_pair("recent_cmds_in_dir"@, bit(x.recent_cmds_in_dir));
        lemma_bit(x.remote_terminals);
        lemma_pair("remote_terminals"@, bit(x.remote_terminals));
        lemma_bit(x.file_browser);
        lemma_pair("file_browser"@, bit(x.file_browser));
    }
    lemma_spaced(ws);
    lemma_panel_words(acc.panel_vis, x);
    lemma_panel_tag(acc, spaced(ws));
    assert(unbroken(PANEL_VIS_TAG@ + spaced(ws))) by {
        lemma_tags();
        lemma_free_add(PANEL_VIS_TAG@, spaced(ws), '\n');
        assert((PANEL_VIS_TAG@ + spaced(ws)).last() == spaced(ws).last());
    }
}

proof fn lemma_unspaced_free(w: Seq<char>)
    requires
        unspaced(w),
    ensures
        free_of(w, '\n'),
        w.len() > 0 ==> w.last() != '\r',
{
    assert forall|i: int| 0 <= i < w.len() implies #[trigger] w[i] != '\n' by {
        assert(!is_white(w[i]));
    }
}

proof fn lemma_free_pair(w: Seq<char>, r: Seq<char>)
    requires
        free_of(w, '\n'),
        free_of(r, '\n'),
    ensures
        free_of(w + seq![' '] + r, '\n'),
{
}

proof fn lemma_panel_tag(acc: LoadedRow, rest: Seq<char>)
    ensures
        absorbed(acc, PANEL_VIS_TAG@ + rest) == (LoadedRow {
            panel_vis: panel_words(acc.panel_vis, words(rest)),
            ..acc
        }),
{
    lemma_tags();
    lemma_own_tag(PANEL_VIS_TAG@, rest);
    lemma_no_other_tags(PANEL_VIS_TAG@, rest);
    assert((PANEL_VIS_TAG@ + rest)[0] == 'P');
}

proof fn lemma_keyed_one(w: Seq<char>, key: Seq<char>, value: Seq<char>, other: Seq<char>)
    requires
        free_of(key, '='),
        unspaced(key),
        unspaced(value),
        w == pair(key, value),
    ensures
        keyed(seq![w], key) == seq![value],
        other != key ==> keyed(seq![w], other) == Seq::<Seq<char>>::empty(),
{
    lemma_pair(key, value);
    let ws = seq![w];
    assert(ws.drop_last() =~= Seq::<Seq<char>>::empty());
    assert(ws.last() == w);
    assert(keyed(ws.drop_last(), key) =~= Seq::<Seq<char>>::empty());
    assert(keyed(ws.drop_last(), other) =~= Seq::<Seq<char>>::empty());
    assert(keyed(ws, key) =~= seq![value]);
}

proof fn lemma_size_tag(acc: LoadedRow, rest: Seq<char>, w: SizeRow)
    requires
        size_of_line(rest) == Some(w),
    ensures
        absorbed(acc, WINDOW_SIZE_TAG@ + rest) == (LoadedRow {
            window_size: acc.window_size.push(w),
            ..acc
        }),
{
    lemma_tags();
    lemma_own_tag(WINDOW_SIZE_TAG@, rest);
    lemma_no_other_tags(WINDOW_SIZE_TAG@, rest);
    assert((WINDOW_SIZE_TAG@ + rest)[0] == 'W');
}

/// The words of a size line.
spec fn size_words(w: SizeRow) -> Seq<Seq<char>> {
    seq![pair("x"@, w.x), pair("y"@, w.y)]
}

proof fn lemma_size_text(w: SizeRow)
    requires
        unspaced(w.x),
        unspaced(w.y),
    ensures
        size_line(w) == WINDOW_SIZE_TAG@ + spaced(size_words(w)),
        words(spaced(size_words(w))) == size_words(w),
        unbroken(spaced(size_words(w))),
        spaced(size_words(w)).len() > 0,
{
    let ws = size_words(w);
    assert(size_line(w) == WINDOW_SIZE_TAG@ + spaced(ws)) by {
        reveal_strlit("x");
        reveal_strlit("y");
        reveal_strlit("x=");
        reveal_strlit(" y=");
        assert(ws.skip(1) =~= seq![ws[1]]);
        assert(spaced(ws.skip(1)) == ws[1]);
        assert(spaced(ws) == ws[0] + seq![' '] + ws[1]);
        assert("x="@ =~= "x"@ + seq!['=']);
        assert(" y="@ =~= seq![' '] + "y"@ + seq!['=']);
        assert(size_line(w) =~= WINDOW_SIZE_TAG@ + (ws[0] + seq![' '] + ws[1]));
    }
    assert(words(spaced(ws)) == ws && unbroken(spaced(ws)) && spaced(ws).len() > 0) by {
        reveal_strlit("x");
        reveal_strlit("y");
        lemma_pair("x"@, w.x);
        lemma_pair("y"@, w.y);
        lemma_spaced(ws);
    }
}

proof fn lemma_size_words(w: SizeRow)
    requires
        unspaced(w.x),
        unspaced(w.y),
    ensures
        keyed(size_words(w), "x"@) == seq![w.x],
        keyed(size_words(w), "y"@) == seq![w.y],
{
    reveal_strlit("x");
    reveal_strlit("y");
    let ws = size_words(w);
    assert("x"@[0] != "y"@[0]);
    lemma_pair("y"@, w.y);
    assert(ws.drop_last() =~= seq![ws[0]]);
    lemma_keyed_one(ws[0], "x"@, w.x, "y"@);
    assert(keyed(ws, "y"@) =~= seq![w.y]);
}

proof fn lemma_size_line(acc: LoadedRow, w: SizeRow)
    requires
        unspaced(w.x),
        unspaced(w.y),
    ensures
        absorbed(acc, size_line(w)) == (LoadedRow { window_size: acc.window_size.push(w), ..acc }),
        unbroken(size_line(w)),
{
    let rest = spaced(size_words(w));
    lemma_size_text(w);
    lemma_size_words(w);
    assert(size_of_line(rest) == Some(w));
    lemma_size_tag(acc, rest, w);
    assert(unbroken(WINDOW_SIZE_TAG@ + rest)) by {
        lemma_tags();
        assert((WINDOW_SIZE_TAG@ + rest).last() == rest.last());
        lemma_free_add(WINDOW_SIZE_TAG@, rest, '\n');
    }
}

proof fn lemma_font_line(acc: LoadedRow, size: Seq<char>)
    requires
        unspaced(size),
    ensures
        absorbed(acc, font_line(size)) == (LoadedRow {
            font_size: acc.font_size.push(size),
            ..acc
        }),
        unbroken(font_line(size)),
{
    reveal_strlit("size");
    reveal_strlit("size=");
    let w = pair("size"@, size);
    let ws = seq![w];
    lemma_pair("size"@, size);
    lemma_spaced(ws);
    assert(spaced(ws) == w);
    assert(font_line(size) =~= FONT_SIZE_TAG@ + w);
    lemma_keyed_one(w, "size"@, size, "size"@);
    lemma_tags();
    lemma_own_tag(FONT_SIZE_TAG@, w);
    lemma_no_other_tags(FONT_SIZE_TAG@, w);
    assert((FONT_SIZE_TAG@ + w)[0] == 'F');
    assert((FONT_SIZE_TAG@ + w).last() == w.last());
    lemma_free_add(FONT_SIZE_TAG@, w, '\n');
    assert(acc.font_size + seq![size] =~= acc.font_size.push(size));
}

proof fn lemma_header(acc: LoadedRow)
    ensures
        absorbed(acc, HEADER@) == acc,
        unbroken(HEADER@),
{
    lemma_tags();
    lemma_span_is(HEADER@, Class::White, true, 0);
    assert(HEADER@.skip(0) =~= HEADER@);
}

proof fn lemma_bookmarks(acc: LoadedRow, ps: Seq<Seq<char>>)
    requires
        forall|i: int| 0 <= i < ps.len() ==> line_path(#[trigger] ps[i]),
    ensures
        absorbed_all(acc, ps.map_values(|p: Seq<char>| bookmark_line(p))) == (LoadedRow {
            bookmarks: acc.bookmarks + ps,
            ..acc
        }),
        forall|i: int| 0 <= i < ps.len() ==> unbroken(bookmark_line(#[trigger] ps[i])),
    decreases ps.len(),
{
    let ls = ps.map_values(|p: Seq<char>| bookmark_line(p));
    if ps.len() == 0 {
        assert(acc.bookmarks + ps =~= acc.bookmarks);
    } else {
        let t = ps.drop_last();
        assert forall|i: int| 0 <= i < t.len() implies line_path(#[trigger] t[i]) by {
            assert(t[i] == ps[i]);
        }
        lemma_bookmarks(acc, t);
        assert(ls.drop_last() =~= t.map_values(|p: Seq<char>| bookmark_line(p)));
        lemma_bookmark(absorbed_all(acc, ls.drop_last()), ps.last());
        assert((acc.bookmarks + t).push(ps.last()) =~= acc.bookmarks + ps);
        assert forall|i: int| 0 <= i < ps.len() implies unbroken(
            bookmark_line(#[trigger] ps[i]),
        ) by {
            if i < t.len() {
                assert(ps[i] == t[i]);
            }
        }
    }
}

proof fn lemma_tabs(acc: LoadedRow, ps: Seq<Seq<char>>)
    requires
        forall|i: int| 0 <= i < ps.len() ==> line_path(#[trigger] ps[i]),
    ensures
        absorbed_all(acc, ps.map_values(|p: Seq<char>| tab_line(p))) == (LoadedRow {
            open_tabs: TabsRow { paths: acc.open_tabs.paths + ps, ..acc.open_tabs },
            ..acc
        }),
        forall|i: int| 0 <= i < ps.len() ==> unbroken(tab_line(#[trigger] ps[i])),
    decreases ps.len(),
{
    let ls = ps.map_values(|p: Seq<char>| tab_line(p));
    if ps.len() == 0 {
        assert(acc.open_tabs.paths + ps =~= acc.open_tabs.paths);
    } else {
        let t = ps.drop_last();
        assert forall|i: int| 0 <= i < t.len() implies line_path(#[trigger] t[i]) by {
            assert(t[i] == ps[i]);
        }
        lemma_tabs(acc, t);
        assert(ls.drop_last() =~= t.map_values(|p: Seq<char>| tab_line(p)));
        lemma_tab(absorbed_all(acc, ls.drop_last()), ps.last());
        assert((acc.open_tabs.paths + t).push(ps.last()) =~= acc.open_tabs.paths + ps);
        assert forall|i: int| 0 <= i < ps.len() implies unbroken(tab_line(#[trigger] ps[i])) by {
            if i < t.len() {
                assert(ps[i] == t[i]);
            }
        }
    }
}

proof fn lemma_recents(acc: LoadedRow, rs: Seq<RecentRow>)
    requires
        forall|i: int|
            0 <= i < rs.len() ==> line_path((#[trigger] rs[i]).path) && rs[i].path.len() > 0
                && !is_white(rs[i].path[0]) && rs[i].dt.reads_back(),
    ensures
        absorbed_all(acc, rs.map_values(|r: RecentRow| recent_line(r))) == (LoadedRow {
            recent_dirs: acc.recent_dirs + rs.map_values(|r: RecentRow| reread_recent(r)),
            ..acc
        }),
        forall|i: int| 0 <= i < rs.len() ==> unbroken(recent_line(#[trigger] rs[i])),
    decreases rs.len(),
{
    let ls = rs.map_values(|r: RecentRow| recent_line(r));
    let back = rs.map_values(|r: RecentRow| reread_recent(r));
    if rs.len() == 0 {
        assert(acc.recent_dirs + back =~= acc.recent_dirs);
    } else {
        let t = rs.drop_last();
        assert forall|i: int| 0 <= i < t.len() implies line_path((#[trigger] t[i]).path)
            && t[i].path.len() > 0 && !is_white(t[i].path[0]) && t[i].dt.reads_back() by {
            assert(t[i] == rs[i]);
        }
        lemma_recents(acc, t);
        assert(ls.drop_last() =~= t.map_values(|r: RecentRow| recent_line(r)));
        assert(back.drop_last() =~= t.map_values(|r: RecentRow| reread_recent(r)));
        lemma_recent(absorbed_all(acc, ls.drop_last()), rs.last());
        assert((acc.recent_dirs + back.drop_last()).push(back.last()) =~= acc.recent_dirs + back);
        assert forall|i: int| 0 <= i < rs.len() implies unbroken(recent_line(#[trigger] rs[i])) by {
            if i < t.len() {
                assert(rs[i] == t[i]);
            }
        }
    }
}

proof fn lemma_histories(acc: LoadedRow, hs: Seq<HistoryRow>)
    requires
        forall|i: int|
            0 <= i < hs.len() ==> free_of((#[trigger] hs[i]).dir, '\n') && free_of(hs[i].dir, '\t')
                && hs[i].dt.reads_back(),
    ensures
        absorbed_all(acc, hs.map_values(|h: HistoryRow| history_line(h))) == (LoadedRow {
            history: acc.history + hs.map_values(|h: HistoryRow| reread_history(h)),
            ..acc
        }),
        forall|i: int| 0 <= i < hs.len() ==> unbroken(history_line(#[trigger] hs[i])),
    decreases hs.len(),
{
    let ls = hs.map_values(|h: HistoryRow| history_line(h));
    let back = hs.map_values(|h: HistoryRow| reread_history(h));
    if hs.len() == 0 {
        assert(acc.history + back =~= acc.history);
    } else {
        let t = hs.drop_last();
        assert forall|i: int| 0 <= i < t.len() implies free_of((#[trigger] t[i]).dir, '\n')
            && free_of(t[i].dir, '\t') && t[i].dt.reads_back() by {
            assert(t[i] == hs[i]);
        }
        lemma_histories(acc, t);
        assert(ls.drop_last() =~= t.map_values(|h: HistoryRow| history_line(h)));
        assert(back.drop_last() =~= t.map_values(|h: HistoryRow| reread_history(h)));
        lemma_history(absorbed_all(acc, ls.drop_last()), hs.last());
        assert((acc.history + back.drop_last()).push(back.last()) =~= acc.history + back);
        assert forall|i: int| 0 <= i < hs.len() implies unbroken(
            history_line(#[trigger] hs[i]),
        ) by {
            if i < t.len() {
                assert(hs[i] == t[i]);
            }
        }
    }
}

proof fn lemma_remotes(acc: LoadedRow, rs: Seq<RemoteRow>)
    ensures
        absorbed_all(acc, rs.map_values(|r: RemoteRow| remote_line(r))) == (LoadedRow {
            remote_terminals: acc.remote_terminals + rs.map_values(|r: RemoteRow| reread_remote(r)),
            ..acc
        }),
        forall|i: int| 0 <= i < rs.len() ==> unbroken(remote_line(#[trigger] rs[i])),
    decreases rs.len(),
{
    let ls = rs.map_values(|r: RemoteRow| remote_line(r));
    let back = rs.map_values(|r: RemoteRow| reread_remote(r));
    if rs.len() == 0 {
        assert(acc.remote_terminals + back =~= acc.remote_terminals);
    } else {
        let t = rs.drop_last();
        lemma_remotes(acc, t);
        assert(ls.drop_last() =~= t.map_values(|r: RemoteRow| remote_line(r)));
        assert(back.drop_last() =~= t.map_values(|r: RemoteRow| reread_remote(r)));
        lemma_remote(absorbed_all(acc, ls.drop_last()), rs.last());
        assert((acc.remote_terminals + back.drop_last()).push(back.last())
            =~= acc.remote_terminals + back);
        assert forall|i: int| 0 <= i < rs.len() implies unbroken(remote_line(#[trigger] rs[i])) by {
            if i < t.len() {
                assert(rs[i] == t[i]);
            }
        }
    }
}

spec fn all_unbroken(ls: Seq<Seq<char>>) -> bool {
    forall|i: int| 0 <= i < ls.len() ==> unbroken(#[trigger] ls[i])
}

proof fn lemma_unbroken_add(a: Seq<Seq<char>>, b: Seq<Seq<char>>)
    requires
        all_unbroken(a),
        all_unbroken(b),
    ensures
        all_unbroken(a + b),
{
}

proof fn lemma_tab_lines(acc: LoadedRow, x: SavedRow)
    requires
        acc.open_tabs == TabsRow::initial(),
        x.storable(),
    ensures
        absorbed_all(acc, x.tab_lines()) == (LoadedRow { open_tabs: x.open_tabs, ..acc }),
        all_unbroken(x.tab_lines()),
{
    let ps = x.open_tabs.paths;
    if ps.len() == 0 {
        assert(ps =~= Seq::<Seq<char>>::empty());
    } else {
        lemma_tabs(acc, ps);
        let ls = ps.map_values(|p: Seq<char>| tab_line(p));
        let all = x.tab_lines();
        assert(all.drop_last() =~= ls);
        assert(Seq::<Seq<char>>::empty() + ps =~= ps);
        lemma_active(absorbed_all(acc, ls), x.open_tabs.active);
        assert forall|i: int| 0 <= i < all.len() implies unbroken(#[trigger] all[i]) by {
            if i < ps.len() {
                assert(all[i] == tab_line(ps[i]));
            }
        }
    }
}

proof fn lemma_one_line(acc: LoadedRow, l: Seq<char>)
    ensures
        absorbed_all(acc, seq![l]) == absorbed(acc, l),
{
    assert(seq![l].drop_last() =~= Seq::<Seq<char>>::empty());
    assert(seq![l].last() == l);
    assert(absorbed_all(acc, seq![l].drop_last()) == acc);
}

/// The state file reads back. What is saved loads again as it was, with times
/// cut to whole seconds, control characters in commands and names turned to
/// spaces, and repeated commands reduced to the newest.
pub proof fn saved_state_reads_back(x: SavedRow, windows: bool)
    requires
        x.storable(),
        x.times_read_back(),
    ensures
        loaded(lines_of(x.text()), windows) == x.reread(windows),
{
    let a0 = LoadedRow::initial();
    let l0 = seq![HEADER@];
    let l1 = x.bookmark_lines();
    let l2 = x.recent_lines();
    let l3 = x.history_lines();
    let l4 = seq![panel_line(x.panel_vis)];
    let l5 = x.size_lines();
    let l6 = x.tab_lines();
    let l7 = x.font_lines();
    let l8 = x.remote_lines();
    let a1 = absorbed_all(a0, l0);
    lemma_header(a0);
    lemma_one_line(a0, HEADER@);
    assert(a1 == a0);
    lemma_bookmarks(a1, x.bookmarks);
    let a2 = absorbed_all(a1, l1);
    lemma_recents(a2, x.recent_dirs);
    let a3 = absorbed_all(a2, l2);
    lemma_histories(a3, x.history);
    let a4 = absorbed_all(a3, l3);
    lemma_panel_line(a4, x.panel_vis);
    lemma_one_line(a4, panel_line(x.panel_vis));
    let a5 = absorbed_all(a4, l4);
    let a6 = absorbed_all(a5, l5);
    match x.window_size {
        Some(w) => {
            lemma_size_line(a5, w);
            lemma_one_line(a5, size_line(w));
        },
        None => {},
    }
    lemma_tab_lines(a6, x);
    let a7 = absorbed_all(a6, l6);
    let a8 = absorbed_all(a7, l7);
    match x.font_size {
        Some(s) => {
            lemma_font_line(a7, s);
            lemma_one_line(a7, font_line(s));
        },
        None => {},
    }
    lemma_remotes(a8, x.remote_terminals);
    let a9 = absorbed_all(a8, l8);
    assert(absorbed_all(a0, x.lines()) == a9) by {
        lemma_absorbed_add(a0, l0, l1);
        lemma_absorbed_add(a0, l0 + l1, l2);
        lemma_absorbed_add(a0, l0 + l1 + l2, l3);
        lemma_absorbed_add(a0, l0 + l1 + l2 + l3, l4);
        lemma_absorbed_add(a0, l0 + l1 + l2 + l3 + l4, l5);
        lemma_absorbed_add(a0, l0 + l1 + l2 + l3 + l4 + l5, l6);
        lemma_absorbed_add(a0, l0 + l1 + l2 + l3 + l4 + l5 + l6, l7);
        lemma_absorbed_add(a0, l0 + l1 + l2 + l3 + l4 + l5 + l6 + l7, l8);
    }
    assert(all_unbroken(x.lines())) by {
        assert(all_unbroken(l0));
        assert(all_unbroken(l1)) by {
            assert forall|i: int| 0 <= i < l1.len() implies unbroken(#[trigger] l1[i]) by {
                assert(l1[i] == bookmark_line(x.bookmarks[i]));
            }
        }
        assert(all_unbroken(l2)) by {
            assert forall|i: int| 0 <= i < l2.len() implies unbroken(#[trigger] l2[i]) by {
                assert(l2[i] == recent_line(x.recent_dirs[i]));
            }
        }
        assert(all_unbroken(l3)) by {
            assert forall|i: int| 0 <= i < l3.len() implies unbroken(#[trigger] l3[i]) by {
                assert(l3[i] == history_line(x.history[i]));
            }
        }
        assert(all_unbroken(l8)) by {
            assert forall|i: int| 0 <= i < l8.len() implies unbroken(#[trigger] l8[i]) by {
                assert(l8[i] == remote_line(x.remote_terminals[i]));
            }
        }
        lemma_unbroken_add(l0, l1);
        lemma_unbroken_add(l0 + l1, l2);
        lemma_unbroken_add(l0 + l1 + l2, l3);
        lemma_unbroken_add(l0 + l1 + l2 + l3, l4);
        lemma_unbroken_add(l0 + l1 + l2 + l3 + l4, l5);
        lemma_unbroken_add(l0 + l1 + l2 + l3 + l4 + l5, l6);
        lemma_unbroken_add(l0 + l1 + l2 + l3 + l4 + l5 + l6, l7);
        lemma_unbroken_add(l0 + l1 + l2 + l3 + l4 + l5 + l6 + l7, l8);
    }
    lemma_lines_of_joined(x.lines());
    let back = x.reread(windows);
    assert(a9.bookmarks =~= back.bookmarks);
    assert(a9.recent_dirs =~= back.recent_dirs);
    assert(a9.history =~= x.history.map_values(|h: HistoryRow| reread_history(h)));
    assert(a9.remote_terminals =~= back.remote_terminals);
    assert(a9.window_size =~= back.window_size);
    assert(a9.font_size =~= back.font_size);
}

} // verus!
