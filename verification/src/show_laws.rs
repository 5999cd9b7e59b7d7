//! What the lists, the prompt and the suggestions show.

use crate::git::branch_marker;
use crate::lists::{last_such, last_such_is_exact, picked_is_exact};
use crate::nav::{indicator, NavRow};
use crate::num::decimal;
use crate::order::{order, order_is_stable_sort, text_lt};
use crate::path::{joined, path_eq};
use crate::python::{first_file, venv_file, venv_marker};
use crate::line_laws::clean;
use crate::recall_laws::own_word;
use crate::render::{
    bookmark_row, bookmarked, builtin, colored_prompt, history_row, indicator_at, list_page, part,
    prompt_keeps_its_text, prompt_parts, recent_row, suggested, COLOR_GREEN, COLOR_MAGENTA,
    COLOR_RESET, COLOR_YELLOW, DISP_HIST_LEN,
};
use crate::ssh::{remotes_page, SshMode};
use crate::state::{bookmark_added, BrowserRow, HistoryRow, RecentRow, RemoteRow, StateRow};
use crate::tab_laws::all_white;
use crate::text::{
    last_at, lemma_last_at, lemma_rspan_is, lemma_span_is, lemma_trimmed_clean, lossy_text,
    lowercase, occurs, occurs_at, starts, trimmed, Class,
};
use crate::util::{
    all_history_page, browser_key, browser_list, browser_row, dir_history_page, executable,
    history_page, latest_places, lemma_pages, newest_of_its_text, numbered, page_end, page_start,
    page_text, pages, places_in_dir, readable, shown_page, stacked, tilded, EntryRow, DISP_PAGE_LEN,
};
use vstd::prelude::*;

verus! {

// ---- pages ----

/// `text` holds two lines, one right below the other.
pub open spec fn lines_in_turn(text: Seq<char>, a: Seq<char>, b: Seq<char>) -> bool {
    exists|before: Seq<char>, behind: Seq<char>|
        text == #[trigger] (before + a + "\n"@ + b + "\n"@ + behind)
}

/// `text` holds a line.
pub open spec fn has_line(text: Seq<char>, a: Seq<char>) -> bool {
    exists|before: Seq<char>, behind: Seq<char>|
        text == #[trigger] (before + "\n"@ + a + "\n"@ + behind)
}

proof fn lemma_stacked_split(rows: Seq<Seq<char>>, k: int)
    requires
        0 <= k <= rows.len(),
    ensures
        stacked(rows) == stacked(rows.take(k)) + stacked(rows.skip(k)),
    decreases rows.len(),
{
    if k == rows.len() {
        assert(rows.take(k) =~= rows);
        assert(rows.skip(k) =~= Seq::empty());
        assert(stacked(rows) + Seq::<char>::empty() =~= stacked(rows));
    } else {
        let t = rows.drop_last();
        lemma_stacked_split(t, k);
        assert(t.take(k) =~= rows.take(k));
        assert(t.skip(k) =~= rows.skip(k).drop_last());
        assert(rows.skip(k).last() == rows.last());
        assert(stacked(rows) =~= stacked(rows.take(k)) + stacked(rows.skip(k)));
    }
}

proof fn lemma_stacked_head(rows: Seq<Seq<char>>)
    requires
        rows.len() > 0,
    ensures
        stacked(rows) == rows[0] + "\n"@ + stacked(rows.skip(1)),
{
    lemma_stacked_split(rows, 1);
    let one = rows.take(1);
    assert(one.drop_last() =~= Seq::empty());
    assert(one.last() == rows[0]);
    assert(stacked(one.drop_last()) =~= Seq::empty());
    assert(stacked(one) =~= rows[0] + "\n"@);
    assert(stacked(rows) =~= rows[0] + "\n"@ + stacked(rows.skip(1)));
}

/// Each row of a page is a line of it, and each two neighbours stand one right
/// below the other.
proof fn lemma_page_rows(
    heading: Seq<char>,
    empty_msg: Seq<char>,
    total: int,
    rows: Seq<Seq<char>>,
    k: int,
)
    requires
        total > 0,
        0 <= k < rows.len(),
    ensures
        has_line(page_text(heading, empty_msg, total, rows), rows[k]),
        k + 1 < rows.len() ==> lines_in_turn(
            page_text(heading, empty_msg, total, rows),
            rows[k],
            rows[k + 1],
        ),
{
    let nl = "\n"@;
    reveal_strlit("\n");
    let text = page_text(heading, empty_msg, total, rows);
    let front = heading + crate::util::DIVIDER@ + nl;
    let end = crate::util::DIVIDER@ + "\n\n"@;
    lemma_stacked_split(rows, k);
    let tail = rows.skip(k);
    lemma_stacked_head(tail);
    assert(tail[0] == rows[k]);
    let more = stacked(tail.skip(1));
    let before = front + stacked(rows.take(k));
    assert(text =~= before + rows[k] + nl + (more + end));
    // The row before ends with a line break, and so does what is in front.
    lemma_stacked_ends(rows.take(k));
    assert(before.len() > 0 && before.last() == '\n');
    let b = before.drop_last();
    assert(before =~= b + nl);
    assert(text =~= b + nl + rows[k] + nl + (more + end));
    if k + 1 < rows.len() {
        let rest = tail.skip(1);
        lemma_stacked_head(rest);
        assert(rest[0] == rows[k + 1]);
        let last = stacked(rest.skip(1)) + end;
        assert(text =~= before + rows[k] + nl + rows[k + 1] + nl + last);
    }
}

proof fn lemma_stacked_ends(rows: Seq<Seq<char>>)
    ensures
        rows.len() > 0 ==> stacked(rows).len() > 0 && stacked(rows).last() == '\n',
        rows.len() == 0 ==> stacked(rows).len() == 0,
{
    reveal_strlit("\n");
}

/// A page of the history shows its entries with the numbers that run them, older
/// ones above newer ones, and the first page ends with the newest. `k` counts the
/// entries, each command text once, from the oldest.
pub proof fn history_pages_show_numbers(h: Seq<HistoryRow>, page: int, k: int)
    requires
        0 <= page,
        page_start(latest_places(h).len() as int, page, DISP_PAGE_LEN as int) <= k < page_end(
            latest_places(h).len() as int,
            page,
            DISP_PAGE_LEN as int,
        ),
    ensures
        ({
            let at = latest_places(h);
            let text = all_history_page(h, page);
            &&& 0 <= k < at.len() && 0 <= at[k] < h.len()
            &&& has_line(text, decimal(at[k] as nat) + ":  "@ + h[at[k]].text)
            &&& k + 1 < page_end(at.len() as int, page, DISP_PAGE_LEN as int) ==> at[k] < at[k + 1]
                && lines_in_turn(
                text,
                decimal(at[k] as nat) + ":  "@ + h[at[k]].text,
                decimal(at[k + 1] as nat) + ":  "@ + h[at[k + 1]].text,
            )
            &&& forall|j: int| at[k] < j < h.len() ==> (#[trigger] h[j]).text != h[at[k]].text
        }),
{
    let at = latest_places(h);
    let f = |i: int| newest_of_its_text(h, i);
    picked_is_exact(h.len(), f);
    lemma_history_rows(h, at, page, k);
    assert(f(at[k]));
    let p = page;
    lemma_history_page_has(
        "Command History"@,
        "Ctrl+3 again: older page"@,
        "Use `his <number>` to run, `his p<N>` to jump to a page; e.g. `his 4`"@,
        "(no history)"@,
        h,
        at,
        p,
        k,
    );
}

/// The same for what was run in one directory.
pub proof fn directory_pages_show_numbers(
    h: Seq<HistoryRow>,
    dir: Seq<char>,
    page: int,
    k: int,
    windows: bool,
)
    requires
        0 <= page,
        page_start(places_in_dir(h, dir, windows).len() as int, page, DISP_PAGE_LEN as int) <= k
            < page_end(places_in_dir(h, dir, windows).len() as int, page, DISP_PAGE_LEN as int),
    ensures
        ({
            let at = places_in_dir(h, dir, windows);
            let text = dir_history_page(h, dir, page, windows);
            &&& 0 <= k < at.len() && 0 <= at[k] < h.len()
            &&& path_eq(h[at[k]].dir, dir, windows)
            &&& has_line(text, decimal(at[k] as nat) + ":  "@ + h[at[k]].text)
            &&& k + 1 < page_end(at.len() as int, page, DISP_PAGE_LEN as int) ==> at[k] < at[k + 1]
                && lines_in_turn(
                text,
                decimal(at[k] as nat) + ":  "@ + h[at[k]].text,
                decimal(at[k + 1] as nat) + ":  "@ + h[at[k + 1]].text,
            )
        }),
        forall|i: int|
            0 <= i < h.len() && path_eq((#[trigger] h[i]).dir, dir, windows) ==> places_in_dir(
                h,
                dir,
                windows,
            ).contains(i),
{
    let at = places_in_dir(h, dir, windows);
    let f = |i: int| path_eq(h[i].dir, dir, windows);
    picked_is_exact(h.len(), f);
    lemma_history_rows(h, at, page, k);
    assert(f(at[k]));
    assert forall|i: int| 0 <= i < h.len() && path_eq((#[trigger] h[i]).dir, dir, windows) implies at.contains(
        i,
    ) by {
        assert(f(i));
    }
    lemma_history_page_has(
        "Command History in this directory"@,
        "Ctrl+4 again: older page"@,
        "Use `this <number>` to run, `this p<N>` to jump to a page; e.g. `this 4`"@,
        "(no history in this directory)"@,
        h,
        at,
        page,
        k,
    );
}

proof fn lemma_history_rows(h: Seq<HistoryRow>, at: Seq<int>, page: int, k: int)
    requires
        0 <= page,
        page_start(at.len() as int, page, DISP_PAGE_LEN as int) <= k < page_end(
            at.len() as int,
            page,
            DISP_PAGE_LEN as int,
        ),
    ensures
        0 <= k < at.len(),
        0 <= page_start(at.len() as int, page, DISP_PAGE_LEN as int),
        page_end(at.len() as int, page, DISP_PAGE_LEN as int) <= at.len(),
{
    lemma_pages(at.len() as int, page, DISP_PAGE_LEN as int);
}

proof fn lemma_history_page_has(
    title: Seq<char>,
    paging: Seq<char>,
    usage: Seq<char>,
    empty: Seq<char>,
    h: Seq<HistoryRow>,
    at: Seq<int>,
    page: int,
    k: int,
)
    requires
        0 <= page,
        page_start(at.len() as int, page, DISP_PAGE_LEN as int) <= k < page_end(
            at.len() as int,
            page,
            DISP_PAGE_LEN as int,
        ),
    ensures
        ({
            let text = history_page(title, paging, usage, empty, h, at, page);
            &&& has_line(text, decimal(at[k] as nat) + ":  "@ + h[at[k]].text)
            &&& k + 1 < page_end(at.len() as int, page, DISP_PAGE_LEN as int) ==> lines_in_turn(
                text,
                decimal(at[k] as nat) + ":  "@ + h[at[k]].text,
                decimal(at[k + 1] as nat) + ":  "@ + h[at[k + 1]].text,
            )
        }),
{
    let per = DISP_PAGE_LEN as int;
    let total = at.len() as int;
    let start = page_start(total, page, per);
    lemma_pages(total, page, per);
    let rows = Seq::new(
        (page_end(total, page, per) - start) as nat,
        |x: int| numbered(at[start + x], h[at[start + x]].text),
    );
    let x = k - start;
    assert(rows[x] == numbered(at[k], h[at[k]].text));
    if x + 1 < rows.len() {
        assert(rows[x + 1] == numbered(at[k + 1], h[at[k + 1]].text));
    }
    lemma_page_rows(
        crate::util::page_heading(title, paging, usage, total, page, per),
        empty,
        total,
        rows,
        x,
    );
}

/// A list of the command line shows each entry of its page with its place in the
/// list, older ones above newer ones: recent directories with a star if they are
/// bookmarked, and bookmarks and recent directories from the home directory on.
pub proof fn list_pages_show_numbers(
    list: Seq<RecentRow>,
    bookmarks: Seq<Seq<char>>,
    h: Seq<HistoryRow>,
    home: Option<Seq<char>>,
    title: Seq<char>,
    usage: Seq<char>,
    empty: Seq<char>,
    total: int,
    page: int,
    k: int,
    windows: bool,
)
    requires
        0 <= page,
        0 <= total,
        page_start(total, page, DISP_HIST_LEN as int) <= k < page_end(
            total,
            page,
            DISP_HIST_LEN as int,
        ),
    ensures
        ({
            let row = recent_row(list, bookmarks, home, windows);
            let star = if exists|i: int|
                0 <= i < bookmarks.len() && path_eq(#[trigger] bookmarks[i], list[k].path, windows) {
                "*"@
            } else {
                ""@
            };
            has_line(
                list_page(title, usage, empty, total, page, row),
                decimal(k as nat) + ":  "@ + (star + tilded(list[k].path, home, windows)),
            )
        }),
        has_line(
            list_page(title, usage, empty, total, page, bookmark_row(bookmarks, home, windows)),
            decimal(k as nat) + ":  "@ + tilded(bookmarks[k], home, windows),
        ),
        has_line(
            list_page(title, usage, empty, total, page, history_row(h)),
            decimal(k as nat) + ":  "@ + h[k].text,
        ),
        k + 1 < page_end(total, page, DISP_HIST_LEN as int) ==> lines_in_turn(
            list_page(title, usage, empty, total, page, bookmark_row(bookmarks, home, windows)),
            decimal(k as nat) + ":  "@ + tilded(bookmarks[k], home, windows),
            decimal((k + 1) as nat) + ":  "@ + tilded(bookmarks[k + 1], home, windows),
        ),
        k + 1 < page_end(total, page, DISP_HIST_LEN as int) ==> lines_in_turn(
            list_page(title, usage, empty, total, page, history_row(h)),
            decimal(k as nat) + ":  "@ + h[k].text,
            decimal((k + 1) as nat) + ":  "@ + h[k + 1].text,
        ),
{
    lemma_list_page(title, usage, empty, total, page, recent_row(list, bookmarks, home, windows), k);
    lemma_list_page(title, usage, empty, total, page, bookmark_row(bookmarks, home, windows), k);
    lemma_list_page(title, usage, empty, total, page, history_row(h), k);
}

proof fn lemma_list_page(
    title: Seq<char>,
    usage: Seq<char>,
    empty: Seq<char>,
    total: int,
    page: int,
    row: spec_fn(int) -> Seq<char>,
    k: int,
)
    requires
        0 <= page,
        0 <= total,
        page_start(total, page, DISP_HIST_LEN as int) <= k < page_end(
            total,
            page,
            DISP_HIST_LEN as int,
        ),
    ensures
        has_line(list_page(title, usage, empty, total, page, row), row(k)),
        k + 1 < page_end(total, page, DISP_HIST_LEN as int) ==> lines_in_turn(
            list_page(title, usage, empty, total, page, row),
            row(k),
            row(k + 1),
        ),
{
    let per = DISP_HIST_LEN as int;
    let start = page_start(total, page, per);
    lemma_pages(total, page, per);
    let rows = Seq::new((page_end(total, page, per) - start) as nat, |x: int| row(start + x));
    let x = k - start;
    assert(rows[x] == row(k));
    if x + 1 < rows.len() {
        assert(rows[x + 1] == row(k + 1));
    }
    lemma_page_rows(
        crate::render::list_heading(title, usage, total, page),
        empty,
        total,
        rows,
        x,
    );
}

/// The list of saved remotes shows each remote of its page with its place in the
/// list.
pub proof fn remote_pages_show_numbers(list: Seq<RemoteRow>, page: int, k: int)
    requires
        0 <= page,
        page_start(list.len() as int, page, DISP_PAGE_LEN as int) <= k < page_end(
            list.len() as int,
            page,
            DISP_PAGE_LEN as int,
        ),
    ensures
        0 <= k < list.len(),
        has_line(
            remotes_page(list, page),
            decimal(k as nat) + ":  "@ + crate::ssh::secrets::account_name(
                list[k].host,
                list[k].port,
                list[k].username,
            ),
        ),
{
    let per = DISP_PAGE_LEN as int;
    let total = list.len() as int;
    let start = page_start(total, page, per);
    lemma_pages(total, page, per);
    let rows = Seq::new(
        (page_end(total, page, per) - start) as nat,
        |x: int|
            numbered(
                start + x,
                crate::ssh::secrets::account_name(
                    list[start + x].host,
                    list[start + x].port,
                    list[start + x].username,
                ),
            ),
    );
    let x = k - start;
    assert(rows[x] == numbered(
        k,
        crate::ssh::secrets::account_name(list[k].host, list[k].port, list[k].username),
    ));
    lemma_page_rows(
        crate::util::page_heading(
            "Remotes"@,
            "Ctrl+R again: older page"@,
            "Use `ssh <number>` to connect, `remote del <number>` to delete; e.g. `ssh 0`"@,
            total,
            page,
            per,
        ),
        "(no saved remotes — add one with `remote add user@host`)"@,
        total,
        rows,
        x,
    );
}

// ---- suggestions and bookmarks ----

/// Behind a line, the rest of the newest command is suggested that starts with
/// the line and goes on; where there is none, or nothing is typed, nothing is.
pub proof fn newest_continuation_is_suggested(h: Seq<HistoryRow>, line: Seq<char>)
    ensures
        line.len() == 0 ==> suggested(h, line) is None,
        forall|i: int|
            line.len() > 0 && 0 <= i < h.len() && goes_on(#[trigger] h[i].text, line) && (forall|
                j: int,
            |
                i < j < h.len() ==> !goes_on(#[trigger] h[j].text, line)) ==> suggested(h, line)
                is Some && line + suggested(h, line)->0 == h[i].text,
        (forall|i: int| 0 <= i < h.len() ==> !goes_on(#[trigger] h[i].text, line)) ==> suggested(
            h,
            line,
        ) is None,
{
    let f = |i: int| starts(h[i].text, line) && h[i].text.len() > line.len();
    last_such_is_exact(h.len() as int, f);
    assert forall|i: int| 0 <= i < h.len() implies f(i) == goes_on(#[trigger] h[i].text, line) by {
        if goes_on(h[i].text, line) {
            assert(h[i].text.take(line.len() as int) =~= line);
        }
        if f(i) {
            assert forall|x: int| 0 <= x < line.len() implies h[i].text[x] == #[trigger] line[x] by {
                assert(h[i].text.take(line.len() as int)[x] == line[x]);
            }
        }
    }
    match last_such(h.len() as int, f) {
        Some(k) => {
            assert(goes_on(h[k].text, line));
            assert forall|i: int|
                0 <= i < h.len() && goes_on(#[trigger] h[i].text, line) && (forall|j: int|
                    i < j < h.len() ==> !goes_on(#[trigger] h[j].text, line)) implies i == k by {
                assert(f(i));
                if i < k {
                    assert(!goes_on(h[k].text, line));
                }
            }
            assert(h[k].text.take(line.len() as int) == line);
            assert(line + h[k].text.skip(line.len() as int) =~= h[k].text);
        },
        None => {
            assert forall|i: int| 0 <= i < h.len() implies !goes_on(#[trigger] h[i].text, line) by {
                assert(!f(i));
            }
        },
    }
}

/// The text starts with the line and is longer.
pub open spec fn goes_on(text: Seq<char>, line: Seq<char>) -> bool {
    line.len() < text.len() && forall|x: int| 0 <= x < line.len() ==> text[x] == #[trigger] line[x]
}

/// A directory that is not bookmarked becomes the last bookmark, and the others
/// stay; one that is bookmarked already changes nothing. Either way it is
/// bookmarked then.
pub proof fn bookmarks_are_added_once(bookmarks: Seq<Seq<char>>, cwd: Seq<char>, windows: bool)
    ensures
        ({
            let after = bookmark_added(bookmarks, cwd, windows).0;
            let there = exists|i: int|
                0 <= i < bookmarks.len() && path_eq(#[trigger] bookmarks[i], cwd, windows);
            &&& there ==> after == bookmarks
            &&& !there ==> after.len() == bookmarks.len() + 1 && after.last() == cwd && forall|i: int|
                0 <= i < bookmarks.len() ==> #[trigger] after[i] == bookmarks[i]
            &&& !there ==> bookmark_added(bookmarks, cwd, windows).1 == "Added a bookmark: "@ + cwd
                + "\n"@
            &&& bookmark_added(after, cwd, windows).0 == after
        }),
{
    crate::path::path_eq_is_equivalence(cwd, cwd, cwd, windows);
    let after = bookmark_added(bookmarks, cwd, windows).0;
    if !bookmarked(bookmarks, cwd, windows) {
        assert(after[after.len() - 1] == cwd);
        assert(bookmarked(after, cwd, windows));
    }
}

// ---- the prompt ----

/// A branch of up to ten characters is shown whole, a longer one by its first ten
/// and dots.
pub proof fn branches_are_shown_short(b: Seq<char>)
    ensures
        branch_marker(None) == Seq::<char>::empty(),
        b.len() <= 10 ==> branch_marker(Some(b)) == " branch: "@ + b,
        b.len() > 10 ==> branch_marker(Some(b)) == " branch: "@ + b.subrange(0, 10) + "..."@,
{
    if b.len() > 10 {
        assert(b.subrange(0, 10) =~= b.take(10));
        assert(branch_marker(Some(b)) =~= " branch: "@ + b.subrange(0, 10) + "..."@);
    }
}

/// The prompt shows, in this order, the current directory, with a star if it is
/// bookmarked, the branch, the mark of a virtual environment and the entry that
/// is recalled. With a remote connected it shows who and where that is instead,
/// and whether it is in terminal mode.
pub proof fn prompt_shows_where_the_shell_is(s: StateRow, nav: NavRow, files: Seq<Seq<char>>)
    ensures
        s.active_remote is None ==> s.prompt(nav, files) == "S "@ + (if exists|i: int|
            0 <= i < s.dir_bookmarks.len() && path_eq(
                #[trigger] s.dir_bookmarks[i],
                s.cwd,
                s.windows,
            ) {
            "*"@
        } else {
            ""@
        }) + s.cwd + branch_marker(s.branch) + venv_marker(s.cwd, files, s.windows) + indicator(
            "his"@,
            nav.his,
        ) + indicator("cd"@, nav.cd) + " $ "@,
        s.active_remote is Some ==> ({
            let r = s.active_remote->0;
            s.prompt(nav, files) == "S ["@ + r.user + "@"@ + r.host + ":"@ + (if r.cwd.len() == 0 {
                "~"@
            } else {
                r.cwd
            }) + "]"@ + (if r.mode == SshMode::Pty {
                " (pty)"@
            } else {
                ""@
            }) + indicator("his"@, nav.his) + indicator("cd"@, nav.cd) + " $ "@
        }),
        forall|i: nat| #[trigger] indicator("his"@, Some(i as int)) == " his "@ + decimal(i),
        forall|i: nat| #[trigger] indicator("cd"@, Some(i as int)) == " cd "@ + decimal(i),
        indicator("his"@, None).len() == 0,
        indicator("cd"@, None).len() == 0,
{
    let recall = indicator("his"@, nav.his) + indicator("cd"@, nav.cd);
    if s.active_remote is Some {
        let r = s.active_remote->0;
        let d = if r.cwd.len() == 0 {
            "~"@
        } else {
            r.cwd
        };
        let m = if r.mode == SshMode::Pty {
            " (pty)"@
        } else {
            ""@
        };
        assert(s.prompt(nav, files) =~= "S ["@ + r.user + "@"@ + r.host + ":"@ + d + "]"@ + m
            + indicator("his"@, nav.his) + indicator("cd"@, nav.cd) + " $ "@);
    } else {
        let star = if bookmarked(s.dir_bookmarks, s.cwd, s.windows) {
            "*"@
        } else {
            ""@
        };
        assert(s.prompt(nav, files) =~= "S "@ + star + s.cwd + branch_marker(s.branch)
            + venv_marker(s.cwd, files, s.windows) + indicator("his"@, nav.his) + indicator(
            "cd"@,
            nav.cd,
        ) + " $ "@);
    }
    reveal_strlit(" ");
    reveal_strlit("his");
    reveal_strlit("cd");
    reveal_strlit(" his ");
    reveal_strlit(" cd ");
    assert forall|i: nat| #[trigger] indicator("his"@, Some(i as int)) == " his "@ + decimal(i) by {
        assert(" "@ + "his"@ + " "@ =~= " his "@);
    }
    assert forall|i: nat| #[trigger] indicator("cd"@, Some(i as int)) == " cd "@ + decimal(i) by {
        assert(" "@ + "cd"@ + " "@ =~= " cd "@);
    }
}

// ---- virtual environments ----

proof fn lemma_first_file(
    root: Seq<char>,
    rels: Seq<Seq<char>>,
    files: Seq<Seq<char>>,
    i: int,
    windows: bool,
)
    requires
        0 <= i <= rels.len(),
    ensures
        match first_file(root, rels, files, i, windows) {
            Some(p) => exists|k: int|
                i <= k < rels.len() && p == joined(root, #[trigger] rels[k], windows)
                    && files.contains(p) && forall|j: int|
                    i <= j < k ==> !files.contains(joined(root, #[trigger] rels[j], windows)),
            None => forall|j: int|
                i <= j < rels.len() ==> !files.contains(joined(root, #[trigger] rels[j], windows)),
        },
    decreases rels.len() - i,
{
    if i < rels.len() && !files.contains(joined(root, rels[i], windows)) {
        lemma_first_file(root, rels, files, i + 1, windows);
    }
}

/// A directory has a virtual environment for some executable if `.venv` or `venv`
/// in it holds the file `pyvenv.cfg` and the executable; `.venv` comes first, and
/// in each the first of the places where the executable can be. What is found is
/// a file that is there.
pub proof fn environments_are_found(
    dir: Seq<char>,
    rels: Seq<Seq<char>>,
    files: Seq<Seq<char>>,
    windows: bool,
)
    ensures
        ({
            let a = joined(dir, ".venv"@, windows);
            let b = joined(dir, "venv"@, windows);
            let r = venv_file(dir, rels, files, windows);
            let cfg = "pyvenv.cfg"@;
            &&& has_executable(a, rels, files, windows) ==> r is Some && is_first_executable(
                a,
                rels,
                files,
                r->0,
                windows,
            )
            &&& !has_executable(a, rels, files, windows) && has_executable(b, rels, files, windows)
                ==> r is Some && is_first_executable(b, rels, files, r->0, windows)
            &&& !has_executable(a, rels, files, windows) && !has_executable(
                b,
                rels,
                files,
                windows,
            ) ==> r is None
        }),
{
    let a = joined(dir, ".venv"@, windows);
    let b = joined(dir, "venv"@, windows);
    lemma_first_file(a, rels, files, 0, windows);
    lemma_first_file(b, rels, files, 0, windows);
}

/// `root` is a virtual environment that has one of the executables.
pub open spec fn has_executable(
    root: Seq<char>,
    rels: Seq<Seq<char>>,
    files: Seq<Seq<char>>,
    windows: bool,
) -> bool {
    files.contains(joined(root, "pyvenv.cfg"@, windows)) && exists|k: int|
        0 <= k < rels.len() && files.contains(joined(root, #[trigger] rels[k], windows))
}

/// `p` is the first of the executables that is a file.
pub open spec fn is_first_executable(
    root: Seq<char>,
    rels: Seq<Seq<char>>,
    files: Seq<Seq<char>>,
    p: Seq<char>,
    windows: bool,
) -> bool {
    exists|k: int|
        0 <= k < rels.len() && p == joined(root, #[trigger] rels[k], windows) && files.contains(p)
            && forall|j: int|
            0 <= j < k ==> !files.contains(joined(root, #[trigger] rels[j], windows))
}

// ---- the listing of a directory ----

spec fn shown_entries(es: Seq<EntryRow>, m: int) -> Seq<int> {
    crate::lists::picked(m as nat, |i: int| es[i].is_dir is Some)
}

proof fn lemma_readable(es: Seq<EntryRow>, windows: bool, m: int)
    requires
        0 <= m <= es.len(),
    ensures
        readable(es.take(m), windows) == Seq::new(
            shown_entries(es, m).len(),
            |x: int| browser_row(es[shown_entries(es, m)[x]], windows),
        ),
    decreases m,
{
    let at = shown_entries(es, m);
    if m > 0 {
        lemma_readable(es, windows, m - 1);
        assert(es.take(m).drop_last() =~= es.take(m - 1));
        assert(es.take(m).last() == es[m - 1]);
    }
    assert(readable(es.take(m), windows) =~= Seq::new(
        at.len(),
        |x: int| browser_row(es[at[x]], windows),
    ));
}

/// The listing of a directory holds each entry whose kind is known once, with its
/// path and name: folders before files, and among each of them by name, letter
/// case aside. A folder is not marked as something to run.
pub proof fn listings_are_sorted(es: Seq<EntryRow>, windows: bool)
    ensures
        exists|at: Seq<int>|
            {
                let rows = browser_list(es, windows);
                &&& #[trigger] at.len() == rows.len()
                &&& forall|x: int|
                    0 <= x < at.len() ==> 0 <= #[trigger] at[x] < es.len() && es[at[x]].is_dir
                        is Some && rows[x].path == es[at[x]].path && rows[x].disp_name
                        == es[at[x]].name && rows[x].is_folder == es[at[x]].is_dir->0 && (
                    rows[x].is_executable ==> !rows[x].is_folder && executable(es[at[x]], windows))
                        && (!rows[x].is_folder && executable(es[at[x]], windows)
                        ==> rows[x].is_executable)
                &&& forall|i: int|
                    0 <= i < es.len() && (#[trigger] es[i]).is_dir is Some ==> at.contains(i)
                &&& forall|x: int, y: int|
                    0 <= x < y < at.len() ==> #[trigger] at[x] != #[trigger] at[y] && (
                    rows[x].is_folder && !rows[y].is_folder || (rows[x].is_folder
                        == rows[y].is_folder && !text_lt(
                        lowercase(rows[y].disp_name),
                        lowercase(rows[x].disp_name),
                    )))
            },
{
    let f = |i: int| es[i].is_dir is Some;
    let at0 = shown_entries(es, es.len() as int);
    picked_is_exact(es.len(), f);
    lemma_readable(es, windows, es.len() as int);
    assert(es.take(es.len() as int) =~= es);
    let base = readable(es, windows);
    let keys = base.map_values(|b: BrowserRow| browser_key(b));
    order_is_stable_sort(keys);
    let o = order(keys);
    let rows = browser_list(es, windows);
    let at = Seq::new(o.len(), |x: int| at0[o[x]]);
    assert(at.len() == rows.len());
    assert forall|x: int| 0 <= x < at.len() implies 0 <= #[trigger] at[x] < es.len()
        && es[at[x]].is_dir is Some && rows[x] == browser_row(es[at[x]], windows) by {
        assert(0 <= o[x] < at0.len());
        assert(f(at0[o[x]]));
        assert(rows[x] == base[o[x]]);
    }
    assert forall|i: int| 0 <= i < es.len() && (#[trigger] es[i]).is_dir is Some implies at.contains(
        i,
    ) by {
        assert(f(i));
        let y = choose|y: int| 0 <= y < at0.len() && at0[y] == i;
        assert(o.contains(y));
        let x = choose|x: int| 0 <= x < o.len() && o[x] == y;
        assert(at[x] == i);
    }
    assert forall|x: int, y: int| 0 <= x < y < at.len() implies #[trigger] at[x]
        != #[trigger] at[y] && (rows[x].is_folder && !rows[y].is_folder || (rows[x].is_folder
        == rows[y].is_folder && !text_lt(
        lowercase(rows[y].disp_name),
        lowercase(rows[x].disp_name),
    ))) by {
        let a = o[x];
        let b = o[y];
        assert(a != b);
        assert(rows[x] == base[a] && rows[y] == base[b]);
        assert(keys[a] == browser_key(base[a]) && keys[b] == browser_key(base[b]));
        if a < b {
            assert(at0[a] < at0[b]);
        } else {
            assert(at0[b] < at0[a]);
        }
    }
}

// ---- headings ----

/// A page of the history says which page it is, counted from 1, and how many there
/// are; an empty list says that it is empty.
pub proof fn history_pages_say_where_they_are(
    title: Seq<char>,
    paging: Seq<char>,
    usage: Seq<char>,
    empty: Seq<char>,
    h: Seq<HistoryRow>,
    at: Seq<int>,
    page: int,
)
    requires
        0 <= page,
    ensures
        ({
            let n = pages(at.len() as int, DISP_PAGE_LEN as int);
            let p = if page < n {
                page
            } else {
                n - 1
            };
            holds_between(
                history_page(title, paging, usage, empty, h, at, page),
                ".  Page "@ + decimal((p + 1) as nat) + "/"@ + decimal(n as nat) + ":\n"@,
            )
        }),
        at.len() == 0 ==> has_line(history_page(title, paging, usage, empty, h, at, page), empty),
{
    let per = DISP_PAGE_LEN as int;
    let total = at.len() as int;
    let start = page_start(total, page, per);
    let n = pages(total, per);
    let p = shown_page(total, page, per);
    let mark = ".  Page "@ + decimal((p + 1) as nat) + "/"@ + decimal(n as nat) + ":\n"@;
    let head = crate::util::page_heading(title, paging, usage, total, page, per);
    let more = if n > 1 {
        "  ("@ + paging + ")"@
    } else {
        Seq::empty()
    };
    let front = "\n"@ + title + more + ".  "@ + usage;
    lemma_heading(front, decimal((p + 1) as nat), decimal(n as nat));
    assert(head == front + mark);
    let rows = Seq::new(
        (page_end(total, page, per) - start) as nat,
        |x: int| numbered(at[start + x], h[at[start + x]].text),
    );
    lemma_front_of_page(head, front, mark, empty, total, rows);
}

/// The same for the lists of the command line.
pub proof fn list_pages_say_where_they_are(
    title: Seq<char>,
    usage: Seq<char>,
    empty: Seq<char>,
    total: int,
    page: int,
    row: spec_fn(int) -> Seq<char>,
)
    requires
        0 <= page,
        0 <= total,
    ensures
        ({
            let n = pages(total, DISP_HIST_LEN as int);
            let p = if page < n {
                page
            } else {
                n - 1
            };
            holds_between(
                list_page(title, usage, empty, total, page, row),
                ".  Page "@ + decimal((p + 1) as nat) + "/"@ + decimal(n as nat) + ":\n"@,
            )
        }),
        total == 0 ==> has_line(list_page(title, usage, empty, total, page, row), empty),
{
    let per = DISP_HIST_LEN as int;
    let start = page_start(total, page, per);
    let n = pages(total, per);
    let p = shown_page(total, page, per);
    let mark = ".  Page "@ + decimal((p + 1) as nat) + "/"@ + decimal(n as nat) + ":\n"@;
    let head = crate::render::list_heading(title, usage, total, page);
    let front = "\n"@ + title + "  (← older page  → newer page).  "@ + usage;
    lemma_heading(front, decimal((p + 1) as nat), decimal(n as nat));
    assert(head == front + mark);
    let rows = Seq::new((page_end(total, page, per) - start) as nat, |x: int| row(start + x));
    lemma_front_of_page(head, front, mark, empty, total, rows);
}

proof fn lemma_heading(front: Seq<char>, p: Seq<char>, n: Seq<char>)
    ensures
        front + ".  Page "@ + p + "/"@ + n + ":\n"@ == front + (".  Page "@ + p + "/"@ + n
            + ":\n"@),
{
    assert(front + ".  Page "@ + p + "/"@ + n + ":\n"@ =~= front + (".  Page "@ + p + "/"@ + n
        + ":\n"@));
}

proof fn lemma_front_of_page(
    head: Seq<char>,
    front: Seq<char>,
    mark: Seq<char>,
    empty: Seq<char>,
    total: int,
    rows: Seq<Seq<char>>,
)
    requires
        head == front + mark,
    ensures
        holds_between(page_text(head, empty, total, rows), mark),
        total == 0 ==> has_line(page_text(head, empty, total, rows), empty),
{
    let nl = "\n"@;
    let line = crate::util::DIVIDER@;
    let a = page_text(head, empty, total, rows);
    assert(a.take(head.len() as int) =~= head);
    assert(a =~= front + mark + a.skip(head.len() as int));
    if total == 0 {
        assert(a =~= (head + line) + nl + empty + nl + (line + "\n\n"@));
    }
}

/// The text holds another one.
pub open spec fn holds_between(text: Seq<char>, part: Seq<char>) -> bool {
    exists|before: Seq<char>, behind: Seq<char>| text == #[trigger] (before + part + behind)
}

// ---- colors of the prompt ----

/// A prompt in color is the prompt with color codes put in: yellow around its two
/// marks, magenta around the branch and green around what is recalled.
pub proof fn prompt_parts_have_their_colors(prompt: Seq<char>)
    ensures
        prompt_parts(prompt) is None ==> colored_prompt(prompt) == prompt,
        prompt_parts(prompt) is Some <==> starts(prompt, "S "@) && occurs(
            prompt.skip(2),
            " $ "@,
        ),
        prompt_parts(prompt) is Some ==> ({
            let p = prompt_parts(prompt)->0;
            let branch = match p.branch {
                Some(b) => " "@ + b,
                None => Seq::empty(),
            };
            let recall = match p.indicator {
                Some(i) => " "@ + i,
                None => Seq::empty(),
            };
            let reset = COLOR_RESET@;
            &&& prompt == "S "@ + p.dir + branch + recall + " $ "@ + p.tail
            &&& p.branch is Some ==> starts(branch, " branch: "@)
            &&& p.indicator is Some ==> starts(recall, " his "@) || starts(recall, " cd "@)
            &&& colored_prompt(prompt) == COLOR_YELLOW@ + "S"@ + reset + " "@ + p.dir + (
            match p.branch {
                Some(b) => " "@ + COLOR_MAGENTA@ + b + reset,
                None => Seq::empty(),
            }) + (match p.indicator {
                Some(i) => " "@ + COLOR_GREEN@ + i + reset,
                None => Seq::empty(),
            }) + " "@ + COLOR_YELLOW@ + "$"@ + reset + " "@ + p.tail
        }),
{
    reveal_strlit("S ");
    reveal_strlit("S");
    reveal_strlit(" ");
    reveal_strlit("$");
    reveal_strlit(" $ ");
    reveal_strlit(" his ");
    reveal_strlit(" cd ");
    reveal_strlit(" branch: ");
    let none = Seq::<char>::empty();
    if starts(prompt, "S "@) {
        let rest = prompt.skip(2);
        lemma_last_at(rest, " $ "@, rest.len() as int);
        match last_at(rest, " $ "@, rest.len() as int) {
            Some(d) => {
                assert(occurs_at(rest, " $ "@, d));
                prompt_keeps_its_text(prompt);
                let p = prompt_parts(prompt)->0;
                let body = rest.take(d);
                let his = last_at(body, " his "@, body.len() as int);
                let cd = last_at(body, " cd "@, body.len() as int);
                lemma_last_at(body, " his "@, body.len() as int);
                lemma_last_at(body, " cd "@, body.len() as int);
                let front = match indicator_at(body) {
                    Some(i) => body.take(i),
                    None => body,
                };
                match indicator_at(body) {
                    Some(i) => {
                        if his == Some(i) {
                            lemma_starts_there(body, " his "@, i);
                        } else {
                            lemma_starts_there(body, " cd "@, i);
                        }
                    },
                    None => {},
                }
                lemma_last_at(front, " branch: "@, front.len() as int);
                match last_at(front, " branch: "@, front.len() as int) {
                    Some(i) => {
                        lemma_starts_there(front, " branch: "@, i);
                    },
                    None => {},
                }
                let branch = match p.branch {
                    Some(b) => " "@ + b,
                    None => none,
                };
                let recall = match p.indicator {
                    Some(i) => " "@ + i,
                    None => none,
                };
                assert(part(p.branch, none, none) =~= branch);
                assert(part(p.indicator, none, none) =~= recall);
                assert(prompt =~= "S "@ + p.dir + branch + recall + " $ "@ + p.tail);
            },
            None => {
                if occurs(rest, " $ "@) {
                    let i = choose|i: int| occurs_at(rest, " $ "@, i);
                    assert(i <= rest.len());
                }
            },
        }
    }
}

proof fn lemma_starts_there(s: Seq<char>, n: Seq<char>, i: int)
    requires
        occurs_at(s, n, i),
        n.len() > 0,
        n[0] == ' ',
    ensures
        starts(" "@ + s.skip(i + 1), n),
        0 <= i < s.len(),
{
    reveal_strlit(" ");
    let t = " "@ + s.skip(i + 1);
    let x = s.subrange(i, i + n.len());
    assert(x[0] == s[i]);
    assert(t =~= s.skip(i));
    assert(t.take(n.len() as int) =~= x);
}

// ---- the branch ----

/// The branch is what git wrote, without white space around it; there is none
/// where git failed, could not be run or wrote nothing.
pub proof fn branch_is_what_git_wrote(run: crate::process::ProcessRun)
    ensures
        crate::git::branch_of(None) is None,
        !run.success ==> crate::git::branch_of(Some(&run)) is None,
        ({
            let text = lossy_text(run.stdout@);
            let b = crate::git::branch_of(Some(&run));
            &&& forall|a: Seq<char>, name: Seq<char>, z: Seq<char>|
                run.success && clean(name) && all_white(a) && all_white(z) && text
                    == #[trigger] (a + name + z) ==> b == Some(name)
            &&& all_white(text) ==> b is None
        }),
{
    let text = lossy_text(run.stdout@);
    assert forall|a: Seq<char>, name: Seq<char>, z: Seq<char>|
        clean(name) && all_white(a) && all_white(z) && text
            == #[trigger] (a + name + z) implies trimmed(text, Class::White) == name by {
        lemma_trimmed_around(a, name, z);
    }
    if all_white(text) {
        let k = Class::White;
        assert forall|i: int| 0 <= i < text.len() implies k.has(#[trigger] text[i]) == true by {}
        lemma_span_is(text, k, true, text.len());
        let none = text.skip(text.len() as int);
        assert(none =~= Seq::<char>::empty());
        lemma_trimmed_clean(none, k);
    }
}

proof fn lemma_trimmed_around(a: Seq<char>, name: Seq<char>, z: Seq<char>)
    requires
        clean(name),
        all_white(a),
        all_white(z),
    ensures
        trimmed(a + name + z, Class::White) == name,
{
    let k = Class::White;
    let x = a + name + z;
    assert forall|i: int| 0 <= i < a.len() implies k.has(#[trigger] x[i]) == true by {
        assert(x[i] == a[i]);
    }
    assert(x[a.len() as int] == name[0]);
    lemma_span_is(x, k, true, a.len());
    let y = x.skip(a.len() as int);
    assert(y =~= name + z);
    assert forall|i: int| y.len() - z.len() <= i < y.len() implies k.has(#[trigger] y[i]) == true by {
        assert(y[i] == z[i - name.len()]);
    }
    assert(y[y.len() - 1 - z.len()] == name.last());
    lemma_rspan_is(y, k, true, z.len());
    assert(y.take(name.len() as int) =~= name);
}

/// The shell's own commands are known to the coloring, so that none of them is
/// shown in red, and a word that counts as one of them is one.
pub proof fn own_commands_are_known(w: Seq<char>)
    ensures
        builtin(w) <==> own_word(w) && w != "python"@ && w != "python3"@ && w != "pip"@ && w
            != "pip3"@,
{
    crate::line_laws::lemma_command_words();
}

/// On POSIX systems any of the three execute bits makes a file one that can be
/// run, and nothing else does.
pub proof fn execute_bits_decide(e: EntryRow, m: u32)
    requires
        e.mode == Some(m),
    ensures
        executable(e, false) <==> m & 0o100 != 0 || m & 0o010 != 0 || m & 0o001 != 0,
{
    assert(m & 0o111 != 0 <==> m & 0o100 != 0 || m & 0o010 != 0 || m & 0o001 != 0) by (bit_vector);
}

} // verus!
