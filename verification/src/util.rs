//! Paged lists, searches over them, and path arguments.

use crate::lists::{last_such, picked, picked_is_exact};
use crate::num::{decimal, parse_usize, parsed_usize, show};
use crate::order::{order, places, sort_order, sorted, Key, SortKey};
use crate::path::{join, joined, path_eq, relative, same_path};
use crate::state::{BrowserFile, BrowserRow, HistoryItem, HistoryRow, RecentDir, RecentRow};
use crate::text::{
    ascii_lower, chars_of, contains, from, last_index_of, lower_ascii, lowercase, occurs,
    replace_class, replaced, rfind, spells, strip_prefix, text_of, to_lower, without_prefix, Class,
};
use vstd::prelude::*;

verus! {

/// The rule above and below a paged list.
pub const DIVIDER: &'static str = "----------";

/// How many entries a page of a list shows.
pub const DISP_PAGE_LEN: usize = 20;

// ---- pages ----

/// How many pages `total` entries take. No entries take one page, so that there
/// is a frame to show.
pub open spec fn pages(total: int, per_page: int) -> int {
    if total == 0 {
        1
    } else if total % per_page == 0 {
        total / per_page
    } else {
        total / per_page + 1
    }
}

/// The page that is shown: the one asked for, or else the last.
pub open spec fn shown_page(total: int, page: int, per_page: int) -> int {
    if page < pages(total, per_page) {
        page
    } else {
        pages(total, per_page) - 1
    }
}

/// Behind the last entry of a page. Page 0 holds the last entries.
pub open spec fn page_end(total: int, page: int, per_page: int) -> int {
    total - shown_page(total, page, per_page) * per_page
}

/// The first entry of a page.
pub open spec fn page_start(total: int, page: int, per_page: int) -> int {
    let end = page_end(total, page, per_page);
    if end < per_page {
        0
    } else {
        end - per_page
    }
}

/// The texts, each with a line break.
pub open spec fn stacked(rows: Seq<Seq<char>>) -> Seq<char>
    decreases rows.len(),
{
    if rows.len() == 0 {
        Seq::empty()
    } else {
        stacked(rows.drop_last()) + rows.last() + "\n"@
    }
}

/// A page of a list: a heading, the rows between two rules.
pub open spec fn page_text(
    heading: Seq<char>,
    empty_msg: Seq<char>,
    total: int,
    rows: Seq<Seq<char>>,
) -> Seq<char> {
    heading + DIVIDER@ + "\n"@ + (if total == 0 {
        empty_msg + "\n"@
    } else {
        stacked(rows)
    }) + DIVIDER@ + "\n\n"@
}

/// The heading of a list. How to reach the other pages is left out where there
/// is only one.
pub open spec fn page_heading(
    title: Seq<char>,
    paging_hint: Seq<char>,
    usage_hint: Seq<char>,
    total: int,
    page: int,
    per_page: int,
) -> Seq<char> {
    let all = pages(total, per_page);
    let paging = if all > 1 {
        "  ("@ + paging_hint + ")"@
    } else {
        Seq::empty()
    };
    "\n"@ + title + paging + ".  "@ + usage_hint + ".  Page "@ + decimal(
        (shown_page(total, page, per_page) + 1) as nat,
    ) + "/"@ + decimal(all as nat) + ":\n"@
}

pub proof fn lemma_pages(total: int, page: int, per_page: int)
    requires
        0 <= total,
        0 <= page,
        per_page > 0,
    ensures
        1 <= pages(total, per_page) <= total + 1,
        pages(total, per_page) <= total || total == 0,
        0 <= shown_page(total, page, per_page) < pages(total, per_page),
        shown_page(total, page, per_page) * per_page <= total,
        total > 0 ==> shown_page(total, page, per_page) * per_page < total,
        0 <= page_start(total, page, per_page) <= page_end(total, page, per_page) <= total,
        page_end(total, page, per_page) - page_start(total, page, per_page) <= per_page,
{
    let q = total / per_page;
    let r = total % per_page;
    let s = shown_page(total, page, per_page);
    assert(total == q * per_page + r && 0 <= r < per_page) by (nonlinear_arith)
        requires
            q == total / per_page,
            r == total % per_page,
            per_page > 0,
    ;
    assert(q >= 0) by (nonlinear_arith)
        requires
            total == q * per_page + r,
            0 <= r < per_page,
            per_page > 0,
            total >= 0,
    ;
    assert(q <= total) by (nonlinear_arith)
        requires
            total == q * per_page + r,
            0 <= r,
            per_page > 0,
            q >= 0,
    ;
    if total > 0 {
        if r == 0 {
            assert(q >= 1) by (nonlinear_arith)
                requires
                    total == q * per_page,
                    total > 0,
                    per_page > 0,
                    q >= 0,
            ;
        } else {
            assert(q < total) by (nonlinear_arith)
                requires
                    total == q * per_page + r,
                    0 < r,
                    per_page > 0,
                    q >= 0,
            ;
        }
    } else {
        assert(q == 0);
    }
    assert(s * per_page <= (if r == 0 && total > 0 {
        q - 1
    } else {
        q
    }) * per_page) by (nonlinear_arith)
        requires
            0 <= s,
            s <= (if r == 0 && total > 0 {
                q - 1
            } else {
                q
            }),
            per_page > 0,
    ;
    assert((q - 1) * per_page == q * per_page - per_page) by (nonlinear_arith);
    assert(s * per_page >= 0) by (nonlinear_arith)
        requires
            0 <= s,
            per_page > 0,
    ;
}

/// See [`pages`].
pub fn page_count(total: usize, per_page: usize) -> (r: usize)
    requires
        total > 0 ==> per_page > 0,
    ensures
        r == pages(total as int, per_page as int),
{
    if total == 0 {
        1
    } else {
        proof {
            lemma_pages(total as int, 0, per_page as int);
        }
        if total % per_page == 0 {
            total / per_page
        } else {
            total / per_page + 1
        }
    }
}

/// The page that the same key shows next: the next older one, and after the
/// oldest the first again.
pub fn next_page(page: usize, total: usize, per_page: usize) -> (r: usize)
    requires
        total > 0 ==> per_page > 0,
    ensures
        r == (if page + 1 < pages(total as int, per_page as int) {
            page + 1
        } else {
            0
        }),
{
    let all = page_count(total, per_page);
    proof {
        if total > 0 {
            lemma_pages(total as int, page as int, per_page as int);
        }
    }
    if page < all - 1 {
        page + 1
    } else {
        0
    }
}

pub(crate) fn clamp_page(total: usize, page: usize, per_page: usize) -> (r: (
    usize,
    usize,
    usize,
    usize,
))
    requires
        total > 0 ==> per_page > 0,
    ensures
        r.0 == pages(total as int, per_page as int),
        r.1 == shown_page(total as int, page as int, per_page as int),
        r.1 < r.0,
        r.2 == page_start(total as int, page as int, per_page as int),
        r.3 == page_end(total as int, page as int, per_page as int),
        r.2 <= r.3 <= total,
{
    if total == 0 {
        assert(0 * per_page == 0);
        return (1, 0, 0, 0);
    }
    let all = page_count(total, per_page);
    proof {
        lemma_pages(total as int, page as int, per_page as int);
    }
    let shown = if page < all {
        page
    } else {
        all - 1
    };
    let end = total - shown * per_page;
    let start = if end < per_page {
        0
    } else {
        end - per_page
    };
    (all, shown, start, end)
}

pub open spec fn texts(rows: Seq<String>) -> Seq<Seq<char>> {
    rows.map_values(|s: String| s@)
}

/// The rows of a page, each with a line break.
fn render_rows<T, F>(items: &[T], start: usize, end: usize, format_row: &F) -> (r: String) where
    F: Fn(usize, &T) -> String,

    requires
        start <= end <= items@.len(),
        forall|i: int|
            0 <= i < items@.len() ==> call_requires(
                *format_row,
                (i as usize, &#[trigger] items@[i]),
            ),
    ensures
        exists|rows: Seq<String>|
            rows.len() == end - start && r@ == stacked(#[trigger] texts(rows)) && forall|
                k: int,
            |
                0 <= k < rows.len() ==> call_ensures(
                    *format_row,
                    ((start + k) as usize, &items@[start + k]),
                    #[trigger] rows[k],
                ),
{
    let mut msg = String::new();
    let mut i: usize = start;
    let ghost mut rows: Seq<String> = Seq::empty();
    assert(texts(rows) =~= Seq::empty());
    while i < end
        invariant
            start <= i <= end <= items@.len(),
            rows.len() == i - start,
            msg@ == stacked(texts(rows)),
            forall|k: int|
                0 <= k < rows.len() ==> call_ensures(
                    *format_row,
                    ((start + k) as usize, &items@[start + k]),
                    #[trigger] rows[k],
                ),
            forall|j: int|
                0 <= j < items@.len() ==> call_requires(
                    *format_row,
                    (j as usize, &#[trigger] items@[j]),
                ),
        decreases end - i,
    {
        let row = format_row(i, &items[i]);
        msg = msg.concat(&row).concat("\n");
        proof {
            let before = rows;
            rows = rows.push(row);
            let v = texts(rows);
            assert(v.drop_last() =~= texts(before));
            assert(v.last() == row@);
        }
        i = i + 1;
    }
    msg
}

/// The frame of a page under a heading.
pub(crate) fn render_framed<T, F>(
    heading: String,
    empty_msg: &str,
    items: &[T],
    page: usize,
    per_page: usize,
    format_row: F,
) -> (r: String) where F: Fn(usize, &T) -> String
    requires
        items@.len() > 0 ==> per_page > 0,
        forall|i: int|
            0 <= i < items@.len() ==> call_requires(
                format_row,
                (i as usize, &#[trigger] items@[i]),
            ),
    ensures
        exists|rows: Seq<String>| #[trigger]
            is_page(items@, page as int, per_page as int, format_row, rows) && r@ == page_text(
                heading@,
                empty_msg@,
                items@.len() as int,
                texts(rows),
            ),
{
    let total = items.len();
    let (_, _, start, end) = clamp_page(total, page, per_page);
    let body = render_rows(items, start, end, &format_row);
    let ghost rows = choose|rows: Seq<String>|
        rows.len() == end - start && body@ == stacked(#[trigger] texts(rows)) && forall|k: int|
            0 <= k < rows.len() ==> call_ensures(
                format_row,
                ((start + k) as usize, &items@[start + k]),
                #[trigger] rows[k],
            );
    assert(is_page(items@, page as int, per_page as int, format_row, rows));
    let inner = if total == 0 {
        empty_msg.to_owned().concat("\n")
    } else {
        body
    };
    let ghost head = heading@;
    let r = heading.concat(DIVIDER).concat("\n").concat(&inner).concat(DIVIDER).concat("\n\n");
    assert(r@ == page_text(head, empty_msg@, total as int, texts(rows)));
    r
}

/// One page of a list, newest entries first, each page with its newest entry at
/// the bottom. `format_row` gets an entry's place in the list, so that the number
/// shown is the one to use in a command.
pub fn render_page<T, F>(
    title: &str,
    paging_hint: &str,
    usage_hint: &str,
    empty_msg: &str,
    items: &[T],
    page: usize,
    per_page: usize,
    format_row: F,
) -> (r: String) where F: Fn(usize, &T) -> String
    requires
        items@.len() > 0 ==> per_page > 0,
        forall|i: int|
            0 <= i < items@.len() ==> call_requires(
                format_row,
                (i as usize, &#[trigger] items@[i]),
            ),
    ensures
        exists|rows: Seq<String>| #[trigger]
            is_page(items@, page as int, per_page as int, format_row, rows) && r@ == page_text(
                page_heading(
                    title@,
                    paging_hint@,
                    usage_hint@,
                    items@.len() as int,
                    page as int,
                    per_page as int,
                ),
                empty_msg@,
                items@.len() as int,
                texts(rows),
            ),
{
    let (all, shown, _, _) = clamp_page(items.len(), page, per_page);
    let paging = if all > 1 {
        "  (".to_owned().concat(paging_hint).concat(")")
    } else {
        String::new()
    };
    let heading = "\n".to_owned().concat(title).concat(&paging).concat(".  ").concat(
        usage_hint,
    ).concat(".  Page ").concat(&show((shown + 1) as u64)).concat("/").concat(
        &show(all as u64),
    ).concat(":\n");
    render_framed(heading, empty_msg, items, page, per_page, format_row)
}

/// `rows` are what `f` gives for the entries of a page.
pub open spec fn is_page<T, F: Fn(usize, &T) -> String>(
    items: Seq<T>,
    page: int,
    per_page: int,
    f: F,
    rows: Seq<String>,
) -> bool {
    let start = page_start(items.len() as int, page, per_page);
    let end = page_end(items.len() as int, page, per_page);
    &&& rows.len() == end - start
    &&& forall|k: int|
        0 <= k < rows.len() ==> call_ensures(
            f,
            ((start + k) as usize, &items[start + k]),
            #[trigger] rows[k],
        )
}

// ---- history ----

/// No later entry has the text of entry `i`.
pub open spec fn newest_of_its_text(h: Seq<HistoryRow>, i: int) -> bool {
    forall|j: int| i < j < h.len() ==> (#[trigger] h[j]).text != h[i].text
}

/// The places of the newest entry of each command text, oldest first.
pub open spec fn latest_places(h: Seq<HistoryRow>) -> Seq<int> {
    picked(h.len(), |i: int| newest_of_its_text(h, i))
}

/// The places of the entries that were run in `dir`, oldest first.
pub open spec fn places_in_dir(h: Seq<HistoryRow>, dir: Seq<char>, windows: bool) -> Seq<int> {
    picked(h.len(), |i: int| path_eq(h[i].dir, dir, windows))
}

fn is_latest(history: &[HistoryItem], i: usize) -> (r: bool)
    requires
        i < history@.len(),
    ensures
        r == newest_of_its_text(history.deep_view(), i as int),
{
    let ghost h = history.deep_view();
    assert(i < history.len());
    let mut j: usize = i + 1;
    while j < history.len()
        invariant
            i < history@.len(),
            i < j <= history@.len(),
            h == history.deep_view(),
            forall|x: int| i < x < j ==> (#[trigger] h[x]).text != h[i as int].text,
        decreases history@.len() - j,
    {
        if history[j].text == history[i].text {
            assert(h[j as int].text == h[i as int].text);
            return false;
        }
        j = j + 1;
    }
    true
}

/// The places of the newest entry of each command text, oldest first. A command
/// that was run in several directories is there once.
pub fn history_latest_indices(history: &[HistoryItem]) -> (r: Vec<usize>)
    ensures
        places(r@) == latest_places(history.deep_view()),
        forall|k: int| 0 <= k < r@.len() ==> #[trigger] r@[k] < history@.len(),
{
    let ghost h = history.deep_view();
    let ghost f = |i: int| newest_of_its_text(h, i);
    let mut out: Vec<usize> = Vec::new();
    let mut i: usize = 0;
    assert(places(out@) =~= picked(0, f));
    while i < history.len()
        invariant
            i <= history@.len(),
            h == history.deep_view(),
            f == (|i: int| newest_of_its_text(h, i)),
            places(out@) == picked(i as nat, f),
            forall|k: int| 0 <= k < out@.len() ==> #[trigger] out@[k] < history@.len(),
        decreases history@.len() - i,
    {
        let ghost before = places(out@);
        if is_latest(history, i) {
            out.push(i);
            assert(places(out@) =~= before.push(i as int));
        }
        i = i + 1;
    }
    out
}

/// The places of the entries that were run in `cwd`, oldest first.
pub fn history_indices_in_dir(history: &[HistoryItem], cwd: &str, windows: bool) -> (r: Vec<usize>)
    ensures
        places(r@) == places_in_dir(history.deep_view(), cwd@, windows),
        forall|k: int| 0 <= k < r@.len() ==> #[trigger] r@[k] < history@.len(),
{
    let ghost h = history.deep_view();
    let ghost f = |i: int| path_eq(h[i].dir, cwd@, windows);
    let mut out: Vec<usize> = Vec::new();
    let mut i: usize = 0;
    assert(places(out@) =~= picked(0, f));
    while i < history.len()
        invariant
            i <= history@.len(),
            h == history.deep_view(),
            f == (|i: int| path_eq(h[i].dir, cwd@, windows)),
            places(out@) == picked(i as nat, f),
            forall|k: int| 0 <= k < out@.len() ==> #[trigger] out@[k] < history@.len(),
        decreases history@.len() - i,
    {
        let ghost before = places(out@);
        if same_path(&history[i].dir, cwd, windows) {
            out.push(i);
            assert(places(out@) =~= before.push(i as int));
        }
        i = i + 1;
    }
    out
}

/// The row of a numbered list.
pub open spec fn numbered(i: int, text: Seq<char>) -> Seq<char> {
    decimal(i as nat) + ":  "@ + text
}

/// See [`numbered`].
pub fn numbered_row(i: usize, text: &str) -> (r: String)
    ensures
        r@ == numbered(i as int, text@),
{
    show(i as u64).concat(":  ").concat(text)
}

/// A page of the history entries at the given places.
pub open spec fn history_page(
    title: Seq<char>,
    paging_hint: Seq<char>,
    usage_hint: Seq<char>,
    empty_msg: Seq<char>,
    h: Seq<HistoryRow>,
    at: Seq<int>,
    page: int,
) -> Seq<char> {
    let per_page = DISP_PAGE_LEN as int;
    let total = at.len() as int;
    let start = page_start(total, page, per_page);
    page_text(
        page_heading(title, paging_hint, usage_hint, total, page, per_page),
        empty_msg,
        total,
        Seq::new(
            (page_end(total, page, per_page) - start) as nat,
            |k: int| numbered(at[start + k], h[at[start + k]].text),
        ),
    )
}

fn render_entries(
    title: &str,
    paging_hint: &str,
    usage_hint: &str,
    empty_msg: &str,
    history: &[HistoryItem],
    indices: &Vec<usize>,
    page: usize,
) -> (r: String)
    requires
        forall|k: int| 0 <= k < indices@.len() ==> #[trigger] indices@[k] < history@.len(),
    ensures
        r@ == history_page(
            title@,
            paging_hint@,
            usage_hint@,
            empty_msg@,
            history.deep_view(),
            places(indices@),
            page as int,
        ),
{
    let ghost h = history.deep_view();
    let row = |_n: usize, i: &usize| -> (s: String)
        requires
            *i < history@.len(),
        ensures
            s@ == numbered(*i as int, history@[*i as int].text@),
        { numbered_row(*i, &history[*i].text) };
    let r = render_page(
        title,
        paging_hint,
        usage_hint,
        empty_msg,
        indices,
        page,
        DISP_PAGE_LEN,
        row,
    );
    proof {
        let at = places(indices@);
        let total = at.len() as int;
        let per_page = DISP_PAGE_LEN as int;
        lemma_pages(total, page as int, per_page);
        let start = page_start(total, page as int, per_page);
        let rows = choose|rows: Seq<String>|
            #[trigger] is_page(indices@, page as int, per_page, row, rows) && r@ == page_text(
                page_heading(title@, paging_hint@, usage_hint@, total, page as int, per_page),
                empty_msg@,
                total,
                texts(rows),
            );
        assert(texts(rows) =~= Seq::new(
            (page_end(total, page as int, per_page) - start) as nat,
            |k: int| numbered(at[start + k], h[at[start + k]].text),
        ));
    }
    r
}

/// One page of the history, with each command text once.
pub fn render_history(history: &[HistoryItem], page: usize) -> (r: String)
    ensures
        r@ == all_history_page(history.deep_view(), page as int),
{
    let indices = history_latest_indices(history);
    render_entries(
        "Command History",
        "Ctrl+3 again: older page",
        "Use `his <number>` to run, `his p<N>` to jump to a page; e.g. `his 4`",
        "(no history)",
        history,
        &indices,
        page,
    )
}

pub open spec fn all_history_page(h: Seq<HistoryRow>, page: int) -> Seq<char> {
    history_page(
        "Command History"@,
        "Ctrl+3 again: older page"@,
        "Use `his <number>` to run, `his p<N>` to jump to a page; e.g. `his 4`"@,
        "(no history)"@,
        h,
        latest_places(h),
        page,
    )
}

/// One page of what was run in `cwd`. The numbers are places in the whole
/// history.
pub fn render_history_in_dir(
    history: &[HistoryItem],
    cwd: &str,
    page: usize,
    windows: bool,
) -> (r: String)
    ensures
        r@ == dir_history_page(history.deep_view(), cwd@, page as int, windows),
{
    let indices = history_indices_in_dir(history, cwd, windows);
    render_entries(
        "Command History in this directory",
        "Ctrl+4 again: older page",
        "Use `this <number>` to run, `this p<N>` to jump to a page; e.g. `this 4`",
        "(no history in this directory)",
        history,
        &indices,
        page,
    )
}

pub open spec fn dir_history_page(
    h: Seq<HistoryRow>,
    cwd: Seq<char>,
    page: int,
    windows: bool,
) -> Seq<char> {
    history_page(
        "Command History in this directory"@,
        "Ctrl+4 again: older page"@,
        "Use `this <number>` to run, `this p<N>` to jump to a page; e.g. `this 4`"@,
        "(no history in this directory)"@,
        h,
        places_in_dir(h, cwd, windows),
        page,
    )
}

// ---- searches ----

/// `text` holds `query`, letter case aside.
pub open spec fn holds_letters(text: Seq<char>, query: Seq<char>) -> bool {
    occurs(lowercase(text), lowercase(query))
}

/// The row was run in `cwd`, where one is given.
pub open spec fn run_in(r: HistoryRow, cwd: Option<Seq<char>>, windows: bool) -> bool {
    match cwd {
        Some(dir) => path_eq(r.dir, dir, windows),
        None => true,
    }
}

/// The history entry that `query` names: by number, or else the newest one that
/// holds its letters.
pub open spec fn found_history(
    h: Seq<HistoryRow>,
    cwd: Option<Seq<char>>,
    query: Seq<char>,
    windows: bool,
) -> Option<int> {
    match parsed_usize(query) {
        Some(i) => if i < h.len() && run_in(h[i], cwd, windows) {
            Some(i)
        } else {
            None
        },
        None => last_such(
            h.len() as int,
            |i: int| run_in(h[i], cwd, windows) && holds_letters(h[i].text, query),
        ),
    }
}

fn text_holds(text: &str, needle: &[char]) -> (r: bool)
    ensures
        r == occurs(lowercase(text@), needle@),
{
    let t = to_lower(text);
    contains(&chars_of(&t), needle)
}

fn ran_in(item: &HistoryItem, cwd: Option<&str>, windows: bool) -> (r: bool)
    ensures
        r == run_in(item.deep_view(), cwd.deep_view(), windows),
{
    match cwd {
        Some(dir) => same_path(&item.dir, dir, windows),
        None => true,
    }
}

/// The history entry that `query` names: its number, or letters of it in any
/// case, of which the newest match counts. `cwd` limits both to what was run in
/// that directory.
pub fn find_history_index(
    history: &[HistoryItem],
    cwd: Option<&str>,
    query: &str,
    windows: bool,
) -> (r: Option<
    usize,
>)
    ensures
        match r {
            Some(i) => found_history(
                history.deep_view(),
                cwd.deep_view(),
                query@,
                windows,
            ) == Some(i as int)
                && i < history@.len(),
            None => found_history(history.deep_view(), cwd.deep_view(), query@, windows) is None,
        },
{
    let ghost h = history.deep_view();
    let q = chars_of(query);
    if let Some(i) = parse_usize(&q) {
        if i < history.len() && ran_in(&history[i], cwd, windows) {
            return Some(i);
        }
        return None;
    }
    let lower = to_lower(query);
    let needle = chars_of(&lower);
    let ghost f = |i: int| run_in(
        h[i],
        cwd.deep_view(),
        windows,
    ) && holds_letters(h[i].text, query@);
    let mut i: usize = history.len();
    while i > 0
        invariant
            i <= history@.len(),
            h == history.deep_view(),
            needle@ == lowercase(query@),
            parsed_usize(query@) is None,
            f == (|i: int| run_in(
                h[i],
                cwd.deep_view(),
                windows,
            ) && holds_letters(h[i].text, query@)),
            last_such(h.len() as int, f) == last_such(i as int, f),
        decreases i,
    {
        let hit = ran_in(
            &history[i - 1],
            cwd,
            windows,
        ) && text_holds(&history[i - 1].text, &needle);
        assert(hit == f(i - 1));
        if hit {
            return Some(i - 1);
        }
        i = i - 1;
    }
    None
}

/// The last of some paths that holds the letters of `query`.
pub open spec fn found_path(paths: Seq<Seq<char>>, query: Seq<char>) -> Option<Seq<char>> {
    match last_such(paths.len() as int, |i: int| holds_letters(paths[i], query)) {
        Some(i) => Some(paths[i]),
        None => None,
    }
}

/// The newest bookmark whose path holds `query`, in any letter case.
pub fn find_bookmark(bookmarks: &[String], query: &str) -> (r: Option<String>)
    ensures
        r.deep_view() == found_path(bookmarks.deep_view(), query@),
{
    let ghost ps = bookmarks.deep_view();
    let ghost f = |i: int| holds_letters(ps[i], query@);
    let lower = to_lower(query);
    let needle = chars_of(&lower);
    let mut i: usize = bookmarks.len();
    while i > 0
        invariant
            i <= bookmarks@.len(),
            ps == bookmarks.deep_view(),
            needle@ == lowercase(query@),
            f == (|i: int| holds_letters(ps[i], query@)),
            last_such(ps.len() as int, f) == last_such(i as int, f),
        decreases i,
    {
        let hit = text_holds(&bookmarks[i - 1], &needle);
        assert(hit == f(i - 1));
        if hit {
            return Some(bookmarks[i - 1].clone());
        }
        i = i - 1;
    }
    None
}

pub open spec fn recent_paths(list: Seq<RecentRow>) -> Seq<Seq<char>> {
    list.map_values(|r: RecentRow| r.path)
}

/// The newest recent directory whose path holds `query`, in any letter case.
pub fn find_recent_dir(recent: &[RecentDir], query: &str) -> (r: Option<String>)
    ensures
        r.deep_view() == found_path(recent_paths(recent.deep_view()), query@),
{
    let ghost ps = recent_paths(recent.deep_view());
    let ghost f = |i: int| holds_letters(ps[i], query@);
    let lower = to_lower(query);
    let needle = chars_of(&lower);
    let mut i: usize = recent.len();
    while i > 0
        invariant
            i <= recent@.len(),
            ps == recent_paths(recent.deep_view()),
            needle@ == lowercase(query@),
            f == (|i: int| holds_letters(ps[i], query@)),
            last_such(ps.len() as int, f) == last_such(i as int, f),
        decreases i,
    {
        assert(ps[i - 1] == recent@[i - 1].path@);
        let hit = text_holds(&recent[i - 1].path, &needle);
        assert(hit == f(i - 1));
        if hit {
            return Some(recent[i - 1].path.clone());
        }
        i = i - 1;
    }
    None
}

// ---- paths ----

/// The path that an argument of `cd` or `cat` names. `present` tells whether there
/// is something at the argument, taken relative to `cwd`.
pub open spec fn resolved(
    home: Option<Seq<char>>,
    cwd: Seq<char>,
    bookmarks: Seq<Seq<char>>,
    args: Seq<char>,
    present: bool,
    windows: bool,
) -> Seq<char> {
    if args.len() == 0 || args == "~"@ {
        match home {
            Some(h) => h,
            None => cwd,
        }
    } else if let Some(rest) = under_home(args) {
        match home {
            Some(h) => joined(h, rest, windows),
            None => joined(cwd, args, windows),
        }
    } else if present {
        joined(cwd, args, windows)
    } else {
        match found_path(bookmarks, args) {
            Some(p) => p,
            None => joined(cwd, args, windows),
        }
    }
}

/// What follows a leading `~/` or `~\`.
pub open spec fn under_home(args: Seq<char>) -> Option<Seq<char>> {
    match without_prefix(args, "~/"@) {
        Some(rest) => Some(rest),
        None => without_prefix(args, "~\\"@),
    }
}

/// See [`under_home`].
pub fn strip_home(args: &[char]) -> (r: Option<&[char]>)
    ensures
        match r {
            Some(t) => under_home(args@) == Some(t@),
            None => under_home(args@) is None,
        },
{
    match strip_prefix(args, "~/") {
        Some(rest) => Some(rest),
        None => strip_prefix(args, "~\\"),
    }
}

/// The path that an argument of `cd` or `cat` names: the home directory for
/// nothing or `~`, a path under it for `~/`, and else the argument relative to
/// `cwd`, if there is something (`present`). If there is not, the newest bookmark
/// that holds its letters counts.
pub fn path_from_args(
    home: Option<&str>,
    cwd: &str,
    bookmarks: &[String],
    args: &str,
    present: bool,
    windows: bool,
) -> (r: String)
    ensures
        r@ == resolved(home.deep_view(), cwd@, bookmarks.deep_view(), args@, present, windows),
{
    let v = chars_of(args);
    if v.len() == 0 || spells(&v, "~") {
        match home {
            Some(h) => h.to_owned(),
            None => cwd.to_owned(),
        }
    } else if let Some(rest) = strip_home(&v) {
        match home {
            Some(h) => join(h, &text_of(rest), windows),
            None => join(cwd, args, windows),
        }
    } else if present {
        join(cwd, args, windows)
    } else {
        match find_bookmark(bookmarks, args) {
            Some(p) => p,
            None => join(cwd, args, windows),
        }
    }
}

/// A path as it is shown: from `~` on where it lies under the home directory.
pub open spec fn tilded(p: Seq<char>, home: Option<Seq<char>>, windows: bool) -> Seq<char> {
    match home {
        Some(h) => match relative(p, h, windows) {
            Some(rest) => if rest.len() == 0 {
                "~"@
            } else {
                "~/"@ + replaced(rest, Class::One('\\'), '/')
            },
            None => p,
        },
        None => p,
    }
}

/// A path as `~/relative` where it lies under the home directory, with forward
/// slashes, and as it is elsewhere.
pub fn render_with_tilde(p: &str, home: Option<&str>, windows: bool) -> (r: String)
    ensures
        r@ == tilded(p@, home.deep_view(), windows),
{
    match home {
        Some(h) => match crate::path::strip_prefix(p, h, windows) {
            Some(rest) => {
                let v = chars_of(&rest);
                if v.len() == 0 {
                    "~".to_owned()
                } else {
                    "~/".to_owned().concat(&text_of(&replace_class(&v, Class::One('\\'), '/')))
                }
            },
            None => p.to_owned(),
        },
        None => p.to_owned(),
    }
}

/// The first of the two that is set.
pub open spec fn first_set(a: Option<Seq<char>>, b: Option<Seq<char>>) -> Option<Seq<char>> {
    if a is Some {
        a
    } else {
        b
    }
}

/// The home directory: the first of the two that is set.
pub fn get_home(user_profile: Option<String>, home: Option<String>) -> (r: Option<String>)
    ensures
        r.deep_view() == if user_profile is Some {
            user_profile.deep_view()
        } else {
            home.deep_view()
        },
        r.deep_view() == first_set(user_profile.deep_view(), home.deep_view()),
{
    match user_profile {
        Some(p) => Some(p),
        None => home,
    }
}

// ---- directory listings ----

/// What reading a directory tells of one entry.
#[derive(Debug)]
pub struct DirEntry {
    pub path: String,
    pub name: String,
    /// Whether it is a directory; `None` where its type could not be read.
    pub is_dir: Option<bool>,
    /// Its permission bits; `None` where they could not be read.
    pub mode: Option<u32>,
    /// Whether the system marks it as hidden.
    pub hidden: bool,
}

pub ghost struct EntryRow {
    pub path: Seq<char>,
    pub name: Seq<char>,
    pub is_dir: Option<bool>,
    pub mode: Option<u32>,
    pub hidden: bool,
}

impl DeepView for DirEntry {
    type V = EntryRow;

    open spec fn deep_view(&self) -> EntryRow {
        EntryRow {
            path: self.path@,
            name: self.name@,
            is_dir: self.is_dir,
            mode: self.mode,
            hidden: self.hidden,
        }
    }
}

/// What follows the last dot of a file name that does not start with it.
pub open spec fn extension(name: Seq<char>) -> Option<Seq<char>> {
    match last_index_of(name, Class::One('.')) {
        Some(i) => if i > 0 {
            Some(name.skip(i + 1))
        } else {
            None
        },
        None => None,
    }
}

/// Whether the shell can run a file. By its permission bits, or on Windows by
/// its extension.
pub open spec fn executable(e: EntryRow, windows: bool) -> bool {
    match e.mode {
        None => false,
        Some(m) => if windows {
            match extension(e.name) {
                Some(x) => ascii_lower(x) == "exe"@ || ascii_lower(x) == "msi"@,
                None => false,
            }
        } else {
            m & 0o111 != 0
        },
    }
}

fn is_executable_file(e: &DirEntry, windows: bool) -> (r: bool)
    ensures
        r == executable(e.deep_view(), windows),
{
    match e.mode {
        None => false,
        Some(m) => if windows {
            let name = chars_of(&e.name);
            match rfind(&name, Class::One('.')) {
                Some(i) => if i > 0 {
                    assert(i < name.len());
                    let x = lower_ascii(from(&name, i + 1));
                    spells(&x, "exe") || spells(&x, "msi")
                } else {
                    false
                },
                None => false,
            }
        } else {
            m & 0o111 != 0
        },
    }
}

pub open spec fn browser_row(e: EntryRow, windows: bool) -> BrowserRow {
    let folder = e.is_dir == Some(true);
    BrowserRow {
        path: e.path,
        disp_name: e.name,
        is_folder: folder,
        is_executable: !folder && executable(e, windows),
    }
}

/// The entries whose type could be read, in the order they were read.
pub open spec fn readable(es: Seq<EntryRow>, windows: bool) -> Seq<BrowserRow>
    decreases es.len(),
{
    if es.len() == 0 {
        Seq::empty()
    } else if es.last().is_dir is None {
        readable(es.drop_last(), windows)
    } else {
        readable(es.drop_last(), windows).push(browser_row(es.last(), windows))
    }
}

/// Folders come first; both are in alphabetical order, letter case aside.
pub open spec fn browser_key(b: BrowserRow) -> Key {
    Key {
        rank: if b.is_folder {
            0
        } else {
            1
        },
        name: lowercase(b.disp_name),
    }
}

pub open spec fn browser_list(es: Seq<EntryRow>, windows: bool) -> Seq<BrowserRow> {
    let rows = readable(es, windows);
    sorted(rows, rows.map_values(|b: BrowserRow| browser_key(b)))
}

fn browser_keys(files: &Vec<BrowserFile>) -> (r: Vec<SortKey>)
    ensures
        r.deep_view() == files.deep_view().map_values(|b: BrowserRow| browser_key(b)),
{
    let ghost all = files.deep_view().map_values(|b: BrowserRow| browser_key(b));
    let mut keys: Vec<SortKey> = Vec::new();
    let mut i: usize = 0;
    assert(keys.deep_view() =~= all.take(0));
    while i < files.len()
        invariant
            i <= files@.len(),
            all == files.deep_view().map_values(|b: BrowserRow| browser_key(b)),
            keys.deep_view() == all.take(i as int),
        decreases files@.len() - i,
    {
        let ghost before = keys.deep_view();
        let lower = to_lower(&files[i].disp_name);
        let rank: u32 = if files[i].is_folder {
            0
        } else {
            1
        };
        keys.push(SortKey { rank, name: chars_of(&lower) });
        assert(keys.deep_view() =~= before.push(all[i as int]));
        assert(all.take(i + 1) =~= all.take(i as int).push(all[i as int]));
        i = i + 1;
    }
    assert(all.take(i as int) =~= all);
    keys
}

/// The listing of a directory from what reading it told: folders first, then
/// files, both in alphabetical order, letter case aside. Entries that could not
/// be read are left out.
pub fn read_browser_files(entries: &[DirEntry], windows: bool) -> (r: Vec<BrowserFile>)
    ensures
        r.deep_view() == browser_list(entries.deep_view(), windows),
{
    let ghost es = entries.deep_view();
    let mut files: Vec<BrowserFile> = Vec::new();
    let mut i: usize = 0;
    assert(files.deep_view() =~= readable(es.take(0), windows));
    while i < entries.len()
        invariant
            i <= entries@.len(),
            es == entries.deep_view(),
            files.deep_view() == readable(es.take(i as int), windows),
        decreases entries@.len() - i,
    {
        let ghost before = files.deep_view();
        proof {
            assert(es.take(i + 1).drop_last() =~= es.take(i as int));
            assert(es.take(i + 1).last() == entries@[i as int].deep_view());
        }
        let e = &entries[i];
        match e.is_dir {
            Some(is_folder) => {
                let is_executable = !is_folder && is_executable_file(e, windows);
                files.push(
                    BrowserFile {
                        path: e.path.clone(),
                        disp_name: e.name.clone(),
                        is_folder,
                        is_executable,
                    },
                );
                assert(files.deep_view() =~= before.push(browser_row(es[i as int], windows)));
            },
            None => {},
        }
        i = i + 1;
    }
    assert(es.take(i as int) =~= es);
    let ghost rows = files.deep_view();
    let keys = browser_keys(&files);
    let at = sort_order(&keys);
    let mut out: Vec<BrowserFile> = Vec::new();
    let ghost all = sorted(rows, keys.deep_view());
    let mut k: usize = 0;
    assert(keys.deep_view().len() == rows.len());
    assert(out.deep_view() =~= all.take(0));
    while k < at.len()
        invariant
            k <= at@.len(),
            rows == files.deep_view(),
            places(at@) == order(keys.deep_view()),
            all == sorted(rows, keys.deep_view()),
            keys@.len() == files@.len(),
            forall|j: int| 0 <= j < at@.len() ==> #[trigger] at@[j] < keys@.len(),
            out.deep_view() == all.take(k as int),
        decreases at@.len() - k,
    {
        let ghost before = out.deep_view();
        let f = &files[at[k]];
        out.push(
            BrowserFile {
                path: f.path.clone(),
                disp_name: f.disp_name.clone(),
                is_folder: f.is_folder,
                is_executable: f.is_executable,
            },
        );
        proof {
            assert(places(at@)[k as int] == at@[k as int]);
            assert(out.deep_view() =~= before.push(all[k as int]));
            assert(all.take(k + 1) =~= all.take(k as int).push(all[k as int]));
        }
        k = k + 1;
    }
    assert(places(at@).len() == at@.len());
    assert(all.take(k as int) =~= all);
    out
}

// ---- laws ----

/// The pages of a list lie side by side: the first one ends at the newest entry,
/// each next one ends where the one before it starts, and the last one starts at
/// the oldest entry. So every entry is on one page.
pub proof fn pages_lie_side_by_side(total: int, page: int, per_page: int)
    requires
        0 < total,
        0 < per_page,
        0 <= page < pages(total, per_page),
    ensures
        page_end(total, 0, per_page) == total,
        page + 1 < pages(total, per_page) ==> page_end(total, page + 1, per_page) == page_start(
            total,
            page,
            per_page,
        ),
        page_start(total, pages(total, per_page) - 1, per_page) == 0,
        page_start(total, page, per_page) < page_end(total, page, per_page),
{
    lemma_pages(total, page, per_page);
    lemma_pages(total, page + 1, per_page);
    let all = pages(total, per_page);
    lemma_pages(total, all - 1, per_page);
    let q = total / per_page;
    let r = total % per_page;
    assert(total == q * per_page + r && 0 <= r < per_page) by (nonlinear_arith)
        requires
            q == total / per_page,
            r == total % per_page,
            per_page > 0,
    ;
    assert(0 * per_page == 0);
    assert((page + 1) * per_page == page * per_page + per_page) by (nonlinear_arith);
    if r == 0 {
        assert((all - 1) * per_page == q * per_page - per_page) by (nonlinear_arith)
            requires
                all == q,
        ;
    } else {
        assert((all - 1) * per_page == q * per_page) by (nonlinear_arith)
            requires
                all == q + 1,
        ;
    }
    if page + 1 < all {
        // Behind a page that is not the last, a whole page is left.
        assert((page + 1) * per_page <= (all - 1) * per_page) by (nonlinear_arith)
            requires
                page + 1 <= all - 1,
                per_page > 0,
        ;
        assert((page + 1) * per_page < total);
    }
}

/// In the list of all directories every command text is there once, at its
/// newest place.
pub proof fn each_text_is_listed_once(h: Seq<HistoryRow>, i: int)
    requires
        0 <= i < h.len(),
    ensures
        exists|k: int|
            0 <= k < latest_places(h).len() && i <= #[trigger] latest_places(h)[k] < h.len()
                && h[latest_places(h)[k]].text == h[i].text,
        forall|j: int, k: int|
            0 <= j < k < latest_places(h).len() ==> h[#[trigger] latest_places(h)[j]].text
                != h[#[trigger] latest_places(h)[k]].text,
    decreases h.len() - i,
{
    let f = |x: int| newest_of_its_text(h, x);
    let at = latest_places(h);
    picked_is_exact(h.len(), f);
    assert forall|j: int, k: int| 0 <= j < k < at.len() implies h[#[trigger] at[j]].text
        != h[#[trigger] at[k]].text by {
        assert(f(at[j]));
        assert(at[j] < at[k] < h.len());
        assert(h[at[k]].text != h[at[j]].text);
    }
    if newest_of_its_text(h, i) {
        assert(f(i));
        let k = choose|k: int| 0 <= k < at.len() && at[k] == i;
        assert(h[at[k]].text == h[i].text);
    } else {
        let m = choose|m: int| i < m < h.len() && (#[trigger] h[m]).text == h[i].text;
        each_text_is_listed_once(h, m);
        let k = choose|k: int|
            0 <= k < at.len() && m <= #[trigger] at[k] < h.len() && h[at[k]].text == h[m].text;
        assert(i <= at[k] < h.len() && h[at[k]].text == h[i].text);
    }
}

} // verus!
