//! What the command line shows: lists, colors of the prompt and of the input.

use crate::bytes::{byte_len, byte_len_is_utf8_len, bytes_of, lemma_byte_len_add};
use crate::git::BRANCH_PREFIX;
use crate::lists::last_such;
use crate::num::{decimal, show};
use crate::path::{path_eq, same_path};
use crate::state::{HistoryItem, HistoryRow, RecentDir, RecentRow};
use crate::text::{
    chars_of, from, is_white, last_at, lemma_last_at, occurs_at, rfind_text, spells, starts,
    starts_with, strip_prefix, text_of, upto, white, without_prefix,
};
use crate::util::{
    clamp_page, is_page, lemma_pages, numbered, numbered_row, page_end, page_start, page_text,
    pages, render_framed, shown_page, texts, tilded,
};
pub use crate::util::render_with_tilde;
use vstd::prelude::*;

verus! {

/// How many entries a page of these lists shows.
pub const DISP_HIST_LEN: usize = 20;

pub const COLOR_RESET: &'static str = "\x1b[0m";

pub const COLOR_YELLOW: &'static str = "\x1b[93m";

pub const COLOR_BLUE: &'static str = "\x1b[94m";

pub const COLOR_CYAN: &'static str = "\x1b[96m";

/// The command of an input line.
pub const COLOR_TEAL: &'static str = "\x1b[96m";

/// A command that nothing is known of.
pub const COLOR_RED: &'static str = "\x1b[91m";

/// The subcommand of an input line.
pub const COLOR_MAGENTA: &'static str = "\x1b[95m";

/// Flags of an input line.
pub const COLOR_GREEN: &'static str = "\x1b[92m";

/// Quote characters.
pub const COLOR_ORANGE: &'static str = "\x1b[38;5;208m";

/// What marks the recall of a command in the prompt.
pub const HIS_PREFIX: &'static str = " his ";

/// What marks the recall of a directory in the prompt.
pub const CD_PREFIX: &'static str = " cd ";

// ---- lists ----

/// The heading of a list on the command line.
pub open spec fn list_heading(title: Seq<char>, usage: Seq<char>, total: int, page: int) -> Seq<
    char,
> {
    let per_page = DISP_HIST_LEN as int;
    "\n"@ + title + "  (← older page  → newer page).  "@ + usage + ".  Page "@ + decimal(
        (shown_page(total, page, per_page) + 1) as nat,
    ) + "/"@ + decimal(pages(total, per_page) as nat) + ":\n"@
}

/// A page of a list with the given rows.
pub open spec fn list_page(
    title: Seq<char>,
    usage: Seq<char>,
    empty_msg: Seq<char>,
    total: int,
    page: int,
    row: spec_fn(int) -> Seq<char>,
) -> Seq<char> {
    let per_page = DISP_HIST_LEN as int;
    let start = page_start(total, page, per_page);
    page_text(
        list_heading(title, usage, total, page),
        empty_msg,
        total,
        Seq::new((page_end(total, page, per_page) - start) as nat, |k: int| row(start + k)),
    )
}

fn heading(title: &str, usage: &str, total: usize, page: usize) -> (r: String)
    ensures
        r@ == list_heading(title@, usage@, total as int, page as int),
{
    let (all, shown, _, _) = clamp_page(total, page, DISP_HIST_LEN);
    "\n".to_owned().concat(title).concat("  (← older page  → newer page).  ").concat(usage).concat(
        ".  Page ",
    ).concat(&show((shown + 1) as u64)).concat("/").concat(&show(all as u64)).concat(":\n")
}

pub open spec fn history_row(h: Seq<HistoryRow>) -> spec_fn(int) -> Seq<char> {
    |i: int| numbered(i, h[i].text)
}

/// One page of the history.
pub fn render_history(history: &[HistoryItem], page: usize) -> (r: String)
    ensures
        r@ == list_page(
            "History"@,
            "Use `his <number>` to run; e.g. `his 4`"@,
            "(no history)"@,
            history@.len() as int,
            page as int,
            history_row(history.deep_view()),
        ),
{
    let row = |i: usize, item: &HistoryItem| -> (s: String)
        ensures
            s@ == numbered(i as int, item.text@),
        { numbered_row(i, &item.text) };
    let head = heading("History", "Use `his <number>` to run; e.g. `his 4`", history.len(), page);
    let r = render_framed(head, "(no history)", history, page, DISP_HIST_LEN, row);
    proof {
        let total = history@.len() as int;
        let per_page = DISP_HIST_LEN as int;
        lemma_pages(total, page as int, per_page);
        let start = page_start(total, page as int, per_page);
        let f = history_row(history.deep_view());
        let rows = choose|rows: Seq<String>| #[trigger]
            is_page(history@, page as int, per_page, row, rows) && r@ == page_text(
                head@,
                "(no history)"@,
                total,
                texts(rows),
            );
        assert(texts(rows) =~= Seq::new(
            (page_end(total, page as int, per_page) - start) as nat,
            |k: int| f(start + k),
        ));
    }
    r
}

/// `path` is one of the bookmarks.
pub open spec fn bookmarked(bookmarks: Seq<Seq<char>>, path: Seq<char>, windows: bool) -> bool {
    exists|i: int| 0 <= i < bookmarks.len() && path_eq(#[trigger] bookmarks[i], path, windows)
}

/// See [`bookmarked`].
pub fn is_bookmarked(bookmarks: &[String], path: &str, windows: bool) -> (r: bool)
    ensures
        r == bookmarked(bookmarks.deep_view(), path@, windows),
{
    let ghost bs = bookmarks.deep_view();
    let mut i: usize = 0;
    while i < bookmarks.len()
        invariant
            i <= bookmarks@.len(),
            bs == bookmarks.deep_view(),
            forall|j: int| 0 <= j < i ==> !path_eq(#[trigger] bs[j], path@, windows),
        decreases bookmarks@.len() - i,
    {
        if same_path(&bookmarks[i], path, windows) {
            assert(path_eq(bs[i as int], path@, windows));
            return true;
        }
        i = i + 1;
    }
    false
}

/// A recent directory, with a star if it is a bookmark.
pub open spec fn recent_text(
    bookmarks: Seq<Seq<char>>,
    home: Option<Seq<char>>,
    path: Seq<char>,
    windows: bool,
) -> Seq<char> {
    (if bookmarked(bookmarks, path, windows) {
        "*"@
    } else {
        ""@
    }) + tilded(path, home, windows)
}

pub open spec fn recent_row(
    list: Seq<RecentRow>,
    bookmarks: Seq<Seq<char>>,
    home: Option<Seq<char>>,
    windows: bool,
) -> spec_fn(int) -> Seq<char> {
    |i: int| numbered(i, recent_text(bookmarks, home, list[i].path, windows))
}

/// One page of the recent directories. A star marks the bookmarked ones.
pub fn render_recent_dirs(
    recent: &[RecentDir],
    bookmarks: &[String],
    home: Option<&str>,
    page: usize,
    windows: bool,
) -> (r: String)
    ensures
        r@ == list_page(
            "Recent directories"@,
            "Use `cd <number>` to go; e.g. `cd 4`"@,
            "(no recent directories)"@,
            recent@.len() as int,
            page as int,
            recent_row(recent.deep_view(), bookmarks.deep_view(), home.deep_view(), windows),
        ),
{
    let row = |i: usize, d: &RecentDir| -> (s: String)
        ensures
            s@ == numbered(
                i as int,
                recent_text(bookmarks.deep_view(), home.deep_view(), d.path@, windows),
            ),
        {
            let star = if is_bookmarked(bookmarks, &d.path, windows) {
                "*"
            } else {
                ""
            };
            let text = star.to_owned().concat(&render_with_tilde(&d.path, home, windows));
            numbered_row(i, &text)
        };
    let head = heading(
        "Recent directories",
        "Use `cd <number>` to go; e.g. `cd 4`",
        recent.len(),
        page,
    );
    let r = render_framed(head, "(no recent directories)", recent, page, DISP_HIST_LEN, row);
    proof {
        let total = recent@.len() as int;
        let per_page = DISP_HIST_LEN as int;
        lemma_pages(total, page as int, per_page);
        let start = page_start(total, page as int, per_page);
        let f = recent_row(recent.deep_view(), bookmarks.deep_view(), home.deep_view(), windows);
        let rows = choose|rows: Seq<String>| #[trigger]
            is_page(recent@, page as int, per_page, row, rows) && r@ == page_text(
                head@,
                "(no recent directories)"@,
                total,
                texts(rows),
            );
        assert(texts(rows) =~= Seq::new(
            (page_end(total, page as int, per_page) - start) as nat,
            |k: int| f(start + k),
        ));
    }
    r
}

pub open spec fn bookmark_row(
    bookmarks: Seq<Seq<char>>,
    home: Option<Seq<char>>,
    windows: bool,
) -> spec_fn(int) -> Seq<char> {
    |i: int| numbered(i, tilded(bookmarks[i], home, windows))
}

/// One page of the bookmarks.
pub fn render_bookmarks(
    bookmarks: &[String],
    home: Option<&str>,
    page: usize,
    windows: bool,
) -> (r: String)
    ensures
        r@ == list_page(
            "Bookmarks"@,
            "Use `del bm <number>` to delete; e.g. `del bm 4`"@,
            "(no bookmarks)"@,
            bookmarks@.len() as int,
            page as int,
            bookmark_row(bookmarks.deep_view(), home.deep_view(), windows),
        ),
{
    let row = |i: usize, b: &String| -> (s: String)
        ensures
            s@ == numbered(i as int, tilded(b@, home.deep_view(), windows)),
        { numbered_row(i, &render_with_tilde(b, home, windows)) };
    let head = heading(
        "Bookmarks",
        "Use `del bm <number>` to delete; e.g. `del bm 4`",
        bookmarks.len(),
        page,
    );
    let r = render_framed(head, "(no bookmarks)", bookmarks, page, DISP_HIST_LEN, row);
    proof {
        let total = bookmarks@.len() as int;
        let per_page = DISP_HIST_LEN as int;
        lemma_pages(total, page as int, per_page);
        let start = page_start(total, page as int, per_page);
        let f = bookmark_row(bookmarks.deep_view(), home.deep_view(), windows);
        let rows = choose|rows: Seq<String>| #[trigger]
            is_page(bookmarks@, page as int, per_page, row, rows) && r@ == page_text(
                head@,
                "(no bookmarks)"@,
                total,
                texts(rows),
            );
        assert(texts(rows) =~= Seq::new(
            (page_end(total, page as int, per_page) - start) as nat,
            |k: int| f(start + k),
        ));
    }
    r
}

// ---- words of the input ----

pub open spec fn is_quote(c: char) -> bool {
    c == '"' || c == '\''
}

/// The quote that is open in front of character `i`.
pub open spec fn quote_at(line: Seq<char>, i: int) -> Option<char>
    decreases i,
{
    if i <= 0 {
        None
    } else {
        let c = line[i - 1];
        match quote_at(line, i - 1) {
            Some(q) => if c == q {
                None
            } else {
                Some(q)
            },
            None => if is_quote(c) {
                Some(c)
            } else {
                None
            },
        }
    }
}

/// Character `i` separates words: white space outside quotes.
pub open spec fn separates(line: Seq<char>, i: int) -> bool {
    is_white(line[i]) && quote_at(line, i) is None
}

/// The first place from `i` on that is a separator (`want`) or is none
/// (`!want`), or the end.
pub open spec fn next_place(line: Seq<char>, want: bool, i: int) -> int
    decreases line.len() - i,
{
    if i >= line.len() || separates(line, i) == want {
        i
    } else {
        next_place(line, want, i + 1)
    }
}

/// The words from `i` on: where each starts, and where it ends.
pub open spec fn word_places(line: Seq<char>, i: int) -> Seq<(int, int)>
    decreases line.len() - i,
{
    let a = next_place(line, false, i);
    let b = next_place(line, true, a);
    if i < 0 || a < i || b <= a || b > line.len() {
        Seq::empty()
    } else {
        seq![(a, b)] + word_places(line, b)
    }
}

pub proof fn lemma_next_place(line: Seq<char>, want: bool, i: int)
    requires
        0 <= i <= line.len(),
    ensures
        i <= next_place(line, want, i) <= line.len(),
        next_place(line, want, i) < line.len() ==> separates(line, next_place(line, want, i))
            == want,
        forall|j: int| i <= j < next_place(line, want, i) ==> #[trigger] separates(line, j) != want,
    decreases line.len() - i,
{
    if i < line.len() && separates(line, i) != want {
        lemma_next_place(line, want, i + 1);
    }
}

/// The words are what stands between separators: none is empty, each starts
/// behind the one before it, and every character that does not separate is in
/// one of them.
pub proof fn word_places_are_exact(line: Seq<char>, i: int)
    requires
        0 <= i <= line.len(),
    ensures
        forall|k: int|
            0 <= k < word_places(line, i).len() ==> {
                let w = #[trigger] word_places(line, i)[k];
                i <= w.0 < w.1 <= line.len()
            },
        forall|j: int, k: int|
            0 <= j < k < word_places(line, i).len() ==> (#[trigger] word_places(line, i)[j]).1 <= (
            #[trigger] word_places(line, i)[k]).0,
        forall|k: int, x: int|
            0 <= k < word_places(line, i).len() && word_places(line, i)[k].0 <= x < word_places(
                line,
                i,
            )[k].1 ==> !#[trigger] separates(line, x) || (#[trigger] word_places(line, i)[k]).0 > x,
        forall|x: int|
            i <= x < line.len() && !#[trigger] separates(line, x) ==> exists|k: int|
                0 <= k < word_places(line, i).len() && (#[trigger] word_places(line, i)[k]).0 <= x
                    < word_places(line, i)[k].1,
    decreases line.len() - i,
{
    let a = next_place(line, false, i);
    lemma_next_place(line, false, i);
    let ws = word_places(line, i);
    if a < line.len() {
        lemma_next_place(line, true, a);
        let b = next_place(line, true, a);
        assert(b > a);
        word_places_are_exact(line, b);
        let t = word_places(line, b);
        assert(ws =~= seq![(a, b)] + t);
        assert forall|k: int| 0 <= k < ws.len() implies {
            let w = #[trigger] ws[k];
            i <= w.0 < w.1 <= line.len()
        } by {
            if k > 0 {
                assert(ws[k] == t[k - 1]);
            }
        }
        assert forall|j: int, k: int| 0 <= j < k < ws.len() implies (#[trigger] ws[j]).1 <= (
        #[trigger] ws[k]).0 by {
            assert(ws[k] == t[k - 1]);
            if j > 0 {
                assert(ws[j] == t[j - 1]);
            }
        }
        assert forall|k: int, x: int|
            0 <= k < ws.len() && ws[k].0 <= x < ws[k].1 implies !#[trigger] separates(line, x) || (
        #[trigger] ws[k]).0 > x by {
            if k > 0 {
                assert(ws[k] == t[k - 1]);
            }
        }
        assert forall|x: int| i <= x < line.len() && !#[trigger] separates(line, x) implies exists|
            k: int,
        |
            0 <= k < ws.len() && (#[trigger] ws[k]).0 <= x < ws[k].1 by {
            if x < b {
                assert(ws[0] == (a, b));
            } else {
                let k = choose|k: int| 0 <= k < t.len() && (#[trigger] t[k]).0 <= x < t[k].1;
                assert(ws[k + 1] == t[k]);
            }
        }
    }
}

fn quote_after(quote: Option<char>, c: char) -> (r: Option<char>)
    ensures
        r == match quote {
            Some(q) => if c == q {
                None
            } else {
                Some(q)
            },
            None => if is_quote(c) {
                Some(c)
            } else {
                None
            },
        },
{
    match quote {
        Some(q) => if c == q {
            None
        } else {
            Some(q)
        },
        None => if c == '"' || c == '\'' {
            Some(c)
        } else {
            None
        },
    }
}

pub open spec fn as_places(v: Seq<(usize, usize)>) -> Seq<(int, int)> {
    v.map_values(|w: (usize, usize)| (w.0 as int, w.1 as int))
}

/// The words of a line, as character positions.
fn word_spans(line: &[char]) -> (r: Vec<(usize, usize)>)
    ensures
        as_places(r@) == word_places(line@, 0),
        forall|k: int|
            0 <= k < r@.len() ==> (#[trigger] r@[k]).0 < r@[k].1 <= line@.len(),
        forall|j: int, k: int|
            0 <= j < k < r@.len() ==> (#[trigger] r@[j]).1 <= (#[trigger] r@[k]).0,
{
    let mut out: Vec<(usize, usize)> = Vec::new();
    let mut i: usize = 0;
    let mut quote: Option<char> = None;
    assert(as_places(out@) + word_places(line@, 0) =~= word_places(line@, 0));
    loop
        invariant_except_break
            i <= line@.len(),
            quote == quote_at(line@, i as int),
            as_places(out@) + word_places(line@, i as int) == word_places(line@, 0),
        ensures
            as_places(out@) == word_places(line@, 0),
        decreases line@.len() - i,
    {
        let ghost from_here = i as int;
        let ghost done = as_places(out@);
        proof {
            lemma_next_place(line@, false, from_here);
        }
        while i < line.len() && white(line[i]) && quote.is_none()
            invariant
                from_here <= i <= line@.len(),
                quote == quote_at(line@, i as int),
                next_place(line@, false, from_here) == next_place(line@, false, i as int),
            decreases line@.len() - i,
        {
            quote = quote_after(quote, line[i]);
            i = i + 1;
        }
        let a = i;
        if a >= line.len() {
            assert(word_places(line@, from_here) =~= Seq::empty());
            assert(done + word_places(line@, from_here) =~= done);
            break;
        }
        assert(next_place(line@, false, from_here) == a);
        proof {
            lemma_next_place(line@, true, a as int);
        }
        while i < line.len() && !(white(line[i]) && quote.is_none())
            invariant
                a <= i <= line@.len(),
                quote == quote_at(line@, i as int),
                next_place(line@, true, a as int) == next_place(line@, true, i as int),
            decreases line@.len() - i,
        {
            quote = quote_after(quote, line[i]);
            i = i + 1;
        }
        assert(next_place(line@, true, a as int) == i);
        out.push((a, i));
        proof {
            assert(i > a) by {
                if i == a {
                    assert(separates(line@, a as int) == false);
                    assert(next_place(line@, true, a as int) != a);
                }
            }
            assert(as_places(out@) =~= done.push((a as int, i as int)));
            assert(word_places(line@, from_here) =~= seq![(a as int, i as int)] + word_places(
                line@,
                i as int,
            ));
            assert(done.push((a as int, i as int)) + word_places(line@, i as int) =~= done + (
            seq![(a as int, i as int)] + word_places(line@, i as int)));
        }
    }
    proof {
        word_places_are_exact(line@, 0);
        let ws = word_places(line@, 0);
        assert forall|k: int| 0 <= k < out@.len() implies (#[trigger] out@[k]).0 < out@[k].1
            <= line@.len() by {
            assert(as_places(out@)[k] == ws[k]);
        }
        assert forall|j: int, k: int| 0 <= j < k < out@.len() implies (#[trigger] out@[j]).1 <= (
        #[trigger] out@[k]).0 by {
            assert(as_places(out@)[j] == ws[j] && as_places(out@)[k] == ws[k]);
        }
    }
    out
}

/// The words of a line as byte positions. White space in quotes belongs to the
/// word around it.
pub fn tokenize_words(line: &str) -> (r: Vec<(usize, usize)>)
    ensures
        r@.len() == word_places(line@, 0).len(),
        forall|k: int|
            0 <= k < r@.len() ==> {
                let w = word_places(line@, 0)[k];
                (#[trigger] r@[k]).0 == byte_len(line@.take(w.0)) && r@[k].1 == byte_len(
                    line@.take(w.1),
                )
            },
{
    let v = chars_of(line);
    let most = line.as_bytes().len();
    proof {
        byte_len_is_utf8_len(line@);
    }
    let spans = word_spans(&v);
    let ghost ws = word_places(line@, 0);
    let mut out: Vec<(usize, usize)> = Vec::new();
    let mut k: usize = 0;
    assert(as_places(spans@).len() == ws.len());
    while k < spans.len()
        invariant
            k <= spans@.len(),
            v@ == line@,
            byte_len(v@) <= most,
            ws == word_places(line@, 0),
            as_places(spans@) == ws,
            out@.len() == k,
            forall|j: int|
                0 <= j < spans@.len() ==> (#[trigger] spans@[j]).0 < spans@[j].1 <= v@.len(),
            forall|j: int|
                0 <= j < k ==> {
                    let w = ws[j];
                    (#[trigger] out@[j]).0 == byte_len(line@.take(w.0)) && out@[j].1 == byte_len(
                        line@.take(w.1),
                    )
                },
        decreases spans@.len() - k,
    {
        let (a, b) = spans[k];
        proof {
            assert(as_places(spans@)[k as int] == ws[k as int]);
            assert(v@ =~= v@.take(a as int) + v@.skip(a as int));
            assert(v@ =~= v@.take(b as int) + v@.skip(b as int));
            lemma_byte_len_add(v@.take(a as int), v@.skip(a as int));
            lemma_byte_len_add(v@.take(b as int), v@.skip(b as int));
        }
        out.push((bytes_of(upto(&v, a), most), bytes_of(upto(&v, b), most)));
        k = k + 1;
    }
    out
}

// ---- colors of the input ----

/// The characters of a word in a color, with quotes in their own.
pub open spec fn colored(text: Seq<char>, color: Seq<char>) -> Seq<char>
    decreases text.len(),
{
    if text.len() == 0 {
        Seq::empty()
    } else {
        let c = text.last();
        colored(text.drop_last(), color) + if is_quote(c) {
            COLOR_RESET@ + COLOR_ORANGE@ + seq![c] + COLOR_RESET@ + color
        } else {
            seq![c]
        }
    }
}

pub open spec fn colored_word(text: Seq<char>, color: Seq<char>) -> Seq<char> {
    color + colored(text, color) + COLOR_RESET@
}

/// Add a word to `out` in a color, with its quote characters in orange.
pub fn render_word(out: &mut String, text: &str, color: &str)
    ensures
        final(out)@ == old(out)@ + colored_word(text@, color@),
{
    let v = chars_of(text);
    let ghost start = out@;
    let mut r = out.clone().concat(color);
    let mut i: usize = 0;
    assert(v@.take(0).len() == 0);
    assert(start + color@ + colored(v@.take(0), color@) =~= start + color@);
    while i < v.len()
        invariant
            i <= v@.len(),
            r@ == start + color@ + colored(v@.take(i as int), color@),
        decreases v@.len() - i,
    {
        let c = v[i];
        let ghost before = r@;
        proof {
            assert(v@.take(i + 1).drop_last() =~= v@.take(i as int));
            assert(v@.take(i + 1).last() == c);
        }
        if c == '"' || c == '\'' {
            r = r.concat(COLOR_RESET).concat(COLOR_ORANGE);
            r.push(c);
            r = r.concat(COLOR_RESET).concat(color);
            assert(r@ =~= before + (COLOR_RESET@ + COLOR_ORANGE@ + seq![c] + COLOR_RESET@
                + color@));
        } else {
            r.push(c);
            assert(r@ =~= before + seq![c]);
        }
        assert(r@ =~= start + color@ + colored(v@.take(i + 1), color@));
        i = i + 1;
    }
    assert(v@.take(i as int) =~= v@);
    *out = r.concat(COLOR_RESET);
    assert(out@ =~= start + colored_word(text@, color@));
}

/// Word `k` of a line.
pub open spec fn word_at(line: Seq<char>, ws: Seq<(int, int)>, k: int) -> Seq<char> {
    line.subrange(ws[k].0, ws[k].1)
}

pub open spec fn is_flag(w: Seq<char>) -> bool {
    w.len() > 0 && w[0] == '-'
}

/// The color of word `k`: the command first, flags, then the subcommand, which
/// is the first other word that is no flag.
pub open spec fn color_of(line: Seq<char>, ws: Seq<(int, int)>, k: int, known: bool) -> Seq<char> {
    if k == 0 {
        if known {
            COLOR_TEAL@
        } else {
            COLOR_RED@
        }
    } else if is_flag(word_at(line, ws, k)) {
        COLOR_GREEN@
    } else if forall|j: int| 1 <= j < k ==> #[trigger] is_flag(word_at(line, ws, j)) {
        COLOR_MAGENTA@
    } else {
        COLOR_CYAN@
    }
}

/// The first `n` words with what stands in front of each.
pub open spec fn colored_words(line: Seq<char>, ws: Seq<(int, int)>, n: int, known: bool) -> Seq<
    char,
>
    decreases n,
{
    if n <= 0 {
        Seq::empty()
    } else {
        let last = if n == 1 {
            0
        } else {
            ws[n - 2].1
        };
        colored_words(line, ws, n - 1, known) + line.subrange(last, ws[n - 1].0) + colored_word(
            word_at(line, ws, n - 1),
            color_of(line, ws, n - 1, known),
        )
    }
}

/// A line with its words in their colors.
pub open spec fn highlighted(line: Seq<char>, known: bool) -> Seq<char> {
    let ws = word_places(line, 0);
    let end = if ws.len() == 0 {
        0
    } else {
        ws.last().1
    };
    colored_words(line, ws, ws.len() as int, known) + line.skip(end)
}

/// The input in color: the command teal, or red where it is not known, the
/// subcommand magenta, flags green, and quote characters orange.
pub fn highlight_input(line: &str, known: bool) -> (r: String)
    ensures
        r@ == highlighted(line@, known),
{
    let v = chars_of(line);
    let spans = word_spans(&v);
    let ghost ws = word_places(line@, 0);
    let mut out = String::new();
    let mut last: usize = 0;
    let mut subcommand_assigned = false;
    let mut k: usize = 0;
    assert(as_places(spans@).len() == ws.len());
    while k < spans.len()
        invariant
            k <= spans@.len(),
            v@ == line@,
            ws == word_places(line@, 0),
            as_places(spans@) == ws,
            out@ == colored_words(line@, ws, k as int, known),
            last == (if k == 0 {
                0
            } else {
                ws[k - 1].1
            }),
            last <= v@.len(),
            k > 0 ==> last == spans@[k - 1].1,
            subcommand_assigned == !(forall|j: int|
                1 <= j < k ==> #[trigger] is_flag(word_at(line@, ws, j))),
            forall|j: int|
                0 <= j < spans@.len() ==> (#[trigger] spans@[j]).0 < spans@[j].1 <= v@.len(),
            forall|i: int, j: int|
                0 <= i < j < spans@.len() ==> (#[trigger] spans@[i]).1 <= (#[trigger] spans@[j]).0,
        decreases spans@.len() - k,
    {
        let (a, b) = spans[k];
        assert(as_places(spans@)[k as int] == ws[k as int]);
        let gap = upto(from(&v, last), a - last);
        let word = upto(from(&v, a), b - a);
        proof {
            assert(gap@ =~= line@.subrange(last as int, a as int));
            assert(word@ =~= line@.subrange(a as int, b as int));
        }
        out = out.concat(&text_of(gap));
        let flag = word.len() > 0 && word[0] == '-';
        assert(flag == is_flag(word_at(line@, ws, k as int)));
        let color = if k == 0 {
            if known {
                COLOR_TEAL
            } else {
                COLOR_RED
            }
        } else if flag {
            COLOR_GREEN
        } else if !subcommand_assigned {
            COLOR_MAGENTA
        } else {
            COLOR_CYAN
        };
        assert(color@ == color_of(line@, ws, k as int, known));
        if k > 0 && !flag {
            subcommand_assigned = true;
        }
        render_word(&mut out, &text_of(word), color);
        last = b;
        k = k + 1;
    }
    let r = out.concat(&text_of(from(&v, last)));
    assert(r@ =~= highlighted(line@, known));
    r
}

// ---- recognized commands ----

/// The shell's own commands.
pub open spec fn builtin(w: Seq<char>) -> bool {
    ||| w == "his"@
    ||| w == "hist"@
    ||| w == "hisd"@
    ||| w == "this"@
    ||| w == "exit"@
    ||| w == "quit"@
    ||| w == "ssh"@
    ||| w == "remote"@
    ||| w == "sync"@
    ||| w == "logs"@
    ||| w == "cat"@
    ||| w == "del"@
    ||| w == "cd"@
    ||| w == "bm"@
}

/// Reserved words and built-in commands of the system shell.
pub open spec fn shell_word(w: Seq<char>) -> bool {
    ||| w == "if"@
    ||| w == "then"@
    ||| w == "else"@
    ||| w == "elif"@
    ||| w == "fi"@
    ||| w == "do"@
    ||| w == "done"@
    ||| w == "case"@
    ||| w == "esac"@
    ||| w == "while"@
    ||| w == "until"@
    ||| w == "for"@
    ||| w == "in"@
    ||| w == "{"@
    ||| w == "}"@
    ||| w == "!"@
    ||| w == "."@
    ||| w == ":"@
    ||| w == "["@
    ||| w == "alias"@
    ||| w == "bg"@
    ||| w == "break"@
    ||| w == "cd"@
    ||| w == "command"@
    ||| w == "continue"@
    ||| w == "echo"@
    ||| w == "eval"@
    ||| w == "exec"@
    ||| w == "exit"@
    ||| w == "export"@
    ||| w == "false"@
    ||| w == "fc"@
    ||| w == "fg"@
    ||| w == "getopts"@
    ||| w == "hash"@
    ||| w == "jobs"@
    ||| w == "kill"@
    ||| w == "printf"@
    ||| w == "pwd"@
    ||| w == "read"@
    ||| w == "readonly"@
    ||| w == "return"@
    ||| w == "set"@
    ||| w == "shift"@
    ||| w == "test"@
    ||| w == "times"@
    ||| w == "trap"@
    ||| w == "true"@
    ||| w == "type"@
    ||| w == "ulimit"@
    ||| w == "umask"@
    ||| w == "unalias"@
    ||| w == "unset"@
    ||| w == "wait"@
}

/// The first word of a line.
pub open spec fn command_word(line: Seq<char>) -> Seq<char> {
    let ws = word_places(line, 0);
    if ws.len() == 0 {
        Seq::empty()
    } else {
        word_at(line, ws, 0)
    }
}

fn is_builtin(w: &[char]) -> (r: bool)
    ensures
        r == builtin(w@),
{
    spells(w, "his") || spells(w, "hist") || spells(w, "hisd") || spells(w, "this")
        || spells(w, "exit") || spells(w, "quit") || spells(w, "ssh") || spells(w, "remote")
        || spells(w, "sync") || spells(w, "logs") || spells(w, "cat") || spells(w, "del")
        || spells(w, "cd") || spells(w, "bm")
}

fn is_shell_word(w: &[char]) -> (r: bool)
    ensures
        r == shell_word(w@),
{
    spells(w, "if") || spells(w, "then") || spells(w, "else") || spells(w, "elif")
        || spells(w, "fi") || spells(w, "do") || spells(w, "done") || spells(w, "case")
        || spells(w, "esac") || spells(w, "while") || spells(w, "until") || spells(w, "for")
        || spells(w, "in") || spells(w, "{") || spells(w, "}") || spells(w, "!")
        || spells(w, ".") || spells(w, ":") || spells(w, "[") || spells(w, "alias")
        || spells(w, "bg") || spells(w, "break") || spells(w, "cd") || spells(w, "command")
        || spells(w, "continue") || spells(w, "echo") || spells(w, "eval") || spells(w, "exec")
        || spells(w, "exit") || spells(w, "export") || spells(w, "false") || spells(w, "fc")
        || spells(w, "fg") || spells(w, "getopts") || spells(w, "hash") || spells(w, "jobs")
        || spells(w, "kill") || spells(w, "printf") || spells(w, "pwd") || spells(w, "read")
        || spells(w, "readonly") || spells(w, "return") || spells(w, "set")
        || spells(w, "shift") || spells(w, "test") || spells(w, "times") || spells(w, "trap")
        || spells(w, "true") || spells(w, "type") || spells(w, "ulimit") || spells(w, "umask")
        || spells(w, "unalias") || spells(w, "unset") || spells(w, "wait")
}

/// The command word of a line, if it is neither one of the shell's own commands
/// nor a word of the system shell. Whether it is known then depends on what can
/// be run.
pub fn unknown_word(line: &str) -> (r: Option<String>)
    ensures
        ({
            let w = command_word(line@);
            r.deep_view() == if builtin(w) || shell_word(w) {
                None
            } else {
                Some(w)
            }
        }),
{
    let v = chars_of(line);
    let spans = word_spans(&v);
    assert(as_places(spans@).len() == word_places(line@, 0).len());
    let word: &[char] = if spans.len() == 0 {
        upto(&v, 0)
    } else {
        let (a, b) = spans[0];
        assert(as_places(spans@)[0] == word_places(line@, 0)[0]);
        let w = upto(from(&v, a), b - a);
        assert(w@ =~= v@.subrange(a as int, b as int));
        w
    };
    assert(word@ =~= command_word(line@));
    if is_builtin(word) || is_shell_word(word) {
        None
    } else {
        Some(text_of(word))
    }
}

/// What the history offers behind the input: the rest of the newest command that
/// starts with what was typed and goes on.
pub open spec fn suggested(h: Seq<HistoryRow>, line: Seq<char>) -> Option<Seq<char>> {
    if line.len() == 0 {
        None
    } else {
        match last_such(
            h.len() as int,
            |i: int| starts(h[i].text, line) && h[i].text.len() > line.len(),
        ) {
            Some(i) => Some(h[i].text.skip(line.len() as int)),
            None => None,
        }
    }
}

/// See [`suggested`].
pub fn suggestion(history: &[HistoryItem], line: &str) -> (r: Option<String>)
    ensures
        r.deep_view() == suggested(history.deep_view(), line@),
{
    let ghost h = history.deep_view();
    let v = chars_of(line);
    if v.len() == 0 {
        return None;
    }
    let ghost f = |i: int| starts(h[i].text, line@) && h[i].text.len() > line@.len();
    let mut i: usize = history.len();
    while i > 0
        invariant
            i <= history@.len(),
            h == history.deep_view(),
            v@ == line@,
            v@.len() > 0,
            f == (|i: int| starts(h[i].text, line@) && h[i].text.len() > line@.len()),
            last_such(h.len() as int, f) == last_such(i as int, f),
        decreases i,
    {
        let t = chars_of(&history[i - 1].text);
        let hit = starts_with(&t, &v) && t.len() > v.len();
        assert(hit == f(i - 1));
        if hit {
            return Some(text_of(from(&t, v.len())));
        }
        i = i - 1;
    }
    None
}

// ---- colors of the prompt ----

/// What a prompt is made of, the marks around it aside.
pub ghost struct PromptParts {
    pub dir: Seq<char>,
    pub branch: Option<Seq<char>>,
    pub indicator: Option<Seq<char>>,
    pub tail: Seq<char>,
}

/// Where the recall marker starts: at the last of the two kinds.
pub open spec fn indicator_at(body: Seq<char>) -> Option<int> {
    let his = last_at(body, HIS_PREFIX@, body.len() as int);
    let cd = last_at(body, CD_PREFIX@, body.len() as int);
    match (his, cd) {
        (Some(a), Some(b)) => Some(
            if a < b {
                b
            } else {
                a
            },
        ),
        (Some(a), None) => Some(a),
        (None, b) => b,
    }
}

/// The parts of a prompt, from its right end.
pub open spec fn prompt_parts(prompt: Seq<char>) -> Option<PromptParts> {
    match without_prefix(prompt, "S "@) {
        None => None,
        Some(rest) => match last_at(rest, " $ "@, rest.len() as int) {
            None => None,
            Some(d) => {
                let body = rest.take(d);
                let (front, indicator) = match indicator_at(body) {
                    Some(i) => (body.take(i), Some(body.skip(i + 1))),
                    None => (body, None),
                };
                let (dir, branch) = match last_at(front, BRANCH_PREFIX@, front.len() as int) {
                    Some(i) => (front.take(i), Some(front.skip(i + 1))),
                    None => (front, None),
                };
                Some(
                    PromptParts {
                        dir,
                        branch,
                        indicator,
                        tail: rest.skip(d + " $ "@.len()),
                    },
                )
            },
        },
    }
}

pub open spec fn part(text: Option<Seq<char>>, color: Seq<char>, reset: Seq<char>) -> Seq<char> {
    match text {
        Some(t) => " "@ + color + t + reset,
        None => Seq::empty(),
    }
}

/// A prompt in color; one of another shape stays as it is.
pub open spec fn colored_prompt(prompt: Seq<char>) -> Seq<char> {
    match prompt_parts(prompt) {
        Some(p) => COLOR_YELLOW@ + "S"@ + COLOR_RESET@ + " "@ + p.dir + part(
            p.branch,
            COLOR_MAGENTA@,
            COLOR_RESET@,
        ) + part(p.indicator, COLOR_GREEN@, COLOR_RESET@) + " "@ + COLOR_YELLOW@ + "$"@
            + COLOR_RESET@ + " "@ + p.tail,
        None => prompt,
    }
}

proof fn lemma_prompt_marks()
    ensures
        "S "@ == "S"@ + " "@,
        "S "@.len() == 2,
        " $ "@ == " "@ + "$"@ + " "@,
        " "@ == seq![' '],
        HIS_PREFIX@.len() > 0 && HIS_PREFIX@[0] == ' ',
        CD_PREFIX@.len() > 0 && CD_PREFIX@[0] == ' ',
        BRANCH_PREFIX@.len() > 0 && BRANCH_PREFIX@[0] == ' ',
{
    reveal_strlit("S ");
    reveal_strlit(" $ ");
    reveal_strlit("S");
    reveal_strlit(" ");
    reveal_strlit("$");
    reveal_strlit(" his ");
    reveal_strlit(" cd ");
    reveal_strlit(" branch: ");
    assert("S "@ =~= "S"@ + " "@);
    assert(" $ "@ =~= " "@ + "$"@ + " "@);
    assert(" "@ =~= seq![' ']);
}

/// A text that has a space at `i` is what stands before and behind it, with the
/// space between.
proof fn lemma_at_space(s: Seq<char>, i: int)
    requires
        0 <= i < s.len(),
        s[i] == ' ',
    ensures
        s.take(i) + part(Some(s.skip(i + 1)), Seq::empty(), Seq::empty()) == s,
{
    lemma_prompt_marks();
    let t = s.skip(i + 1);
    let e = Seq::<char>::empty();
    assert(" "@ + e + t + e =~= seq![' '] + t);
    assert(s.take(i) + (seq![' '] + t) =~= s);
}

proof fn lemma_indicator_split(body: Seq<char>)
    ensures
        match indicator_at(body) {
            Some(i) => body.take(i) + part(Some(body.skip(i + 1)), Seq::empty(), Seq::empty())
                == body,
            None => true,
        },
{
    lemma_prompt_marks();
    lemma_last_at(body, HIS_PREFIX@, body.len() as int);
    lemma_last_at(body, CD_PREFIX@, body.len() as int);
    match indicator_at(body) {
        Some(i) => {
            if last_at(body, HIS_PREFIX@, body.len() as int) == Some(i) {
                assert(body.subrange(i, i + HIS_PREFIX@.len())[0] == HIS_PREFIX@[0]);
            } else {
                assert(body.subrange(i, i + CD_PREFIX@.len())[0] == CD_PREFIX@[0]);
            }
            lemma_at_space(body, i);
        },
        None => {},
    }
}

proof fn lemma_branch_split(front: Seq<char>)
    ensures
        match last_at(front, BRANCH_PREFIX@, front.len() as int) {
            Some(i) => front.take(i) + part(Some(front.skip(i + 1)), Seq::empty(), Seq::empty())
                == front,
            None => true,
        },
{
    lemma_prompt_marks();
    lemma_last_at(front, BRANCH_PREFIX@, front.len() as int);
    match last_at(front, BRANCH_PREFIX@, front.len() as int) {
        Some(i) => {
            assert(front.subrange(i, i + BRANCH_PREFIX@.len())[0] == BRANCH_PREFIX@[0]);
            lemma_at_space(front, i);
        },
        None => {},
    }
}

proof fn lemma_reassemble(
    dir: Seq<char>,
    branch: Seq<char>,
    indicator: Seq<char>,
    tail: Seq<char>,
    front: Seq<char>,
    body: Seq<char>,
)
    requires
        dir + branch == front,
        front + indicator == body,
    ensures
        "S"@ + " "@ + dir + branch + indicator + " "@ + "$"@ + " "@ + tail == "S "@ + (body
            + " $ "@ + tail),
{
    lemma_prompt_marks();
    let mark = "S "@;
    let e = mark + dir + branch + indicator;
    assert(e =~= mark + (dir + branch + indicator));
    assert(e == mark + body);
    assert(e + " "@ + "$"@ + " "@ =~= e + (" "@ + "$"@ + " "@));
    assert(e + " $ "@ + tail =~= mark + (body + " $ "@ + tail));
}

/// Coloring a prompt changes nothing but its color: the same parts without the
/// color codes are the prompt.
pub proof fn prompt_keeps_its_text(prompt: Seq<char>)
    requires
        prompt_parts(prompt) is Some,
    ensures
        ({
            let p = prompt_parts(prompt)->0;
            "S"@ + " "@ + p.dir + part(p.branch, Seq::empty(), Seq::empty()) + part(
                p.indicator,
                Seq::empty(),
                Seq::empty(),
            ) + " "@ + "$"@ + " "@ + p.tail == prompt
        }),
{
    let rest = without_prefix(prompt, "S "@)->0;
    let d = last_at(rest, " $ "@, rest.len() as int)->0;
    lemma_last_at(rest, " $ "@, rest.len() as int);
    let body = rest.take(d);
    let at = indicator_at(body);
    let front = match at {
        Some(i) => body.take(i),
        None => body,
    };
    let p = prompt_parts(prompt)->0;
    let branch = part(p.branch, Seq::empty(), Seq::empty());
    let indicator = part(p.indicator, Seq::empty(), Seq::empty());
    assert(p.dir + branch == front) by {
        lemma_branch_split(front);
        assert(p.branch is None ==> p.dir + branch =~= front);
    }
    assert(front + indicator == body) by {
        lemma_indicator_split(body);
        assert(p.indicator is None ==> front + indicator =~= body);
    }
    lemma_piece(rest, " $ "@, d);
    lemma_reassemble(p.dir, branch, indicator, p.tail, front, body);
    assert("S "@ + rest =~= prompt);
}

/// A text is what stands before, at and behind a place where `n` stands.
proof fn lemma_piece(h: Seq<char>, n: Seq<char>, i: int)
    requires
        occurs_at(h, n, i),
    ensures
        h == h.take(i) + n + h.skip(i + n.len()),
{
    assert(h =~= h.take(i) + h.subrange(i, i + n.len()) + h.skip(i + n.len()));
}

fn find_last(h: &[char], n: &str) -> (r: Option<usize>)
    ensures
        match r {
            Some(i) => last_at(h@, n@, h@.len() as int) == Some(i as int) && i + n@.len()
                <= h@.len(),
            None => last_at(h@, n@, h@.len() as int) is None,
        },
{
    rfind_text(h, &chars_of(n))
}

fn colored_part(text: Option<&[char]>, color: &str) -> (r: String)
    ensures
        r@ == part(
            match text {
                Some(t) => Some(t@),
                None => None,
            },
            color@,
            COLOR_RESET@,
        ),
{
    match text {
        Some(t) => " ".to_owned().concat(color).concat(&text_of(t)).concat(COLOR_RESET),
        None => String::new(),
    }
}

/// The prompt in color: its marks yellow, the branch magenta and the recall
/// marker green.
pub fn highlight_prompt(prompt: &str) -> (r: String)
    ensures
        r@ == colored_prompt(prompt@),
{
    let v = chars_of(prompt);
    let rest = match strip_prefix(&v, "S ") {
        Some(rest) => rest,
        None => return prompt.to_owned(),
    };
    let d = match find_last(rest, " $ ") {
        Some(d) => d,
        None => return prompt.to_owned(),
    };
    let mark = chars_of(" $ ").len();
    let body = upto(rest, d);
    assert(d + mark <= rest.len());
    let tail = from(rest, d + mark);
    let at = match (find_last(body, HIS_PREFIX), find_last(body, CD_PREFIX)) {
        (Some(a), Some(b)) => Some(
            if a < b {
                b
            } else {
                a
            },
        ),
        (Some(a), None) => Some(a),
        (None, b) => b,
    };
    proof {
        reveal_strlit(" his ");
        reveal_strlit(" cd ");
        reveal_strlit(" branch: ");
    }
    let (front, indicator): (&[char], Option<&[char]>) = match at {
        Some(i) => (upto(body, i), Some(from(body, i + 1))),
        None => (body, None),
    };
    let (dir, branch): (&[char], Option<&[char]>) = match find_last(front, BRANCH_PREFIX) {
        Some(i) => (upto(front, i), Some(from(front, i + 1))),
        None => (front, None),
    };
    COLOR_YELLOW.to_owned().concat("S").concat(COLOR_RESET).concat(" ").concat(
        &text_of(dir),
    ).concat(&colored_part(branch, COLOR_MAGENTA)).concat(
        &colored_part(indicator, COLOR_GREEN),
    ).concat(" ").concat(COLOR_YELLOW).concat("$").concat(COLOR_RESET).concat(" ").concat(
        &text_of(tail),
    )
}

} // verus!
