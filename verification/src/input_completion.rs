//! Completing what the user types with the Tab key.

use crate::bytes::{
    byte_len, bytes_capped, bytes_of, char_index, chars_before, chars_before_is_exact,
    lemma_byte_len_add, width,
};
use crate::lists::picked;
use crate::order::{order, places, sort_order, sorted, Key, SortKey};
use crate::path::{file_name, final_name, join, joined};
use crate::state::{RecentDir, RecentRow};
use crate::text::{
    chars_of, copied, find, find_text, first_at, from, index_of, last_index_of, lowercase, rfind,
    same_text, spells, starts, starts_with, text_of, to_lower, trim_start,
    trimmed_start, upto, Class,
};
use crate::util::{render_with_tilde, strip_home, tilded, under_home, DirEntry, EntryRow};
use vstd::prelude::*;

verus! {

/// What to offer for a stretch of the input: where it starts, as a byte
/// position, and what can stand there.
#[derive(Debug)]
pub struct CompletionResult {
    pub start: usize,
    pub candidates: Vec<CompletionCandidate>,
}

#[derive(Debug)]
pub struct CompletionCandidate {
    pub display: String,
    pub replacement: String,
}

pub ghost struct CandidateRow {
    pub display: Seq<char>,
    pub replacement: Seq<char>,
}

impl DeepView for CompletionCandidate {
    type V = CandidateRow;

    open spec fn deep_view(&self) -> CandidateRow {
        CandidateRow { display: self.display@, replacement: self.replacement@ }
    }
}

pub ghost struct ResultRow {
    pub start: int,
    pub candidates: Seq<CandidateRow>,
}

impl DeepView for CompletionResult {
    type V = ResultRow;

    open spec fn deep_view(&self) -> ResultRow {
        ResultRow { start: self.start as int, candidates: self.candidates.deep_view() }
    }
}

impl Clone for CompletionCandidate {
    fn clone(&self) -> (r: CompletionCandidate)
        ensures
            r.deep_view() == self.deep_view(),
    {
        CompletionCandidate {
            display: self.display.clone(),
            replacement: self.replacement.clone(),
        }
    }
}

/// A candidate with how well it matches. Lower is better.
#[derive(Debug)]
pub struct Scored {
    pub score: u32,
    pub candidate: CompletionCandidate,
}

pub ghost struct ScoredRow {
    pub score: int,
    pub candidate: CandidateRow,
}

impl DeepView for Scored {
    type V = ScoredRow;

    open spec fn deep_view(&self) -> ScoredRow {
        ScoredRow { score: self.score as int, candidate: self.candidate.deep_view() }
    }
}

impl Clone for Scored {
    fn clone(&self) -> (r: Scored)
        ensures
            r.deep_view() == self.deep_view(),
    {
        Scored { score: self.score, candidate: self.candidate.clone() }
    }
}

// ---- how well a name matches ----

/// The score of a match whose letters only appear in order.
pub const SUBSEQ_SCORE: u32 = 1_000;

/// The characters of `needle` appear in `hay` in this order.
pub open spec fn scattered(needle: Seq<char>, hay: Seq<char>) -> bool
    decreases hay.len(),
{
    if needle.len() == 0 {
        true
    } else if hay.len() == 0 {
        false
    } else if needle[0] == hay[0] {
        scattered(needle.skip(1), hay.skip(1))
    } else {
        scattered(needle, hay.skip(1))
    }
}

/// How well `name` matches what was typed, letter case aside: best at its
/// start, then inside it, the earlier the better, and then scattered over it.
pub open spec fn match_of(needle: Seq<char>, name: Seq<char>) -> Option<int> {
    let n = lowercase(needle);
    let h = lowercase(name);
    if needle.len() == 0 || starts(h, n) {
        Some(0)
    } else {
        match first_at(h, n, 0) {
            Some(i) => {
                let at = byte_len(h.take(i)) as int;
                Some(
                    1 + if at < SUBSEQ_SCORE - 2 {
                        at
                    } else {
                        SUBSEQ_SCORE - 2
                    },
                )
            },
            None => if scattered(n, h) {
                Some(SUBSEQ_SCORE as int)
            } else {
                None
            },
        }
    }
}

/// The quality of a match: 0 for a prefix, 1 for a part, 2 for scattered letters.
pub open spec fn tier(score: int) -> int {
    if score == 0 {
        0
    } else if score < SUBSEQ_SCORE {
        1
    } else {
        2
    }
}

/// See [`scattered`].
fn is_subsequence(needle: &[char], hay: &[char]) -> (r: bool)
    ensures
        r == scattered(needle@, hay@),
{
    let mut i: usize = 0;
    let mut j: usize = 0;
    assert(needle@.skip(0) =~= needle@ && hay@.skip(0) =~= hay@);
    while i < needle.len() && j < hay.len()
        invariant
            i <= needle@.len(),
            j <= hay@.len(),
            scattered(needle@, hay@) == scattered(needle@.skip(i as int), hay@.skip(j as int)),
        decreases hay@.len() - j,
    {
        proof {
            let n = needle@.skip(i as int);
            let h = hay@.skip(j as int);
            assert(n[0] == needle@[i as int] && h[0] == hay@[j as int]);
            assert(n.skip(1) =~= needle@.skip(i + 1));
            assert(h.skip(1) =~= hay@.skip(j + 1));
        }
        if needle[i] == hay[j] {
            i = i + 1;
        }
        j = j + 1;
    }
    i == needle.len()
}

/// See [`match_of`].
fn match_score(needle: &str, name: &str) -> (r: Option<u32>)
    ensures
        match r {
            Some(s) => match_of(needle@, name@) == Some(s as int),
            None => match_of(needle@, name@) is None,
        },
{
    if chars_of(needle).len() == 0 {
        return Some(0);
    }
    let n_text = to_lower(needle);
    let h_text = to_lower(name);
    let n = chars_of(&n_text);
    let h = chars_of(&h_text);
    if starts_with(&h, &n) {
        return Some(0);
    }
    match find_text(&h, &n) {
        Some(i) => Some(1 + bytes_capped(upto(&h, i), SUBSEQ_SCORE - 2)),
        None => if is_subsequence(&n, &h) {
            Some(SUBSEQ_SCORE)
        } else {
            None
        },
    }
}

/// See [`tier`].
fn match_tier(score: u32) -> (r: u8)
    ensures
        r == tier(score as int),
{
    if score == 0 {
        0
    } else if score < SUBSEQ_SCORE {
        1
    } else {
        2
    }
}

// ---- sources of candidates ----

/// What a candidate is sorted by: its score, and then its name, letter case
/// aside.
pub open spec fn candidate_key(c: ScoredRow) -> Key {
    Key { rank: c.score, name: lowercase(c.candidate.display) }
}

/// Best first, equals by name.
pub open spec fn ranked(rows: Seq<ScoredRow>) -> Seq<ScoredRow> {
    sorted(rows, rows.map_values(|c: ScoredRow| candidate_key(c)))
}

fn candidate_keys(scored: &Vec<Scored>) -> (r: Vec<SortKey>)
    ensures
        r.deep_view() == scored.deep_view().map_values(|c: ScoredRow| candidate_key(c)),
{
    let ghost all = scored.deep_view().map_values(|c: ScoredRow| candidate_key(c));
    let mut keys: Vec<SortKey> = Vec::new();
    let mut i: usize = 0;
    assert(keys.deep_view() =~= all.take(0));
    while i < scored.len()
        invariant
            i <= scored@.len(),
            all == scored.deep_view().map_values(|c: ScoredRow| candidate_key(c)),
            keys.deep_view() == all.take(i as int),
        decreases scored@.len() - i,
    {
        let ghost before = keys.deep_view();
        let lower = to_lower(&scored[i].candidate.display);
        keys.push(SortKey { rank: scored[i].score, name: chars_of(&lower) });
        assert(keys.deep_view() =~= before.push(all[i as int]));
        assert(all.take(i + 1) =~= all.take(i as int).push(all[i as int]));
        i = i + 1;
    }
    assert(all.take(i as int) =~= all);
    keys
}

/// See [`ranked`].
fn sort_scored(scored: &Vec<Scored>) -> (r: Vec<Scored>)
    ensures
        r.deep_view() == ranked(scored.deep_view()),
{
    let ghost rows = scored.deep_view();
    let keys = candidate_keys(scored);
    let at = sort_order(&keys);
    let mut out: Vec<Scored> = Vec::new();
    let ghost all = sorted(rows, keys.deep_view());
    let mut k: usize = 0;
    assert(keys.deep_view().len() == rows.len());
    assert(out.deep_view() =~= all.take(0));
    while k < at.len()
        invariant
            k <= at@.len(),
            rows == scored.deep_view(),
            places(at@) == order(keys.deep_view()),
            all == sorted(rows, keys.deep_view()),
            keys@.len() == scored@.len(),
            forall|j: int| 0 <= j < at@.len() ==> #[trigger] at@[j] < keys@.len(),
            out.deep_view() == all.take(k as int),
        decreases at@.len() - k,
    {
        let ghost before = out.deep_view();
        out.push(scored[at[k]].clone());
        proof {
            assert(places(at@)[k as int] == at@[k as int]);
            assert(out.deep_view() =~= before.push(all[k as int]));
            assert(all.take(k + 1) =~= all.take(k as int).push(all[k as int]));
        }
        k = k + 1;
    }
    assert(places(at@).len() == at@.len());
    assert(all.take(k as int) =~= all);
    out
}

/// A bookmark as a candidate: by its last component.
pub open spec fn bookmark_hit(
    arg: Seq<char>,
    home: Option<Seq<char>>,
    p: Seq<char>,
    windows: bool,
) -> Option<
    ScoredRow,
> {
    match final_name(p, windows) {
        Some(name) => match match_of(arg, name) {
            Some(score) => Some(
                ScoredRow {
                    score,
                    candidate: CandidateRow { display: name, replacement: tilded(
                        p,
                        home,
                        windows,
                    ) },
                },
            ),
            None => None,
        },
        None => None,
    }
}

pub open spec fn bookmark_hits(
    arg: Seq<char>,
    home: Option<Seq<char>>,
    bookmarks: Seq<Seq<char>>,
    windows: bool,
) -> Seq<ScoredRow>
    decreases bookmarks.len(),
{
    if bookmarks.len() == 0 {
        Seq::empty()
    } else {
        let before = bookmark_hits(arg, home, bookmarks.drop_last(), windows);
        match bookmark_hit(arg, home, bookmarks.last(), windows) {
            Some(c) => before.push(c),
            None => before,
        }
    }
}

fn complete_bookmarks(
    arg: &str,
    home: Option<&str>,
    bookmarks: &[String],
    windows: bool,
) -> (r: Vec<Scored>)
    ensures
        r.deep_view() == ranked(
            bookmark_hits(arg@, home.deep_view(), bookmarks.deep_view(), windows),
        ),
{
    let ghost ps = bookmarks.deep_view();
    let mut scored: Vec<Scored> = Vec::new();
    let mut i: usize = 0;
    assert(scored.deep_view() =~= bookmark_hits(arg@, home.deep_view(), ps.take(0), windows));
    while i < bookmarks.len()
        invariant
            i <= bookmarks@.len(),
            ps == bookmarks.deep_view(),
            scored.deep_view() == bookmark_hits(arg@, home.deep_view(), ps.take(i as int), windows),
        decreases bookmarks@.len() - i,
    {
        let ghost before = scored.deep_view();
        proof {
            assert(ps.take(i + 1).drop_last() =~= ps.take(i as int));
            assert(ps.take(i + 1).last() == bookmarks@[i as int]@);
        }
        if let Some(name) = file_name(&bookmarks[i], windows) {
            if let Some(score) = match_score(arg, &name) {
                let replacement = render_with_tilde(&bookmarks[i], home, windows);
                let c = Scored {
                    score,
                    candidate: CompletionCandidate { display: name, replacement },
                };
                scored.push(c);
                assert(scored.deep_view() =~= before.push(c.deep_view()));
            }
        }
        i = i + 1;
    }
    assert(ps.take(i as int) =~= ps);
    sort_scored(&scored)
}

/// A recent directory as a candidate: by its last component, or else by its
/// whole path.
pub open spec fn recent_hit(
    arg: Seq<char>,
    home: Option<Seq<char>>,
    p: Seq<char>,
    windows: bool,
) -> Option<
    ScoredRow,
> {
    match final_name(p, windows) {
        Some(name) => {
            let score = match match_of(arg, name) {
                Some(s) => Some(s),
                None => match_of(arg, p),
            };
            match score {
                Some(score) => Some(
                    ScoredRow {
                        score,
                        candidate: CandidateRow { display: name, replacement: tilded(
                            p,
                            home,
                            windows,
                        ) },
                    },
                ),
                None => None,
            }
        },
        None => None,
    }
}

pub open spec fn recent_hits(
    arg: Seq<char>,
    home: Option<Seq<char>>,
    list: Seq<RecentRow>,
    windows: bool,
) -> Seq<
    ScoredRow,
>
    decreases list.len(),
{
    if list.len() == 0 {
        Seq::empty()
    } else {
        let before = recent_hits(arg, home, list.drop_last(), windows);
        match recent_hit(arg, home, list.last().path, windows) {
            Some(c) => before.push(c),
            None => before,
        }
    }
}

fn complete_recent_dirs(
    arg: &str,
    home: Option<&str>,
    recent: &[RecentDir],
    windows: bool,
) -> (r: Vec<Scored>)
    ensures
        r.deep_view() == ranked(recent_hits(arg@, home.deep_view(), recent.deep_view(), windows)),
{
    let ghost rs = recent.deep_view();
    let mut scored: Vec<Scored> = Vec::new();
    let mut i: usize = 0;
    assert(scored.deep_view() =~= recent_hits(arg@, home.deep_view(), rs.take(0), windows));
    while i < recent.len()
        invariant
            i <= recent@.len(),
            rs == recent.deep_view(),
            scored.deep_view() == recent_hits(arg@, home.deep_view(), rs.take(i as int), windows),
        decreases recent@.len() - i,
    {
        let ghost before = scored.deep_view();
        proof {
            assert(rs.take(i + 1).drop_last() =~= rs.take(i as int));
            assert(rs.take(i + 1).last() == recent@[i as int].deep_view());
        }
        if let Some(name) = file_name(&recent[i].path, windows) {
            let score = match match_score(arg, &name) {
                Some(s) => Some(s),
                None => match_score(arg, &recent[i].path),
            };
            if let Some(score) = score {
                let replacement = render_with_tilde(&recent[i].path, home, windows);
                let c = Scored {
                    score,
                    candidate: CompletionCandidate { display: name, replacement },
                };
                scored.push(c);
                assert(scored.deep_view() =~= before.push(c.deep_view()));
            }
        }
        i = i + 1;
    }
    assert(rs.take(i as int) =~= rs);
    sort_scored(&scored)
}

/// Where to look for what an argument names: what the argument says in front of
/// the last separator, the directory it means, and what is behind the separator.
pub ghost struct BaseRow {
    pub dir_prefix: Seq<char>,
    pub base_dir: Seq<char>,
    pub leaf: Seq<char>,
}

pub struct Base {
    pub dir_prefix: String,
    pub base_dir: String,
    pub leaf: String,
}

impl DeepView for Base {
    type V = BaseRow;

    open spec fn deep_view(&self) -> BaseRow {
        BaseRow { dir_prefix: self.dir_prefix@, base_dir: self.base_dir@, leaf: self.leaf@ }
    }
}

pub open spec fn base_of(
    arg: Seq<char>,
    cwd: Seq<char>,
    home: Option<Seq<char>>,
    windows: bool,
) -> BaseRow {
    match last_index_of(arg, Class::Either('/', '\\')) {
        None => BaseRow { dir_prefix: Seq::empty(), base_dir: cwd, leaf: arg },
        Some(i) => {
            // The separator stays where the path is a root or a drive.
            let base = if i == 0 || arg[i - 1] == ':' {
                arg.take(i + 1)
            } else {
                arg.take(i)
            };
            BaseRow {
                dir_prefix: arg.take(i + 1),
                base_dir: base_dir_of(base, cwd, home, windows),
                leaf: arg.skip(i + 1),
            }
        },
    }
}

pub open spec fn base_dir_of(
    base: Seq<char>,
    cwd: Seq<char>,
    home: Option<Seq<char>>,
    windows: bool,
) -> Seq<
    char,
> {
    if base == "~"@ || base == "~/"@ || base == "~\\"@ {
        match home {
            Some(h) => h,
            None => joined(cwd, base, windows),
        }
    } else if let Some(rest) = under_home(base) {
        match home {
            Some(h) => joined(h, rest, windows),
            None => joined(cwd, base, windows),
        }
    } else {
        joined(cwd, base, windows)
    }
}

fn base_directory(base: &[char], cwd: &str, home: Option<&str>, windows: bool) -> (r: String)
    ensures
        r@ == base_dir_of(base@, cwd@, home.deep_view(), windows),
{
    if spells(base, "~") || spells(base, "~/") || spells(base, "~\\") {
        match home {
            Some(h) => h.to_owned(),
            None => join(cwd, &text_of(base), windows),
        }
    } else if let Some(rest) = strip_home(base) {
        match home {
            Some(h) => join(h, &text_of(rest), windows),
            None => join(cwd, &text_of(base), windows),
        }
    } else {
        join(cwd, &text_of(base), windows)
    }
}

/// See [`base_of`].
fn completion_base(arg: &[char], cwd: &str, home: Option<&str>, windows: bool) -> (r: Base)
    ensures
        r.deep_view() == base_of(arg@, cwd@, home.deep_view(), windows),
{
    match rfind(arg, Class::Either('/', '\\')) {
        None => Base {
            dir_prefix: String::new(),
            base_dir: cwd.to_owned(),
            leaf: text_of(arg),
        },
        Some(i) => {
            assert(i < arg.len());
            let base = if i == 0 || arg[i - 1] == ':' {
                upto(arg, i + 1)
            } else {
                upto(arg, i)
            };
            Base {
                dir_prefix: text_of(upto(arg, i + 1)),
                base_dir: base_directory(base, cwd, home, windows),
                leaf: text_of(from(arg, i + 1)),
            }
        },
    }
}

/// An entry of a directory as a candidate. Where files are offered too, a
/// directory is marked by a slash.
pub open spec fn entry_hit(b: BaseRow, e: EntryRow, dirs_only: bool) -> Option<ScoredRow> {
    if e.is_dir is None || (dirs_only && e.is_dir == Some(false)) {
        None
    } else {
        match match_of(b.leaf, e.name) {
            Some(score) => {
                let suffix = if e.is_dir == Some(true) && !dirs_only {
                    "/"@
                } else {
                    ""@
                };
                Some(
                    ScoredRow {
                        score,
                        candidate: CandidateRow {
                            display: e.name + suffix,
                            replacement: b.dir_prefix + e.name + suffix,
                        },
                    },
                )
            },
            None => None,
        }
    }
}

pub open spec fn entry_hits(b: BaseRow, es: Seq<EntryRow>, dirs_only: bool) -> Seq<ScoredRow>
    decreases es.len(),
{
    if es.len() == 0 {
        Seq::empty()
    } else {
        let before = entry_hits(b, es.drop_last(), dirs_only);
        match entry_hit(b, es.last(), dirs_only) {
            Some(c) => before.push(c),
            None => before,
        }
    }
}

fn score_entry(b: &Base, e: &DirEntry, dirs_only: bool) -> (r: Option<Scored>)
    ensures
        r.deep_view() == entry_hit(b.deep_view(), e.deep_view(), dirs_only),
{
    let is_dir = match e.is_dir {
        Some(d) => d,
        None => return None,
    };
    if dirs_only && !is_dir {
        return None;
    }
    match match_score(&b.leaf, &e.name) {
        Some(score) => {
            let suffix = if is_dir && !dirs_only {
                "/"
            } else {
                ""
            };
            let display = e.name.clone().concat(suffix);
            let replacement = b.dir_prefix.clone().concat(&e.name).concat(suffix);
            Some(Scored { score, candidate: CompletionCandidate { display, replacement } })
        },
        None => None,
    }
}

fn scored_paths(b: &Base, entries: &[DirEntry], dirs_only: bool) -> (r: Vec<Scored>)
    ensures
        r.deep_view() == ranked(entry_hits(b.deep_view(), entries.deep_view(), dirs_only)),
{
    let ghost es = entries.deep_view();
    let mut scored: Vec<Scored> = Vec::new();
    let mut i: usize = 0;
    assert(scored.deep_view() =~= entry_hits(b.deep_view(), es.take(0), dirs_only));
    while i < entries.len()
        invariant
            i <= entries@.len(),
            es == entries.deep_view(),
            scored.deep_view() == entry_hits(b.deep_view(), es.take(i as int), dirs_only),
        decreases entries@.len() - i,
    {
        let ghost before = scored.deep_view();
        proof {
            assert(es.take(i + 1).drop_last() =~= es.take(i as int));
            assert(es.take(i + 1).last() == entries@[i as int].deep_view());
        }
        if let Some(c) = score_entry(b, &entries[i], dirs_only) {
            scored.push(c);
            assert(scored.deep_view() =~= before.push(c.deep_view()));
        }
        i = i + 1;
    }
    assert(es.take(i as int) =~= es);
    sort_scored(&scored)
}

// ---- the word to complete ----

/// A stretch of the input in front of the cursor, and the byte it starts at.
pub ghost struct WordRow {
    pub text: Seq<char>,
    pub start: int,
}

pub struct Word {
    pub text: Vec<char>,
    pub start: usize,
}

impl DeepView for Word {
    type V = WordRow;

    open spec fn deep_view(&self) -> WordRow {
        WordRow { text: self.text@, start: self.start as int }
    }
}

/// What stands in front of the cursor, without leading white space.
pub open spec fn typed(line: Seq<char>, pos: int) -> Option<Seq<char>> {
    match chars_before(line, pos) {
        Some(k) => Some(trimmed_start(line.take(k), Class::White)),
        None => None,
    }
}

/// The argument of `cd` in front of the cursor. There is none where the command
/// is another one or is not followed by white space.
pub open spec fn cd_word(line: Seq<char>, pos: int) -> Option<WordRow> {
    match typed(line, pos) {
        Some(t) => match index_of(t, Class::White) {
            Some(i) => if t.take(i) == "cd"@ {
                let arg = trimmed_start(t.skip(i), Class::White);
                Some(WordRow { text: arg, start: pos - byte_len(arg) })
            } else {
                None
            },
            None => None,
        },
        None => None,
    }
}

/// The word that the cursor stands at the end of.
pub open spec fn last_word(line: Seq<char>, pos: int) -> Option<WordRow> {
    match typed(line, pos) {
        Some(t) => {
            let w = match last_index_of(t, Class::White) {
                Some(i) => t.skip(i + 1),
                None => t,
            };
            Some(WordRow { text: w, start: pos - byte_len(w) })
        },
        None => None,
    }
}

/// The word is written as a path of its own, not as a name to look up.
pub open spec fn path_like(w: Seq<char>) -> bool {
    ||| starts(w, "./"@)
    ||| starts(w, ".\\"@)
    ||| starts(w, "../"@)
    ||| starts(w, "..\\"@)
    ||| starts(w, "~/"@)
    ||| starts(w, "~\\"@)
    ||| starts(w, "/"@)
    ||| starts(w, "\\"@)
    ||| w.len() >= 3 && ('a' <= w[0] <= 'z' || 'A' <= w[0] <= 'Z') && w[1] == ':' && (w[2] == '/'
        || w[2] == '\\')
}

/// A suffix takes at most the bytes of the whole.
proof fn lemma_suffix_bytes(s: Seq<char>, k: int)
    requires
        0 <= k <= s.len(),
    ensures
        byte_len(s.skip(k)) <= byte_len(s),
{
    assert(s =~= s.take(k) + s.skip(k));
    lemma_byte_len_add(s.take(k), s.skip(k));
}

fn typed_text(line: &[char], pos: usize) -> (r: Option<&[char]>)
    ensures
        match r {
            Some(t) => typed(line@, pos as int) == Some(t@) && byte_len(t@) <= pos,
            None => typed(line@, pos as int) is None,
        },
{
    match char_index(line, pos) {
        Some(k) => {
            let before = upto(line, k);
            let t = trim_start(before, Class::White);
            proof {
                chars_before_is_exact(line@, pos as int);
                crate::text::lemma_span(before@, Class::White, true);
                lemma_suffix_bytes(before@, crate::text::span(before@, Class::White, true) as int);
            }
            Some(t)
        },
        None => None,
    }
}

fn find_cd_word(line: &str, pos: usize) -> (r: Option<Word>)
    ensures
        r.deep_view() == cd_word(line@, pos as int),
{
    let v = chars_of(line);
    let t = match typed_text(&v, pos) {
        Some(t) => t,
        None => return None,
    };
    match find(t, Class::White) {
        Some(i) => {
            if !spells(upto(t, i), "cd") {
                return None;
            }
            let rest = from(t, i);
            let arg = trim_start(rest, Class::White);
            proof {
                lemma_suffix_bytes(t@, i as int);
                crate::text::lemma_span(rest@, Class::White, true);
                lemma_suffix_bytes(rest@, crate::text::span(rest@, Class::White, true) as int);
            }
            let n = bytes_of(arg, pos);
            Some(Word { text: copied(arg), start: pos - n })
        },
        None => None,
    }
}

fn find_last_word(line: &str, pos: usize) -> (r: Option<Word>)
    ensures
        r.deep_view() == last_word(line@, pos as int),
{
    let v = chars_of(line);
    let t = match typed_text(&v, pos) {
        Some(t) => t,
        None => return None,
    };
    let w = match rfind(t, Class::White) {
        Some(i) => {
            assert(i < t.len());
            proof {
                lemma_suffix_bytes(t@, i + 1);
            }
            from(t, i + 1)
        },
        None => t,
    };
    let n = bytes_of(w, pos);
    Some(Word { text: copied(w), start: pos - n })
}

fn begins(w: &[char], p: &str) -> (r: bool)
    ensures
        r == starts(w@, p@),
{
    let q = chars_of(p);
    starts_with(w, &q)
}

/// See [`path_like`].
fn is_explicit_path(w: &[char]) -> (r: bool)
    ensures
        r == path_like(w@),
{
    if begins(w, "./") || begins(w, ".\\") || begins(w, "../") || begins(w, "..\\") || begins(
        w,
        "~/",
    ) || begins(w, "~\\") || begins(w, "/") || begins(w, "\\") {
        return true;
    }
    w.len() >= 3 && (('a' <= w[0] && w[0] <= 'z') || ('A' <= w[0] && w[0] <= 'Z')) && w[1] == ':'
        && (w[2] == '/' || w[2] == '\\')
}

// ---- completion of `cd` ----

/// The candidates of one quality, in their order.
pub open spec fn of_tier(rows: Seq<ScoredRow>, t: int) -> Seq<CandidateRow>
    decreases rows.len(),
{
    if rows.len() == 0 {
        Seq::empty()
    } else if tier(rows.last().score) == t {
        of_tier(rows.drop_last(), t).push(rows.last().candidate)
    } else {
        of_tier(rows.drop_last(), t)
    }
}

/// The candidates of one quality from the first source, from `i` on, that has
/// any.
pub open spec fn first_source(sources: Seq<Seq<ScoredRow>>, t: int, i: int) -> Seq<CandidateRow>
    decreases sources.len() - i,
{
    if i < 0 || i >= sources.len() {
        Seq::empty()
    } else if of_tier(sources[i], t).len() > 0 {
        of_tier(sources[i], t)
    } else {
        first_source(sources, t, i + 1)
    }
}

/// The candidates to offer: of the best quality that any source has, from the
/// first source that has it.
pub open spec fn best_hits(sources: Seq<Seq<ScoredRow>>) -> Seq<CandidateRow> {
    let prefixes = first_source(sources, 0, 0);
    let parts = first_source(sources, 1, 0);
    if prefixes.len() > 0 {
        prefixes
    } else if parts.len() > 0 {
        parts
    } else {
        first_source(sources, 2, 0)
    }
}

/// The sources that are at hand without a search: bookmarks, the entries of the
/// directory that the argument points into, and recent directories.
pub open spec fn near_sources(
    arg: Seq<char>,
    base: BaseRow,
    home: Option<Seq<char>>,
    bookmarks: Seq<Seq<char>>,
    recent: Seq<RecentRow>,
    entries: Seq<EntryRow>,
    windows: bool,
) -> Seq<Seq<ScoredRow>> {
    seq![
        ranked(bookmark_hits(arg, home, bookmarks, windows)),
        ranked(entry_hits(base, entries, true)),
        if arg.len() == 0 {
            Seq::empty()
        } else {
            ranked(recent_hits(arg, home, recent, windows))
        },
    ]
}

/// A name without separators, which the search below the bookmarks is for.
pub open spec fn bare_name(arg: Seq<char>) -> bool {
    arg.len() > 0 && arg[0] != '~' && index_of(arg, Class::Either('/', '\\')) is None
}

/// Directories below the bookmarks are offered for a bare name of which no
/// nearer source has a prefix match.
pub open spec fn search_wanted(arg: Seq<char>, near: Seq<Seq<ScoredRow>>) -> bool {
    bare_name(arg) && forall|i: int, j: int|
        0 <= i < near.len() && 0 <= j < near[i].len() ==> (#[trigger] near[i][j]).score != 0
}

pub open spec fn cd_sources(
    arg: Seq<char>,
    near: Seq<Seq<ScoredRow>>,
    below: Seq<ScoredRow>,
) -> Seq<Seq<ScoredRow>> {
    if search_wanted(arg, near) {
        near.push(below)
    } else {
        near
    }
}

/// What Tab offers for the argument of `cd`.
pub open spec fn cd_completion(
    line: Seq<char>,
    pos: int,
    cwd: Seq<char>,
    home: Option<Seq<char>>,
    bookmarks: Seq<Seq<char>>,
    recent: Seq<RecentRow>,
    entries: Seq<EntryRow>,
    below: Seq<ScoredRow>,
    windows: bool,
) -> Option<ResultRow> {
    match cd_word(line, pos) {
        Some(w) => {
            let base = base_of(w.text, cwd, home, windows);
            let near = near_sources(w.text, base, home, bookmarks, recent, entries, windows);
            Some(
                ResultRow {
                    start: w.start,
                    candidates: best_hits(cd_sources(w.text, near, below)),
                },
            )
        },
        None => None,
    }
}

fn pick_tier(rows: &Vec<Scored>, t: u8) -> (r: Vec<CompletionCandidate>)
    ensures
        r.deep_view() == of_tier(rows.deep_view(), t as int),
{
    let ghost all = rows.deep_view();
    let mut out: Vec<CompletionCandidate> = Vec::new();
    let mut i: usize = 0;
    assert(out.deep_view() =~= of_tier(all.take(0), t as int));
    while i < rows.len()
        invariant
            i <= rows@.len(),
            all == rows.deep_view(),
            out.deep_view() == of_tier(all.take(i as int), t as int),
        decreases rows@.len() - i,
    {
        let ghost before = out.deep_view();
        proof {
            assert(all.take(i + 1).drop_last() =~= all.take(i as int));
            assert(all.take(i + 1).last() == rows@[i as int].deep_view());
        }
        if match_tier(rows[i].score) == t {
            out.push(rows[i].candidate.clone());
            assert(out.deep_view() =~= before.push(all[i as int].candidate));
        }
        i = i + 1;
    }
    assert(all.take(i as int) =~= all);
    out
}

fn pick_source(sources: &Vec<Vec<Scored>>, t: u8) -> (r: Vec<CompletionCandidate>)
    ensures
        r.deep_view() == first_source(sources.deep_view(), t as int, 0),
{
    let ghost all = sources.deep_view();
    let mut i: usize = 0;
    while i < sources.len()
        invariant
            i <= sources@.len(),
            all == sources.deep_view(),
            first_source(all, t as int, 0) == first_source(all, t as int, i as int),
        decreases sources@.len() - i,
    {
        let hits = pick_tier(&sources[i], t);
        assert(all[i as int] == sources@[i as int].deep_view());
        assert(hits.deep_view().len() == hits@.len());
        if hits.len() > 0 {
            return hits;
        }
        i = i + 1;
    }
    let none: Vec<CompletionCandidate> = Vec::new();
    assert(none.deep_view() =~= Seq::empty());
    none
}

fn pick_best(sources: &Vec<Vec<Scored>>) -> (r: Vec<CompletionCandidate>)
    ensures
        r.deep_view() == best_hits(sources.deep_view()),
{
    let prefixes = pick_source(sources, 0);
    assert(prefixes.deep_view().len() == prefixes@.len());
    if prefixes.len() > 0 {
        return prefixes;
    }
    let parts = pick_source(sources, 1);
    assert(parts.deep_view().len() == parts@.len());
    if parts.len() > 0 {
        return parts;
    }
    pick_source(sources, 2)
}

fn gather_near(
    arg: &str,
    base: &Base,
    home: Option<&str>,
    bookmarks: &[String],
    recent_dirs: &[RecentDir],
    entries: &[DirEntry],
    windows: bool,
) -> (r: Vec<Vec<Scored>>)
    ensures
        r.deep_view() == near_sources(
            arg@,
            base.deep_view(),
            home.deep_view(),
            bookmarks.deep_view(),
            recent_dirs.deep_view(),
            entries.deep_view(),
            windows,
        ),
{
    let recent = if chars_of(arg).len() == 0 {
        let none: Vec<Scored> = Vec::new();
        assert(none.deep_view() =~= Seq::empty());
        none
    } else {
        complete_recent_dirs(arg, home, recent_dirs, windows)
    };
    let mut sources: Vec<Vec<Scored>> = Vec::new();
    sources.push(complete_bookmarks(arg, home, bookmarks, windows));
    sources.push(scored_paths(base, entries, true));
    sources.push(recent);
    assert(sources.deep_view() =~= near_sources(
        arg@,
        base.deep_view(),
        home.deep_view(),
        bookmarks.deep_view(),
        recent_dirs.deep_view(),
        entries.deep_view(),
        windows,
    ));
    sources
}

fn any_prefix(sources: &Vec<Vec<Scored>>) -> (r: bool)
    ensures
        r == exists|i: int, j: int|
            0 <= i < sources.deep_view().len() && 0 <= j < sources.deep_view()[i].len() && (
            #[trigger] sources.deep_view()[i][j]).score == 0,
{
    let ghost all = sources.deep_view();
    let mut i: usize = 0;
    while i < sources.len()
        invariant
            i <= sources@.len(),
            all == sources.deep_view(),
            forall|x: int, j: int|
                0 <= x < i && 0 <= j < all[x].len() ==> (#[trigger] all[x][j]).score != 0,
        decreases sources@.len() - i,
    {
        let mut j: usize = 0;
        assert(all[i as int] == sources@[i as int].deep_view());
        while j < sources[i].len()
            invariant
                i < sources@.len(),
                j <= sources@[i as int]@.len(),
                all == sources.deep_view(),
                all[i as int] == sources@[i as int].deep_view(),
                forall|y: int| 0 <= y < j ==> (#[trigger] all[i as int][y]).score != 0,
            decreases sources@[i as int]@.len() - j,
        {
            if sources[i][j].score == 0 {
                assert(all[i as int][j as int].score == 0);
                return true;
            }
            j = j + 1;
        }
        i = i + 1;
    }
    false
}

fn wants_search(arg: &[char], near: &Vec<Vec<Scored>>) -> (r: bool)
    ensures
        r == search_wanted(arg@, near.deep_view()),
{
    let bare = arg.len() > 0 && arg[0] != '~' && find(arg, Class::Either('/', '\\')).is_none();
    let hit = any_prefix(near);
    bare && !hit
}

/// The directory that is listed for the argument of `cd`.
pub open spec fn cd_listing(
    line: Seq<char>,
    pos: int,
    cwd: Seq<char>,
    home: Option<Seq<char>>,
    windows: bool,
) -> Option<Seq<char>> {
    match cd_word(line, pos) {
        Some(w) => Some(base_of(w.text, cwd, home, windows).base_dir),
        None => None,
    }
}

/// The directory that is listed for a word that is written as a path.
pub open spec fn path_listing(
    line: Seq<char>,
    pos: int,
    cwd: Seq<char>,
    home: Option<Seq<char>>,
    windows: bool,
) -> Option<Seq<char>> {
    match last_word(line, pos) {
        Some(w) => if path_like(w.text) {
            Some(base_of(w.text, cwd, home, windows).base_dir)
        } else {
            None
        },
        None => None,
    }
}

/// What is searched for below the bookmarks.
pub open spec fn search_name(
    line: Seq<char>,
    pos: int,
    cwd: Seq<char>,
    home: Option<Seq<char>>,
    bookmarks: Seq<Seq<char>>,
    recent: Seq<RecentRow>,
    entries: Seq<EntryRow>,
    windows: bool,
) -> Option<Seq<char>> {
    match cd_word(line, pos) {
        Some(w) => if search_wanted(
            w.text,
            near_sources(
                w.text,
                base_of(w.text, cwd, home, windows),
                home,
                bookmarks,
                recent,
                entries,
                windows,
            ),
        ) {
            Some(w.text)
        } else {
            None
        },
        None => None,
    }
}

/// The directory to read before [`complete_cd_path`], if `cd` is being typed.
pub fn cd_listing_dir(
    line: &str,
    pos: usize,
    cwd: &str,
    home: Option<&str>,
    windows: bool,
) -> (r: Option<String>)
    ensures
        r.deep_view() == match cd_word(line@, pos as int) {
            Some(w) => Some(base_of(w.text, cwd@, home.deep_view(), windows).base_dir),
            None => None,
        },
        r.deep_view() == cd_listing(line@, pos as int, cwd@, home.deep_view(), windows),
{
    match find_cd_word(line, pos) {
        Some(w) => Some(completion_base(&w.text, cwd, home, windows).base_dir),
        None => None,
    }
}

/// The bare name to search below the bookmarks for, where the nearer sources
/// leave something to search for. `entries` is the listing of the directory
/// that [`cd_listing_dir`] names.
pub fn cd_search_name(
    line: &str,
    pos: usize,
    cwd: &str,
    home: Option<&str>,
    bookmarks: &[String],
    recent_dirs: &[RecentDir],
    entries: &[DirEntry],
    windows: bool,
) -> (r: Option<String>)
    ensures
        r.deep_view() == match cd_word(line@, pos as int) {
            Some(w) => if search_wanted(
                w.text,
                near_sources(
                    w.text,
                    base_of(w.text, cwd@, home.deep_view(), windows),
                    home.deep_view(),
                    bookmarks.deep_view(),
                    recent_dirs.deep_view(),
                    entries.deep_view(),
                    windows,
                ),
            ) {
                Some(w.text)
            } else {
                None
            },
            None => None,
        },
        r.deep_view() == search_name(
            line@,
            pos as int,
            cwd@,
            home.deep_view(),
            bookmarks.deep_view(),
            recent_dirs.deep_view(),
            entries.deep_view(),
            windows,
        ),
{
    match find_cd_word(line, pos) {
        Some(w) => {
            let arg = text_of(&w.text);
            let base = completion_base(&w.text, cwd, home, windows);
            let near = gather_near(&arg, &base, home, bookmarks, recent_dirs, entries, windows);
            if wants_search(&w.text, &near) {
                Some(arg)
            } else {
                None
            }
        },
        None => None,
    }
}

/// What Tab offers for the argument of `cd`: bookmarks, then directories on
/// disk, then recent directories, then directories below the bookmarks, the
/// quality of the match counting first.
///
/// `entries` is the listing of the directory that [`cd_listing_dir`] names, and
/// `below` what a [`BookmarkWalk`] found for the name of [`cd_search_name`].
pub fn complete_cd_path(
    line: &str,
    pos: usize,
    cwd: &str,
    home: Option<&str>,
    bookmarks: &[String],
    recent_dirs: &[RecentDir],
    entries: &[DirEntry],
    below: Vec<Scored>,
    windows: bool,
) -> (r: Option<CompletionResult>)
    ensures
        r.deep_view() == cd_completion(
            line@,
            pos as int,
            cwd@,
            home.deep_view(),
            bookmarks.deep_view(),
            recent_dirs.deep_view(),
            entries.deep_view(),
            below.deep_view(),
            windows,
        ),
{
    match find_cd_word(line, pos) {
        Some(w) => {
            let arg = text_of(&w.text);
            let base = completion_base(&w.text, cwd, home, windows);
            let mut sources = gather_near(
                &arg,
                &base,
                home,
                bookmarks,
                recent_dirs,
                entries,
                windows,
            );
            let ghost near = sources.deep_view();
            if wants_search(&w.text, &sources) {
                sources.push(below);
                assert(sources.deep_view() =~= near.push(below.deep_view()));
            }
            Some(CompletionResult { start: w.start, candidates: pick_best(&sources) })
        },
        None => None,
    }
}

// ---- completion of explicit paths ----

pub open spec fn candidates_of(rows: Seq<ScoredRow>) -> Seq<CandidateRow> {
    rows.map_values(|c: ScoredRow| c.candidate)
}

/// What Tab offers for a word that is written as a path.
pub open spec fn path_completion(
    line: Seq<char>,
    pos: int,
    cwd: Seq<char>,
    home: Option<Seq<char>>,
    entries: Seq<EntryRow>,
    windows: bool,
) -> Option<ResultRow> {
    match last_word(line, pos) {
        Some(w) => if path_like(w.text) {
            Some(
                ResultRow {
                    start: w.start,
                    candidates: candidates_of(
                        ranked(entry_hits(base_of(w.text, cwd, home, windows), entries, false)),
                    ),
                },
            )
        } else {
            None
        },
        None => None,
    }
}

/// The directory to read before [`complete_command_path`], if the word at the
/// cursor is written as a path.
pub fn command_listing_dir(
    line: &str,
    pos: usize,
    cwd: &str,
    home: Option<&str>,
    windows: bool,
) -> (r: Option<
    String,
>)
    ensures
        r.deep_view() == match last_word(line@, pos as int) {
            Some(w) => if path_like(w.text) {
                Some(base_of(w.text, cwd@, home.deep_view(), windows).base_dir)
            } else {
                None
            },
            None => None,
        },
        r.deep_view() == path_listing(line@, pos as int, cwd@, home.deep_view(), windows),
{
    match find_last_word(line, pos) {
        Some(w) => if is_explicit_path(&w.text) {
            Some(completion_base(&w.text, cwd, home, windows).base_dir)
        } else {
            None
        },
        None => None,
    }
}

fn complete_paths(b: &Base, entries: &[DirEntry], dirs_only: bool) -> (r: Vec<CompletionCandidate>)
    ensures
        r.deep_view() == candidates_of(
            ranked(entry_hits(b.deep_view(), entries.deep_view(), dirs_only)),
        ),
{
    let rows = scored_paths(b, entries, dirs_only);
    let ghost all = candidates_of(rows.deep_view());
    let mut out: Vec<CompletionCandidate> = Vec::new();
    let mut i: usize = 0;
    assert(out.deep_view() =~= all.take(0));
    while i < rows.len()
        invariant
            i <= rows@.len(),
            all == candidates_of(rows.deep_view()),
            out.deep_view() == all.take(i as int),
        decreases rows@.len() - i,
    {
        let ghost before = out.deep_view();
        out.push(rows[i].candidate.clone());
        assert(out.deep_view() =~= before.push(all[i as int]));
        assert(all.take(i + 1) =~= all.take(i as int).push(all[i as int]));
        i = i + 1;
    }
    assert(all.take(i as int) =~= all);
    out
}

/// What Tab offers for a word written as a path, such as `./ins`: files as well
/// as directories. `entries` is the listing of the directory that
/// [`command_listing_dir`] names.
pub fn complete_command_path(
    line: &str,
    pos: usize,
    cwd: &str,
    home: Option<&str>,
    entries: &[DirEntry],
    windows: bool,
) -> (r: Option<CompletionResult>)
    ensures
        r.deep_view() == path_completion(
            line@,
            pos as int,
            cwd@,
            home.deep_view(),
            entries.deep_view(),
            windows,
        ),
{
    match find_last_word(line, pos) {
        Some(w) => if is_explicit_path(&w.text) {
            let base = completion_base(&w.text, cwd, home, windows);
            let candidates = complete_paths(&base, entries, false);
            Some(CompletionResult { start: w.start, candidates })
        } else {
            None
        },
        None => None,
    }
}

// ---- applying a completion ----

/// How many characters two texts have in common at their start.
pub open spec fn common_len(a: Seq<char>, b: Seq<char>) -> nat
    decreases a.len(),
{
    if a.len() > 0 && b.len() > 0 && a[0] == b[0] {
        1 + common_len(a.skip(1), b.skip(1))
    } else {
        0
    }
}

/// What all the replacements start with.
pub open spec fn shared_prefix(cs: Seq<CandidateRow>) -> Seq<char>
    decreases cs.len(),
{
    if cs.len() == 0 {
        Seq::empty()
    } else if cs.len() == 1 {
        cs[0].replacement
    } else {
        let p = shared_prefix(cs.drop_last());
        p.take(common_len(p, cs.last().replacement) as int)
    }
}

/// The input after a completion: the stretch is replaced by what all candidates
/// start with. Nothing where that changes nothing, or the positions do not fit.
pub open spec fn applied(line: Seq<char>, pos: int, c: ResultRow) -> Option<Seq<char>> {
    let p = shared_prefix(c.candidates);
    if c.candidates.len() == 0 || c.start > pos {
        None
    } else {
        match (chars_before(line, c.start), chars_before(line, pos)) {
            (Some(i), Some(j)) => if p == line.subrange(i, j) {
                None
            } else {
                Some(line.take(i) + p + line.skip(j))
            },
            _ => None,
        }
    }
}

fn common_length(a: &[char], b: &[char]) -> (n: usize)
    ensures
        n == common_len(a@, b@),
        n <= a@.len(),
{
    let mut n: usize = 0;
    assert(a@.skip(0) =~= a@ && b@.skip(0) =~= b@);
    while n < a.len() && n < b.len() && a[n] == b[n]
        invariant
            n <= a@.len(),
            n <= b@.len(),
            common_len(a@, b@) == n + common_len(a@.skip(n as int), b@.skip(n as int)),
        decreases a@.len() - n,
    {
        proof {
            assert(a@.skip(n as int)[0] == a@[n as int]);
            assert(b@.skip(n as int)[0] == b@[n as int]);
            assert(a@.skip(n as int).skip(1) =~= a@.skip(n + 1));
            assert(b@.skip(n as int).skip(1) =~= b@.skip(n + 1));
        }
        n = n + 1;
    }
    proof {
        if n < a@.len() && n < b@.len() {
            assert(a@.skip(n as int)[0] == a@[n as int]);
            assert(b@.skip(n as int)[0] == b@[n as int]);
        }
    }
    n
}

fn shared(cs: &Vec<CompletionCandidate>) -> (r: Vec<char>)
    requires
        cs@.len() > 0,
    ensures
        r@ == shared_prefix(cs.deep_view()),
{
    let ghost all = cs.deep_view();
    let mut p = chars_of(&cs[0].replacement);
    let mut i: usize = 1;
    assert(all.take(1)[0] == all[0]);
    while i < cs.len()
        invariant
            1 <= i <= cs@.len(),
            all == cs.deep_view(),
            p@ == shared_prefix(all.take(i as int)),
        decreases cs@.len() - i,
    {
        let other = chars_of(&cs[i].replacement);
        let n = common_length(&p, &other);
        proof {
            assert(all.take(i + 1).drop_last() =~= all.take(i as int));
            assert(all.take(i + 1).last() == cs@[i as int].deep_view());
        }
        p = copied(upto(&p, n));
        i = i + 1;
    }
    assert(all.take(i as int) =~= all);
    p
}

proof fn lemma_chars_before_monotone(s: Seq<char>, a: int, b: int)
    requires
        0 <= a <= b,
        chars_before(s, a) is Some,
        chars_before(s, b) is Some,
    ensures
        0 <= chars_before(s, a)->0 <= chars_before(s, b)->0 <= s.len(),
    decreases s.len(),
{
    chars_before_is_exact(s, a);
    chars_before_is_exact(s, b);
    if a > 0 {
        lemma_chars_before_monotone(s.skip(1), a - width(s[0]), b - width(s[0]));
    }
}

/// Apply a completion to the input: the sole candidate, or what all of them
/// start with.
pub fn apply_completion(
    line: &str,
    pos: usize,
    completion: &CompletionResult,
) -> (r: Option<String>)
    ensures
        r.deep_view() == applied(line@, pos as int, completion.deep_view()),
{
    assert(completion.candidates.deep_view().len() == completion.candidates@.len());
    if completion.candidates.len() == 0 || completion.start > pos {
        return None;
    }
    let v = chars_of(line);
    let i = match char_index(&v, completion.start) {
        Some(i) => i,
        None => return None,
    };
    let j = match char_index(&v, pos) {
        Some(j) => j,
        None => return None,
    };
    proof {
        lemma_chars_before_monotone(v@, completion.start as int, pos as int);
    }
    let p = shared(&completion.candidates);
    let old_text = upto(from(&v, i), j - i);
    assert(old_text@ =~= v@.subrange(i as int, j as int));
    if crate::text::same(&p, old_text) {
        return None;
    }
    Some(text_of(upto(&v, i)).concat(&text_of(&p)).concat(&text_of(from(&v, j))))
}

// ---- the search below the bookmarks ----

/// How many levels below a bookmark the search goes.
pub const DESCENDANT_MAX_DEPTH: usize = 4;

/// How long the search may take, in milliseconds.
pub const DESCENDANT_TIME_BUDGET_MS: u64 = 300;

/// Directories that the search does not enter: what builds and package managers
/// leave behind is large and nothing to go to.
pub open spec fn skipped_name(name: Seq<char>) -> bool {
    ||| name == "node_modules"@
    ||| name == "target"@
    ||| name == "__pycache__"@
    ||| name == "venv"@
    ||| name == "site-packages"@
}

/// What a path is known by in the search. Windows does not tell letter case.
pub open spec fn visit_name(p: Seq<char>, windows: bool) -> Seq<char> {
    if windows {
        lowercase(p)
    } else {
        p
    }
}

/// A directory that the search found, and how far below a bookmark.
#[derive(Debug)]
pub struct Found {
    pub scored: Scored,
    pub depth: usize,
}

pub ghost struct FoundRow {
    pub scored: ScoredRow,
    pub depth: int,
}

impl DeepView for Found {
    type V = FoundRow;

    open spec fn deep_view(&self) -> FoundRow {
        FoundRow { scored: self.scored.deep_view(), depth: self.depth as int }
    }
}

/// A directory still to read, and how far below a bookmark it is.
#[derive(Debug)]
pub struct Pending {
    pub path: String,
    pub depth: usize,
}

pub ghost struct PendingRow {
    pub path: Seq<char>,
    pub depth: int,
}

impl DeepView for Pending {
    type V = PendingRow;

    open spec fn deep_view(&self) -> PendingRow {
        PendingRow { path: self.path@, depth: self.depth as int }
    }
}

/// A search for directories below the bookmarks, breadth first and over all
/// bookmarks together, so that a directory under two of them is visited once, at
/// its shallowest depth.
///
/// [`BookmarkWalk::next_dir`] hands out a directory, the caller reads it, and
/// [`BookmarkWalk::take_listing`] takes in what is there.
#[derive(Debug)]
pub struct BookmarkWalk {
    pub visited: Vec<String>,
    pub queue: Vec<Pending>,
    pub found: Vec<Found>,
    /// The depth of the first prefix match. Nothing deeper can be offered.
    pub prefix_depth: Option<usize>,
    pub windows: bool,
}

pub ghost struct WalkRow {
    pub visited: Seq<Seq<char>>,
    pub queue: Seq<PendingRow>,
    pub found: Seq<FoundRow>,
    pub prefix_depth: Option<int>,
    pub windows: bool,
}

impl DeepView for BookmarkWalk {
    type V = WalkRow;

    open spec fn deep_view(&self) -> WalkRow {
        WalkRow {
            visited: self.visited.deep_view(),
            queue: self.queue.deep_view(),
            found: self.found.deep_view(),
            prefix_depth: crate::nav::as_position(self.prefix_depth),
            windows: self.windows,
        }
    }
}

impl WalkRow {
    /// Everything to read is above the deepest level.
    pub open spec fn shallow(self) -> bool {
        forall|i: int|
            0 <= i < self.queue.len() ==> 0 <= (#[trigger] self.queue[i]).depth
                < DESCENDANT_MAX_DEPTH
    }

    /// The bookmarks themselves are no news, and count as visited.
    pub open spec fn started(bookmarks: Seq<Seq<char>>, windows: bool) -> WalkRow {
        WalkRow {
            visited: bookmarks.map_values(|p: Seq<char>| visit_name(p, windows)),
            queue: bookmarks.map_values(|p: Seq<char>| PendingRow { path: p, depth: 0 }),
            found: Seq::empty(),
            prefix_depth: None,
            windows,
        }
    }

    /// The search is over: nothing is left to read, or nothing that could still
    /// be offered.
    pub open spec fn over(self) -> bool {
        self.queue.len() == 0 || (self.prefix_depth is Some && self.queue[0].depth
            >= self.prefix_depth->0)
    }

    /// The next directory to read, and what is left of the search then.
    pub open spec fn advanced(self) -> (Option<PendingRow>, WalkRow) {
        if self.over() {
            (None, self)
        } else {
            (Some(self.queue[0]), WalkRow { queue: self.queue.skip(1), ..self })
        }
    }

    /// After one entry of a directory at `depth`.
    pub open spec fn after_entry(
        self,
        arg: Seq<char>,
        home: Option<Seq<char>>,
        depth: int,
        e: EntryRow,
    ) -> WalkRow {
        let key = visit_name(e.path, self.windows);
        if e.is_dir != Some(true) || (e.name.len() > 0 && e.name[0] == '.') || (self.windows
            && e.hidden) || skipped_name(e.name) || self.visited.contains(key) {
            self
        } else {
            let score = match_of(arg, e.name);
            let hit = score is Some && score->0 < SUBSEQ_SCORE;
            let shown = tilded(e.path, home, self.windows);
            WalkRow {
                visited: self.visited.push(key),
                queue: if depth + 1 < DESCENDANT_MAX_DEPTH {
                    self.queue.push(PendingRow { path: e.path, depth: depth + 1 })
                } else {
                    self.queue
                },
                found: if hit {
                    self.found.push(
                        FoundRow {
                            scored: ScoredRow {
                                score: score->0,
                                candidate: CandidateRow { display: shown, replacement: shown },
                            },
                            depth: depth + 1,
                        },
                    )
                } else {
                    self.found
                },
                prefix_depth: if hit && score->0 == 0 && self.prefix_depth is None {
                    Some(depth + 1)
                } else {
                    self.prefix_depth
                },
                windows: self.windows,
            }
        }
    }

    /// After the entries of a directory at `depth`.
    pub open spec fn after_listing(
        self,
        arg: Seq<char>,
        home: Option<Seq<char>>,
        depth: int,
        es: Seq<EntryRow>,
    ) -> WalkRow
        decreases es.len(),
    {
        if es.len() == 0 {
            self
        } else {
            self.after_listing(arg, home, depth, es.drop_last()).after_entry(
                arg,
                home,
                depth,
                es.last(),
            )
        }
    }
}

/// Better matches come first, and among equals shallower ones.
pub open spec fn found_lt(a: FoundRow, b: FoundRow) -> bool {
    tier(a.scored.score) < tier(b.scored.score) || (tier(a.scored.score) == tier(b.scored.score)
        && a.depth < b.depth)
}

/// Nothing that was found is better than entry `i`.
pub open spec fn unbeaten(found: Seq<FoundRow>, i: int) -> bool {
    forall|j: int| 0 <= j < found.len() ==> !found_lt(#[trigger] found[j], found[i])
}

/// What the search offers: of what it found, the shallowest matches of the best
/// quality.
pub open spec fn walk_result(found: Seq<FoundRow>) -> Seq<ScoredRow> {
    let keep = picked(found.len(), |i: int| unbeaten(found, i));
    ranked(Seq::new(keep.len(), |k: int| found[keep[k]].scored))
}

fn visit_key(p: &str, windows: bool) -> (r: String)
    ensures
        r@ == visit_name(p@, windows),
{
    if windows {
        to_lower(p)
    } else {
        p.to_owned()
    }
}

fn has_text(list: &Vec<String>, s: &String) -> (r: bool)
    ensures
        r == list.deep_view().contains(s@),
{
    let ghost all = list.deep_view();
    let mut i: usize = 0;
    while i < list.len()
        invariant
            i <= list@.len(),
            all == list.deep_view(),
            forall|j: int| 0 <= j < i ==> #[trigger] all[j] != s@,
        decreases list@.len() - i,
    {
        if list[i] == *s {
            assert(all[i as int] == s@);
            return true;
        }
        i = i + 1;
    }
    false
}

fn skips(name: &str) -> (r: bool)
    ensures
        r == skipped_name(name@),
{
    same_text(name, "node_modules") || same_text(name, "target") || same_text(name, "__pycache__")
        || same_text(name, "venv") || same_text(name, "site-packages")
}

fn is_hidden(e: &DirEntry, windows: bool) -> (r: bool)
    ensures
        r == ((e.name@.len() > 0 && e.name@[0] == '.') || (windows && e.hidden)),
{
    let name = chars_of(&e.name);
    (name.len() > 0 && name[0] == '.') || (windows && e.hidden)
}

impl BookmarkWalk {
    /// A search that has not read anything yet.
    pub fn new(bookmarks: &[String], windows: bool) -> (r: BookmarkWalk)
        ensures
            r.deep_view() == WalkRow::started(bookmarks.deep_view(), windows),
            r.deep_view().shallow(),
    {
        let ghost ps = bookmarks.deep_view();
        let ghost start = WalkRow::started(ps, windows);
        let mut visited: Vec<String> = Vec::new();
        let mut queue: Vec<Pending> = Vec::new();
        let mut i: usize = 0;
        assert(visited.deep_view() =~= start.visited.take(0));
        assert(queue.deep_view() =~= start.queue.take(0));
        while i < bookmarks.len()
            invariant
                i <= bookmarks@.len(),
                ps == bookmarks.deep_view(),
                start == WalkRow::started(ps, windows),
                visited.deep_view() == start.visited.take(i as int),
                queue.deep_view() == start.queue.take(i as int),
            decreases bookmarks@.len() - i,
        {
            let ghost v = visited.deep_view();
            let ghost q = queue.deep_view();
            visited.push(visit_key(&bookmarks[i], windows));
            queue.push(Pending { path: bookmarks[i].clone(), depth: 0 });
            proof {
                assert(visited.deep_view() =~= v.push(start.visited[i as int]));
                assert(queue.deep_view() =~= q.push(start.queue[i as int]));
                assert(start.visited.take(i + 1) =~= v.push(start.visited[i as int]));
                assert(start.queue.take(i + 1) =~= q.push(start.queue[i as int]));
            }
            i = i + 1;
        }
        assert(start.visited.take(i as int) =~= start.visited);
        assert(start.queue.take(i as int) =~= start.queue);
        let found: Vec<Found> = Vec::new();
        assert(found.deep_view() =~= Seq::empty());
        BookmarkWalk { visited, queue, found, prefix_depth: None, windows }
    }

    /// The next directory to read, or `None` when the search is over.
    pub fn next_dir(&mut self) -> (r: Option<Pending>)
        requires
            old(self).deep_view().shallow(),
        ensures
            (r.deep_view(), final(self).deep_view()) == old(self).deep_view().advanced(),
            r is None == old(self).deep_view().over(),
            match r {
                None => final(self).deep_view() == old(self).deep_view(),
                Some(d) => d.deep_view() == old(self).deep_view().queue[0] && d.depth
                    < DESCENDANT_MAX_DEPTH && final(self).deep_view() == (WalkRow {
                    queue: old(self).deep_view().queue.skip(1),
                    ..old(self).deep_view()
                }),
            },
            final(self).deep_view().shallow(),
    {
        let ghost q = self.queue.deep_view();
        assert(q.len() == self.queue@.len());
        if self.queue.len() == 0 {
            return None;
        }
        assert(q[0] == self.queue@[0].deep_view());
        if let Some(d) = self.prefix_depth {
            if self.queue[0].depth >= d {
                return None;
            }
        }
        let next = self.queue.remove(0);
        assert(self.queue.deep_view() =~= q.skip(1));
        Some(next)
    }

    fn take_entry(&mut self, arg: &str, home: Option<&str>, depth: usize, e: &DirEntry)
        requires
            old(self).deep_view().shallow(),
            depth < DESCENDANT_MAX_DEPTH,
        ensures
            final(self).deep_view() == old(self).deep_view().after_entry(
                arg@,
                home.deep_view(),
                depth as int,
                e.deep_view(),
            ),
            final(self).deep_view().shallow(),
    {
        let ghost was = self.deep_view();
        let is_dir = match e.is_dir {
            Some(d) => d,
            None => false,
        };
        if !is_dir || is_hidden(e, self.windows) || skips(&e.name) {
            return;
        }
        let key = visit_key(&e.path, self.windows);
        if has_text(&self.visited, &key) {
            return;
        }
        self.visited.push(key);
        assert(self.visited.deep_view() =~= was.visited.push(key@));
        if let Some(score) = match_score(arg, &e.name) {
            if score < SUBSEQ_SCORE {
                if score == 0 && self.prefix_depth.is_none() {
                    self.prefix_depth = Some(depth + 1);
                }
                let shown = render_with_tilde(&e.path, home, self.windows);
                let f = Found {
                    scored: Scored {
                        score,
                        candidate: CompletionCandidate {
                            display: shown.clone(),
                            replacement: shown,
                        },
                    },
                    depth: depth + 1,
                };
                self.found.push(f);
                assert(self.found.deep_view() =~= was.found.push(f.deep_view()));
            }
        }
        if depth + 1 < DESCENDANT_MAX_DEPTH {
            self.queue.push(Pending { path: e.path.clone(), depth: depth + 1 });
            assert(self.queue.deep_view() =~= was.queue.push(
                PendingRow { path: e.path@, depth: depth + 1 },
            ));
        }
    }

    /// Take in the listing of a directory that [`BookmarkWalk::next_dir`] handed
    /// out. Prefixes of a name and parts of it count; scattered letters would
    /// match almost anything in a whole tree.
    pub fn take_listing(
        &mut self,
        arg: &str,
        home: Option<&str>,
        depth: usize,
        entries: &[DirEntry],
    )
        requires
            old(self).deep_view().shallow(),
            depth < DESCENDANT_MAX_DEPTH,
        ensures
            final(self).deep_view() == old(self).deep_view().after_listing(
                arg@,
                home.deep_view(),
                depth as int,
                entries.deep_view(),
            ),
            final(self).deep_view().shallow(),
    {
        let ghost es = entries.deep_view();
        let ghost was = self.deep_view();
        let mut i: usize = 0;
        assert(es.take(0).len() == 0);
        while i < entries.len()
            invariant
                i <= entries@.len(),
                es == entries.deep_view(),
                depth < DESCENDANT_MAX_DEPTH,
                self.deep_view() == was.after_listing(
                    arg@,
                    home.deep_view(),
                    depth as int,
                    es.take(i as int),
                ),
                self.deep_view().shallow(),
            decreases entries@.len() - i,
        {
            proof {
                assert(es.take(i + 1).drop_last() =~= es.take(i as int));
                assert(es.take(i + 1).last() == entries@[i as int].deep_view());
            }
            self.take_entry(arg, home, depth, &entries[i]);
            i = i + 1;
        }
        assert(es.take(i as int) =~= es);
    }

    fn is_unbeaten(&self, i: usize) -> (r: bool)
        requires
            i < self.found@.len(),
        ensures
            r == unbeaten(self.found.deep_view(), i as int),
    {
        let ghost all = self.found.deep_view();
        let t = match_tier(self.found[i].scored.score);
        let d = self.found[i].depth;
        assert(all[i as int] == self.found@[i as int].deep_view());
        let mut j: usize = 0;
        while j < self.found.len()
            invariant
                i < self.found@.len(),
                j <= self.found@.len(),
                all == self.found.deep_view(),
                t == tier(all[i as int].scored.score),
                d == all[i as int].depth,
                forall|x: int| 0 <= x < j ==> !found_lt(#[trigger] all[x], all[i as int]),
            decreases self.found@.len() - j,
        {
            let u = match_tier(self.found[j].scored.score);
            assert(all[j as int] == self.found@[j as int].deep_view());
            if u < t || (u == t && self.found[j].depth < d) {
                assert(found_lt(all[j as int], all[i as int]));
                return false;
            }
            j = j + 1;
        }
        true
    }

    /// What the search offers: the shallowest matches of the best quality. A
    /// deeper directory of the same name would only make the choice ambiguous.
    pub fn finish(&self) -> (r: Vec<Scored>)
        ensures
            r.deep_view() == walk_result(self.deep_view().found),
    {
        let ghost all = self.found.deep_view();
        let ghost f = |i: int| unbeaten(all, i);
        let mut out: Vec<Scored> = Vec::new();
        let mut i: usize = 0;
        while i < self.found.len()
            invariant
                i <= self.found@.len(),
                all == self.found.deep_view(),
                f == (|i: int| unbeaten(all, i)),
                out.deep_view() == Seq::new(
                    picked(i as nat, f).len(),
                    |k: int| all[picked(i as nat, f)[k]].scored,
                ),
            decreases self.found@.len() - i,
        {
            let ghost before = out.deep_view();
            if self.is_unbeaten(i) {
                out.push(self.found[i].scored.clone());
                assert(out.deep_view() =~= before.push(all[i as int].scored));
            }
            proof {
                let n = (i + 1) as nat;
                assert(out.deep_view() =~= Seq::new(
                    picked(n, f).len(),
                    |k: int| all[picked(n, f)[k]].scored,
                ));
            }
            i = i + 1;
        }
        sort_scored(&out)
    }
}

} // verus!
