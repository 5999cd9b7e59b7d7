//! What the Tab key offers and puts in, told by what is typed and what is there.

use crate::bytes::{byte_len, chars_before, chars_before_is_exact, lemma_byte_len_add, width};
use crate::completion_laws::shared_prefix_is_longest;
use crate::input_completion::{
    applied, base_of, best_hits, bookmark_hit, bookmark_hits, candidate_key, candidates_of,
    cd_completion, cd_listing, cd_sources, cd_word, entry_hit, entry_hits, first_source, last_word,
    match_of, near_sources, of_tier, path_completion, path_like, path_listing, ranked, recent_hit,
    recent_hits, search_name, shared_prefix, typed, CandidateRow, ResultRow, ScoredRow, WordRow,
};
use crate::lists::{picked, picked_is_exact};
use crate::order::{key_lt, order, order_is_stable_sort, text_lt};
use crate::path::{final_name, joined, path_eq, path_eq_is_equivalence};
use crate::path_laws::{lemma_joined_behind, lemma_name_behind, lemma_slash_behind};
use crate::state::RecentRow;
use crate::text::{
    first_at, is_white, lemma_first_at, lemma_rspan_is, lemma_span_is, lowercase, occurs_at, starts,
    Class,
};
use crate::util::{resolved, tilded, under_home, EntryRow};
use vstd::prelude::*;

verus! {

// ---- the parts of an argument ----

pub open spec fn is_slash(c: char) -> bool {
    c == '/' || c == '\\'
}

/// The last separator of an argument stands just before `k`, or there is none
/// and `k` is 0.
pub open spec fn cut(arg: Seq<char>, k: int) -> bool {
    &&& 0 <= k <= arg.len()
    &&& k > 0 ==> is_slash(arg[k - 1])
    &&& forall|x: int| k <= x < arg.len() ==> !is_slash(#[trigger] arg[x])
}

proof fn lemma_base(
    arg: Seq<char>,
    k: int,
    cwd: Seq<char>,
    home: Option<Seq<char>>,
    windows: bool,
)
    requires
        cut(arg, k),
    ensures
        base_of(arg, cwd, home, windows).dir_prefix == arg.take(k),
        base_of(arg, cwd, home, windows).leaf == arg.skip(k),
{
    let c = Class::Either('/', '\\');
    assert forall|i: int| arg.len() - (arg.len() - k) <= i < arg.len() implies c.has(
        #[trigger] arg[i],
    ) == false by {
        assert(!is_slash(arg[i]));
    }
    lemma_rspan_is(arg, c, false, (arg.len() - k) as nat);
    if k == 0 {
        assert(arg.take(0) =~= Seq::empty());
        assert(arg.skip(0) =~= arg);
    }
}

// ---- lists of candidates ----

/// `rows` are what `offer` makes of the numbers below `n`, each that it makes
/// anything of once: better matches before worse ones, equal ones by their name,
/// letter case aside, and those that are equal in that too in the order of the
/// numbers. `at` tells what number each row is of.
pub open spec fn offers_at(
    rows: Seq<ScoredRow>,
    n: int,
    offer: spec_fn(int) -> Option<ScoredRow>,
    at: Seq<int>,
) -> bool {
    &&& at.len() == rows.len()
    &&& forall|x: int|
        0 <= x < at.len() ==> 0 <= #[trigger] at[x] < n && offer(at[x]) == Some(rows[x])
    &&& forall|i: int| 0 <= i < n && (#[trigger] offer(i)) is Some ==> at.contains(i)
    &&& forall|x: int, y: int|
        0 <= x < y < at.len() ==> #[trigger] at[x] != #[trigger] at[y] && in_rank(
            rows[x],
            rows[y],
            at[x] < at[y],
        )
}

/// The first row may stand before the second.
pub open spec fn in_rank(a: ScoredRow, b: ScoredRow, first: bool) -> bool {
    let x = lowercase(a.candidate.display);
    let y = lowercase(b.candidate.display);
    a.score < b.score || (a.score == b.score && (text_lt(x, y) || (x == y && first)))
}

/// See [`offers_at`].
pub open spec fn offers(
    rows: Seq<ScoredRow>,
    n: int,
    offer: spec_fn(int) -> Option<ScoredRow>,
) -> bool {
    exists|at: Seq<int>| offers_at(rows, n, offer, at)
}

spec fn gathered(n: nat, offer: spec_fn(int) -> Option<ScoredRow>) -> Seq<ScoredRow> {
    let at = picked(n, |i: int| offer(i) is Some);
    Seq::new(at.len(), |x: int| offer(at[x])->0)
}

proof fn lemma_gathered(n: nat, offer: spec_fn(int) -> Option<ScoredRow>)
    requires
        n > 0,
    ensures
        gathered(n, offer) == (match offer(n - 1) {
            Some(c) => gathered((n - 1) as nat, offer).push(c),
            None => gathered((n - 1) as nat, offer),
        }),
{
    assert(gathered(n, offer) =~= (match offer(n - 1) {
        Some(c) => gathered((n - 1) as nat, offer).push(c),
        None => gathered((n - 1) as nat, offer),
    }));
}

proof fn lemma_ranked(n: nat, offer: spec_fn(int) -> Option<ScoredRow>)
    ensures
        offers(ranked(gathered(n, offer)), n as int, offer),
{
    let f = |i: int| offer(i) is Some;
    let at0 = picked(n, f);
    let rows = gathered(n, offer);
    let keys = rows.map_values(|c: ScoredRow| candidate_key(c));
    let o = order(keys);
    let all = ranked(rows);
    picked_is_exact(n, f);
    order_is_stable_sort(keys);
    assert(keys.len() == rows.len() == at0.len());
    let at = Seq::new(o.len(), |x: int| at0[o[x]]);
    assert(all.len() == o.len());
    assert forall|x: int| 0 <= x < at.len() implies 0 <= #[trigger] at[x] < n && offer(at[x])
        == Some(all[x]) by {
        let y = o[x];
        assert(0 <= y < at0.len());
        assert(f(at0[y]));
        assert(all[x] == rows[y]);
    }
    assert forall|i: int| 0 <= i < n && (#[trigger] offer(i)) is Some implies at.contains(i) by {
        assert(f(i));
        let y = choose|y: int| 0 <= y < at0.len() && at0[y] == i;
        assert(o.contains(y));
        let x = choose|x: int| 0 <= x < o.len() && o[x] == y;
        assert(at[x] == i);
    }
    assert forall|x: int, y: int| 0 <= x < y < at.len() implies #[trigger] at[x]
        != #[trigger] at[y] && in_rank(all[x], all[y], at[x] < at[y]) by {
        let a = o[x];
        let b = o[y];
        assert(a != b && !key_lt(keys[b], keys[a]) && (keys[a] == keys[b] ==> a < b));
        assert(all[x] == rows[a] && all[y] == rows[b]);
        assert(keys[a] == candidate_key(rows[a]) && keys[b] == candidate_key(rows[b]));
        if a < b {
            assert(at0[a] < at0[b]);
        } else {
            assert(at0[b] < at0[a]);
        }
        crate::order::lemma_text_total(keys[a].name, keys[b].name);
    }
    assert(offers_at(all, n as int, offer, at));
}

// ---- entries of a directory ----

/// What an entry is offered as for an argument whose last separator is before
/// `k`: what the argument says up to there, and the name of the entry. Where
/// files are offered too, a slash marks directories.
pub open spec fn entry_offer(
    arg: Seq<char>,
    k: int,
    e: EntryRow,
    dirs_only: bool,
) -> Option<ScoredRow> {
    let shown = if e.is_dir == Some(true) && !dirs_only {
        e.name.push('/')
    } else {
        e.name
    };
    match (e.is_dir, match_of(arg.skip(k), e.name)) {
        (Some(is_dir), Some(score)) => if is_dir || !dirs_only {
            Some(
                ScoredRow {
                    score,
                    candidate: CandidateRow { display: shown, replacement: arg.take(k) + shown },
                },
            )
        } else {
            None
        },
        _ => None,
    }
}

/// What each entry of a directory is offered as.
pub open spec fn entry_offers(
    arg: Seq<char>,
    k: int,
    es: Seq<EntryRow>,
    dirs_only: bool,
) -> spec_fn(int) -> Option<ScoredRow> {
    |i: int| entry_offer(arg, k, es[i], dirs_only)
}

proof fn lemma_entry_hits(
    arg: Seq<char>,
    k: int,
    cwd: Seq<char>,
    home: Option<Seq<char>>,
    windows: bool,
    es: Seq<EntryRow>,
    dirs_only: bool,
    m: int,
)
    requires
        cut(arg, k),
        0 <= m <= es.len(),
    ensures
        entry_hits(base_of(arg, cwd, home, windows), es.take(m), dirs_only) == gathered(
            m as nat,
            entry_offers(arg, k, es, dirs_only),
        ),
    decreases m,
{
    let b = base_of(arg, cwd, home, windows);
    let offer = entry_offers(arg, k, es, dirs_only);
    lemma_base(arg, k, cwd, home, windows);
    if m > 0 {
        lemma_entry_hits(arg, k, cwd, home, windows, es, dirs_only, m - 1);
        lemma_gathered(m as nat, offer);
        assert(es.take(m).drop_last() =~= es.take(m - 1));
        let e = es[m - 1];
        assert(es.take(m).last() == e);
        reveal_strlit("/");
        reveal_strlit("");
        assert(e.name + "/"@ =~= e.name.push('/'));
        assert(e.name + ""@ =~= e.name);
        assert(b.dir_prefix + e.name + "/"@ =~= arg.take(k) + e.name.push('/'));
        assert(b.dir_prefix + e.name + ""@ =~= arg.take(k) + e.name);
        assert(entry_hit(b, e, dirs_only) == entry_offer(arg, k, e, dirs_only));
    } else {
        assert(gathered(0, offer) =~= Seq::empty());
    }
}

/// For a word that is written as a path, Tab offers the entries of the directory
/// that the word names up to its last separator, files and directories, each
/// whose name matches what is behind that separator. What an entry is replaced
/// by keeps all of the word up to and with its last separator.
pub proof fn path_words_complete_in_place(
    line: Seq<char>,
    pos: int,
    cwd: Seq<char>,
    home: Option<Seq<char>>,
    es: Seq<EntryRow>,
    windows: bool,
    w: WordRow,
    k: int,
)
    requires
        last_word(line, pos) == Some(w),
        path_like(w.text),
        cut(w.text, k),
    ensures
        ({
            let r = path_completion(line, pos, cwd, home, es, windows);
            &&& r is Some
            &&& r->0.start == w.start
            &&& exists|rows: Seq<ScoredRow>| #[trigger]
                offers(
                    rows,
                    es.len() as int,
                    entry_offers(w.text, k, es, false),
                ) && r->0.candidates == Seq::new(rows.len(), |x: int| rows[x].candidate)
        }),
{
    let offer = entry_offers(w.text, k, es, false);
    lemma_entry_hits(w.text, k, cwd, home, windows, es, false, es.len() as int);
    assert(es.take(es.len() as int) =~= es);
    let rows = ranked(gathered(es.len(), offer));
    lemma_ranked(es.len(), offer);
    assert(candidates_of(rows) =~= Seq::new(rows.len(), |x: int| rows[x].candidate));
}

// ---- the argument of `cd` ----

/// What a bookmark is offered as: it goes by its last component, and is put in as
/// it is shown.
pub open spec fn bookmark_offers(
    arg: Seq<char>,
    home: Option<Seq<char>>,
    bookmarks: Seq<Seq<char>>,
    windows: bool,
) -> spec_fn(int) -> Option<ScoredRow> {
    |i: int|
        match final_name(bookmarks[i], windows) {
            Some(name) => match match_of(arg, name) {
                Some(score) => Some(
                    ScoredRow {
                        score,
                        candidate: CandidateRow {
                            display: name,
                            replacement: tilded(bookmarks[i], home, windows),
                        },
                    },
                ),
                None => None,
            },
            None => None,
        }
}

/// What a recent directory is offered as: by its last component, or else by its
/// whole path.
pub open spec fn recent_offers(
    arg: Seq<char>,
    home: Option<Seq<char>>,
    recent: Seq<RecentRow>,
    windows: bool,
) -> spec_fn(int) -> Option<ScoredRow> {
    |i: int|
        match final_name(recent[i].path, windows) {
            Some(name) => {
                let by_name = match_of(arg, name);
                let by_path = match_of(arg, recent[i].path);
                if by_name is Some || by_path is Some {
                    Some(
                        ScoredRow {
                            score: if by_name is Some {
                                by_name->0
                            } else {
                                by_path->0
                            },
                            candidate: CandidateRow {
                                display: name,
                                replacement: tilded(recent[i].path, home, windows),
                            },
                        },
                    )
                } else {
                    None
                }
            },
            None => None,
        }
}

/// 0 for a prefix, 1 for a part of a name, 2 for scattered letters.
pub open spec fn quality(score: int) -> int {
    if score == 0 {
        0
    } else if score < 1000 {
        1
    } else {
        2
    }
}

/// `cs` are the candidates of one quality among `rows`, all of them and in their
/// order.
pub open spec fn all_of_quality(cs: Seq<CandidateRow>, rows: Seq<ScoredRow>, t: int) -> bool {
    exists|at: Seq<int>|
        {
            &&& #[trigger] at.len() == cs.len()
            &&& forall|x: int|
                0 <= x < at.len() ==> 0 <= #[trigger] at[x] < rows.len() && quality(
                    rows[at[x]].score,
                ) == t && rows[at[x]].candidate == cs[x]
            &&& forall|x: int, y: int|
                0 <= x < y < at.len() ==> #[trigger] at[x] < #[trigger] at[y]
            &&& forall|i: int|
                0 <= i < rows.len() && quality((#[trigger] rows[i]).score) == t ==> at.contains(i)
        }
}

/// `cs` is what is offered from some sources: all matches of the best quality
/// that any of them has, from the first of them that has it.
pub open spec fn best_of(cs: Seq<CandidateRow>, sources: Seq<Seq<ScoredRow>>) -> bool {
    if forall|s: int| 0 <= s < sources.len() ==> (#[trigger] sources[s]).len() == 0 {
        cs.len() == 0
    } else {
        exists|s: int, t: int|
            {
                &&& 0 <= s < sources.len()
                &&& #[trigger] all_of_quality(cs, sources[s], t)
                &&& cs.len() > 0
                &&& forall|i: int, j: int|
                    0 <= i < sources.len() && 0 <= j < sources[i].len() ==> quality(
                        (#[trigger] sources[i][j]).score,
                    ) > t || (quality(sources[i][j].score) == t && i >= s)
            }
    }
}

proof fn lemma_bookmark_hits(
    arg: Seq<char>,
    home: Option<Seq<char>>,
    bookmarks: Seq<Seq<char>>,
    windows: bool,
    m: int,
)
    requires
        0 <= m <= bookmarks.len(),
    ensures
        bookmark_hits(arg, home, bookmarks.take(m), windows) == gathered(
            m as nat,
            bookmark_offers(arg, home, bookmarks, windows),
        ),
    decreases m,
{
    let offer = bookmark_offers(arg, home, bookmarks, windows);
    if m > 0 {
        lemma_bookmark_hits(arg, home, bookmarks, windows, m - 1);
        lemma_gathered(m as nat, offer);
        assert(bookmarks.take(m).drop_last() =~= bookmarks.take(m - 1));
        assert(bookmarks.take(m).last() == bookmarks[m - 1]);
        assert(bookmark_hit(arg, home, bookmarks[m - 1], windows) == offer(m - 1));
    } else {
        assert(gathered(0, offer) =~= Seq::empty());
    }
}

proof fn lemma_recent_hits(
    arg: Seq<char>,
    home: Option<Seq<char>>,
    recent: Seq<RecentRow>,
    windows: bool,
    m: int,
)
    requires
        0 <= m <= recent.len(),
    ensures
        recent_hits(arg, home, recent.take(m), windows) == gathered(
            m as nat,
            recent_offers(arg, home, recent, windows),
        ),
    decreases m,
{
    let offer = recent_offers(arg, home, recent, windows);
    if m > 0 {
        lemma_recent_hits(arg, home, recent, windows, m - 1);
        lemma_gathered(m as nat, offer);
        assert(recent.take(m).drop_last() =~= recent.take(m - 1));
        assert(recent.take(m).last() == recent[m - 1]);
        assert(recent_hit(arg, home, recent[m - 1].path, windows) == offer(m - 1));
    } else {
        assert(gathered(0, offer) =~= Seq::empty());
    }
}

proof fn lemma_of_quality(rows: Seq<ScoredRow>, t: int, m: int)
    requires
        0 <= m <= rows.len(),
    ensures
        ({
            let at = picked(m as nat, |i: int| quality(rows[i].score) == t);
            of_tier(rows.take(m), t) == Seq::new(at.len(), |x: int| rows[at[x]].candidate)
        }),
    decreases m,
{
    let f = |i: int| quality(rows[i].score) == t;
    let at = picked(m as nat, f);
    if m > 0 {
        lemma_of_quality(rows, t, m - 1);
        assert(rows.take(m).drop_last() =~= rows.take(m - 1));
        assert(rows.take(m).last() == rows[m - 1]);
        assert(of_tier(rows.take(m), t) =~= Seq::new(at.len(), |x: int| rows[at[x]].candidate));
    } else {
        assert(of_tier(rows.take(m), t) =~= Seq::new(at.len(), |x: int| rows[at[x]].candidate));
    }
}

proof fn lemma_tier_is_all(rows: Seq<ScoredRow>, t: int)
    ensures
        all_of_quality(of_tier(rows, t), rows, t),
        forall|i: int|
            0 <= i < rows.len() && quality((#[trigger] rows[i]).score) == t ==> of_tier(
                rows,
                t,
            ).len() > 0,
{
    let f = |i: int| quality(rows[i].score) == t;
    let at = picked(rows.len(), f);
    picked_is_exact(rows.len(), f);
    lemma_of_quality(rows, t, rows.len() as int);
    assert(rows.take(rows.len() as int) =~= rows);
    let cs = of_tier(rows, t);
    assert(at.len() == cs.len());
    assert forall|x: int| 0 <= x < at.len() implies 0 <= #[trigger] at[x] < rows.len() && quality(
        rows[at[x]].score,
    ) == t && rows[at[x]].candidate == cs[x] by {
        assert(f(at[x]));
    }
    assert forall|i: int| 0 <= i < rows.len() && quality((#[trigger] rows[i]).score)
        == t implies at.contains(i) && cs.len() > 0 by {
        assert(f(i));
    }
}

proof fn lemma_first_source(sources: Seq<Seq<ScoredRow>>, t: int, i: int)
    requires
        0 <= i,
    ensures
        first_source(sources, t, i).len() > 0 ==> exists|s: int|
            i <= s < sources.len() && first_source(sources, t, i) == #[trigger] of_tier(
                sources[s],
                t,
            ) && forall|x: int| i <= x < s ==> (#[trigger] of_tier(sources[x], t)).len() == 0,
        first_source(sources, t, i).len() == 0 ==> forall|s: int|
            i <= s < sources.len() ==> (#[trigger] of_tier(sources[s], t)).len() == 0,
    decreases sources.len() - i,
{
    if i < sources.len() && of_tier(sources[i], t).len() == 0 {
        lemma_first_source(sources, t, i + 1);
    }
}

proof fn lemma_best(sources: Seq<Seq<ScoredRow>>)
    ensures
        best_of(best_hits(sources), sources),
{
    let cs = best_hits(sources);
    assert forall|s: int, t: int| 0 <= s < sources.len() implies (#[trigger] of_tier(
        sources[s],
        t,
    )).len() > 0 <==> exists|j: int|
        0 <= j < sources[s].len() && quality((#[trigger] sources[s][j]).score) == t by {
        lemma_tier_is_all(sources[s], t);
        let rows = sources[s];
        if of_tier(rows, t).len() > 0 {
            let f = |i: int| quality(rows[i].score) == t;
            lemma_of_quality(rows, t, rows.len() as int);
            assert(rows.take(rows.len() as int) =~= rows);
            picked_is_exact(rows.len(), f);
            let at = picked(rows.len(), f);
            assert(f(at[0]));
        }
    }
    lemma_first_source(sources, 0, 0);
    lemma_first_source(sources, 1, 0);
    lemma_first_source(sources, 2, 0);
    if forall|s: int| 0 <= s < sources.len() ==> (#[trigger] sources[s]).len() == 0 {
        if cs.len() > 0 {
            let t: int = if first_source(sources, 0, 0).len() > 0 {
                0
            } else if first_source(sources, 1, 0).len() > 0 {
                1
            } else {
                2
            };
            let s = choose|s: int|
                0 <= s < sources.len() && first_source(sources, t, 0) == #[trigger] of_tier(
                    sources[s],
                    t,
                );
            assert(sources[s].len() == 0);
        }
    } else {
        let s0 = choose|s: int| 0 <= s < sources.len() && (#[trigger] sources[s]).len() != 0;
        let q0 = quality(sources[s0][0].score);
        assert(of_tier(sources[s0], q0).len() > 0);
        assert(first_source(sources, q0, 0).len() > 0);
        let t: int = if first_source(sources, 0, 0).len() > 0 {
            0
        } else if first_source(sources, 1, 0).len() > 0 {
            1
        } else {
            2
        };
        let s = choose|s: int|
            0 <= s < sources.len() && first_source(sources, t, 0) == #[trigger] of_tier(
                sources[s],
                t,
            ) && forall|x: int| 0 <= x < s ==> (#[trigger] of_tier(sources[x], t)).len() == 0;
        lemma_tier_is_all(sources[s], t);
        assert(cs == of_tier(sources[s], t));
        assert forall|i: int, j: int|
            0 <= i < sources.len() && 0 <= j < sources[i].len() implies quality(
            (#[trigger] sources[i][j]).score,
        ) > t || (quality(sources[i][j].score) == t && i >= s) by {
            let q = quality(sources[i][j].score);
            assert(of_tier(sources[i], q).len() > 0);
        }
        assert(all_of_quality(cs, sources[s], t));
    }
}

/// The argument is a name by itself: the search below the bookmarks is for it.
pub open spec fn is_name(arg: Seq<char>) -> bool {
    arg.len() > 0 && arg[0] != '~' && forall|x: int|
        0 <= x < arg.len() ==> !is_slash(#[trigger] arg[x])
}

/// How many recent directories count: none while nothing is typed.
pub open spec fn recent_count(arg: Seq<char>, recent: Seq<RecentRow>) -> int {
    if arg.len() == 0 {
        0
    } else {
        recent.len() as int
    }
}

/// No row is a prefix match.
pub open spec fn no_prefix(rows: Seq<ScoredRow>) -> bool {
    forall|j: int| 0 <= j < rows.len() ==> (#[trigger] rows[j]).score != 0
}

/// For the argument of `cd`, Tab offers from four sources: bookmarks, the
/// directories in the directory that the argument names up to its last separator,
/// recent directories where something is typed, and what was found below the
/// bookmarks, which counts only for a name by itself of which no other source
/// has a prefix match. The quality of a match counts first and the order of the
/// sources second. What a directory of the listing is replaced by keeps all of
/// the argument up to and with its last separator.
pub proof fn cd_arguments_complete_from_the_best_source(
    line: Seq<char>,
    pos: int,
    cwd: Seq<char>,
    home: Option<Seq<char>>,
    bookmarks: Seq<Seq<char>>,
    recent: Seq<RecentRow>,
    es: Seq<EntryRow>,
    below: Seq<ScoredRow>,
    windows: bool,
    w: WordRow,
    k: int,
)
    requires
        cd_word(line, pos) == Some(w),
        cut(w.text, k),
    ensures
        ({
            let r = cd_completion(
                line,
                pos,
                cwd,
                home,
                bookmarks,
                recent,
                es,
                below,
                windows,
            );
            &&& r is Some
            &&& r->0.start == w.start
            &&& exists|a: Seq<ScoredRow>, b: Seq<ScoredRow>, c: Seq<ScoredRow>|
                {
                    &&& #[trigger] offers(
                        a,
                        bookmarks.len() as int,
                        bookmark_offers(w.text, home, bookmarks, windows),
                    )
                    &&& #[trigger] offers(
                        b,
                        es.len() as int,
                        entry_offers(w.text, k, es, true),
                    )
                    &&& #[trigger] offers(
                        c,
                        recent_count(w.text, recent),
                        recent_offers(w.text, home, recent, windows),
                    )
                    &&& best_of(
                        r->0.candidates,
                        if is_name(w.text) && no_prefix(a) && no_prefix(b) && no_prefix(c) {
                            seq![a, b, c, below]
                        } else {
                            seq![a, b, c]
                        },
                    )
                }
        }),
{
    let arg = w.text;
    let a = ranked(gathered(bookmarks.len(), bookmark_offers(arg, home, bookmarks, windows)));
    let b = ranked(gathered(es.len(), entry_offers(arg, k, es, true)));
    let m = recent_count(arg, recent) as nat;
    let c = ranked(gathered(m, recent_offers(arg, home, recent, windows)));
    lemma_ranked(bookmarks.len(), bookmark_offers(arg, home, bookmarks, windows));
    lemma_ranked(es.len(), entry_offers(arg, k, es, true));
    lemma_ranked(m, recent_offers(arg, home, recent, windows));
    lemma_bookmark_hits(arg, home, bookmarks, windows, bookmarks.len() as int);
    lemma_entry_hits(arg, k, cwd, home, windows, es, true, es.len() as int);
    lemma_recent_hits(arg, home, recent, windows, recent.len() as int);
    assert(bookmarks.take(bookmarks.len() as int) =~= bookmarks);
    assert(es.take(es.len() as int) =~= es);
    assert(recent.take(recent.len() as int) =~= recent);
    if arg.len() == 0 {
        let at = choose|at: Seq<int>|
            offers_at(c, 0, recent_offers(arg, home, recent, windows), at);
        if c.len() > 0 {
            assert(0 <= at[0] < 0);
        }
        assert(c =~= Seq::empty());
    }
    let base = base_of(arg, cwd, home, windows);
    let near = near_sources(arg, base, home, bookmarks, recent, es, windows);
    assert(near =~= seq![a, b, c]);
    let k0 = Class::Either('/', '\\');
    assert(is_name(arg) == crate::input_completion::bare_name(arg)) by {
        crate::text::lemma_span(arg, k0, false);
        let n = crate::text::span(arg, k0, false);
        if n < arg.len() {
            assert(is_slash(arg[n as int]));
        } else {
            assert forall|x: int| 0 <= x < arg.len() implies !is_slash(#[trigger] arg[x]) by {
                assert(k0.has(arg[x]) == false);
            }
        }
    }
    let wanted = is_name(arg) && no_prefix(a) && no_prefix(b) && no_prefix(c);
    assert(wanted == crate::input_completion::search_wanted(arg, near)) by {
        assert(near[0] == a && near[1] == b && near[2] == c);
        if crate::input_completion::search_wanted(arg, near) {
            assert forall|j: int| 0 <= j < a.len() implies (#[trigger] a[j]).score != 0 by {
                assert(near[0][j].score != 0);
            }
            assert forall|j: int| 0 <= j < b.len() implies (#[trigger] b[j]).score != 0 by {
                assert(near[1][j].score != 0);
            }
            assert forall|j: int| 0 <= j < c.len() implies (#[trigger] c[j]).score != 0 by {
                assert(near[2][j].score != 0);
            }
        }
        if wanted {
            assert forall|i: int, j: int|
                0 <= i < near.len() && 0 <= j < near[i].len() implies (
            #[trigger] near[i][j]).score != 0 by {
                if i == 0 {
                    assert(a[j].score != 0);
                } else if i == 1 {
                    assert(b[j].score != 0);
                } else {
                    assert(c[j].score != 0);
                }
            }
        }
    }
    let sources = cd_sources(arg, near, below);
    lemma_best(sources);
    assert(near.push(below) =~= seq![a, b, c, below]);
}

// ---- what a replacement names ----

proof fn lemma_named(
    arg: Seq<char>,
    k: int,
    cwd: Seq<char>,
    home: Option<Seq<char>>,
    bookmarks: Seq<Seq<char>>,
    name: Seq<char>,
)
    requires
        cut(arg, k),
        k > 0 ==> arg[k - 1] == '/',
        name.len() > 0,
        name[0] != '/',
        k == 0 ==> name[0] != '~',
        home is Some ==> arg.take(k) != "~//"@ && arg.take(k) != "~\\/"@,
    ensures
        resolved(home, cwd, bookmarks, arg.take(k) + name, true, false).len() > 0,
        path_eq(
            resolved(home, cwd, bookmarks, arg.take(k) + name, true, false),
            joined(base_of(arg, cwd, home, false).base_dir, name, false),
            false,
        ),
        under_home(arg.take(k) + name) is Some || (arg.take(k) + name) != "~"@,
        (arg.take(k) + name).len() > 0,
{
    let c = Class::Either('/', '\\');
    reveal_strlit("~");
    reveal_strlit("~/");
    reveal_strlit("~\\");
    reveal_strlit("~//");
    reveal_strlit("~\\/");
    reveal_strlit("/");
    assert forall|i: int| arg.len() - (arg.len() - k) <= i < arg.len() implies c.has(
        #[trigger] arg[i],
    ) == false by {
        assert(!is_slash(arg[i]));
    }
    lemma_rspan_is(arg, c, false, (arg.len() - k) as nat);
    let rep = arg.take(k) + name;
    if k == 0 {
        assert(rep =~= name);
        assert(!starts(name, "~/"@) && !starts(name, "~\\"@)) by {
            if starts(name, "~/"@) {
                assert(name.take(2)[0] == '~');
            }
            if starts(name, "~\\"@) {
                assert(name.take(2)[0] == '~');
            }
        }
        assert(name != "~"@);
    } else {
        let i = k - 1;
        let q = arg.take(i);
        assert(arg.take(k) =~= q + "/"@);
        assert(rep =~= q + "/"@ + name);
        assert(rep[i] == '/' && rep.len() >= 2);
        let base = if i == 0 || arg[i - 1] == ':' {
            arg.take(k)
        } else {
            q
        };
        let dir = base_of(arg, cwd, home, false).base_dir;
        assert(dir == crate::input_completion::base_dir_of(base, cwd, home, false));
        if q != "~"@ {
            lemma_home_part(q, name);
        }
        if q == "~"@ {
            assert(rep.take(2) =~= "~/"@);
            assert(rep.skip(2) =~= name);
            assert(base == q);
            if home is Some {
                assert(resolved(home, cwd, bookmarks, rep, true, false) == joined(
                    home->0,
                    name,
                    false,
                ));
                lemma_not_shorter(home->0, name);
            } else {
                lemma_not_shorter(cwd, q);
                lemma_joined_behind(cwd, q, "/"@ + name);
                assert(q + ("/"@ + name) =~= rep);
                lemma_name_behind(dir, name);
                assert(dir + ("/"@ + name) =~= dir + "/"@ + name);
            }
        } else if i == 0 {
            assert(q =~= Seq::empty());
            assert(base =~= "/"@);
            lemma_joined_behind(cwd, "/"@, name);
            assert(rep =~= "/"@ + name);
            assert(joined(cwd, "/"@, false) =~= "/"@);
            assert(joined("/"@, name, false) =~= "/"@ + name);
            assert(under_home("/"@) is None) by {
                if starts("/"@, "~/"@) {
                }
            }
            assert(under_home(rep) is None) by {
                assert(rep.take(2)[0] == '/');
            }
        } else if arg[i - 1] == ':' {
            assert(base[i - 1] == ':');
            assert(base =~= q + "/"@);
            lemma_home_part(q, Seq::empty());
            assert(q + "/"@ + Seq::<char>::empty() =~= base);
            assert(base != "~"@ && base != "~/"@ && base != "~\\"@);
            match under_home(q) {
                Some(rest) => {
                    match home {
                        Some(h) => {
                            let r = rest + "/"@;
                            assert(rest + "/"@ + Seq::<char>::empty() =~= r);
                            lemma_joined_behind(h, r, name);
                            lemma_in_dir(h, r, name);
                        },
                        None => {
                            lemma_joined_behind(cwd, base, name);
                            assert(base + name =~= rep);
                            lemma_in_dir(cwd, base, name);
                        },
                    }
                },
                None => {
                    lemma_joined_behind(cwd, base, name);
                    assert(base + name =~= rep);
                    lemma_in_dir(cwd, base, name);
                },
            }
        } else {
            assert(q + ("/"@ + name) =~= rep);
            lemma_not_shorter(cwd, q);
            assert("~/"@.take(2) =~= "~/"@ && "~\\"@.take(2) =~= "~\\"@);
            assert(q.len() > 0);
            match under_home(q) {
                Some(rest) => {
                    if q == "~/"@ || q == "~\\"@ {
                        assert(arg.take(k) =~= "~//"@ || arg.take(k) =~= "~\\/"@);
                        assert(home is None);
                        lemma_joined_behind(cwd, q, "/"@ + name);
                    } else {
                        assert(rest.len() > 0) by {
                            if rest.len() == 0 {
                                assert(q =~= "~/"@ || q =~= "~\\"@);
                            }
                        }
                        match home {
                            Some(h) => {
                                lemma_not_shorter(h, rest);
                                lemma_joined_behind(h, rest, "/"@ + name);
                                assert(rest + ("/"@ + name) =~= rest + "/"@ + name);
                            },
                            None => {
                                lemma_joined_behind(cwd, q, "/"@ + name);
                            },
                        }
                    }
                },
                None => {
                    assert(dir == joined(cwd, q, false));
                    lemma_joined_behind(cwd, q, "/"@ + name);
                },
            }
            lemma_name_behind(dir, name);
            assert(dir + ("/"@ + name) =~= dir + "/"@ + name);
        }
    }
}

proof fn lemma_not_shorter(base: Seq<char>, rel: Seq<char>)
    ensures
        joined(base, rel, false).len() >= rel.len(),
{
}

/// What comes behind `~/` when more is written.
proof fn lemma_home_part(q: Seq<char>, name: Seq<char>)
    requires
        q != "~"@,
    ensures
        match under_home(q) {
            Some(rest) => under_home(q + "/"@ + name) == Some(rest + "/"@ + name),
            None => under_home(q + "/"@ + name) is None,
        },
{
    let s = q + "/"@ + name;
    reveal_strlit("~");
    reveal_strlit("~/");
    reveal_strlit("~\\");
    reveal_strlit("/");
    if q.len() >= 2 {
        assert(s.take(2) =~= q.take(2));
        assert(s.skip(2) =~= q.skip(2) + "/"@ + name);
    } else if q.len() == 1 {
        if s.len() >= 2 && s.take(2)[0] == '~' {
            assert(q =~= "~"@);
        }
    } else {
        if s.len() >= 2 {
            assert(s.take(2)[0] == '/');
        }
    }
}

/// Where a path ends with a separator, a name comes right behind it.
proof fn lemma_in_dir(base: Seq<char>, rel: Seq<char>, name: Seq<char>)
    requires
        rel.len() > 0,
        rel.last() == '/',
        name.len() > 0,
        name[0] != '/',
    ensures
        joined(joined(base, rel, false), name, false) == joined(base, rel, false) + name,
{
    let p = joined(base, rel, false);
    assert(p.last() == '/');
    assert(crate::path::body(name, false) =~= name);
}

/// The directory that is read for a word is the one that its entries are offered
/// from, and a search below the bookmarks is made just for a name by itself of
/// which none of the other sources has a prefix match.
pub proof fn what_is_read_is_what_is_offered(
    line: Seq<char>,
    pos: int,
    cwd: Seq<char>,
    home: Option<Seq<char>>,
    bookmarks: Seq<Seq<char>>,
    recent: Seq<RecentRow>,
    es: Seq<EntryRow>,
    windows: bool,
)
    ensures
        match cd_word(line, pos) {
            Some(w) => cd_listing(line, pos, cwd, home, windows) == Some(
                base_of(w.text, cwd, home, windows).base_dir,
            ),
            None => cd_listing(line, pos, cwd, home, windows) is None,
        },
        match last_word(line, pos) {
            Some(w) => path_listing(line, pos, cwd, home, windows) == (if path_like(w.text) {
                Some(base_of(w.text, cwd, home, windows).base_dir)
            } else {
                None
            }),
            None => path_listing(line, pos, cwd, home, windows) is None,
        },
        ({
            let name = search_name(line, pos, cwd, home, bookmarks, recent, es, windows);
            match cd_word(line, pos) {
                Some(w) => forall|k: int| #[trigger]
                    cut(w.text, k) ==> (name is Some ==> name->0 == w.text && is_name(w.text)) && (
                    is_name(w.text) ==> (name is None <==> exists|i: int|
                        has_prefix_match(w.text, k, home, bookmarks, recent, es, windows, i))),
                None => name is None,
            }
        }),
{
    if cd_word(line, pos) is Some {
        let arg = cd_word(line, pos)->0.text;
        let base = base_of(arg, cwd, home, windows);
        let near = near_sources(arg, base, home, bookmarks, recent, es, windows);
        let k0 = Class::Either('/', '\\');
        assert(is_name(arg) == crate::input_completion::bare_name(arg)) by {
            crate::text::lemma_span(arg, k0, false);
            let n = crate::text::span(arg, k0, false);
            if n < arg.len() {
                assert(is_slash(arg[n as int]));
            } else {
                assert forall|x: int| 0 <= x < arg.len() implies !is_slash(#[trigger] arg[x]) by {
                    assert(k0.has(arg[x]) == false);
                }
            }
        }
        assert forall|k: int| #[trigger] cut(arg, k) && is_name(arg) implies (
        crate::input_completion::search_wanted(arg, near) <==> !exists|i: int|
            has_prefix_match(arg, k, home, bookmarks, recent, es, windows, i)) by {
            lemma_wanted(arg, k, cwd, home, bookmarks, recent, es, windows);
        }
    }
}

/// Entry `i` of one of the near sources starts with what is typed.
pub open spec fn has_prefix_match(
    arg: Seq<char>,
    k: int,
    home: Option<Seq<char>>,
    bookmarks: Seq<Seq<char>>,
    recent: Seq<RecentRow>,
    es: Seq<EntryRow>,
    windows: bool,
    i: int,
) -> bool {
    ||| 0 <= i < bookmarks.len() && prefix_offer(bookmark_offers(arg, home, bookmarks, windows)(i))
    ||| 0 <= i < es.len() && prefix_offer(entry_offers(arg, k, es, true)(i))
    ||| 0 <= i < recent.len() && prefix_offer(recent_offers(arg, home, recent, windows)(i))
}

pub open spec fn prefix_offer(o: Option<ScoredRow>) -> bool {
    o is Some && o->0.score == 0
}

proof fn lemma_prefix_rows(n: nat, offer: spec_fn(int) -> Option<ScoredRow>)
    ensures
        no_prefix(ranked(gathered(n, offer))) <==> !exists|i: int|
            0 <= i < n && prefix_offer(#[trigger] offer(i)),
{
    let rows = ranked(gathered(n, offer));
    lemma_ranked(n, offer);
    let at = choose|at: Seq<int>| offers_at(rows, n as int, offer, at);
    if no_prefix(rows) {
        assert forall|i: int| 0 <= i < n implies !prefix_offer(#[trigger] offer(i)) by {
            if prefix_offer(offer(i)) {
                assert(at.contains(i));
                let x = choose|x: int| 0 <= x < at.len() && at[x] == i;
                assert(offer(at[x]) == Some(rows[x]));
                assert(rows[x].score != 0);
            }
        }
    } else {
        let j = choose|j: int| 0 <= j < rows.len() && (#[trigger] rows[j]).score == 0;
        assert(offer(at[j]) == Some(rows[j]));
        assert(prefix_offer(offer(at[j])));
    }
}

proof fn lemma_wanted(
    arg: Seq<char>,
    k: int,
    cwd: Seq<char>,
    home: Option<Seq<char>>,
    bookmarks: Seq<Seq<char>>,
    recent: Seq<RecentRow>,
    es: Seq<EntryRow>,
    windows: bool,
)
    requires
        cut(arg, k),
        is_name(arg),
        is_name(arg) == crate::input_completion::bare_name(arg),
    ensures
        crate::input_completion::search_wanted(
            arg,
            near_sources(
                arg,
                base_of(arg, cwd, home, windows),
                home,
                bookmarks,
                recent,
                es,
                windows,
            ),
        ) <==> !exists|i: int|
            has_prefix_match(arg, k, home, bookmarks, recent, es, windows, i),
{
    let fa = bookmark_offers(arg, home, bookmarks, windows);
    let fb = entry_offers(arg, k, es, true);
    let fc = recent_offers(arg, home, recent, windows);
    let a = ranked(gathered(bookmarks.len(), fa));
    let b = ranked(gathered(es.len(), fb));
    let c = ranked(gathered(recent.len(), fc));
    lemma_bookmark_hits(arg, home, bookmarks, windows, bookmarks.len() as int);
    lemma_entry_hits(arg, k, cwd, home, windows, es, true, es.len() as int);
    lemma_recent_hits(arg, home, recent, windows, recent.len() as int);
    assert(bookmarks.take(bookmarks.len() as int) =~= bookmarks);
    assert(es.take(es.len() as int) =~= es);
    assert(recent.take(recent.len() as int) =~= recent);
    lemma_prefix_rows(bookmarks.len(), fa);
    lemma_prefix_rows(es.len(), fb);
    lemma_prefix_rows(recent.len(), fc);
    let near = near_sources(
        arg,
        base_of(arg, cwd, home, windows),
        home,
        bookmarks,
        recent,
        es,
        windows,
    );
    assert(near =~= seq![a, b, c]);
    assert(near[0] == a && near[1] == b && near[2] == c);
    let wanted = crate::input_completion::search_wanted(arg, near);
    assert(wanted <==> no_prefix(a) && no_prefix(b) && no_prefix(c)) by {
        if wanted {
            assert forall|j: int| 0 <= j < a.len() implies (#[trigger] a[j]).score != 0 by {
                assert(near[0][j].score != 0);
            }
            assert forall|j: int| 0 <= j < b.len() implies (#[trigger] b[j]).score != 0 by {
                assert(near[1][j].score != 0);
            }
            assert forall|j: int| 0 <= j < c.len() implies (#[trigger] c[j]).score != 0 by {
                assert(near[2][j].score != 0);
            }
        }
        if no_prefix(a) && no_prefix(b) && no_prefix(c) {
            assert forall|i: int, j: int|
                0 <= i < near.len() && 0 <= j < near[i].len() implies (
            #[trigger] near[i][j]).score != 0 by {
                if i == 0 {
                    assert(a[j].score != 0);
                } else if i == 1 {
                    assert(b[j].score != 0);
                } else {
                    assert(c[j].score != 0);
                }
            }
        }
    }
    if exists|i: int| has_prefix_match(arg, k, home, bookmarks, recent, es, windows, i) {
        let i = choose|i: int|
            has_prefix_match(arg, k, home, bookmarks, recent, es, windows, i);
        assert(prefix_offer(fa(i)) || prefix_offer(fb(i)) || prefix_offer(fc(i)));
    } else {
        assert forall|i: int| 0 <= i < bookmarks.len() implies !prefix_offer(#[trigger] fa(i)) by {
            assert(!has_prefix_match(arg, k, home, bookmarks, recent, es, windows, i));
        }
        assert forall|i: int| 0 <= i < es.len() implies !prefix_offer(#[trigger] fb(i)) by {
            assert(!has_prefix_match(arg, k, home, bookmarks, recent, es, windows, i));
        }
        assert forall|i: int| 0 <= i < recent.len() implies !prefix_offer(#[trigger] fc(i)) by {
            assert(!has_prefix_match(arg, k, home, bookmarks, recent, es, windows, i));
        }
    }
}

/// What an entry is replaced by names that entry in the directory that was
/// listed, when it is taken as `cd` and `cat` take it; also with a slash behind
/// it. On POSIX systems, where `\\` is no separator, that is said of arguments
/// whose last separator is a slash.
pub proof fn replacements_name_the_entry(
    arg: Seq<char>,
    k: int,
    cwd: Seq<char>,
    home: Option<Seq<char>>,
    bookmarks: Seq<Seq<char>>,
    name: Seq<char>,
)
    requires
        cut(arg, k),
        k > 0 ==> arg[k - 1] == '/',
        name.len() > 0,
        name[0] != '/',
        k == 0 ==> name[0] != '~',
        home is Some ==> arg.take(k) != "~//"@ && arg.take(k) != "~\\/"@,
    ensures
        path_eq(
            resolved(home, cwd, bookmarks, arg.take(k) + name, true, false),
            joined(base_of(arg, cwd, home, false).base_dir, name, false),
            false,
        ),
        path_eq(
            resolved(home, cwd, bookmarks, arg.take(k) + name.push('/'), true, false),
            joined(base_of(arg, cwd, home, false).base_dir, name, false),
            false,
        ),
{
    let rep = arg.take(k) + name;
    lemma_named(arg, k, cwd, home, bookmarks, name);
    lemma_named(arg, k, cwd, home, bookmarks, name.push('/'));
    let dir = base_of(arg, cwd, home, false).base_dir;
    let a = joined(dir, name, false);
    let b = joined(dir, name.push('/'), false);
    reveal_strlit("/");
    assert(name.push('/') =~= name + "/"@);
    lemma_joined_behind(dir, name, "/"@);
    lemma_slash_behind(a);
    let x = resolved(home, cwd, bookmarks, arg.take(k) + name.push('/'), true, false);
    path_eq_is_equivalence(x, b, a, false);
}

// ---- the stretch that is completed ----

pub open spec fn all_white(s: Seq<char>) -> bool {
    forall|i: int| 0 <= i < s.len() ==> is_white(#[trigger] s[i])
}

pub open spec fn no_white(s: Seq<char>) -> bool {
    forall|i: int| 0 <= i < s.len() ==> !is_white(#[trigger] s[i])
}

/// A byte position tells how many characters stand before it.
proof fn lemma_position(a: Seq<char>, b: Seq<char>)
    ensures
        chars_before(a + b, byte_len(a) as int) == Some(a.len() as int),
{
    let s = a + b;
    let k = a.len() as int;
    chars_before_is_exact(s, byte_len(a) as int);
    assert(s.take(k) =~= a);
    let x = chars_before(s, byte_len(a) as int)->0;
    if x < k {
        assert(a =~= s.take(x) + s.subrange(x, k));
        lemma_byte_len_add(s.take(x), s.subrange(x, k));
        assert(s.subrange(x, k)[0] == s[x]);
        assert(byte_len(s.subrange(x, k)) >= width(s[x]));
    } else if k < x {
        assert(s.take(x) =~= a + s.subrange(k, x));
        lemma_byte_len_add(a, s.subrange(k, x));
        assert(s.subrange(k, x)[0] == s[k]);
        assert(byte_len(s.subrange(k, x)) >= width(s[k]));
    }
}

proof fn lemma_typed(pre: Seq<char>, rest: Seq<char>, behind: Seq<char>)
    requires
        all_white(pre),
        rest.len() > 0 ==> !is_white(rest[0]),
    ensures
        typed(pre + rest + behind, byte_len(pre + rest) as int) == Some(rest),
{
    let k = Class::White;
    let t = pre + rest;
    lemma_position(t, behind);
    assert((pre + rest + behind).take(t.len() as int) =~= t);
    assert forall|i: int| 0 <= i < pre.len() implies k.has(#[trigger] t[i]) == true by {
        assert(t[i] == pre[i]);
    }
    if rest.len() > 0 {
        assert(t[pre.len() as int] == rest[0]);
    }
    lemma_span_is(t, k, true, pre.len());
    assert(t.skip(pre.len() as int) =~= rest);
}

/// The argument of `cd` is all that stands between the white space behind `cd`
/// and the cursor, and starts at the byte where it starts.
pub proof fn cd_argument_is_found(
    pre: Seq<char>,
    gap: Seq<char>,
    arg: Seq<char>,
    behind: Seq<char>,
)
    requires
        all_white(pre),
        gap.len() > 0,
        all_white(gap),
        arg.len() > 0 ==> !is_white(arg[0]),
    ensures
        cd_word(
            pre + "cd"@ + gap + arg + behind,
            byte_len(pre + "cd"@ + gap + arg) as int,
        ) == Some(WordRow { text: arg, start: byte_len(pre + "cd"@ + gap) as int }),
{
    let k = Class::White;
    reveal_strlit("cd");
    let rest = "cd"@ + gap + arg;
    assert(pre + "cd"@ + gap + arg =~= pre + rest);
    assert(pre + "cd"@ + gap + arg + behind =~= pre + rest + behind);
    assert(rest[0] == 'c' && rest[1] == 'd');
    lemma_typed(pre, rest, behind);
    assert(rest[2] == gap[0]);
    lemma_span_is(rest, k, false, 2);
    assert(rest.take(2) =~= "cd"@);
    let t = rest.skip(2);
    assert(t =~= gap + arg);
    assert forall|i: int| 0 <= i < gap.len() implies k.has(#[trigger] t[i]) == true by {
        assert(t[i] == gap[i]);
    }
    if arg.len() > 0 {
        assert(t[gap.len() as int] == arg[0]);
    }
    lemma_span_is(t, k, true, gap.len());
    assert(t.skip(gap.len() as int) =~= arg);
    lemma_byte_len_add(pre + "cd"@ + gap, arg);
}

/// Another command has no argument of `cd`, and neither has `cd` with the cursor
/// right behind it.
pub proof fn other_commands_have_no_cd_argument(
    pre: Seq<char>,
    cmd: Seq<char>,
    rest: Seq<char>,
    behind: Seq<char>,
)
    requires
        all_white(pre),
        cmd.len() > 0,
        no_white(cmd),
        rest.len() > 0 ==> is_white(rest[0]) && cmd != "cd"@,
    ensures
        cd_word(pre + cmd + rest + behind, byte_len(pre + cmd + rest) as int) is None,
{
    let k = Class::White;
    let t = cmd + rest;
    assert(pre + cmd + rest =~= pre + t);
    assert(pre + cmd + rest + behind =~= pre + t + behind);
    assert(t[0] == cmd[0]);
    lemma_typed(pre, t, behind);
    assert forall|i: int| 0 <= i < cmd.len() implies k.has(#[trigger] t[i]) == false by {
        assert(t[i] == cmd[i]);
    }
    if rest.len() > 0 {
        assert(t[cmd.len() as int] == rest[0]);
    }
    lemma_span_is(t, k, false, cmd.len());
    assert(t.take(cmd.len() as int) =~= cmd);
}

/// The word at the cursor is what stands between the white space before the
/// cursor and the cursor.
pub proof fn word_at_the_cursor_is_found(before: Seq<char>, w: Seq<char>, behind: Seq<char>)
    requires
        before.len() > 0 ==> is_white(before.last()),
        no_white(w),
    ensures
        last_word(before + w + behind, byte_len(before + w) as int) == Some(
            WordRow { text: w, start: byte_len(before) as int },
        ),
{
    let k = Class::White;
    let t = before + w;
    let n = crate::text::span(t, k, true) as int;
    crate::text::lemma_span(t, k, true);
    lemma_position(t, behind);
    assert((before + w + behind).take(t.len() as int) =~= t);
    let s = t.skip(n);
    lemma_byte_len_add(before, w);
    if n >= before.len() {
        if n > before.len() {
            assert(t[before.len() as int] == w[0]);
            assert(k.has(t[before.len() as int]) == true);
        }
        assert(s =~= w);
        lemma_rspan_is(s, k, false, s.len());
    } else {
        assert forall|i: int| s.len() - w.len() <= i < s.len() implies k.has(#[trigger] s[i])
            == false by {
            assert(s[i] == w[i - (s.len() - w.len())]);
        }
        assert(s[s.len() - 1 - w.len()] == before.last());
        lemma_rspan_is(s, k, false, w.len());
        assert(s.skip(s.len() - w.len()) =~= w);
    }
}

/// Applying a completion replaces its stretch, and nothing else, by the longest
/// text that all candidates start with: a sole candidate is put in whole.
/// Nothing is done where there is no candidate, or where that text is there
/// already.
pub proof fn completion_replaces_its_stretch(
    a: Seq<char>,
    b: Seq<char>,
    c: Seq<char>,
    cs: Seq<CandidateRow>,
)
    ensures
        ({
            let r = applied(
                a + b + c,
                byte_len(a + b) as int,
                ResultRow { start: byte_len(a) as int, candidates: cs },
            );
            &&& cs.len() == 0 ==> r is None
            &&& cs.len() == 1 ==> r == (if cs[0].replacement == b {
                None
            } else {
                Some(a + cs[0].replacement + c)
            })
            &&& cs.len() > 0 ==> exists|p: Seq<char>|
                {
                    &&& r == (if p == b {
                        None
                    } else {
                        Some(a + p + c)
                    })
                    &&& forall|i: int| 0 <= i < cs.len() ==> starts((#[trigger] cs[i]).replacement, p)
                    &&& forall|q: Seq<char>|
                        (forall|i: int|
                            0 <= i < cs.len() ==> starts((#[trigger] cs[i]).replacement, q))
                            ==> #[trigger] starts(p, q)
                }
        }),
{
    let line = a + b + c;
    let p = shared_prefix(cs);
    lemma_position(a, b + c);
    lemma_position(a + b, c);
    assert(a + (b + c) =~= line);
    lemma_byte_len_add(a, b);
    let i = a.len() as int;
    let j = (a + b).len() as int;
    assert(line.subrange(i, j) =~= b);
    assert(line.take(i) =~= a && line.skip(j) =~= c);
    if cs.len() > 0 {
        shared_prefix_is_longest(cs, p);
        assert forall|q: Seq<char>|
            (forall|i: int|
                0 <= i < cs.len() ==> starts((#[trigger] cs[i]).replacement, q)) implies #[trigger] starts(
            p,
            q,
        ) by {
            shared_prefix_is_longest(cs, q);
        }
    }
}

// ---- how well a part of a name matches ----

/// Of two names that hold what was typed inside, the one that holds it earlier
/// matches better, as far as places are told apart.
pub proof fn earlier_parts_match_better(
    needle: Seq<char>,
    a: Seq<char>,
    b: Seq<char>,
    i: int,
    j: int,
)
    requires
        needle.len() > 0,
        0 < i,
        0 < j,
        occurs_at(lowercase(a), lowercase(needle), i),
        occurs_at(lowercase(b), lowercase(needle), j),
        forall|x: int| 0 <= x < i ==> !#[trigger] occurs_at(lowercase(a), lowercase(needle), x),
        forall|x: int| 0 <= x < j ==> !#[trigger] occurs_at(lowercase(b), lowercase(needle), x),
        byte_len(lowercase(a).take(i)) < byte_len(lowercase(b).take(j)) < 998,
    ensures
        match_of(needle, a) is Some,
        match_of(needle, b) is Some,
        0 < match_of(needle, a)->0 < match_of(needle, b)->0 < 1000,
{
    let n = lowercase(needle);
    let h = lowercase(a);
    let g = lowercase(b);
    lemma_first_at(h, n, 0);
    lemma_first_at(g, n, 0);
    assert(first_at(h, n, 0) == Some(i)) by {
        let x = first_at(h, n, 0)->0;
        assert(occurs_at(h, n, x));
    }
    assert(first_at(g, n, 0) == Some(j)) by {
        let x = first_at(g, n, 0)->0;
        assert(occurs_at(g, n, x));
    }
    if starts(h, n) {
        assert(h.subrange(0, n.len() as int) =~= h.take(n.len() as int));
        assert(occurs_at(h, n, 0));
    }
    if starts(g, n) {
        assert(g.subrange(0, n.len() as int) =~= g.take(n.len() as int));
        assert(occurs_at(g, n, 0));
    }
}

/// A word is written as a path if what stands before its first separator is
/// nothing, one or two dots, a tilde, or a drive; a word without a separator is
/// not.
pub proof fn path_words_are_told_by_their_start(w: Seq<char>, i: int)
    requires
        0 <= i < w.len(),
        is_slash(w[i]),
        forall|x: int| 0 <= x < i ==> !is_slash(#[trigger] w[x]),
    ensures
        path_like(w) <==> {
            ||| i == 0
            ||| i == 1 && (w[0] == '.' || w[0] == '~')
            ||| i == 2 && w[0] == '.' && w[1] == '.'
            ||| i == 2 && ('a' <= w[0] <= 'z' || 'A' <= w[0] <= 'Z') && w[1] == ':'
        },
{
    lemma_path_starts(w);
    if w.len() >= 2 && i >= 2 {
        assert(!is_slash(w[0]) && !is_slash(w[1]));
    }
    if i >= 1 {
        assert(!is_slash(w[0]));
    }
    if i >= 3 {
        assert(!is_slash(w[2]));
    }
}

/// See [`path_words_are_told_by_their_start`].
pub proof fn plain_words_are_no_paths(w: Seq<char>)
    requires
        forall|x: int| 0 <= x < w.len() ==> !is_slash(#[trigger] w[x]),
    ensures
        !path_like(w),
{
    lemma_path_starts(w);
    if w.len() >= 1 {
        assert(!is_slash(w[0]));
    }
    if w.len() >= 2 {
        assert(!is_slash(w[1]));
    }
    if w.len() >= 3 {
        assert(!is_slash(w[2]));
    }
}

proof fn lemma_path_starts(w: Seq<char>)
    ensures
        path_like(w) <==> {
            ||| w.len() >= 1 && is_slash(w[0])
            ||| w.len() >= 2 && (w[0] == '.' || w[0] == '~') && is_slash(w[1])
            ||| w.len() >= 3 && w[0] == '.' && w[1] == '.' && is_slash(w[2])
            ||| w.len() >= 3 && ('a' <= w[0] <= 'z' || 'A' <= w[0] <= 'Z') && w[1] == ':' && is_slash(
                w[2],
            )
        },
{
    reveal_strlit("./");
    reveal_strlit(".\\");
    reveal_strlit("../");
    reveal_strlit("..\\");
    reveal_strlit("~/");
    reveal_strlit("~\\");
    reveal_strlit("/");
    reveal_strlit("\\");
    if w.len() >= 1 {
        let a = w.take(1);
        assert(a[0] == w[0]);
        assert(starts(w, "/"@) <==> w[0] == '/') by {
            if w[0] == '/' {
                assert(a =~= "/"@);
            }
        }
        assert(starts(w, "\\"@) <==> w[0] == '\\') by {
            if w[0] == '\\' {
                assert(a =~= "\\"@);
            }
        }
    }
    if w.len() >= 2 {
        let a = w.take(2);
        assert(a[0] == w[0] && a[1] == w[1]);
        if w[0] == '.' && w[1] == '/' {
            assert(a =~= "./"@);
        }
        if w[0] == '.' && w[1] == '\\' {
            assert(a =~= ".\\"@);
        }
        if w[0] == '~' && w[1] == '/' {
            assert(a =~= "~/"@);
        }
        if w[0] == '~' && w[1] == '\\' {
            assert(a =~= "~\\"@);
        }
    }
    if w.len() >= 3 {
        let a = w.take(3);
        assert(a[0] == w[0] && a[1] == w[1] && a[2] == w[2]);
        if w[0] == '.' && w[1] == '.' && w[2] == '/' {
            assert(a =~= "../"@);
        }
        if w[0] == '.' && w[1] == '.' && w[2] == '\\' {
            assert(a =~= "..\\"@);
        }
    }
}

} // verus!
