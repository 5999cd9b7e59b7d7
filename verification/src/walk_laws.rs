//! What a whole search below the bookmarks finds.

use crate::input_completion::{
    found_lt, match_of, ranked, skipped_name, tier, unbeaten, visit_name, walk_result,
    CandidateRow, FoundRow, PendingRow, ScoredRow, WalkRow, DESCENDANT_MAX_DEPTH, SUBSEQ_SCORE,
};
use crate::lists::{picked, picked_is_exact};
use crate::util::{tilded, EntryRow};
use vstd::prelude::*;

verus! {

/// A search to be made: where it starts, and what every directory lists.
pub ghost struct Tree {
    pub bookmarks: Seq<Seq<char>>,
    pub windows: bool,
    pub listing: spec_fn(Seq<char>) -> Seq<EntryRow>,
}

impl Tree {
    /// Entry `i` of the directory at `from`.
    pub open spec fn entry(self, from: Seq<char>, i: int) -> EntryRow {
        (self.listing)(from)[i]
    }

    /// There is an entry `i` of the directory at `from`, and it is a directory
    /// that a search goes into: neither hidden nor one of those that only hold
    /// what was built.
    pub open spec fn opens(self, from: Seq<char>, i: int) -> bool {
        let e = self.entry(from, i);
        &&& 0 <= i < (self.listing)(from).len()
        &&& e.is_dir == Some(true)
        &&& !(e.name.len() > 0 && e.name[0] == '.')
        &&& !(self.windows && e.hidden)
        &&& !skipped_name(e.name)
    }

    /// A way of `depth` steps leads from a bookmark to the directory at `path`.
    pub open spec fn reached(self, path: Seq<char>, depth: int) -> bool
        decreases depth,
    {
        if depth <= 0 {
            depth == 0 && self.bookmarks.contains(path)
        } else {
            exists|from: Seq<char>, i: int|
                #![trigger self.opens(from, i)]
                self.reached(from, depth - 1) && self.opens(from, i) && self.entry(from, i).path
                    == path
        }
    }

    /// The directory lies `depth` steps below a bookmark, and no nearer.
    pub open spec fn lies_at(self, e: EntryRow, depth: int) -> bool {
        &&& depth >= 1
        &&& exists|from: Seq<char>, i: int|
            #![trigger self.opens(from, i)]
            self.reached(from, depth - 1) && self.opens(from, i) && self.entry(from, i) == e
        &&& forall|j: int| 0 <= j < depth ==> !#[trigger] self.reached(e.path, j)
    }

    /// The name of a path is what no other path has, and what is at a path is
    /// the same wherever it is listed. The first can only fail on Windows, where
    /// letter case makes no difference.
    pub open spec fn coherent(self) -> bool {
        &&& forall|a: Seq<char>, b: Seq<char>, i: int, j: int|
            #[trigger] self.reached(a, i) && #[trigger] self.reached(b, j) && visit_name(
                a,
                self.windows,
            ) == visit_name(b, self.windows) ==> a == b
        &&& forall|a: Seq<char>, b: Seq<char>, i: int, j: int|
            #[trigger] self.opens(a, i) && #[trigger] self.opens(b, j) && self.entry(a, i).path
                == self.entry(b, j).path ==> self.entry(a, i) == self.entry(b, j)
    }
}

/// A directory as it is offered.
pub open spec fn offered(e: EntryRow, arg: Seq<char>, home: Option<Seq<char>>, windows: bool)
    -> ScoredRow {
    let shown = tilded(e.path, home, windows);
    ScoredRow {
        score: match_of(arg, e.name)->0,
        candidate: CandidateRow { display: shown, replacement: shown },
    }
}

/// The name starts with what was typed or has it inside.
pub open spec fn fits(e: EntryRow, arg: Seq<char>) -> bool {
    match_of(arg, e.name) is Some && match_of(arg, e.name)->0 < SUBSEQ_SCORE
}

/// The first pair of quality and depth comes before the second.
pub open spec fn nearer(a: EntryRow, m: int, b: EntryRow, n: int, arg: Seq<char>) -> bool {
    let s = tier(match_of(arg, a.name)->0);
    let t = tier(match_of(arg, b.name)->0);
    s < t || (s == t && m < n)
}

/// The directory is one of the best: it fits, it lies in reach of the search,
/// and none that does has a better quality, or the same at a lesser depth.
pub open spec fn best_at(t: Tree, arg: Seq<char>, e: EntryRow, depth: int) -> bool {
    &&& t.lies_at(e, depth)
    &&& depth <= DESCENDANT_MAX_DEPTH
    &&& fits(e, arg)
    &&& forall|a: EntryRow, m: int|
        #[trigger] t.lies_at(a, m) && m <= DESCENDANT_MAX_DEPTH && fits(a, arg) ==> !nearer(
            a,
            m,
            e,
            depth,
            arg,
        )
}

/// The directories are all of the best, and each is there once.
pub open spec fn lists_the_best(t: Tree, arg: Seq<char>, es: Seq<EntryRow>) -> bool {
    &&& forall|i: int, j: int|
        0 <= i < j < es.len() ==> (#[trigger] es[i]).path != (#[trigger] es[j]).path
    &&& forall|e: EntryRow| #[trigger]
        es.contains(e) <==> exists|depth: int| best_at(t, arg, e, depth)
}

/// One turn of the search: the next directory is read.
pub open spec fn turn(w: WalkRow, t: Tree, arg: Seq<char>, home: Option<Seq<char>>) -> WalkRow {
    match w.advanced() {
        (Some(d), rest) => rest.after_listing(arg, home, d.depth, (t.listing)(d.path)),
        (None, _) => w,
    }
}

/// What a search does not go into, besides what is hidden: directories that hold
/// what tools have built or fetched.
pub proof fn search_skips_what_tools_leave(name: Seq<char>)
    ensures
        skipped_name(name) <==> name == "node_modules"@ || name == "target"@ || name
            == "__pycache__"@ || name == "venv"@ || name == "site-packages"@,
{
}

/// The search after `n` turns.
pub open spec fn after_turns(t: Tree, arg: Seq<char>, home: Option<Seq<char>>, n: nat) -> WalkRow
    decreases n,
{
    if n == 0 {
        WalkRow::started(t.bookmarks, t.windows)
    } else {
        turn(after_turns(t, arg, home, (n - 1) as nat), t, arg, home)
    }
}

// ---- what a search has seen ----

/// A directory that a search came by, and its depth.
ghost struct Seen {
    pub entry: EntryRow,
    pub depth: int,
}

spec fn keys(t: Tree, seen: Seq<Seen>) -> Seq<Seq<char>> {
    t.bookmarks.map_values(|p: Seq<char>| visit_name(p, t.windows)) + seen.map_values(
        |s: Seen| visit_name(s.entry.path, t.windows),
    )
}

spec fn deeper(seen: Seq<Seen>) -> Seq<PendingRow>
    decreases seen.len(),
{
    if seen.len() == 0 {
        Seq::empty()
    } else {
        let s = seen.last();
        let before = deeper(seen.drop_last());
        if s.depth < DESCENDANT_MAX_DEPTH {
            before.push(PendingRow { path: s.entry.path, depth: s.depth })
        } else {
            before
        }
    }
}

/// All that was ever put in the queue.
spec fn agenda(t: Tree, seen: Seq<Seen>) -> Seq<PendingRow> {
    t.bookmarks.map_values(|p: Seq<char>| PendingRow { path: p, depth: 0 }) + deeper(seen)
}

spec fn fitting(seen: Seq<Seen>, arg: Seq<char>) -> Seq<Seen>
    decreases seen.len(),
{
    if seen.len() == 0 {
        Seq::empty()
    } else if fits(seen.last().entry, arg) {
        fitting(seen.drop_last(), arg).push(seen.last())
    } else {
        fitting(seen.drop_last(), arg)
    }
}

spec fn finding(s: Seen, arg: Seq<char>, home: Option<Seq<char>>, windows: bool) -> FoundRow {
    FoundRow { scored: offered(s.entry, arg, home, windows), depth: s.depth }
}

/// How a search stands that has taken `popped` directories from its queue, and
/// has read `done` of them to the end. The last one taken lies at depth `cur`.
spec fn stands(
    t: Tree,
    arg: Seq<char>,
    home: Option<Seq<char>>,
    w: WalkRow,
    seen: Seq<Seen>,
    done: int,
    popped: int,
    cur: int,
) -> bool {
    let all = agenda(t, seen);
    let hits = fitting(seen, arg);
    &&& w.windows == t.windows
    &&& w.visited == keys(t, seen)
    &&& w.found == hits.map_values(|s: Seen| finding(s, arg, home, t.windows))
    &&& match w.prefix_depth {
        None => forall|i: int|
            0 <= i < hits.len() ==> match_of(arg, (#[trigger] hits[i]).entry.name)->0 != 0,
        Some(d) => {
            &&& exists|i: int|
                0 <= i < hits.len() && (#[trigger] hits[i]).depth == d && match_of(
                    arg,
                    hits[i].entry.name,
                )->0 == 0
            &&& forall|i: int|
                0 <= i < hits.len() && match_of(arg, (#[trigger] hits[i]).entry.name)->0 == 0
                    ==> d <= hits[i].depth
        },
    }
    &&& 0 <= done <= popped <= all.len()
    &&& w.queue == all.skip(popped)
    &&& forall|i: int|
        0 <= i < seen.len() ==> t.lies_at((#[trigger] seen[i]).entry, seen[i].depth)
            && seen[i].depth <= cur + 1 && seen[i].depth <= DESCENDANT_MAX_DEPTH
    &&& forall|i: int, j: int|
        0 <= i < j < seen.len() ==> (#[trigger] seen[i]).entry.path != (
        #[trigger] seen[j]).entry.path
    &&& 0 <= cur
    &&& forall|m: int| popped <= m < all.len() ==> cur <= (#[trigger] all[m]).depth
    &&& forall|m: int, n: int|
        0 <= m < n < all.len() ==> (#[trigger] all[m]).depth <= (#[trigger] all[n]).depth
    &&& forall|m: int|
        0 <= m < all.len() ==> 0 <= (#[trigger] all[m]).depth < DESCENDANT_MAX_DEPTH
            && all[m].depth <= cur + 1
    &&& forall|m: int, i: int|
        0 <= m < done && #[trigger] t.opens((#[trigger] all[m]).path, i) ==> w.visited.contains(
            visit_name(t.entry(all[m].path, i).path, t.windows),
        )
}

proof fn lemma_key(t: Tree, seen: Seq<Seen>, k: Seq<char>)
    requires
        keys(t, seen).contains(k),
    ensures
        (exists|i: int|
            0 <= i < t.bookmarks.len() && visit_name(#[trigger] t.bookmarks[i], t.windows) == k)
            || (exists|i: int|
            0 <= i < seen.len() && visit_name((#[trigger] seen[i]).entry.path, t.windows) == k),
{
    let ks = keys(t, seen);
    let x = choose|x: int| 0 <= x < ks.len() && ks[x] == k;
    let n = t.bookmarks.len() as int;
    if x < n {
        assert(ks[x] == visit_name(t.bookmarks[x], t.windows));
    } else {
        assert(ks[x] == visit_name(seen[x - n].entry.path, t.windows));
    }
}

proof fn lemma_bookmark_key(t: Tree, seen: Seq<Seen>, i: int)
    requires
        0 <= i < t.bookmarks.len(),
    ensures
        keys(t, seen).contains(visit_name(t.bookmarks[i], t.windows)),
{
    assert(keys(t, seen)[i] == visit_name(t.bookmarks[i], t.windows));
}

/// A directory that was seen is on the agenda if it is not too deep.
proof fn lemma_deeper(seen: Seq<Seen>, i: int)
    requires
        0 <= i < seen.len(),
        seen[i].depth < DESCENDANT_MAX_DEPTH,
    ensures
        deeper(seen).contains(PendingRow { path: seen[i].entry.path, depth: seen[i].depth }),
    decreases seen.len(),
{
    let p = PendingRow { path: seen[i].entry.path, depth: seen[i].depth };
    let before = deeper(seen.drop_last());
    if i < seen.len() - 1 {
        assert(seen.drop_last()[i] == seen[i]);
        lemma_deeper(seen.drop_last(), i);
        let k = choose|k: int| 0 <= k < before.len() && before[k] == p;
        assert(deeper(seen)[k] == p);
    } else {
        assert(deeper(seen).last() == p);
    }
}

proof fn lemma_fitting(seen: Seq<Seen>, arg: Seq<char>)
    ensures
        forall|k: int|
            0 <= k < fitting(seen, arg).len() ==> seen.contains(#[trigger] fitting(seen, arg)[k])
                && fits(fitting(seen, arg)[k].entry, arg),
        forall|i: int|
            0 <= i < seen.len() && fits((#[trigger] seen[i]).entry, arg) ==> fitting(
                seen,
                arg,
            ).contains(seen[i]),
    decreases seen.len(),
{
    if seen.len() > 0 {
        let before = seen.drop_last();
        lemma_fitting(before, arg);
        let h = fitting(seen, arg);
        let g = fitting(before, arg);
        assert forall|k: int| 0 <= k < h.len() implies seen.contains(#[trigger] h[k]) && fits(
            h[k].entry,
            arg,
        ) by {
            if k < g.len() {
                assert(h[k] == g[k]);
                let x = choose|x: int| 0 <= x < before.len() && before[x] == g[k];
                assert(seen[x] == g[k]);
            } else {
                assert(seen[seen.len() - 1] == h[k]);
            }
        }
        assert forall|i: int|
            0 <= i < seen.len() && fits((#[trigger] seen[i]).entry, arg) implies h.contains(
            seen[i],
        ) by {
            if i < before.len() {
                assert(before[i] == seen[i]);
                assert(g.contains(seen[i]));
                let k = choose|k: int| 0 <= k < g.len() && g[k] == seen[i];
                assert(h[k] == seen[i]);
            } else {
                assert(h.last() == seen[i]);
            }
        }
    }
}

/// What is known by its key was seen, or is a bookmark.
proof fn lemma_known(
    t: Tree,
    arg: Seq<char>,
    home: Option<Seq<char>>,
    w: WalkRow,
    seen: Seq<Seen>,
    done: int,
    popped: int,
    cur: int,
    x: Seq<char>,
    j: int,
)
    requires
        t.coherent(),
        stands(t, arg, home, w, seen, done, popped, cur),
        t.reached(x, j),
        w.visited.contains(visit_name(x, t.windows)),
    ensures
        t.reached(
            x,
            0,
        ) || exists|i: int| 0 <= i < seen.len() && (#[trigger] seen[i]).entry.path == x,
{
    let k = visit_name(x, t.windows);
    lemma_key(t, seen, k);
    if exists|i: int|
        0 <= i < t.bookmarks.len() && visit_name(#[trigger] t.bookmarks[i], t.windows) == k {
        let i = choose|i: int|
            0 <= i < t.bookmarks.len() && visit_name(#[trigger] t.bookmarks[i], t.windows) == k;
        assert(t.bookmarks.contains(t.bookmarks[i]));
        assert(t.reached(t.bookmarks[i], 0));
    } else {
        let i = choose|i: int|
            0 <= i < seen.len() && visit_name((#[trigger] seen[i]).entry.path, t.windows) == k;
        lemma_lies_reached(t, seen[i].entry, seen[i].depth);
    }
}

proof fn lemma_lies_reached(t: Tree, e: EntryRow, depth: int)
    requires
        t.lies_at(e, depth),
    ensures
        t.reached(e.path, depth),
{
    let (from, i) = choose|from: Seq<char>, i: int|
        #![trigger t.opens(from, i)]
        t.reached(from, depth - 1) && t.opens(from, i) && t.entry(from, i) == e;
    assert(t.opens(from, i));
}

/// Once everything less deep than `d` is read, all that lies at most `d` deep
/// has been seen.
proof fn lemma_all_seen(
    t: Tree,
    arg: Seq<char>,
    home: Option<Seq<char>>,
    w: WalkRow,
    seen: Seq<Seen>,
    done: int,
    popped: int,
    cur: int,
    d: int,
    x: Seq<char>,
    j: int,
)
    requires
        t.coherent(),
        stands(t, arg, home, w, seen, done, popped, cur),
        forall|m: int|
            0 <= m < agenda(t, seen).len() && (#[trigger] agenda(t, seen)[m]).depth < d ==> m
                < done,
        0 <= j <= d <= DESCENDANT_MAX_DEPTH,
        t.reached(x, j),
    ensures
        w.visited.contains(visit_name(x, t.windows)),
    decreases j,
{
    let all = agenda(t, seen);
    let n = t.bookmarks.len() as int;
    if j == 0 {
        let i = choose|i: int| 0 <= i < n && t.bookmarks[i] == x;
        lemma_bookmark_key(t, seen, i);
    } else {
        let (from, i) = choose|from: Seq<char>, i: int|
            #![trigger t.opens(from, i)]
            t.reached(from, j - 1) && t.opens(from, i) && t.entry(from, i).path == x;
        lemma_all_seen(t, arg, home, w, seen, done, popped, cur, d, from, j - 1);
        lemma_known(t, arg, home, w, seen, done, popped, cur, from, j - 1);
        let m = if t.reached(from, 0) {
            let b = choose|b: int| 0 <= b < n && t.bookmarks[b] == from;
            assert(all[b] == PendingRow { path: from, depth: 0 });
            b
        } else {
            let s = choose|s: int| 0 <= s < seen.len() && (#[trigger] seen[s]).entry.path == from;
            let p = PendingRow { path: from, depth: seen[s].depth };
            assert(t.lies_at(seen[s].entry, seen[s].depth));
            assert(seen[s].depth <= j - 1);
            lemma_deeper(seen, s);
            let k = choose|k: int| 0 <= k < deeper(seen).len() && deeper(seen)[k] == p;
            assert(all[n + k] == p);
            n + k
        };
        assert(all[m].path == from && all[m].depth < d);
        assert(t.opens(all[m].path, i));
    }
}

/// What one entry adds to what was seen.
spec fn seen_after(t: Tree, w: WalkRow, seen: Seq<Seen>, depth: int, from: Seq<char>, i: int)
    -> Seq<Seen> {
    let e = t.entry(from, i);
    if t.opens(from, i) && !w.visited.contains(visit_name(e.path, t.windows)) {
        seen.push(Seen { entry: e, depth: depth + 1 })
    } else {
        seen
    }
}

/// Reading one entry keeps how the search stands.
proof fn lemma_entry(
    t: Tree,
    arg: Seq<char>,
    home: Option<Seq<char>>,
    w: WalkRow,
    seen: Seq<Seen>,
    done: int,
    depth: int,
    from: Seq<char>,
    i: int,
)
    requires
        t.coherent(),
        stands(t, arg, home, w, seen, done, done + 1, depth),
        agenda(t, seen)[done] == (PendingRow { path: from, depth }),
        0 <= i < (t.listing)(from).len(),
        t.reached(from, depth),
    ensures
        ({
            let after = w.after_entry(arg, home, depth, t.entry(from, i));
            let more = seen_after(t, w, seen, depth, from, i);
            &&& stands(t, arg, home, after, more, done, done + 1, depth)
            &&& agenda(t, more).len() >= agenda(t, seen).len()
            &&& agenda(t, more).take(agenda(t, seen).len() as int) == agenda(t, seen)
            &&& w.visited.len() <= after.visited.len()
            &&& after.visited.take(w.visited.len() as int) == w.visited
            &&& t.opens(from, i) ==> after.visited.contains(
                visit_name(t.entry(from, i).path, t.windows),
            )
        }),
{
    let e = t.entry(from, i);
    let after = w.after_entry(arg, home, depth, e);
    let more = seen_after(t, w, seen, depth, from, i);
    let all = agenda(t, seen);
    let all2 = agenda(t, more);
    let key = visit_name(e.path, t.windows);
    if t.opens(from, i) && !w.visited.contains(key) {
        let s = Seen { entry: e, depth: depth + 1 };
        assert(more.drop_last() =~= seen);
        assert(more.last() == s);
        assert(keys(t, more) =~= w.visited.push(key));
        // Nothing nearer leads there: it would have been seen.
        assert forall|j: int| 0 <= j < depth + 1 implies !#[trigger] t.reached(e.path, j) by {
            if t.reached(e.path, j) {
                assert forall|m: int| 0 <= m < all.len() && (#[trigger] all[m]).depth < depth implies m
                    < done by {
                    if m > done {
                        assert(all[done].depth <= all[m].depth);
                    }
                }
                lemma_all_seen(t, arg, home, w, seen, done, done + 1, depth, depth, e.path, j);
            }
        }
        assert(t.lies_at(e, depth + 1));
        assert forall|x: int| 0 <= x < more.len() implies t.lies_at(
            (#[trigger] more[x]).entry,
            more[x].depth,
        ) && more[x].depth <= depth + 1 && more[x].depth <= DESCENDANT_MAX_DEPTH by {
            if x < seen.len() {
                assert(more[x] == seen[x]);
            }
        }
        assert forall|x: int, y: int| 0 <= x < y < more.len() implies (
        #[trigger] more[x]).entry.path != (#[trigger] more[y]).entry.path by {
            assert(more[x] == seen[x]);
            if y < seen.len() {
                assert(more[y] == seen[y]);
            } else if seen[x].entry.path == e.path {
                assert(keys(t, seen)[t.bookmarks.len() + x] == key);
            }
        }
        if depth + 1 < DESCENDANT_MAX_DEPTH {
            assert(all2 =~= all.push(PendingRow { path: e.path, depth: depth + 1 }));
        } else {
            assert(all2 =~= all);
        }
        assert(all2.take(all.len() as int) =~= all);
        assert(after.queue =~= all2.skip(done + 1));
        lemma_hit(t, arg, home, w, seen, s, done, depth);
        assert forall|m: int, k: int|
            0 <= m < done && #[trigger] t.opens(
                (#[trigger] all2[m]).path,
                k,
            ) implies after.visited.contains(
            visit_name(t.entry(all2[m].path, k).path, t.windows),
        ) by {
            assert(all2[m] == all[m]);
            let v = visit_name(t.entry(all[m].path, k).path, t.windows);
            assert(w.visited.contains(v));
            let y = choose|y: int| 0 <= y < w.visited.len() && w.visited[y] == v;
            assert(after.visited[y] == v);
        }
        assert(after.visited.last() == key);
        assert(after.visited.take(w.visited.len() as int) =~= w.visited);
    } else {
        assert(after == w);
        assert(all.take(all.len() as int) =~= all);
        assert(w.visited.take(w.visited.len() as int) =~= w.visited);
    }
}

/// What was found grows with what was seen.
proof fn lemma_hit(
    t: Tree,
    arg: Seq<char>,
    home: Option<Seq<char>>,
    w: WalkRow,
    seen: Seq<Seen>,
    s: Seen,
    done: int,
    depth: int,
)
    requires
        stands(t, arg, home, w, seen, done, done + 1, depth),
        s.depth == depth + 1,
        !w.visited.contains(visit_name(s.entry.path, t.windows)),
        s.entry.is_dir == Some(true),
        !(s.entry.name.len() > 0 && s.entry.name[0] == '.'),
        !(t.windows && s.entry.hidden),
        !skipped_name(s.entry.name),
    ensures
        ({
            let after = w.after_entry(arg, home, depth, s.entry);
            let hits = fitting(seen.push(s), arg);
            &&& after.found == hits.map_values(|x: Seen| finding(x, arg, home, t.windows))
            &&& match after.prefix_depth {
                None => forall|i: int|
                    0 <= i < hits.len() ==> match_of(arg, (#[trigger] hits[i]).entry.name)->0 != 0,
                Some(d) => {
                    &&& exists|i: int|
                        0 <= i < hits.len() && (#[trigger] hits[i]).depth == d && match_of(
                            arg,
                            hits[i].entry.name,
                        )->0 == 0
                    &&& forall|i: int|
                        0 <= i < hits.len() && match_of(
                            arg,
                            (#[trigger] hits[i]).entry.name,
                        )->0 == 0 ==> d <= hits[i].depth
                },
            }
        }),
{
    let more = seen.push(s);
    assert(more.drop_last() =~= seen);
    let old_hits = fitting(seen, arg);
    let hits = fitting(more, arg);
    let after = w.after_entry(arg, home, depth, s.entry);
    lemma_fitting(seen, arg);
    if fits(s.entry, arg) {
        assert(hits == old_hits.push(s));
        assert(after.found =~= hits.map_values(|x: Seen| finding(x, arg, home, t.windows)));
        assert(hits[hits.len() - 1] == s);
        assert forall|i: int| 0 <= i < old_hits.len() implies #[trigger] hits[i] == old_hits[i] by {
        }
        match w.prefix_depth {
            None => {},
            Some(d) => {
                let i = choose|i: int|
                    0 <= i < old_hits.len() && (#[trigger] old_hits[i]).depth == d && match_of(
                        arg,
                        old_hits[i].entry.name,
                    )->0 == 0;
                assert(hits[i] == old_hits[i]);
                assert(seen.contains(old_hits[i]));
                assert(d <= depth + 1);
            },
        }
    } else {
        assert(hits == old_hits);
    }
}

/// Reading the first `n` entries of a directory keeps how the search stands.
proof fn lemma_listing(
    t: Tree,
    arg: Seq<char>,
    home: Option<Seq<char>>,
    w: WalkRow,
    seen: Seq<Seen>,
    done: int,
    depth: int,
    from: Seq<char>,
    n: int,
) -> (more: Seq<Seen>)
    requires
        t.coherent(),
        stands(t, arg, home, w, seen, done, done + 1, depth),
        agenda(t, seen)[done] == (PendingRow { path: from, depth }),
        0 <= n <= (t.listing)(from).len(),
        t.reached(from, depth),
    ensures
        ({
            let after = w.after_listing(arg, home, depth, (t.listing)(from).take(n));
            &&& stands(t, arg, home, after, more, done, done + 1, depth)
            &&& agenda(t, more)[done] == (PendingRow { path: from, depth })
            &&& forall|i: int|
                0 <= i < n && #[trigger] t.opens(from, i) ==> after.visited.contains(
                    visit_name(t.entry(from, i).path, t.windows),
                )
        }),
    decreases n,
{
    let es = (t.listing)(from);
    if n == 0 {
        assert(es.take(0).len() == 0);
        seen
    } else {
        let mid = lemma_listing(t, arg, home, w, seen, done, depth, from, n - 1);
        let v = w.after_listing(arg, home, depth, es.take(n - 1));
        assert(es.take(n).drop_last() =~= es.take(n - 1));
        assert(es.take(n).last() == es[n - 1]);
        lemma_entry(t, arg, home, v, mid, done, depth, from, n - 1);
        let more = seen_after(t, v, mid, depth, from, n - 1);
        let after = v.after_entry(arg, home, depth, es[n - 1]);
        assert(agenda(t, more)[done] == agenda(t, more).take(agenda(t, mid).len() as int)[done]);
        assert forall|i: int| 0 <= i < n && #[trigger] t.opens(
            from,
            i,
        ) implies after.visited.contains(
            visit_name(t.entry(from, i).path, t.windows),
        ) by {
            if i < n - 1 {
                let k = visit_name(t.entry(from, i).path, t.windows);
                let y = choose|y: int| 0 <= y < v.visited.len() && v.visited[y] == k;
                assert(after.visited.take(v.visited.len() as int)[y] == k);
                assert(after.visited[y] == k);
            }
        }
        more
    }
}

/// After any number of turns the search stands as it should.
proof fn lemma_turns(t: Tree, arg: Seq<char>, home: Option<Seq<char>>, n: nat) -> (r: (
    Seq<Seen>,
    int,
    int,
))
    requires
        t.coherent(),
    ensures
        stands(t, arg, home, after_turns(t, arg, home, n), r.0, r.1, r.1, r.2),
    decreases n,
{
    if n == 0 {
        let none = Seq::<Seen>::empty();
        let w = WalkRow::started(t.bookmarks, t.windows);
        assert(keys(t, none) =~= w.visited);
        assert(agenda(t, none) =~= w.queue);
        assert(w.queue.skip(0) =~= w.queue);
        assert(w.found =~= fitting(none, arg).map_values(
            |s: Seen| finding(s, arg, home, t.windows),
        ));
        assert(stands(t, arg, home, w, none, 0, 0, 0));
        (none, 0, 0)
    } else {
        let (seen, done, cur) = lemma_turns(t, arg, home, (n - 1) as nat);
        let w = after_turns(t, arg, home, (n - 1) as nat);
        if w.over() {
            (seen, done, cur)
        } else {
            let all = agenda(t, seen);
            let d = w.queue[0];
            let v = WalkRow { queue: w.queue.skip(1), ..w };
            assert(all[done] == d);
            assert(v.queue =~= all.skip(done + 1));
            lemma_on_agenda(t, arg, home, w, seen, done, cur, done);
            assert forall|m: int| 0 <= m < all.len() implies 0 <= (#[trigger] all[m]).depth
                < DESCENDANT_MAX_DEPTH && all[m].depth <= d.depth + 1 by {
            }
            assert(stands(t, arg, home, v, seen, done, done + 1, d.depth));
            let es = (t.listing)(d.path);
            let more = lemma_listing(
                t,
                arg,
                home,
                v,
                seen,
                done,
                d.depth,
                d.path,
                es.len() as int,
            );
            assert(es.take(es.len() as int) =~= es);
            let after = turn(w, t, arg, home);
            assert forall|m: int, i: int|
                0 <= m < done + 1 && #[trigger] t.opens(
                    (#[trigger] agenda(t, more)[m]).path,
                    i,
                ) implies after.visited.contains(
                visit_name(t.entry(agenda(t, more)[m].path, i).path, t.windows),
            ) by {
            }
            assert(stands(t, arg, home, after, more, done + 1, done + 1, d.depth));
            (more, done + 1, d.depth)
        }
    }
}

proof fn lemma_deeper_seen(seen: Seq<Seen>, k: int)
    requires
        0 <= k < deeper(seen).len(),
    ensures
        exists|i: int|
            0 <= i < seen.len() && deeper(seen)[k] == (PendingRow {
                path: (#[trigger] seen[i]).entry.path,
                depth: seen[i].depth,
            }),
    decreases seen.len(),
{
    let before = deeper(seen.drop_last());
    if k < before.len() {
        lemma_deeper_seen(seen.drop_last(), k);
        let i = choose|i: int|
            0 <= i < seen.drop_last().len() && before[k] == (PendingRow {
                path: (#[trigger] seen.drop_last()[i]).entry.path,
                depth: seen.drop_last()[i].depth,
            });
        assert(seen[i] == seen.drop_last()[i]);
        assert(deeper(seen)[k] == before[k]);
    } else {
        assert(seen[seen.len() - 1] == seen.last());
    }
}

/// What is on the agenda can be reached.
proof fn lemma_on_agenda(
    t: Tree,
    arg: Seq<char>,
    home: Option<Seq<char>>,
    w: WalkRow,
    seen: Seq<Seen>,
    done: int,
    cur: int,
    m: int,
)
    requires
        stands(t, arg, home, w, seen, done, done, cur),
        0 <= m < agenda(t, seen).len(),
    ensures
        t.reached(agenda(t, seen)[m].path, agenda(t, seen)[m].depth),
{
    let n = t.bookmarks.len() as int;
    let all = agenda(t, seen);
    if m < n {
        assert(all[m] == PendingRow { path: t.bookmarks[m], depth: 0 });
        assert(t.bookmarks.contains(t.bookmarks[m]));
    } else {
        assert(all[m] == deeper(seen)[m - n]);
        lemma_deeper_seen(seen, m - n);
        let i = choose|i: int|
            0 <= i < seen.len() && all[m] == (PendingRow {
                path: (#[trigger] seen[i]).entry.path,
                depth: seen[i].depth,
            });
        lemma_lies_reached(t, seen[i].entry, seen[i].depth);
    }
}

proof fn lemma_fitting_distinct(seen: Seq<Seen>, arg: Seq<char>)
    requires
        forall|i: int, j: int|
            0 <= i < j < seen.len() ==> (#[trigger] seen[i]).entry.path != (
            #[trigger] seen[j]).entry.path,
    ensures
        forall|i: int, j: int|
            0 <= i < j < fitting(seen, arg).len() ==> (#[trigger] fitting(
                seen,
                arg,
            )[i]).entry.path != (#[trigger] fitting(seen, arg)[j]).entry.path,
    decreases seen.len(),
{
    if seen.len() > 0 {
        let before = seen.drop_last();
        let h = fitting(seen, arg);
        let g = fitting(before, arg);
        lemma_fitting_distinct(before, arg);
        lemma_fitting(before, arg);
        assert forall|i: int, j: int| 0 <= i < j < h.len() implies (#[trigger] h[i]).entry.path != (
        #[trigger] h[j]).entry.path by {
            assert(h[i] == g[i]);
            if j < g.len() {
                assert(h[j] == g[j]);
            } else {
                let x = choose|x: int| 0 <= x < before.len() && before[x] == g[i];
                assert(seen[x] == g[i] && seen[seen.len() - 1] == h[j]);
            }
        }
    }
}

/// When the search is over, what it has not seen lies deeper than its first
/// prefix match.
proof fn lemma_unseen(
    t: Tree,
    arg: Seq<char>,
    home: Option<Seq<char>>,
    w: WalkRow,
    seen: Seq<Seen>,
    done: int,
    cur: int,
    e: EntryRow,
    depth: int,
)
    requires
        t.coherent(),
        stands(t, arg, home, w, seen, done, done, cur),
        w.over(),
        t.lies_at(e, depth),
        depth <= DESCENDANT_MAX_DEPTH,
    ensures
        seen.contains(Seen { entry: e, depth }) || (w.prefix_depth is Some && depth
            > w.prefix_depth->0),
{
    let all = agenda(t, seen);
    if !(w.prefix_depth is Some && depth > w.prefix_depth->0) {
        assert forall|m: int| 0 <= m < all.len() && (#[trigger] all[m]).depth < depth implies m
            < done by {
            if m >= done {
                assert(w.queue[0] == all[done]);
                if m > done {
                    assert(all[done].depth <= all[m].depth);
                }
            }
        }
        lemma_lies_reached(t, e, depth);
        lemma_all_seen(t, arg, home, w, seen, done, done, cur, depth, e.path, depth);
        lemma_known(t, arg, home, w, seen, done, done, cur, e.path, depth);
        assert(!t.reached(e.path, 0));
        let i = choose|i: int| 0 <= i < seen.len() && (#[trigger] seen[i]).entry.path == e.path;
        let s = seen[i];
        assert(t.lies_at(s.entry, s.depth));
        lemma_lies_reached(t, s.entry, s.depth);
        lemma_same_entry(t, e, depth, s.entry, s.depth);
        assert(s == Seen { entry: e, depth });
    }
}

/// At one path there is one directory, at one depth.
proof fn lemma_same_entry(t: Tree, a: EntryRow, m: int, b: EntryRow, n: int)
    requires
        t.coherent(),
        t.lies_at(a, m),
        t.lies_at(b, n),
        a.path == b.path,
    ensures
        a == b,
        m == n,
{
    lemma_lies_reached(t, a, m);
    lemma_lies_reached(t, b, n);
    let (x, i) = choose|from: Seq<char>, i: int|
        #![trigger t.opens(from, i)]
        t.reached(from, m - 1) && t.opens(from, i) && t.entry(from, i) == a;
    let (y, j) = choose|from: Seq<char>, i: int|
        #![trigger t.opens(from, i)]
        t.reached(from, n - 1) && t.opens(from, i) && t.entry(from, i) == b;
    assert(t.opens(x, i) && t.opens(y, j));
    if m < n {
        assert(!t.reached(b.path, m));
    } else if n < m {
        assert(!t.reached(a.path, n));
    }
}

/// Something found is unbeaten exactly if it is one of the best.
proof fn lemma_unbeaten_is_best(
    t: Tree,
    arg: Seq<char>,
    home: Option<Seq<char>>,
    w: WalkRow,
    seen: Seq<Seen>,
    done: int,
    cur: int,
    i: int,
)
    requires
        t.coherent(),
        stands(t, arg, home, w, seen, done, done, cur),
        w.over(),
        0 <= i < fitting(seen, arg).len(),
    ensures
        unbeaten(w.found, i) == best_at(
            t,
            arg,
            fitting(seen, arg)[i].entry,
            fitting(seen, arg)[i].depth,
        ),
{
    let hits = fitting(seen, arg);
    let found = w.found;
    let h = hits[i];
    lemma_fitting(seen, arg);
    assert(seen.contains(h));
    assert(t.lies_at(h.entry, h.depth) && h.depth <= DESCENDANT_MAX_DEPTH);
    assert forall|j: int| 0 <= j < hits.len() implies #[trigger] found_lt(found[j], found[i])
        == nearer(hits[j].entry, hits[j].depth, h.entry, h.depth, arg) by {
        assert(found[j] == finding(hits[j], arg, home, t.windows));
        assert(found[i] == finding(h, arg, home, t.windows));
    }
    if unbeaten(found, i) {
        assert forall|a: EntryRow, m: int|
            #[trigger] t.lies_at(a, m) && m <= DESCENDANT_MAX_DEPTH && fits(a, arg) implies !nearer(
            a,
            m,
            h.entry,
            h.depth,
            arg,
        ) by {
            lemma_unseen(t, arg, home, w, seen, done, cur, a, m);
            let s = Seen { entry: a, depth: m };
            if seen.contains(s) {
                let x = choose|x: int| 0 <= x < seen.len() && seen[x] == s;
                assert(fits(seen[x].entry, arg));
                assert(hits.contains(s));
                let j = choose|j: int| 0 <= j < hits.len() && hits[j] == s;
                assert(!found_lt(found[j], found[i]));
            } else {
                let d = w.prefix_depth->0;
                let j = choose|j: int|
                    0 <= j < hits.len() && (#[trigger] hits[j]).depth == d && match_of(
                        arg,
                        hits[j].entry.name,
                    )->0 == 0;
                assert(!found_lt(found[j], found[i]));
            }
        }
    }
    if best_at(t, arg, h.entry, h.depth) {
        assert forall|j: int| 0 <= j < found.len() implies !found_lt(
            #[trigger] found[j],
            found[i],
        ) by {
            assert(seen.contains(hits[j]));
            assert(t.lies_at(hits[j].entry, hits[j].depth));
            assert(found_lt(found[j], found[i]) == nearer(
                hits[j].entry,
                hits[j].depth,
                h.entry,
                h.depth,
                arg,
            ));
        }
    }
}

/// One of the best directories has been found.
proof fn lemma_best_is_found(
    t: Tree,
    arg: Seq<char>,
    home: Option<Seq<char>>,
    w: WalkRow,
    seen: Seq<Seen>,
    done: int,
    cur: int,
    e: EntryRow,
    depth: int,
)
    requires
        t.coherent(),
        stands(t, arg, home, w, seen, done, done, cur),
        w.over(),
        best_at(t, arg, e, depth),
    ensures
        fitting(seen, arg).contains(Seen { entry: e, depth }),
{
    let hits = fitting(seen, arg);
    let s = Seen { entry: e, depth };
    lemma_fitting(seen, arg);
    lemma_unseen(t, arg, home, w, seen, done, cur, e, depth);
    if !seen.contains(s) {
        let d = w.prefix_depth->0;
        let j = choose|j: int|
            0 <= j < hits.len() && (#[trigger] hits[j]).depth == d && match_of(
                arg,
                hits[j].entry.name,
            )->0 == 0;
        assert(seen.contains(hits[j]));
        assert(t.lies_at(hits[j].entry, hits[j].depth));
        assert(nearer(hits[j].entry, hits[j].depth, e, depth, arg));
    }
    let x = choose|x: int| 0 <= x < seen.len() && seen[x] == s;
    assert(fits(seen[x].entry, arg));
}

/// A search that has come to its end offers exactly the directories of the best
/// quality at the least depth, each once, in the order of their rank.
pub proof fn search_offers_the_best(t: Tree, arg: Seq<char>, home: Option<Seq<char>>, n: nat)
    requires
        t.coherent(),
        after_turns(t, arg, home, n).over(),
    ensures
        exists|es: Seq<EntryRow>| #[trigger]
            lists_the_best(t, arg, es) && walk_result(after_turns(t, arg, home, n).found) == ranked(
                es.map_values(|e: EntryRow| offered(e, arg, home, t.windows)),
            ),
{
    let w = after_turns(t, arg, home, n);
    let (seen, done, cur) = lemma_turns(t, arg, home, n);
    let hits = fitting(seen, arg);
    let found = w.found;
    let f = |i: int| unbeaten(found, i);
    let keep = picked(found.len(), f);
    let es = Seq::new(keep.len(), |k: int| hits[keep[k]].entry);
    picked_is_exact(found.len(), f);
    lemma_fitting(seen, arg);
    lemma_fitting_distinct(seen, arg);
    assert forall|i: int, j: int| 0 <= i < j < es.len() implies (#[trigger] es[i]).path != (
    #[trigger] es[j]).path by {
        assert(keep[i] < keep[j]);
        assert(hits[keep[i]].entry.path != hits[keep[j]].entry.path);
    }
    assert forall|e: EntryRow| #[trigger]
        es.contains(e) <==> exists|depth: int| best_at(t, arg, e, depth) by {
        if es.contains(e) {
            let k = choose|k: int| 0 <= k < es.len() && es[k] == e;
            assert(f(keep[k]));
            lemma_unbeaten_is_best(t, arg, home, w, seen, done, cur, keep[k]);
            assert(best_at(t, arg, e, hits[keep[k]].depth));
        }
        if exists|depth: int| best_at(t, arg, e, depth) {
            let depth = choose|depth: int| best_at(t, arg, e, depth);
            lemma_best_is_found(t, arg, home, w, seen, done, cur, e, depth);
            let s = Seen { entry: e, depth };
            let i = choose|i: int| 0 <= i < hits.len() && hits[i] == s;
            lemma_unbeaten_is_best(t, arg, home, w, seen, done, cur, i);
            assert(f(i));
            assert(keep.contains(i));
            let k = choose|k: int| 0 <= k < keep.len() && keep[k] == i;
            assert(es[k] == e);
        }
    }
    let rows = Seq::new(keep.len(), |k: int| found[keep[k]].scored);
    assert(rows =~= es.map_values(|e: EntryRow| offered(e, arg, home, t.windows))) by {
        assert forall|k: int| 0 <= k < keep.len() implies #[trigger] rows[k] == offered(
            es[k],
            arg,
            home,
            t.windows,
        ) by {
            assert(found[keep[k]] == finding(hits[keep[k]], arg, home, t.windows));
        }
    }
    assert(lists_the_best(t, arg, es));
}

// ---- the end of a search ----

/// A listing adds to the end of the queue, one level deeper.
proof fn lemma_queue(
    w: WalkRow,
    arg: Seq<char>,
    home: Option<Seq<char>>,
    depth: int,
    es: Seq<EntryRow>,
)
    ensures
        ({
            let q = w.after_listing(arg, home, depth, es).queue;
            &&& q.len() >= w.queue.len()
            &&& forall|i: int| 0 <= i < w.queue.len() ==> #[trigger] q[i] == w.queue[i]
            &&& forall|i: int|
                w.queue.len() <= i < q.len() ==> (#[trigger] q[i]).depth == depth + 1
                    && q[i].depth < DESCENDANT_MAX_DEPTH
        }),
    decreases es.len(),
{
    if es.len() > 0 {
        lemma_queue(w, arg, home, depth, es.drop_last());
    }
}

proof fn lemma_shallow(t: Tree, arg: Seq<char>, home: Option<Seq<char>>, n: nat)
    ensures
        after_turns(t, arg, home, n).shallow(),
    decreases n,
{
    if n > 0 {
        let w = after_turns(t, arg, home, (n - 1) as nat);
        lemma_shallow(t, arg, home, (n - 1) as nat);
        if !w.over() {
            let d = w.queue[0];
            let v = WalkRow { queue: w.queue.skip(1), ..w };
            lemma_queue(v, arg, home, d.depth, (t.listing)(d.path));
            let after = turn(w, t, arg, home);
            assert forall|i: int| 0 <= i < after.queue.len() implies 0 <= (
            #[trigger] after.queue[i]).depth < DESCENDANT_MAX_DEPTH by {
                if i < v.queue.len() {
                    assert(after.queue[i] == v.queue[i]);
                    assert(v.queue[i] == w.queue[i + 1]);
                }
            }
        }
    }
}

/// With at most `c` directories of depth `k` left and none less deep, the search
/// gets behind that depth.
proof fn lemma_level(
    t: Tree,
    arg: Seq<char>,
    home: Option<Seq<char>>,
    n: nat,
    k: int,
    c: nat,
) -> (m: nat)
    requires
        ({
            let q = after_turns(t, arg, home, n).queue;
            &&& forall|i: int| 0 <= i < q.len() ==> k <= (#[trigger] q[i]).depth
            &&& forall|i: int| c <= i < q.len() ==> k < (#[trigger] q[i]).depth
        }),
    ensures
        ({
            let w = after_turns(t, arg, home, m);
            w.over() || forall|i: int| 0 <= i < w.queue.len() ==> k < (#[trigger] w.queue[i]).depth
        }),
    decreases c,
{
    let w = after_turns(t, arg, home, n);
    if c == 0 || w.over() {
        n
    } else {
        let d = w.queue[0];
        let v = WalkRow { queue: w.queue.skip(1), ..w };
        lemma_queue(v, arg, home, d.depth, (t.listing)(d.path));
        let after = after_turns(t, arg, home, n + 1);
        assert(after == turn(w, t, arg, home));
        assert forall|i: int| 0 <= i < after.queue.len() implies k <= (
        #[trigger] after.queue[i]).depth && (i >= c - 1 ==> k < after.queue[i].depth) by {
            if i < v.queue.len() {
                assert(after.queue[i] == v.queue[i]);
                assert(v.queue[i] == w.queue[i + 1]);
            }
        }
        lemma_level(t, arg, home, n + 1, k, (c - 1) as nat)
    }
}

proof fn lemma_levels(t: Tree, arg: Seq<char>, home: Option<Seq<char>>, k: int) -> (m: nat)
    requires
        0 <= k,
    ensures
        ({
            let w = after_turns(t, arg, home, m);
            w.over() || forall|i: int| 0 <= i < w.queue.len() ==> k <= (#[trigger] w.queue[i]).depth
        }),
    decreases k,
{
    if k == 0 {
        lemma_shallow(t, arg, home, 0);
        0
    } else {
        let n = lemma_levels(t, arg, home, k - 1);
        let w = after_turns(t, arg, home, n);
        if w.over() {
            n
        } else {
            lemma_level(t, arg, home, n, k - 1, w.queue.len())
        }
    }
}

/// Every search comes to an end.
pub proof fn search_ends(t: Tree, arg: Seq<char>, home: Option<Seq<char>>)
    ensures
        exists|n: nat| (#[trigger] after_turns(t, arg, home, n)).over(),
{
    let n = lemma_levels(t, arg, home, DESCENDANT_MAX_DEPTH as int);
    lemma_shallow(t, arg, home, n);
    let w = after_turns(t, arg, home, n);
    if w.queue.len() > 0 && !w.over() {
        assert(DESCENDANT_MAX_DEPTH <= w.queue[0].depth);
    }
    assert(w.over());
}

} // verus!
