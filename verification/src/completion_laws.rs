//! What holds of every completion.

use crate::input_completion::{
    best_hits, common_len, first_source, match_of, of_tier, scattered, shared_prefix, tier,
    CandidateRow, ScoredRow, WalkRow, SUBSEQ_SCORE,
};
use crate::text::{first_at, lemma_first_at, lowercase, occurs, occurs_at, starts};
use crate::util::EntryRow;
use vstd::prelude::*;

verus! {

/// `at` are places in `hay` that spell `needle`, from left to right.
pub open spec fn spelled_at(needle: Seq<char>, hay: Seq<char>, at: Seq<int>) -> bool {
    &&& at.len() == needle.len()
    &&& forall|i: int|
        0 <= i < at.len() ==> 0 <= #[trigger] at[i] < hay.len() && hay[at[i]] == needle[i]
    &&& forall|i: int, j: int| 0 <= i < j < at.len() ==> #[trigger] at[i] < #[trigger] at[j]
}

/// A scattered match is one whose letters stand in the name in their order:
/// there are places that spell it.
pub proof fn scattered_is_spelled(needle: Seq<char>, hay: Seq<char>)
    ensures
        scattered(needle, hay) == exists|at: Seq<int>| spelled_at(needle, hay, at),
    decreases hay.len(),
{
    if needle.len() == 0 {
        assert(spelled_at(needle, hay, Seq::empty()));
    } else if hay.len() == 0 {
        assert forall|at: Seq<int>| !spelled_at(needle, hay, at) by {
            if spelled_at(needle, hay, at) {
                assert(0 <= at[0] < hay.len());
            }
        }
    } else {
        let rest = hay.skip(1);
        let n = if needle[0] == hay[0] {
            needle.skip(1)
        } else {
            needle
        };
        scattered_is_spelled(n, rest);
        if scattered(needle, hay) {
            let b = choose|b: Seq<int>| spelled_at(n, rest, b);
            let moved = Seq::new(b.len(), |i: int| b[i] + 1);
            let at = if needle[0] == hay[0] {
                seq![0int] + moved
            } else {
                moved
            };
            assert forall|i: int| 0 <= i < at.len() implies 0 <= #[trigger] at[i] < hay.len()
                && hay[at[i]] == needle[i] by {
                let k = if needle[0] == hay[0] {
                    i - 1
                } else {
                    i
                };
                if k >= 0 {
                    assert(at[i] == b[k] + 1);
                    assert(rest[b[k]] == n[k]);
                }
            }
            assert(spelled_at(needle, hay, at));
        }
        if exists|at: Seq<int>| spelled_at(needle, hay, at) {
            let at = choose|at: Seq<int>| spelled_at(needle, hay, at);
            let b = if needle[0] == hay[0] {
                Seq::new((at.len() - 1) as nat, |i: int| at[i + 1] - 1)
            } else {
                Seq::new(at.len(), |i: int| at[i] - 1)
            };
            assert(0 <= at[0] < hay.len() && hay[at[0]] == needle[0]);
            assert forall|i: int| 0 <= i < b.len() implies 0 <= #[trigger] b[i] < rest.len()
                && rest[b[i]] == n[i] by {
                if needle[0] == hay[0] {
                    assert(at[0] < at[i + 1]);
                } else if i > 0 {
                    assert(at[0] < at[i]);
                }
            }
            assert(spelled_at(n, rest, b));
        }
    }
}

/// What a score says of a name, letter case aside. A prefix scores best; a part
/// scores worse than any prefix and better than scattered letters; nothing typed
/// matches everything.
pub proof fn scores_tell_the_match(needle: Seq<char>, name: Seq<char>)
    ensures
        ({
            let n = lowercase(needle);
            let h = lowercase(name);
            match match_of(needle, name) {
                Some(s) => 0 <= s <= SUBSEQ_SCORE && (tier(s) == 0 <==> needle.len() == 0 || starts(
                    h,
                    n,
                )) && (tier(s) == 1 ==> occurs(h, n)) && (tier(s) == 2 ==> !occurs(h, n)
                    && scattered(n, h)),
                None => needle.len() > 0 && !occurs(h, n) && !scattered(n, h),
            }
        }),
{
    let n = lowercase(needle);
    let h = lowercase(name);
    lemma_first_at(h, n, 0);
    if needle.len() > 0 && !starts(h, n) && first_at(h, n, 0) is None {
        assert forall|i: int| !occurs_at(h, n, i) by {
            if i >= 0 {
                assert(!occurs_at(h, n, i));
            }
        }
    }
}

proof fn lemma_of_tier(rows: Seq<ScoredRow>, t: int)
    ensures
        (of_tier(rows, t).len() > 0) == exists|j: int|
            0 <= j < rows.len() && tier((#[trigger] rows[j]).score) == t,
    decreases rows.len(),
{
    if rows.len() > 0 {
        let r = rows.drop_last();
        lemma_of_tier(r, t);
        if exists|j: int| 0 <= j < r.len() && tier((#[trigger] r[j]).score) == t {
            let j = choose|j: int| 0 <= j < r.len() && tier((#[trigger] r[j]).score) == t;
            assert(rows[j] == r[j]);
        }
        if exists|j: int| 0 <= j < rows.len() && tier((#[trigger] rows[j]).score) == t {
            let j = choose|j: int| 0 <= j < rows.len() && tier((#[trigger] rows[j]).score) == t;
            if j < r.len() {
                assert(r[j] == rows[j]);
            } else {
                assert(rows.last() == rows[j]);
            }
        }
        if tier(rows.last().score) == t {
            assert(rows[rows.len() - 1] == rows.last());
        }
    }
}

proof fn lemma_first_source(sources: Seq<Seq<ScoredRow>>, t: int, i: int)
    requires
        0 <= i,
    ensures
        first_source(sources, t, i).len() > 0 ==> exists|s: int|
            i <= s < sources.len() && first_source(sources, t, i) == #[trigger] of_tier(
                sources[s],
                t,
            ) && forall|x: int| i <= x < s ==> (#[trigger] of_tier(sources[x], t)).len() == 0,
        first_source(sources, t, i).len() == 0 ==> forall|s: int|
            i <= s < sources.len() ==> (#[trigger] of_tier(sources[s], t)).len() == 0,
    decreases sources.len() - i,
{
    if i < sources.len() && of_tier(sources[i], t).len() == 0 {
        lemma_first_source(sources, t, i + 1);
        if first_source(sources, t, i + 1).len() > 0 {
            let s = choose|s: int|
                i + 1 <= s < sources.len() && first_source(sources, t, i + 1)
                    == #[trigger] of_tier(sources[s], t) && forall|x: int|
                    i + 1 <= x < s ==> (#[trigger] of_tier(sources[x], t)).len() == 0;
            assert(i <= s < sources.len() && first_source(sources, t, i) == of_tier(
                sources[s],
                t,
            ));
            assert forall|x: int| i <= x < s implies (#[trigger] of_tier(sources[x], t)).len()
                == 0 by {
            }
        }
    }
}

/// Match quality counts before the source: where any source has a match, what
/// is offered is at least as good as that match, and is all that one source has
/// of that quality. So a prefix match beats a scattered one wherever it is from.
pub proof fn best_quality_wins(sources: Seq<Seq<ScoredRow>>, i: int, j: int)
    requires
        0 <= i < sources.len(),
        0 <= j < sources[i].len(),
    ensures
        best_hits(sources).len() > 0,
        exists|s: int, t: int|
            0 <= s < sources.len() && 0 <= t <= tier(sources[i][j].score) && best_hits(sources)
                == #[trigger] of_tier(sources[s], t),
{
    let q = tier(sources[i][j].score);
    lemma_of_tier(sources[i], q);
    assert(of_tier(sources[i], q).len() > 0);
    lemma_first_source(sources, 0, 0);
    lemma_first_source(sources, 1, 0);
    lemma_first_source(sources, 2, 0);
    let t: int = if first_source(sources, 0, 0).len() > 0 {
        0
    } else if first_source(sources, 1, 0).len() > 0 {
        1
    } else {
        2
    };
    assert(best_hits(sources) == first_source(sources, t, 0));
    assert(first_source(sources, q, 0).len() > 0);
    let s = choose|s: int|
        0 <= s < sources.len() && first_source(sources, t, 0) == #[trigger] of_tier(sources[s], t);
    assert(best_hits(sources) == of_tier(sources[s], t));
}

/// Within one quality the earlier source wins: nothing is taken from a source
/// while an earlier one has a match of that quality.
pub proof fn earlier_source_wins(sources: Seq<Seq<ScoredRow>>, i: int, t: int)
    requires
        0 <= i < sources.len(),
        of_tier(sources[i], t).len() > 0,
        forall|x: int| 0 <= x < i ==> (#[trigger] of_tier(sources[x], t)).len() == 0,
    ensures
        first_source(sources, t, 0) == of_tier(sources[i], t),
{
    lemma_first_source(sources, t, 0);
    let s = choose|s: int|
        0 <= s < sources.len() && first_source(sources, t, 0) == #[trigger] of_tier(sources[s], t)
            && forall|x: int| 0 <= x < s ==> (#[trigger] of_tier(sources[x], t)).len() == 0;
    if first_source(sources, t, 0).len() == 0 {
        assert(of_tier(sources[i], t).len() == 0);
    } else if s < i {
        assert(of_tier(sources[s], t).len() == 0);
    } else if i < s {
        assert(of_tier(sources[i], t).len() == 0);
    }
}

proof fn lemma_common(a: Seq<char>, b: Seq<char>)
    ensures
        common_len(a, b) <= a.len(),
        common_len(a, b) <= b.len(),
        a.take(common_len(a, b) as int) == b.take(common_len(a, b) as int),
        forall|p: Seq<char>|
            #[trigger] starts(a, p) && starts(b, p) ==> p.len() <= common_len(a, b),
    decreases a.len(),
{
    if a.len() > 0 && b.len() > 0 && a[0] == b[0] {
        let x = a.skip(1);
        let y = b.skip(1);
        lemma_common(x, y);
        let n = common_len(x, y) as int;
        assert(a.take(n + 1) =~= seq![a[0]] + x.take(n));
        assert(b.take(n + 1) =~= seq![b[0]] + y.take(n));
        assert forall|p: Seq<char>| #[trigger] starts(a, p) && starts(b, p) implies p.len()
            <= common_len(a, b) by {
            if p.len() > 0 {
                let q = p.skip(1);
                assert(x.take(q.len() as int) =~= q) by {
                    assert(p == a.take(p.len() as int));
                }
                assert(y.take(q.len() as int) =~= q) by {
                    assert(p == b.take(p.len() as int));
                }
                assert(starts(x, q) && starts(y, q));
            }
        }
    } else {
        assert(a.take(0) =~= b.take(0));
        assert forall|p: Seq<char>| #[trigger] starts(a, p) && starts(b, p) implies p.len()
            <= common_len(a, b) by {
            if p.len() > 0 {
                assert(a.take(p.len() as int)[0] == a[0]);
                assert(b.take(p.len() as int)[0] == b[0]);
            }
        }
    }
}

proof fn lemma_starts_trans(a: Seq<char>, b: Seq<char>, c: Seq<char>)
    requires
        starts(a, b),
        starts(b, c),
    ensures
        starts(a, c),
{
    assert(a.take(c.len() as int) =~= b.take(c.len() as int)) by {
        assert(b == a.take(b.len() as int));
    }
}

/// What a completion puts in is the longest text that all replacements start
/// with.
pub proof fn shared_prefix_is_longest(cs: Seq<CandidateRow>, p: Seq<char>)
    requires
        cs.len() > 0,
    ensures
        forall|i: int|
            0 <= i < cs.len() ==> starts((#[trigger] cs[i]).replacement, shared_prefix(cs)),
        (forall|i: int| 0 <= i < cs.len() ==> starts((#[trigger] cs[i]).replacement, p)) ==> starts(
            shared_prefix(cs),
            p,
        ),
    decreases cs.len(),
{
    if cs.len() == 1 {
        let a = cs[0].replacement;
        assert(a.take(a.len() as int) =~= a);
    } else {
        let r = cs.drop_last();
        shared_prefix_is_longest(r, p);
        let q = shared_prefix(r);
        let b = cs.last().replacement;
        lemma_common(q, b);
        let n = common_len(q, b) as int;
        let s = q.take(n);
        assert(shared_prefix(cs) == s);
        assert(q.take(s.len() as int) =~= s);
        assert(b.take(s.len() as int) =~= s);
        assert(starts(q, s) && starts(b, s));
        assert forall|i: int| 0 <= i < cs.len() implies starts(
            (#[trigger] cs[i]).replacement,
            s,
        ) by {
            if i < r.len() {
                assert(r[i] == cs[i]);
                lemma_starts_trans(cs[i].replacement, q, s);
            }
        }
        if forall|i: int| 0 <= i < cs.len() ==> starts((#[trigger] cs[i]).replacement, p) {
            assert forall|i: int| 0 <= i < r.len() implies starts(
                (#[trigger] r[i]).replacement,
                p,
            ) by {
                assert(r[i] == cs[i]);
            }
            assert(starts(cs[cs.len() - 1].replacement, p));
            assert(starts(q, p) && starts(b, p));
            assert(s.take(p.len() as int) =~= q.take(p.len() as int));
        }
    }
}

/// Directories are handed out by depth, and none comes before one less deep.
pub open spec fn breadth_first(w: WalkRow, depth: int) -> bool {
    &&& forall|i: int|
        0 <= i < w.queue.len() ==> depth <= (#[trigger] w.queue[i]).depth <= depth + 1
    &&& forall|i: int, j: int|
        0 <= i < j < w.queue.len() ==> (#[trigger] w.queue[i]).depth <= (
        #[trigger] w.queue[j]).depth
}

/// The search below the bookmarks is breadth first: with a directory of some
/// depth read, nothing less deep is left, and what it adds is one level deeper
/// and goes behind everything.
pub proof fn walk_stays_breadth_first(
    w: WalkRow,
    arg: Seq<char>,
    home: Option<Seq<char>>,
    depth: int,
    es: Seq<EntryRow>,
)
    requires
        breadth_first(w, depth),
    ensures
        breadth_first(w.after_listing(arg, home, depth, es), depth),
    decreases es.len(),
{
    if es.len() > 0 {
        walk_stays_breadth_first(w, arg, home, depth, es.drop_last());
    }
}

/// The next directory of the search is the least deep one that is left.
pub proof fn walk_reads_shallow_first(w: WalkRow, depth: int)
    requires
        breadth_first(w, depth),
        w.queue.len() > 0,
    ensures
        breadth_first(WalkRow { queue: w.queue.skip(1), ..w }, w.queue[0].depth),
        forall|i: int| 0 <= i < w.queue.len() ==> w.queue[0].depth <= (#[trigger] w.queue[i]).depth,
{
    let q = w.queue.skip(1);
    assert forall|i: int| 0 <= i < q.len() implies w.queue[0].depth <= (#[trigger] q[i]).depth
        <= w.queue[0].depth + 1 by {
        assert(q[i] == w.queue[i + 1]);
    }
    assert forall|i: int, j: int| 0 <= i < j < q.len() implies (#[trigger] q[i]).depth <= (
    #[trigger] q[j]).depth by {
        assert(q[i] == w.queue[i + 1] && q[j] == w.queue[j + 1]);
    }
}

/// At its start the search is at the bookmarks.
pub proof fn walk_starts_at_bookmarks(bookmarks: Seq<Seq<char>>, windows: bool)
    ensures
        breadth_first(WalkRow::started(bookmarks, windows), 0),
{
}

/// No directory is visited twice: what a listing adds to the visited ones was
/// not among them, and each is added once.
pub proof fn walk_visits_once(
    w: WalkRow,
    arg: Seq<char>,
    home: Option<Seq<char>>,
    depth: int,
    es: Seq<EntryRow>,
)
    ensures
        ({
            let after = w.after_listing(arg, home, depth, es);
            &&& w.visited.len() <= after.visited.len()
            &&& after.visited.take(w.visited.len() as int) == w.visited
            &&& forall|i: int, j: int|
                0 <= i < j < after.visited.len() && w.visited.len() <= j
                    ==> #[trigger] after.visited[i] != #[trigger] after.visited[j]
        }),
    decreases es.len(),
{
    if es.len() == 0 {
        assert(w.visited.take(w.visited.len() as int) =~= w.visited);
    } else {
        walk_visits_once(w, arg, home, depth, es.drop_last());
        let before = w.after_listing(arg, home, depth, es.drop_last());
        let after = w.after_listing(arg, home, depth, es);
        let n = w.visited.len() as int;
        assert(after.visited.take(n) =~= before.visited.take(n));
        assert forall|i: int, j: int|
            0 <= i < j < after.visited.len() && w.visited.len() <= j implies #[trigger] after.visited[i]
            != #[trigger] after.visited[j] by {
            if j < before.visited.len() {
                assert(after.visited[i] == before.visited[i]);
                assert(after.visited[j] == before.visited[j]);
            } else {
                assert(after.visited[i] == before.visited[i]);
                assert(!before.visited.contains(after.visited[j]));
            }
        }
    }
}

} // verus!
