//! What holds of every path.

use crate::path::{
    absolute, bare_len, behind, body, components, components_from, form, has_device, has_drive,
    is_literal, is_literal_drive, is_literal_share, joined, kept, kept_end,
    lemma_kept_end, lemma_literal_len, lemma_share_len, lemma_start_shift, literal_len,
    main_separator, next_kept, path_eq, piece_start, pieces, prefix_len, prefix_name, relative,
    rooted, separator, separators, share_len, slashed, steps, written, Form,
};
use crate::text::{lemma_span, lemma_span_is, replaced, span, Class};
use crate::util::{resolved, tilded};
use vstd::prelude::*;

verus! {

/// The two texts agree but for which separators they are written with.
pub open spec fn respelled(a: Seq<char>, b: Seq<char>, windows: bool) -> bool {
    &&& a.len() == b.len()
    &&& forall|i: int|
        0 <= i < a.len() ==> #[trigger] a[i] == b[i] || (separator(windows).has(a[i]) && separator(
            windows,
        ).has(b[i]))
}

/// `rest` has no drive or share of its own, and makes none when it is put behind
/// `base`. On POSIX systems that is always so.
pub open spec fn stays_below(base: Seq<char>, rest: Seq<char>, windows: bool) -> bool {
    base.len() == 0 || (prefix_len(rest, windows) == 0 && prefix_len(
        joined(base, rest, windows),
        windows,
    ) == prefix_len(base, windows))
}

/// `rest`, which the ordinary rules read, leads from `base` to `p` also where
/// these two are read literally: it makes the same steps, and none of them is `.`
/// or `..`. Where nothing is read literally, that is always so.
pub open spec fn reads_alike(
    p: Seq<char>,
    base: Seq<char>,
    rest: Seq<char>,
    windows: bool,
) -> bool {
    let c = components(rest, windows);
    if base.len() == 0 {
        form(p, windows) !is Literal && form(rest, windows) !is Literal
    } else {
        form(base, windows) is Literal ==> {
            &&& c == components(p, windows).skip(components(base, windows).len() as int)
            &&& rooted(rest, windows) == (rooted(p, windows) && !rooted(base, windows))
            &&& forall|i: int| 0 <= i < c.len() ==> #[trigger] c[i] != "."@ && c[i] != ".."@
        }
    }
}

// ---- pieces ----

proof fn lemma_pieces_add(a: Seq<char>, c: char, b: Seq<char>, f: Form)
    requires
        separators(f).has(c),
    ensures
        pieces(a + seq![c] + b, f) == pieces(a, f) + pieces(b, f),
    decreases a.len(),
{
    let sep = separators(f);
    let n = span(a, sep, false);
    let t = a + seq![c] + b;
    lemma_span(a, sep, false);
    assert forall|i: int| 0 <= i < n implies sep.has(#[trigger] t[i]) == false by {
        assert(t[i] == a[i]);
    }
    if n < a.len() {
        assert(t[n as int] == a[n as int]);
        lemma_span_is(t, sep, false, n);
        let m = n as int;
        assert(t.take(m) =~= a.take(m));
        assert(t.skip(m + 1) =~= a.skip(m + 1) + seq![c] + b);
        lemma_pieces_add(a.skip(m + 1), c, b, f);
        assert(pieces(t, f) =~= pieces(a, f) + pieces(b, f));
    } else {
        assert(t[n as int] == c);
        lemma_span_is(t, sep, false, n);
        assert(t.take(n as int) =~= a);
        assert(t.skip(n as int + 1) =~= b);
    }
}

/// The text from the start of piece `i` to the end of piece `j - 1` has just
/// these pieces.
proof fn lemma_pieces_between(t: Seq<char>, i: int, j: int, f: Form)
    requires
        0 <= i < j <= pieces(t, f).len(),
    ensures
        ({
            let ps = pieces(t, f);
            let from = piece_start(ps, i);
            let to = piece_start(ps, j) - 1;
            &&& 0 <= from <= to <= t.len()
            &&& pieces(t.subrange(from, to), f) == ps.subrange(i, j)
        }),
    decreases t.len(),
{
    let sep = separators(f);
    let n = span(t, sep, false) as int;
    let ps = pieces(t, f);
    lemma_span(t, sep, false);
    if n < t.len() {
        let rest = t.skip(n + 1);
        let first = t.take(n);
        let qs = pieces(rest, f);
        assert(ps.skip(1) =~= qs);
        lemma_start_shift(ps, j);
        if i > 0 {
            lemma_start_shift(ps, i);
            lemma_pieces_between(rest, i - 1, j - 1, f);
            let x = piece_start(qs, i - 1);
            let y = piece_start(qs, j - 1) - 1;
            assert(t.subrange(n + 1 + x, n + 1 + y) =~= rest.subrange(x, y));
            assert(ps.subrange(i, j) =~= qs.subrange(i - 1, j - 1));
        } else {
            lemma_first_piece(t, f);
            if j == 1 {
                assert(piece_start(qs, 0) == 0);
                assert(t.subrange(0, n) =~= first);
                assert(ps.subrange(0, 1) =~= seq![first]);
            } else {
                lemma_pieces_between(rest, 0, j - 1, f);
                let y = piece_start(qs, j - 1) - 1;
                let x = rest.subrange(0, y);
                assert(piece_start(qs, 0) == 0);
                assert(t.subrange(0, n + 1 + y) =~= first + seq![t[n]] + x);
                lemma_pieces_add(first, t[n], x, f);
                assert(ps.subrange(0, j) =~= seq![first] + qs.subrange(0, j - 1));
            }
        }
    } else {
        assert(ps =~= seq![t]);
        assert(piece_start(ps, 0) == 0);
        assert(piece_start(ps, 1) == t.len() + 1);
        assert(t.subrange(0, t.len() as int) =~= t);
        assert(ps.subrange(0, 1) =~= ps);
    }
}

/// The text in front of the first separator is one piece.
proof fn lemma_first_piece(t: Seq<char>, f: Form)
    ensures
        ({
            let first = t.take(span(t, separators(f), false) as int);
            pieces(first, f) == seq![first]
        }),
{
    let sep = separators(f);
    let n = span(t, sep, false);
    lemma_span(t, sep, false);
    let first = t.take(n as int);
    assert forall|i: int| 0 <= i < n implies sep.has(#[trigger] first[i]) == false by {
        assert(first[i] == t[i]);
    }
    lemma_span_is(first, sep, false, n);
}

proof fn lemma_slashed_piece(t: Seq<char>, f: Form)
    ensures
        pieces(t, f).len() >= 1,
        (pieces(t, f)[0].len() == 0) == (t.len() == 0 || slashed(t, f)),
{
    let sep = separators(f);
    lemma_span(t, sep, false);
    let n = span(t, sep, false) as int;
    if n < t.len() {
        assert(pieces(t, f)[0] == t.take(n));
    } else {
        assert(pieces(t, f)[0] == t);
    }
}

// ---- components ----

/// Behind the first piece only what is there counts, not where.
proof fn lemma_tail(a: Seq<Seq<char>>, i: int, b: Seq<Seq<char>>, j: int, f: Form)
    requires
        1 <= i <= a.len(),
        1 <= j <= b.len(),
        a.skip(i) == b.skip(j),
    ensures
        components_from(a, i, f) == components_from(b, j, f),
    decreases a.len() - i,
{
    assert(a.skip(i).len() == a.len() - i && b.skip(j).len() == b.len() - j);
    if i < a.len() {
        assert(a.skip(i)[0] == a[i] && b.skip(j)[0] == b[j]);
        assert(kept(a, i, f) == kept(b, j, f));
        assert(a.skip(i + 1) =~= a.skip(i).skip(1));
        assert(b.skip(j + 1) =~= b.skip(j).skip(1));
        lemma_tail(a, i + 1, b, j + 1, f);
    }
}

/// The components of some pieces that stand behind others.
spec fn tail(b: Seq<Seq<char>>, f: Form) -> Seq<Seq<char>> {
    components_from(seq![Seq::<char>::empty()] + b, 1, f)
}

proof fn lemma_concat(a: Seq<Seq<char>>, b: Seq<Seq<char>>, i: int, f: Form)
    requires
        a.len() >= 1,
        0 <= i <= a.len(),
    ensures
        components_from(a + b, i, f) == components_from(a, i, f) + tail(b, f),
    decreases a.len() - i,
{
    let all = a + b;
    if i == a.len() {
        let c = seq![Seq::<char>::empty()] + b;
        assert(all.skip(i) =~= b && c.skip(1) =~= b);
        lemma_tail(all, i, c, 1, f);
        assert(components_from(a, i, f) + tail(b, f) =~= tail(b, f));
    } else {
        assert(all[i] == a[i]);
        lemma_concat(a, b, i + 1, f);
        assert(kept(all, i, f) == kept(a, i, f));
        assert(components_from(all, i, f) =~= components_from(a, i, f) + tail(b, f));
    }
}

proof fn lemma_behind(ps: Seq<Seq<char>>, i: int, k: nat, f: Form)
    requires
        0 <= i <= ps.len(),
        k <= components_from(ps, i, f).len(),
    ensures
        i <= behind(ps, i, k, f) <= ps.len(),
        k > 0 ==> behind(ps, i, k, f) > i,
        components_from(ps, i, f) == components_from(ps, i, f).take(k as int) + components_from(
            ps,
            behind(ps, i, k, f),
            f,
        ),
    decreases ps.len() - i,
{
    let c = components_from(ps, i, f);
    if k == 0 {
        assert(c.take(0) + c =~= c);
    } else if kept(ps, i, f) {
        let d = components_from(ps, i + 1, f);
        lemma_behind(ps, i + 1, (k - 1) as nat, f);
        assert(c =~= seq![ps[i]] + d);
        assert(c.take(k as int) =~= seq![ps[i]] + d.take(k - 1));
        assert(c =~= c.take(k as int) + components_from(ps, behind(ps, i, k, f), f));
    } else {
        lemma_behind(ps, i + 1, k, f);
    }
}

proof fn lemma_next_kept(ps: Seq<Seq<char>>, i: int, f: Form)
    requires
        0 <= i <= ps.len(),
    ensures
        i <= next_kept(ps, i, f) <= ps.len(),
        next_kept(ps, i, f) < ps.len() ==> kept(ps, next_kept(ps, i, f), f),
        components_from(ps, next_kept(ps, i, f), f) == components_from(ps, i, f),
    decreases ps.len() - i,
{
    if i < ps.len() && !kept(ps, i, f) {
        lemma_next_kept(ps, i + 1, f);
    }
}

/// Nothing is lost with the pieces behind the last component.
proof fn lemma_cut(ps: Seq<Seq<char>>, i: int, f: Form)
    requires
        0 <= i <= ps.len(),
    ensures
        components_from(ps, i, f) == components_from(
            ps.take(kept_end(ps, ps.len() as int, f)),
            i,
            f,
        ),
    decreases ps.len() - i,
{
    let end = kept_end(ps, ps.len() as int, f);
    lemma_kept_end(ps, ps.len() as int, f);
    let qs = ps.take(end);
    if i < ps.len() {
        lemma_cut(ps, i + 1, f);
        if i < end {
            assert(qs[i] == ps[i]);
            assert(kept(qs, i, f) == kept(ps, i, f));
        } else {
            assert(!kept(ps, i, f));
        }
    }
}

// ---- what stands in front ----

/// Behind a share there is nothing, or a separator.
proof fn lemma_share_body(p: Seq<char>, windows: bool)
    requires
        form(p, windows) is Share,
    ensures
        body(p, windows).len() == 0 || slashed(body(p, windows), form(p, windows)),
{
    let k = separator(true);
    let n = share_len(p);
    lemma_share_len(p);
    if n < p.len() {
        let from = if has_device(p) {
            4
        } else {
            3 + span(p.skip(2), k, false) as int
        };
        lemma_span(p.skip(2), k, false);
        lemma_span(p.skip(from), k, false);
        assert(p.skip(from)[n - from] == p[n]);
    }
}

/// Behind what is read literally there is nothing, or a separator.
proof fn lemma_literal_body(p: Seq<char>, windows: bool)
    requires
        form(p, windows) is Literal,
    ensures
        body(p, windows).len() == 0 || slashed(body(p, windows), form(p, windows)),
{
    let k = separators(Form::Literal);
    let n = literal_len(p);
    lemma_literal_len(p);
    if n < p.len() {
        if is_literal_share(p) {
            let server = span(p.skip(8), k, false) as int;
            lemma_span(p.skip(8), k, false);
            assert(p.skip(8)[server] == p[8 + server]);
            lemma_span(p.skip(9 + server), k, false);
            if n > 8 + server {
                assert(p.skip(9 + server)[n - 9 - server] == p[n]);
            }
        } else if !is_literal_drive(p) {
            lemma_span(p.skip(4), k, false);
            assert(p.skip(4)[n - 4] == p[n]);
        }
    }
}

proof fn lemma_prefix(p: Seq<char>, windows: bool)
    ensures
        0 <= prefix_len(p, windows) <= p.len(),
        prefix_len(p, windows) == 2 <==> form(p, windows) is Drive,
        prefix_len(p, windows) == 0 <==> form(p, windows) is Posix || form(p, windows) is Plain,
        prefix_len(p, windows) >= 4 <==> form(p, windows) is Share || form(p, windows) is Literal,
        body(p, windows).len() == p.len() - prefix_len(p, windows),
        form(p, windows) !is Literal ==> body(p, windows) == p.skip(prefix_len(p, windows)),
        prefix_name(p, windows).len() == prefix_len(p, windows),
{
    lemma_share_len(p);
    if is_literal(p) {
        lemma_literal_len(p);
    }
}

/// What stands behind the prefix does not matter to it.
proof fn lemma_prefix_take(p: Seq<char>, n: int, windows: bool)
    requires
        prefix_len(p, windows) <= n <= p.len(),
        form(p, windows) !is Literal,
    ensures
        prefix_len(p.take(n), windows) == prefix_len(p, windows),
        form(p.take(n), windows) == form(p, windows),
{
    let q = p.take(n);
    let k = separator(true);
    lemma_share_len(p);
    lemma_share_len(q);
    lemma_prefix(p, windows);
    if windows && !has_drive(p) {
        assert(!has_drive(q));
        assert(!is_literal(q));
        if has_device(q) {
            assert(has_device(p));
            let a = p.skip(4);
            let c = q.skip(4);
            assert(c =~= a.take(n - 4));
            lemma_span(a, k, false);
            let s = span(a, k, false) as int;
            assert forall|i: int| 0 <= i < s implies k.has(#[trigger] c[i]) == false by {
                assert(c[i] == a[i]);
            }
            if s < c.len() {
                assert(c[s] == a[s]);
            }
            lemma_span_is(c, k, false, s as nat);
        } else if n >= 2 && k.has(p[0]) && k.has(p[1]) {
            assert(!has_device(p));
            let a = p.skip(2);
            let c = q.skip(2);
            assert(c =~= a.take(n - 2));
            lemma_span(a, k, false);
            lemma_span(c, k, false);
            let s = span(a, k, false) as int;
            let m = span(c, k, false) as int;
            if m < c.len() {
                assert(a[m] == c[m]);
                assert forall|i: int| 0 <= i < m implies k.has(#[trigger] a[i]) == false by {
                    assert(a[i] == c[i]);
                }
                lemma_span_is(a, k, false, m as nat);
                let b = p.skip(3 + s);
                let d = q.skip(3 + s);
                assert(d =~= b.take(n - 3 - s));
                lemma_span(b, k, false);
                lemma_span(d, k, false);
                let x = span(b, k, false) as int;
                let y = span(d, k, false) as int;
                if y > 0 && s > 0 {
                    assert(d[0] == b[0]);
                    assert(!k.has(d[0]));
                    assert(x > 0);
                    assert(share_len(p) == 3 + s + x);
                    assert(n >= 3 + s + x);
                    assert forall|i: int| 0 <= i < x implies k.has(#[trigger] d[i]) == false by {
                        assert(d[i] == b[i]);
                    }
                    if x < d.len() {
                        assert(d[x] == b[x]);
                    }
                    lemma_span_is(d, k, false, x as nat);
                } else if share_len(p) > 0 {
                    assert(x > 0 && n >= 3 + s + x);
                    assert(d[0] == b[0]);
                    assert(!k.has(b[0]));
                }
            } else {
                // The server name goes on to the end, so there is no share.
                if share_len(p) > 0 {
                    assert(n >= 4 + s);
                    assert(c.len() > s);
                    assert(c[s] == a[s]);
                }
            }
        }
    }
}

proof fn lemma_respelled_span(a: Seq<char>, b: Seq<char>, windows: bool)
    requires
        respelled(a, b, windows),
    ensures
        span(a, separator(windows), false) == span(b, separator(windows), false),
{
    let sep = separator(windows);
    lemma_span(a, sep, false);
    let n = span(a, sep, false);
    assert forall|i: int| 0 <= i < n implies sep.has(#[trigger] b[i]) == false by {
        assert(sep.has(a[i]) == false);
    }
    if n < b.len() {
        assert(a[n as int] == b[n as int] || sep.has(b[n as int]));
    }
    lemma_span_is(b, sep, false, n);
}

proof fn lemma_respelled_skip(a: Seq<char>, b: Seq<char>, n: int, windows: bool)
    requires
        respelled(a, b, windows),
        0 <= n <= a.len(),
    ensures
        respelled(a.skip(n), b.skip(n), windows),
{
    assert forall|i: int| 0 <= i < a.skip(n).len() implies #[trigger] a.skip(n)[i] == b.skip(n)[i]
        || (separator(windows).has(a.skip(n)[i]) && separator(windows).has(b.skip(n)[i])) by {
        assert(a[i + n] == b[i + n] || separator(windows).has(a[i + n]));
    }
}

proof fn lemma_respelled_pieces(a: Seq<char>, b: Seq<char>, windows: bool, f: Form)
    requires
        respelled(a, b, windows),
        separators(f) == separator(windows),
    ensures
        pieces(a, f) == pieces(b, f),
        slashed(a, f) == slashed(b, f),
    decreases a.len(),
{
    let sep = separator(windows);
    lemma_respelled_span(a, b, windows);
    lemma_span(a, sep, false);
    let n = span(a, sep, false) as int;
    assert(a.take(n) =~= b.take(n)) by {
        assert forall|i: int| 0 <= i < n implies a[i] == b[i] by {
            assert(sep.has(a[i]) == false);
        }
    }
    if a.len() > 0 {
        assert(a[0] == b[0] || (sep.has(a[0]) && sep.has(b[0])));
    }
    if n < a.len() {
        lemma_respelled_skip(a, b, n + 1, windows);
        lemma_respelled_pieces(a.skip(n + 1), b.skip(n + 1), windows, f);
    } else {
        assert(a.take(n) =~= a && b.take(n) =~= b);
    }
}

proof fn lemma_respelled_share(a: Seq<char>, b: Seq<char>)
    requires
        respelled(a, b, true),
    ensures
        has_drive(a) == has_drive(b),
        share_len(a) == share_len(b),
{
    let k = separator(true);
    if a.len() >= 2 {
        assert(a[0] == b[0] || (k.has(a[0]) && k.has(b[0])));
        assert(a[1] == b[1] || (k.has(a[1]) && k.has(b[1])));
        lemma_respelled_skip(a, b, 2, true);
        lemma_respelled_span(a.skip(2), b.skip(2), true);
        lemma_span(a.skip(2), k, false);
        let server = span(a.skip(2), k, false) as int;
        if 2 + server < a.len() {
            lemma_respelled_skip(a, b, 3 + server, true);
            lemma_respelled_span(a.skip(3 + server), b.skip(3 + server), true);
        }
    }
    if a.len() >= 4 {
        assert(a[2] == b[2] || (k.has(a[2]) && k.has(b[2])));
        assert(a[3] == b[3] || (k.has(a[3]) && k.has(b[3])));
        lemma_respelled_skip(a, b, 4, true);
        lemma_respelled_span(a.skip(4), b.skip(4), true);
    }
}

/// Paths that are written with other separators are the same path.
proof fn lemma_respelled_same(a: Seq<char>, b: Seq<char>, windows: bool)
    requires
        respelled(a, b, windows),
        form(a, windows) !is Literal,
        form(b, windows) !is Literal,
    ensures
        path_eq(a, b, windows),
{
    let n = prefix_len(a, windows);
    if windows {
        let k = separator(true);
        lemma_respelled_share(a, b);
        lemma_prefix(a, windows);
        let x = replaced(a.take(n), Class::One('/'), '\\');
        let y = replaced(b.take(n), Class::One('/'), '\\');
        assert forall|i: int| 0 <= i < n implies x[i] == y[i] by {
            assert(a[i] == b[i] || (k.has(a[i]) && k.has(b[i])));
        }
        assert(x =~= y);
        if has_drive(a) {
            assert(a[0] == b[0] && a[1] == b[1]);
            assert(a.take(2) =~= b.take(2));
        }
    } else {
        assert(prefix_name(a, windows) =~= prefix_name(b, windows));
    }
    lemma_prefix(a, windows);
    lemma_prefix(b, windows);
    lemma_respelled_skip(a, b, n, windows);
    lemma_respelled_pieces(body(a, windows), body(b, windows), windows, form(a, windows));
}

// ---- a path below another ----

/// Without what names nothing at its end, a text has the same components.
proof fn lemma_bare(t: Seq<char>, f: Form)
    ensures
        0 <= bare_len(t, f) <= t.len(),
        slashed(t.take(bare_len(t, f)), f) == slashed(t, f),
        components_from(pieces(t.take(bare_len(t, f)), f), 0, f) == components_from(
            pieces(t, f),
            0,
            f,
        ),
{
    let ps = pieces(t, f);
    let end = kept_end(ps, ps.len() as int, f);
    let n = bare_len(t, f);
    lemma_kept_end(ps, ps.len() as int, f);
    lemma_cut(ps, 0, f);
    lemma_slashed_piece(t, f);
    if end > 0 {
        lemma_pieces_between(t, 0, end, f);
        assert(piece_start(ps, 0) == 0);
        assert(t.subrange(0, n) =~= t.take(n));
        assert(ps.subrange(0, end) =~= ps.take(end));
        lemma_slashed_piece(t.take(n), f);
        assert(ps.take(end)[0] == ps[0]);
        if slashed(t, f) {
            assert(!kept(ps, 0, f));
            assert(end >= 2);
            lemma_start_shift(ps, end);
            lemma_starts_at_least(ps.skip(1), end - 1);
            assert(n >= 1);
            assert(t.take(n)[0] == t[0]);
        } else if n > 0 {
            assert(t.take(n)[0] == t[0]);
        }
    } else {
        assert(ps.take(0).len() == 0);
        if slashed(t, f) {
            let one = t.take(1);
            assert(one[0] == t[0]);
            assert(one =~= Seq::<char>::empty() + seq![t[0]] + Seq::<char>::empty());
            lemma_pieces_add(Seq::empty(), t[0], Seq::empty(), f);
            assert(pieces(Seq::<char>::empty(), f) =~= seq![Seq::<char>::empty()]);
            let two = pieces(one, f);
            assert(two.len() == 2 && two[0].len() == 0 && two[1].len() == 0);
            assert(components_from(two, 2, f).len() == 0);
            assert(components_from(two, 1, f).len() == 0);
            assert(components_from(two, 0, f) =~= components_from(ps, 0, f));
        } else if ps[0] == "."@ {
            reveal_strlit(".");
            let one = t.take(1);
            lemma_first_piece(t, f);
            assert(one =~= ps[0]);
            assert(!kept(ps, 0, f));
            assert(!kept(seq![one], 0, f));
            assert(components_from(seq![one], 1, f).len() == 0);
            assert(components_from(seq![one], 0, f) =~= components_from(ps, 0, f));
            assert(one[0] == t[0]);
        } else {
            let none = t.take(0);
            assert(pieces(none, f) =~= seq![none]);
            assert(components_from(pieces(none, f), 1, f).len() == 0);
            assert(components_from(pieces(none, f), 0, f) =~= components_from(ps, 0, f));
        }
    }
}

proof fn lemma_starts_at_least(ps: Seq<Seq<char>>, i: int)
    requires
        0 <= i <= ps.len(),
    ensures
        piece_start(ps, i) >= i,
    decreases i,
{
    if i > 0 {
        lemma_starts_at_least(ps, i - 1);
    }
}

/// Where the way from `base` to `p` starts among the pieces of `p`.
proof fn lemma_way(p: Seq<char>, base: Seq<char>, windows: bool)
    requires
        base.len() > 0,
        relative(p, base, windows) is Some,
    ensures
        ({
            let f = form(p, windows);
            let ps = pieces(body(p, windows), f);
            let b = components(base, windows);
            let start = next_kept(ps, behind(ps, 0, b.len(), f), f);
            &&& 0 <= start <= ps.len()
            &&& components(p, windows) == b + components_from(ps, start, f)
            &&& start < ps.len() ==> kept(ps, start, f)
            &&& rooted(base, windows) || b.len() > 0 ==> start >= 1
            &&& rooted(base, windows) || b.len() > 0 ==> rooted(base, windows) == rooted(p, windows)
            &&& prefix_name(p, windows) == prefix_name(base, windows)
            &&& f == form(base, windows)
        }),
{
    let f = form(p, windows);
    let t = body(p, windows);
    let ps = pieces(t, f);
    let b = components(base, windows);
    let c = components(p, windows);
    assert(b =~= c.take(b.len() as int));
    lemma_behind(ps, 0, b.len(), f);
    let at = behind(ps, 0, b.len(), f);
    lemma_next_kept(ps, at, f);
    lemma_slashed_piece(t, f);
    if b.len() == 0 && rooted(base, windows) {
        if !slashed(t, f) {
            lemma_share_body(p, windows);
        }
        assert(ps[0].len() == 0);
        assert(!kept(ps, 0, f));
        assert(next_kept(ps, 0, f) == next_kept(ps, 1, f));
        lemma_next_kept(ps, 1, f);
    }
}

/// A path that lies no deeper than `base` is `base`.
proof fn lemma_no_way(p: Seq<char>, base: Seq<char>, windows: bool)
    requires
        relative(p, base, windows) == Some(Seq::<char>::empty()),
    ensures
        path_eq(base, p, windows),
{
    let f = form(p, windows);
    let t = body(p, windows);
    let ps = pieces(t, f);
    lemma_bare(t, f);
    lemma_prefix(p, windows);
    let none = Seq::<char>::empty();
    let n = bare_len(t, f);
    let k = prefix_len(p, windows);
    assert(pieces(none, f) =~= seq![none]);
    assert(components_from(seq![none], 1, f).len() == 0);
    assert(components_from(seq![none], 0, f).len() == 0);
    if base.len() == 0 {
        assert(p.take(k + n).len() == k + n);
        assert(k == 0 && n == 0);
        assert(base =~= none);
        assert(t.take(0) =~= none);
        lemma_prefix(base, windows);
        lemma_share_len(base);
        assert(form(base, windows) == f);
        assert(body(base, windows) =~= none);
        assert(prefix_name(base, windows) =~= prefix_name(p, windows));
        assert(components(base, windows) =~= components(p, windows));
    } else {
        lemma_way(p, base, windows);
        let b = components(base, windows);
        let start = next_kept(ps, behind(ps, 0, b.len(), f), f);
        let end = kept_end(ps, ps.len() as int, f);
        if !rooted(base, windows) && b.len() == 0 {
            assert(p.subrange(k, k + n).len() == n);
            assert(t.take(n) =~= none);
            assert(components(p, windows) =~= b);
        } else {
            lemma_kept_end(ps, ps.len() as int, f);
            if start < end {
                lemma_pieces_between(t, start, end, f);
                let ms = ps.subrange(start, end);
                assert(ms[0] == ps[start]);
                lemma_slashed_piece(none, f);
            }
            lemma_cut(ps, start, f);
            assert(components_from(ps.take(end), start, f).len() == 0);
            assert(components(p, windows) =~= b);
        }
    }
}

/// A path that is not at the root and has no components has a drive in front, or
/// is read literally.
proof fn lemma_drive_only(base: Seq<char>, windows: bool)
    requires
        base.len() > 0,
        !rooted(base, windows),
        components(base, windows).len() == 0,
    ensures
        form(base, windows) is Drive || form(base, windows) is Literal,
{
    let f = form(base, windows);
    let t = body(base, windows);
    let ps = pieces(t, f);
    lemma_prefix(base, windows);
    lemma_slashed_piece(t, f);
    if f is Posix || f is Plain {
        assert(kept(ps, 0, f));
        assert(components(base, windows)[0] == ps[0]);
    }
}

/// Behind a drive it does not matter where a piece stands.
proof fn lemma_drive_tail(ps: Seq<Seq<char>>)
    ensures
        tail(ps, Form::Drive) == components_from(ps, 0, Form::Drive),
{
    let f = Form::Drive;
    let all = seq![Seq::<char>::empty()] + ps;
    if ps.len() > 0 {
        assert(all[1] == ps[0]);
        assert(kept(all, 1, f) == kept(ps, 0, f));
        assert(all.skip(2) =~= ps.skip(1));
        lemma_tail(all, 2, ps, 1, f);
    } else {
        assert(components_from(all, 1, f) =~= components_from(ps, 0, f));
    }
}

/// What is put behind `base` has the components of both.
proof fn lemma_joined(base: Seq<char>, rest: Seq<char>, windows: bool)
    requires
        base.len() > 0,
        rest.len() > 0,
        !slashed(rest, form(base, windows)),
        form(base, windows) !is Literal,
        form(base, windows) is Drive ==> base.len() > 2,
        stays_below(base, rest, windows),
    ensures
        form(joined(base, rest, windows), windows) == form(base, windows),
        prefix_name(joined(base, rest, windows), windows) == prefix_name(base, windows),
        rooted(joined(base, rest, windows), windows) == rooted(base, windows),
        components(joined(base, rest, windows), windows) == components(base, windows) + tail(
            pieces(rest, form(base, windows)),
            form(base, windows),
        ),
{
    let f = form(base, windows);
    let sep = separator(windows);
    let j = joined(base, rest, windows);
    let k = prefix_len(base, windows);
    let hb = body(base, windows);
    let hs = pieces(hb, f);
    let rs = pieces(rest, f);
    reveal_strlit("\\");
    reveal_strlit("/");
    lemma_prefix(base, windows);
    lemma_prefix(j, windows);
    lemma_prefix(rest, windows);
    assert(separators(f) == sep);
    assert(separators(form(rest, windows)) == sep);
    assert(body(rest, windows) =~= rest);
    assert(!rooted(rest, windows));
    assert(!absolute(rest, windows));
    assert(j.len() > base.len() && j.take(base.len() as int) =~= base);
    assert(j.take(k) =~= base.take(k));
    lemma_same_front(base, j, windows);
    if sep.has(base.last()) {
        assert(j == base + rest);
        if hb.len() == 0 {
            lemma_open_device(base, rest);
        }
        let front = hb.drop_last();
        let c = hb.last();
        assert(c == base.last());
        assert(hb =~= front + seq![c] + Seq::<char>::empty());
        assert(j.skip(k) =~= front + seq![c] + rest);
        lemma_pieces_add(front, c, rest, f);
        lemma_pieces_add(front, c, Seq::empty(), f);
        let none = seq![Seq::<char>::empty()];
        assert(pieces(Seq::<char>::empty(), f) =~= none);
        lemma_slashed_piece(front, f);
        let fs = pieces(front, f);
        lemma_concat(fs, rs, 0, f);
        lemma_concat(fs, none, 0, f);
        let pair = none + none;
        assert(components_from(pair, 2, f).len() == 0);
        assert(tail(none, f) =~= Seq::empty());
        assert(components(base, windows) =~= components_from(fs, 0, f));
    } else {
        let c = if windows {
            '\\'
        } else {
            '/'
        };
        assert(main_separator(windows) =~= seq![c]);
        assert(j =~= base + seq![c] + rest);
        assert(j.skip(k) =~= hb + seq![c] + rest);
        lemma_pieces_add(hb, c, rest, f);
        lemma_slashed_piece(hb, f);
        lemma_concat(hs, rs, 0, f);
    }
    if hb.len() > 0 {
        assert(body(j, windows)[0] == hb[0]);
    } else {
        assert(f is Share);
    }
}

/// What is put behind a bare device becomes its name.
proof fn lemma_open_device(base: Seq<char>, rest: Seq<char>)
    requires
        form(base, true) is Share,
        share_len(base) == base.len(),
        separator(true).has(base.last()),
        rest.len() > 0,
        !separator(true).has(rest[0]),
    ensures
        form(base + rest, true) is Share,
        share_len(base + rest) > share_len(base),
{
    let k = separator(true);
    let j = base + rest;
    lemma_share_len(base);
    lemma_share_len(j);
    if has_device(base) {
        let a = base.skip(4);
        lemma_span(a, k, false);
        if base.len() > 4 {
            assert(a.last() == base.last());
        }
        assert(has_device(j));
        let c = j.skip(4);
        assert(c[0] == rest[0]);
        lemma_span(c, k, false);
        assert(!is_literal(j));
    } else {
        let server = span(base.skip(2), k, false) as int;
        let b = base.skip(3 + server);
        lemma_span(base.skip(2), k, false);
        lemma_span(b, k, false);
        assert(b.last() == base.last());
    }
}

/// Where as much stands in front of both, and the same, the rules are the same.
proof fn lemma_same_front(base: Seq<char>, j: Seq<char>, windows: bool)
    requires
        prefix_len(base, windows) == prefix_len(j, windows),
        prefix_len(base, windows) <= j.len(),
        j.take(prefix_len(base, windows)) == base.take(prefix_len(base, windows)),
    ensures
        form(j, windows) == form(base, windows),
        prefix_name(j, windows) == prefix_name(base, windows),
{
    let n = prefix_len(base, windows);
    let x = base.take(n);
    lemma_prefix(base, windows);
    lemma_prefix(j, windows);
    assert forall|i: int| 0 <= i < n implies base[i] == j[i] by {
        assert(x[i] == j.take(n)[i]);
    }
    if form(base, windows) is Literal {
        lemma_literal_len(base);
        lemma_literal_len(j);
        assert(is_literal_share(base) == is_literal_share(j)) by {
            if is_literal_share(base) {
                assert(is_literal_share(j));
            }
        }
        if !is_literal_share(base) && is_literal_drive(base) != is_literal_drive(j) {
            lemma_literal_plain(base);
            lemma_literal_plain(j);
        }
    }
}

/// A drive that ends where the prefix does is a literal drive.
proof fn lemma_literal_plain(p: Seq<char>)
    requires
        is_literal(p),
        !is_literal_share(p),
        literal_len(p) == 6,
        has_drive(p.skip(4)),
    ensures
        is_literal_drive(p),
{
    let k = separators(Form::Literal);
    lemma_literal_len(p);
    lemma_span(p.skip(4), k, false);
    if p.len() > 6 {
        assert(p.skip(4)[2] == p[6]);
    }
}

// ---- paths that are read literally ----

/// A component is not empty, and one piece.
proof fn lemma_component(ps: Seq<Seq<char>>, i: int, x: int, f: Form)
    requires
        0 <= i <= ps.len(),
        forall|y: int| 0 <= y < ps.len() ==> pieces(#[trigger] ps[y], f) == seq![ps[y]],
        0 <= x < components_from(ps, i, f).len(),
    ensures
        components_from(ps, i, f)[x].len() > 0,
        pieces(components_from(ps, i, f)[x], f) == seq![components_from(ps, i, f)[x]],
    decreases ps.len() - i,
{
    if kept(ps, i, f) {
        if x > 0 {
            lemma_component(ps, i + 1, x - 1, f);
        }
    } else {
        lemma_component(ps, i + 1, x, f);
    }
}

proof fn lemma_piece_whole(t: Seq<char>, y: int, f: Form)
    requires
        0 <= y < pieces(t, f).len(),
    ensures
        pieces(pieces(t, f)[y], f) == seq![pieces(t, f)[y]],
    decreases t.len(),
{
    let n = span(t, separators(f), false) as int;
    lemma_span(t, separators(f), false);
    lemma_first_piece(t, f);
    if n < t.len() {
        if y > 0 {
            lemma_piece_whole(t.skip(n + 1), y - 1, f);
        }
    } else {
        assert(t.take(n) =~= t);
    }
}

/// Steps by names only go on.
proof fn lemma_steps(cs: Seq<Seq<char>>, way: Seq<Seq<char>>)
    requires
        forall|i: int| 0 <= i < way.len() ==> #[trigger] way[i] != "."@ && way[i] != ".."@,
    ensures
        steps(cs, way) == cs + way,
    decreases way.len(),
{
    if way.len() > 0 {
        let w = way.drop_last();
        assert forall|i: int| 0 <= i < w.len() implies #[trigger] w[i] != "."@ && w[i] != ".."@ by {
            assert(w[i] == way[i]);
        }
        lemma_steps(cs, w);
        assert(way[way.len() - 1] == way.last());
        assert((cs + w).push(way.last()) =~= cs + way);
    } else {
        assert(cs + way =~= cs);
    }
}

/// What is written for some components has just these.
proof fn lemma_written(cs: Seq<Seq<char>>)
    requires
        forall|i: int|
            0 <= i < cs.len() ==> pieces(#[trigger] cs[i], Form::Literal) == seq![cs[i]],
    ensures
        pieces(written(cs), Form::Literal) == seq![Seq::<char>::empty()] + cs,
        cs.len() > 0 ==> written(cs).len() > 0 && written(cs)[0] == '\\',
    decreases cs.len(),
{
    let f = Form::Literal;
    let none = Seq::<char>::empty();
    reveal_strlit("\\");
    if cs.len() > 0 {
        let d = cs.drop_last();
        let c = cs.last();
        assert(cs[cs.len() - 1] == c);
        assert forall|i: int| 0 <= i < d.len() implies pieces(#[trigger] d[i], f) == seq![d[i]] by {
            assert(d[i] == cs[i]);
        }
        lemma_written(d);
        assert("\\"@ =~= seq!['\\']);
        lemma_pieces_add(written(d), '\\', c, f);
        assert(seq![none] + d + seq![c] =~= seq![none] + cs);
        if d.len() == 0 {
            assert(written(cs)[0] == '\\');
        } else {
            assert(written(cs)[0] == written(d)[0]);
        }
    } else {
        assert(pieces(none, f) =~= seq![none]);
        assert(seq![none] + cs =~= seq![none]);
    }
}

proof fn lemma_all_kept(cs: Seq<Seq<char>>, i: int)
    requires
        1 <= i <= cs.len(),
        forall|x: int| 1 <= x < cs.len() ==> (#[trigger] cs[x]).len() > 0,
    ensures
        components_from(cs, i, Form::Literal) == cs.skip(i),
    decreases cs.len() - i,
{
    if i < cs.len() {
        lemma_all_kept(cs, i + 1);
        assert(cs.skip(i) =~= seq![cs[i]] + cs.skip(i + 1));
    } else {
        assert(cs.skip(i) =~= Seq::empty());
    }
}

/// See [`way_leads_back`], for paths that are read literally.
proof fn lemma_literal_way(p: Seq<char>, base: Seq<char>, rest: Seq<char>, windows: bool)
    requires
        base.len() > 0,
        rest.len() > 0,
        form(base, windows) is Literal,
        relative(p, base, windows) is Some,
        stays_below(base, rest, windows),
        reads_alike(p, base, rest, windows),
    ensures
        path_eq(joined(base, rest, windows), p, windows),
{
    let f = Form::Literal;
    let none = Seq::<char>::empty();
    let k = prefix_len(base, windows);
    let b = components(base, windows);
    let c = components(p, windows);
    let t = body(p, windows);
    let ps = pieces(t, f);
    let j = joined(base, rest, windows);
    reveal_strlit("\\");
    lemma_way(p, base, windows);
    lemma_prefix(base, windows);
    lemma_prefix(rest, windows);
    lemma_prefix(j, windows);
    lemma_literal_body(p, windows);
    lemma_slashed_piece(t, f);
    assert(!absolute(rest, windows));
    let way = components(rest, windows);
    let front = if rooted(rest, windows) {
        Seq::empty()
    } else {
        b
    };
    lemma_steps(front, way);
    let cs = steps(front, way);
    assert(b + c.skip(b.len() as int) =~= c);
    assert(rooted(rest, windows) ==> b.len() == 0);
    assert(front =~= b);
    assert(cs =~= c);
    assert forall|y: int| 0 <= y < ps.len() implies pieces(#[trigger] ps[y], f) == seq![ps[y]] by {
        lemma_piece_whole(t, y, f);
    }
    assert forall|x: int| 0 <= x < c.len() implies pieces(#[trigger] c[x], f) == seq![c[x]]
        && c[x].len() > 0 by {
        lemma_component(ps, 0, x, f);
    }
    if t.len() == 0 {
        assert(ps =~= seq![none]);
        assert(components_from(ps, 1, f).len() == 0);
        assert(c.len() == 0);
    }
    let s = if c.len() == 0 && rooted(p, windows) {
        "\\"@
    } else {
        written(c)
    };
    assert(rooted(base, windows) || rooted(rest, windows) <==> rooted(p, windows));
    assert(j == base.take(k) + s);
    assert(j.take(k) =~= base.take(k));
    lemma_same_front(base, j, windows);
    assert(j.skip(k) =~= s);
    lemma_written(c);
    let all = seq![none] + c;
    if c.len() == 0 {
        if rooted(p, windows) {
            assert(s =~= none + seq!['\\'] + none);
            lemma_pieces_add(none, '\\', none, f);
            assert(pieces(none, f) =~= seq![none]);
            let two = seq![none] + seq![none];
            assert(components_from(two, 2, f).len() == 0);
            assert(components_from(two, 1, f).len() == 0);
            assert(components_from(two, 0, f).len() == 0);
        } else {
            assert(components_from(all, 1, f).len() == 0);
            assert(components_from(all, 0, f).len() == 0);
        }
        assert(components(j, windows) =~= c);
    } else {
        assert forall|x: int| 1 <= x < all.len() implies (#[trigger] all[x]).len() > 0 by {
            assert(all[x] == c[x - 1]);
        }
        lemma_all_kept(all, 1);
        assert(all.skip(1) =~= c);
        assert(!kept(all, 0, f));
        assert(components(j, windows) == c);
    }
}

// ---- the way back ----

/// A path under `base` is found again: the way to it, put behind `base`, names
/// the path, with whatever separators it is written.
pub proof fn way_leads_back(p: Seq<char>, base: Seq<char>, rest: Seq<char>, windows: bool)
    requires
        relative(p, base, windows) is Some,
        respelled(rest, relative(p, base, windows)->0, windows),
        stays_below(base, rest, windows),
        reads_alike(p, base, rest, windows),
    ensures
        rest.len() > 0 ==> path_eq(joined(base, rest, windows), p, windows),
        rest.len() == 0 ==> path_eq(base, p, windows),
{
    let f = form(p, windows);
    let way = relative(p, base, windows)->0;
    let t = body(p, windows);
    let ps = pieces(t, f);
    let b = components(base, windows);
    let k = prefix_len(p, windows);
    lemma_prefix(p, windows);
    lemma_bare(t, f);
    let n = bare_len(t, f);
    if rest.len() == 0 {
        assert(way =~= Seq::empty());
        lemma_no_way(p, base, windows);
    } else if base.len() == 0 {
        lemma_prefix_take(p, k + n, windows);
        lemma_prefix(way, windows);
        assert(way.skip(k) =~= t.take(n));
        assert(way.take(k) =~= p.take(k));
        assert(path_eq(way, p, windows));
        lemma_respelled_same(rest, way, windows);
        lemma_prefix(base, windows);
        lemma_share_len(base);
        assert(base.take(0) + rest =~= rest);
        assert(base + rest =~= rest);
        assert(joined(base, rest, windows) == rest);
    } else if form(base, windows) is Literal {
        lemma_literal_way(p, base, rest, windows);
    } else if !rooted(base, windows) && b.len() == 0 {
        lemma_drive_only(base, windows);
        lemma_way(p, base, windows);
        assert(way =~= t.take(n));
        lemma_respelled_pieces(rest, way, windows, f);
        lemma_prefix(base, windows);
        lemma_prefix(rest, windows);
        assert(body(rest, windows) =~= rest);
        lemma_drive_tail(pieces(rest, f));
        let j = joined(base, rest, windows);
        if slashed(rest, f) || base.len() == 2 {
            assert(base.len() == 2 ==> base.take(2) =~= base);
            assert(j == base.take(2) + rest);
            assert(has_drive(j));
            assert(j.skip(2) =~= rest);
            assert(j.take(2) =~= base.take(2));
        } else {
            lemma_joined(base, rest, windows);
            assert(b + tail(pieces(rest, f), f) =~= components(p, windows));
        }
    } else {
        lemma_way(p, base, windows);
        let start = next_kept(ps, behind(ps, 0, b.len(), f), f);
        let end = kept_end(ps, ps.len() as int, f);
        lemma_kept_end(ps, ps.len() as int, f);
        assert(start < end);
        lemma_pieces_between(t, start, end, f);
        lemma_respelled_pieces(rest, way, windows, f);
        let rs = ps.subrange(start, end);
        assert(rs[0] == ps[start]);
        lemma_slashed_piece(rest, f);
        lemma_bare_drive(base, windows);
        lemma_joined(base, rest, windows);
        lemma_cut(ps, start, f);
        let c = seq![Seq::<char>::empty()] + rs;
        assert(ps.take(end).skip(start) =~= rs);
        assert(c.skip(1) =~= rs);
        lemma_tail(ps.take(end), start, c, 1, f);
    }
}

/// A drive alone is not at the root and has no components.
proof fn lemma_bare_drive(base: Seq<char>, windows: bool)
    ensures
        form(base, windows) is Drive && base.len() == 2 ==> !rooted(base, windows) && components(
            base,
            windows,
        ).len() == 0,
{
    if form(base, windows) is Drive && base.len() == 2 {
        let hb = body(base, windows);
        assert(pieces(hb, Form::Drive) =~= seq![hb]);
        assert(components_from(seq![hb], 1, Form::Drive).len() == 0);
    }
}

/// A path that is shown is found again: what is shown of it, given as an argument,
/// names the path. Under the home directory that holds whatever the current
/// directory and the bookmarks are; elsewhere, of an absolute path at which there
/// is something. On POSIX systems a backslash in a name under the home directory
/// is shown as a slash, so such a path is left out.
pub proof fn shown_path_resolves(
    p: Seq<char>,
    home: Option<Seq<char>>,
    cwd: Seq<char>,
    bookmarks: Seq<Seq<char>>,
    present: bool,
    windows: bool,
)
    requires
        match home {
            Some(h) if relative(p, h, windows) is Some => if windows {
                let rest = replaced(relative(p, h, windows)->0, Class::One('\\'), '/');
                stays_below(h, rest, windows) && reads_alike(p, h, rest, windows)
            } else {
                !p.contains('\\')
            },
            _ => absolute(p, windows) && present,
        },
    ensures
        path_eq(
            resolved(home, cwd, bookmarks, tilded(p, home, windows), present, windows),
            p,
            windows,
        ),
{
    reveal_strlit("~");
    reveal_strlit("~/");
    reveal_strlit("~\\");
    match home {
        Some(h) if relative(p, h, windows) is Some => {
            let way = relative(p, h, windows)->0;
            let rest = replaced(way, Class::One('\\'), '/');
            if !windows {
                lemma_way_within(p, h);
            }
            assert forall|i: int| 0 <= i < way.len() implies #[trigger] rest[i] == way[i] || (
            separator(windows).has(rest[i]) && separator(windows).has(way[i])) by {
                if !windows {
                    assert(p.contains(way[i]));
                }
            }
            way_leads_back(p, h, rest, windows);
            if way.len() > 0 {
                let shown = "~/"@ + rest;
                assert(shown.take(2) =~= "~/"@);
                assert(shown.skip(2) =~= rest);
                assert(shown.len() > 1);
            }
        },
        _ => {
            lemma_prefix(p, windows);
            assert(p.len() > 0 && p[0] != '~');
            assert(p.len() >= 2 ==> p.take(2)[0] == p[0]);
        },
    }
}

/// What leads to a path is written in it.
proof fn lemma_way_within(p: Seq<char>, base: Seq<char>)
    requires
        relative(p, base, false) is Some,
    ensures
        forall|i: int|
            0 <= i < relative(p, base, false)->0.len() ==> p.contains(
                #[trigger] relative(p, base, false)->0[i],
            ),
{
    let f = Form::Posix;
    let way = relative(p, base, false)->0;
    let t = body(p, false);
    let ps = pieces(t, f);
    lemma_bare(t, f);
    lemma_kept_end(ps, ps.len() as int, f);
    assert(t =~= p);
    let b = components(base, false);
    let start = next_kept(ps, behind(ps, 0, b.len(), f), f);
    let end = kept_end(ps, ps.len() as int, f);
    let from = if base.len() == 0 || (!rooted(base, false) && b.len() == 0) {
        0
    } else {
        piece_start(ps, start)
    };
    if base.len() > 0 {
        lemma_way(p, base, false);
        if start < end {
            lemma_pieces_between(t, start, end, f);
        }
    }
    assert forall|i: int| 0 <= i < way.len() implies p.contains(#[trigger] way[i]) by {
        assert(way[i] == p[from + i]);
    }
}

// ---- paths that are put together ----

/// What is written behind a path that is joined is written behind the result.
pub(crate) proof fn lemma_joined_behind(base: Seq<char>, rel: Seq<char>, more: Seq<char>)
    requires
        rel.len() > 0,
    ensures
        joined(base, rel + more, false) == joined(base, rel, false) + more,
{
    assert((rel + more)[0] == rel[0]);
    assert(body(rel, false) =~= rel && body(rel + more, false) =~= rel + more);
    assert(joined(base, rel + more, false) =~= joined(base, rel, false) + more);
}

/// A name behind a separator is a name in the directory.
pub(crate) proof fn lemma_name_behind(dir: Seq<char>, name: Seq<char>)
    requires
        dir.len() > 0,
        name.len() > 0,
        name[0] != '/',
    ensures
        path_eq(dir + "/"@ + name, joined(dir, name, false), false),
{
    let f = Form::Posix;
    let none = Seq::<char>::empty();
    reveal_strlit("/");
    let x = dir + "/"@ + name;
    let y = joined(dir, name, false);
    assert(body(name, false) =~= name);
    if dir.last() == '/' {
        let front = dir.drop_last();
        assert(dir =~= front + seq!['/'] + none);
        assert(y =~= front + seq!['/'] + name);
        assert(x =~= dir + seq!['/'] + name);
        lemma_pieces_add(front, '/', none, f);
        lemma_pieces_add(front, '/', name, f);
        lemma_pieces_add(dir, '/', name, f);
        assert(pieces(none, f) =~= seq![none]);
        let a = pieces(front, f);
        let b = pieces(name, f);
        lemma_slashed_piece(front, f);
        lemma_slashed_piece(dir, f);
        lemma_concat(pieces(dir, f), b, 0, f);
        lemma_concat(a, seq![none], 0, f);
        lemma_concat(a, b, 0, f);
        let two = seq![none] + seq![none];
        assert(components_from(two, 2, f).len() == 0);
        assert(tail(seq![none], f) =~= Seq::empty());
        assert(body(x, false) =~= x && body(y, false) =~= y);
        assert(components(x, false) =~= components(y, false));
        assert(x[0] == dir[0] && y[0] == dir[0]);
        assert(prefix_name(x, false) =~= prefix_name(y, false));
    } else {
        assert(x =~= y);
    }
}

/// A separator at the end changes nothing.
pub(crate) proof fn lemma_slash_behind(p: Seq<char>)
    requires
        p.len() > 0,
    ensures
        path_eq(p + "/"@, p, false),
{
    let f = Form::Posix;
    let none = Seq::<char>::empty();
    reveal_strlit("/");
    let x = p + "/"@;
    assert(x =~= p + seq!['/'] + none);
    lemma_pieces_add(p, '/', none, f);
    assert(pieces(none, f) =~= seq![none]);
    lemma_slashed_piece(p, f);
    lemma_concat(pieces(p, f), seq![none], 0, f);
    let two = seq![none] + seq![none];
    assert(components_from(two, 2, f).len() == 0);
    assert(tail(seq![none], f) =~= Seq::empty());
    assert(body(x, false) =~= x && body(p, false) =~= p);
    assert(components(x, false) =~= components(p, false));
    assert(x[0] == p[0]);
    assert(prefix_name(x, false) =~= prefix_name(p, false));
}

} // verus!
