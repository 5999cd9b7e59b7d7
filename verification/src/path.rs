//! Paths as text, by the rules of POSIX systems or of Windows.
//!
//! A path is a row of pieces between separators, where empty pieces and `.`
//! pieces inside it name nothing. On Windows `\` separates as `/` does, and a
//! drive such as `C:`, a share such as `\\server\share` or a device such as
//! `\\.\COM1` can stand in front. What starts with `\\?\` is taken literally:
//! only `\` separates, and a `.` is a piece like any other.

use crate::text::{
    ascii_lower, chars_of, copied, from, lemma_span, lower_ascii, replace_class, replaced, same,
    span, span_len, spells, text_of, upto, Class,
};
use vstd::prelude::*;

verus! {

/// By which rules a path is read.
#[derive(Clone, Copy, PartialEq, Eq, Structural)]
pub enum Form {
    /// On a POSIX system.
    Posix,
    /// On Windows, with nothing in front.
    Plain,
    /// Behind a drive.
    Drive,
    /// Behind a share or a device.
    Share,
    /// Behind a prefix that is taken literally.
    Literal,
}

/// What separates two paths on the system.
pub open spec fn separator(windows: bool) -> Class {
    if windows {
        Class::Either('/', '\\')
    } else {
        Class::One('/')
    }
}

/// What separates the pieces of a path.
pub open spec fn separators(f: Form) -> Class {
    match f {
        Form::Posix => Class::One('/'),
        Form::Literal => Class::One('\\'),
        _ => Class::Either('/', '\\'),
    }
}

/// The separator that is put between two paths.
pub open spec fn main_separator(windows: bool) -> Seq<char> {
    if windows {
        "\\"@
    } else {
        "/"@
    }
}

/// A letter and a colon at the start.
pub open spec fn has_drive(p: Seq<char>) -> bool {
    p.len() >= 2 && ('a' <= p[0] <= 'z' || 'A' <= p[0] <= 'Z') && p[1] == ':'
}

/// `\\.\` at the start, with any separators.
pub open spec fn has_device(p: Seq<char>) -> bool {
    let k = separator(true);
    p.len() >= 4 && k.has(p[0]) && k.has(p[1]) && p[2] == '.' && k.has(p[3])
}

/// `\\?\` at the start, written just so.
pub open spec fn is_literal(p: Seq<char>) -> bool {
    p.len() >= 4 && p[0] == '\\' && p[1] == '\\' && p[2] == '?' && p[3] == '\\'
}

/// How long the share or device at the start is. A share is two separators, the
/// name of a server, a separator, and a name. Zero where there is none.
pub open spec fn share_len(p: Seq<char>) -> int {
    let k = separator(true);
    let server = span(p.skip(2), k, false) as int;
    let name = span(p.skip(3 + server), k, false) as int;
    if has_device(p) {
        4 + span(p.skip(4), k, false) as int
    } else if p.len() >= 2 && k.has(p[0]) && k.has(p[1]) && server > 0 && 2 + server < p.len()
        && name > 0 {
        3 + server + name
    } else {
        0
    }
}

/// `\\?\` is followed by `UNC` and a separator: a server and a share come next.
pub open spec fn is_literal_share(p: Seq<char>) -> bool {
    p.len() >= 8 && p[4] == 'U' && p[5] == 'N' && p[6] == 'C' && separator(true).has(p[7])
}

/// `\\?\` is followed by a drive and nothing else in the same piece.
pub open spec fn is_literal_drive(p: Seq<char>) -> bool {
    has_drive(p.skip(4)) && (p.len() == 6 || separator(true).has(p[6]))
}

/// How long a prefix is that is taken literally.
pub open spec fn literal_len(p: Seq<char>) -> int {
    let k = separators(Form::Literal);
    let server = span(p.skip(8), k, false) as int;
    let name = span(p.skip(9 + server), k, false) as int;
    if is_literal_share(p) {
        if 8 + server < p.len() && name > 0 {
            9 + server + name
        } else {
            8 + server
        }
    } else if is_literal_drive(p) {
        6
    } else {
        4 + span(p.skip(4), k, false) as int
    }
}

/// The rules for `p`.
pub open spec fn form(p: Seq<char>, windows: bool) -> Form {
    if !windows {
        Form::Posix
    } else if has_drive(p) {
        Form::Drive
    } else if is_literal(p) {
        Form::Literal
    } else if share_len(p) > 0 {
        Form::Share
    } else {
        Form::Plain
    }
}

/// How long that is which stands in front: a drive, a share, a device, or a
/// prefix that is taken literally.
pub open spec fn prefix_len(p: Seq<char>, windows: bool) -> int {
    match form(p, windows) {
        Form::Posix => 0,
        Form::Plain => 0,
        Form::Drive => 2,
        Form::Share => share_len(p),
        Form::Literal => literal_len(p),
    }
}

/// What stands in front, in the one spelling that stands for all of them.
pub open spec fn prefix_name(p: Seq<char>, windows: bool) -> Seq<char> {
    let t = p.take(prefix_len(p, windows));
    match form(p, windows) {
        Form::Drive => ascii_lower(t),
        Form::Literal => if is_literal_share(p) {
            t.update(7, '\\')
        } else if is_literal_drive(p) {
            ascii_lower(t)
        } else {
            t
        },
        _ => replaced(t, Class::One('/'), '\\'),
    }
}

/// What is behind the prefix. A separator at its start is the root, however it is
/// written.
pub open spec fn body(p: Seq<char>, windows: bool) -> Seq<char> {
    let t = p.skip(prefix_len(p, windows));
    if form(p, windows) is Literal && t.len() > 0 && t[0] == '/' {
        t.update(0, '\\')
    } else {
        t
    }
}

/// The text starts with a separator.
pub open spec fn slashed(t: Seq<char>, f: Form) -> bool {
    t.len() > 0 && separators(f).has(t[0])
}

/// The root is one of the steps that the path consists of. Behind a share it
/// always is.
pub open spec fn rooted(p: Seq<char>, windows: bool) -> bool {
    slashed(body(p, windows), form(p, windows)) || form(p, windows) is Share
}

/// The path says by itself what it names, whatever the current directory. On
/// Windows that takes something in front, and behind a drive a root as well.
pub open spec fn absolute(p: Seq<char>, windows: bool) -> bool {
    if windows {
        prefix_len(p, windows) > 0 && (form(p, windows) is Drive ==> rooted(p, windows))
    } else {
        rooted(p, windows)
    }
}

/// The text between the separators of `t`, one piece more than there are
/// separators.
pub open spec fn pieces(t: Seq<char>, f: Form) -> Seq<Seq<char>>
    decreases t.len(),
{
    let n = span(t, separators(f), false) as int;
    if 0 <= n < t.len() {
        seq![t.take(n)] + pieces(t.skip(n + 1), f)
    } else {
        seq![t]
    }
}

/// Whether piece `i` is a component. An empty piece never is, and `.` only at
/// the very start of a path, or where it is taken literally.
pub open spec fn kept(ps: Seq<Seq<char>>, i: int, f: Form) -> bool {
    ps[i].len() > 0 && (ps[i] != "."@ || f is Literal || (i == 0 && (f is Posix || f is Plain)))
}

/// The components among the pieces from `i` on.
pub open spec fn components_from(ps: Seq<Seq<char>>, i: int, f: Form) -> Seq<Seq<char>>
    decreases ps.len() - i,
{
    if i < 0 || i >= ps.len() {
        Seq::empty()
    } else if kept(ps, i, f) {
        seq![ps[i]] + components_from(ps, i + 1, f)
    } else {
        components_from(ps, i + 1, f)
    }
}

/// The components of `p`, the root and what is in front of it aside.
pub open spec fn components(p: Seq<char>, windows: bool) -> Seq<Seq<char>> {
    components_from(pieces(body(p, windows), form(p, windows)), 0, form(p, windows))
}

/// The two texts name the same path: they have the same in front, both or neither
/// start at the root, and the components agree. A trailing or a doubled separator
/// makes no difference.
pub open spec fn path_eq(a: Seq<char>, b: Seq<char>, windows: bool) -> bool {
    form(a, windows) == form(b, windows) && prefix_name(a, windows) == prefix_name(b, windows)
        && rooted(a, windows) == rooted(b, windows) && components(a, windows) == components(
        b,
        windows,
    )
}

/// The components `cs` and then `c`. A `.` leads nowhere, and `..` back from a name.
pub open spec fn step(cs: Seq<Seq<char>>, c: Seq<char>) -> Seq<Seq<char>> {
    if c == "."@ {
        cs
    } else if c != ".."@ {
        cs.push(c)
    } else if cs.len() > 0 && cs.last() != "."@ && cs.last() != ".."@ {
        cs.drop_last()
    } else {
        cs
    }
}

/// The components `cs`, and from there on those of `way`.
pub open spec fn steps(cs: Seq<Seq<char>>, way: Seq<Seq<char>>) -> Seq<Seq<char>>
    decreases way.len(),
{
    if way.len() == 0 {
        cs
    } else {
        step(steps(cs, way.drop_last()), way.last())
    }
}

/// The components, each behind a separator.
pub open spec fn written(cs: Seq<Seq<char>>) -> Seq<char>
    decreases cs.len(),
{
    if cs.len() == 0 {
        Seq::empty()
    } else {
        written(cs.drop_last()) + "\\"@ + cs.last()
    }
}

/// `rel` taken relative to a `base` that is read literally. As nothing would take
/// out a `.` or `..` later, it is done here.
pub open spec fn joined_literally(base: Seq<char>, rel: Seq<char>) -> Seq<char> {
    let front = if rooted(rel, true) {
        Seq::empty()
    } else {
        components(base, true)
    };
    let cs = steps(front, components(rel, true));
    base.take(prefix_len(base, true)) + if cs.len() == 0 && (rooted(base, true) || rooted(
        rel,
        true,
    )) {
        "\\"@
    } else {
        written(cs)
    }
}

/// `rel` taken relative to `base`. What has something in front, or is absolute,
/// stands for itself; what only starts at the root keeps the front of `base`.
pub open spec fn joined(base: Seq<char>, rel: Seq<char>, windows: bool) -> Seq<char> {
    if absolute(rel, windows) || prefix_len(rel, windows) > 0 {
        rel
    } else if form(base, windows) is Literal && rel.len() > 0 {
        joined_literally(base, rel)
    } else if rooted(rel, windows) {
        base.take(prefix_len(base, windows)) + rel
    } else if base.len() == 0 || separator(windows).has(base.last()) || (base.len() == 2 && form(
        base,
        windows,
    ) is Drive) {
        base + rel
    } else {
        base + main_separator(windows) + rel
    }
}

/// The last component, unless it is `.` or `..`.
pub open spec fn final_name(p: Seq<char>, windows: bool) -> Option<Seq<char>> {
    let c = components(p, windows);
    if c.len() > 0 && c.last() != ".."@ && c.last() != "."@ {
        Some(c.last())
    } else {
        None
    }
}

/// The position behind the next `k` components from piece `i` on.
pub open spec fn behind(ps: Seq<Seq<char>>, i: int, k: nat, f: Form) -> int
    decreases ps.len() - i,
{
    if k == 0 || i < 0 || i >= ps.len() {
        i
    } else if kept(ps, i, f) {
        behind(ps, i + 1, (k - 1) as nat, f)
    } else {
        behind(ps, i + 1, k, f)
    }
}

/// The first component from piece `i` on.
pub open spec fn next_kept(ps: Seq<Seq<char>>, i: int, f: Form) -> int
    decreases ps.len() - i,
{
    if i < 0 || i >= ps.len() || kept(ps, i, f) {
        i
    } else {
        next_kept(ps, i + 1, f)
    }
}

/// The position behind the last component among the first `n` pieces.
pub open spec fn kept_end(ps: Seq<Seq<char>>, n: int, f: Form) -> int
    decreases n,
{
    if n <= 0 || kept(ps, n - 1, f) {
        n
    } else {
        kept_end(ps, n - 1, f)
    }
}

/// Where piece `i` starts in the text.
pub open spec fn piece_start(ps: Seq<Seq<char>>, i: int) -> int
    decreases i,
{
    if i <= 0 {
        0
    } else {
        piece_start(ps, i - 1) + ps[i - 1].len() + 1
    }
}

/// How much of a text is left without what names nothing at its end. The root
/// stays, and so does a `.` at the start.
pub open spec fn bare_len(t: Seq<char>, f: Form) -> int {
    let ps = pieces(t, f);
    let end = kept_end(ps, ps.len() as int, f);
    if end > 0 {
        piece_start(ps, end) - 1
    } else if slashed(t, f) || ps[0] == "."@ {
        1
    } else {
        0
    }
}

/// The path that leads from `base` to `p`, where `p` lies under `base`. What is
/// between two components of it stays as it is written in `p`.
pub open spec fn relative(p: Seq<char>, base: Seq<char>, windows: bool) -> Option<Seq<char>> {
    let f = form(p, windows);
    let t = body(p, windows);
    let b = components(base, windows);
    let ps = pieces(t, f);
    let end = kept_end(ps, ps.len() as int, f);
    let start = next_kept(ps, behind(ps, 0, b.len(), f), f);
    let front = prefix_len(p, windows);
    if base.len() == 0 {
        Some(p.take(front + bare_len(t, f)))
    } else if f != form(base, windows) || prefix_name(p, windows) != prefix_name(base, windows)
        || !b.is_prefix_of(components(p, windows)) || (rooted(base, windows) && !rooted(p, windows))
        || (!rooted(base, windows) && rooted(p, windows) && b.len() > 0) {
        None
    } else if !rooted(base, windows) && b.len() == 0 {
        Some(p.subrange(front, front + bare_len(t, f)))
    } else if start < end {
        Some(t.subrange(piece_start(ps, start), piece_start(ps, end) - 1))
    } else {
        Some(Seq::empty())
    }
}

/// Naming the same path is an equivalence.
pub proof fn path_eq_is_equivalence(a: Seq<char>, b: Seq<char>, c: Seq<char>, windows: bool)
    ensures
        path_eq(a, a, windows),
        path_eq(a, b, windows) ==> path_eq(b, a, windows),
        path_eq(a, b, windows) && path_eq(b, c, windows) ==> path_eq(a, c, windows),
{
}

/// Piece `i` lies inside the text.
proof fn lemma_piece_starts(t: Seq<char>, i: int, f: Form)
    requires
        0 <= i < pieces(t, f).len(),
    ensures
        0 <= piece_start(pieces(t, f), i),
        piece_start(pieces(t, f), i) + pieces(t, f)[i].len() <= t.len(),
        piece_start(pieces(t, f), i + 1) == piece_start(pieces(t, f), i) + pieces(
            t,
            f,
        )[i].len() + 1,
    decreases t.len(),
{
    let sep = separators(f);
    let n = span(t, sep, false) as int;
    let ps = pieces(t, f);
    lemma_span(t, sep, false);
    if n < t.len() {
        let rest = t.skip(n + 1);
        let qs = pieces(rest, f);
        assert(ps == seq![t.take(n)] + qs);
        assert(ps.skip(1) =~= qs);
        if i > 0 {
            lemma_start_shift(ps, i);
            lemma_piece_starts(rest, i - 1, f);
            assert(ps[i] == qs[i - 1]);
        }
    } else {
        assert(ps =~= seq![t]);
    }
}

/// The start of a piece, counted from the second piece on.
pub(crate) proof fn lemma_start_shift(ps: Seq<Seq<char>>, i: int)
    requires
        1 <= i <= ps.len(),
    ensures
        piece_start(ps, i) == ps[0].len() + 1 + piece_start(ps.skip(1), i - 1),
    decreases i,
{
    if i == 1 {
        assert(piece_start(ps, 0) == 0);
        assert(piece_start(ps.skip(1), 0) == 0);
    } else {
        lemma_start_shift(ps, i - 1);
        assert(ps.skip(1)[i - 2] == ps[i - 1]);
    }
}

proof fn lemma_start_below(ps: Seq<Seq<char>>, i: int, j: int)
    requires
        0 <= i < j <= ps.len(),
    ensures
        0 <= piece_start(ps, i) < piece_start(ps, j),
    decreases j,
{
    if i < j - 1 {
        lemma_start_below(ps, i, j - 1);
    } else if i > 0 {
        lemma_start_below(ps, 0, i);
    }
}

pub(crate) proof fn lemma_kept_end(ps: Seq<Seq<char>>, n: int, f: Form)
    requires
        0 <= n <= ps.len(),
    ensures
        0 <= kept_end(ps, n, f) <= n,
        forall|x: int| kept_end(ps, n, f) <= x < n ==> !#[trigger] kept(ps, x, f),
        kept_end(ps, n, f) > 0 ==> kept(ps, kept_end(ps, n, f) - 1, f),
    decreases n,
{
    if n > 0 && !kept(ps, n - 1, f) {
        lemma_kept_end(ps, n - 1, f);
    }
}

spec fn views(v: Seq<&[char]>) -> Seq<Seq<char>> {
    Seq::new(v.len(), |i: int| v[i]@)
}

/// See [`separator`].
pub fn separator_class(windows: bool) -> (r: Class)
    ensures
        r == separator(windows),
{
    if windows {
        Class::Either('/', '\\')
    } else {
        Class::One('/')
    }
}

fn piece_class(f: Form) -> (r: Class)
    ensures
        r == separators(f),
{
    match f {
        Form::Posix => Class::One('/'),
        Form::Literal => Class::One('\\'),
        _ => Class::Either('/', '\\'),
    }
}

fn split_pieces<'a>(p: &'a [char], f: Form) -> (r: Vec<&'a [char]>)
    ensures
        views(r@) == pieces(p@, f),
        r@.len() >= 1,
{
    let sep = piece_class(f);
    let mut out: Vec<&'a [char]> = Vec::new();
    let mut rest: &'a [char] = p;
    assert(views(out@) + pieces(rest@, f) =~= pieces(p@, f));
    loop
        invariant_except_break
            sep == separators(f),
            views(out@) + pieces(rest@, f) == pieces(p@, f),
        ensures
            views(out@) == pieces(p@, f),
            out@.len() >= 1,
        decreases rest@.len(),
    {
        let ghost before = rest@;
        let ghost done = views(out@);
        let n = span_len(rest, sep, false);
        if n < rest.len() {
            let piece = upto(rest, n);
            out.push(piece);
            rest = from(rest, n + 1);
            proof {
                assert(views(out@) =~= done.push(piece@));
                assert(
                    done.push(piece@) + pieces(
                        rest@,
                        f,
                    ) =~= done + (seq![piece@] + pieces(rest@, f))
                );
            }
        } else {
            out.push(rest);
            proof {
                assert(views(out@) =~= done + seq![before]);
            }
            break;
        }
    }
    out
}

fn keeps(ps: &Vec<&[char]>, i: usize, f: Form) -> (r: bool)
    requires
        i < ps@.len(),
    ensures
        r == kept(views(ps@), i as int, f),
{
    if ps[i].len() == 0 {
        return false;
    }
    match f {
        Form::Literal => true,
        Form::Posix => i == 0 || !spells(ps[i], "."),
        Form::Plain => i == 0 || !spells(ps[i], "."),
        _ => !spells(ps[i], "."),
    }
}

fn kept_pieces<'a>(ps: &Vec<&'a [char]>, f: Form) -> (r: Vec<&'a [char]>)
    ensures
        views(r@) == components_from(views(ps@), 0, f),
{
    let mut out: Vec<&'a [char]> = Vec::new();
    let mut i: usize = 0;
    assert(views(out@) + components_from(views(ps@), 0, f) =~= components_from(views(ps@), 0, f));
    while i < ps.len()
        invariant
            i <= ps@.len(),
            views(out@) + components_from(views(ps@), i as int, f) == components_from(
                views(ps@),
                0,
                f,
            ),
        decreases ps@.len() - i,
    {
        let ghost all = views(ps@);
        let ghost done = views(out@);
        if keeps(ps, i, f) {
            out.push(ps[i]);
            proof {
                assert(views(out@) =~= done.push(all[i as int]));
                assert(done.push(all[i as int]) + components_from(all, i + 1, f) =~= done + (
                seq![all[i as int]] + components_from(all, i + 1, f)));
            }
        }
        i = i + 1;
    }
    assert(views(out@) + components_from(views(ps@), i as int, f) =~= views(out@));
    out
}

fn same_list(a: &Vec<&[char]>, b: &Vec<&[char]>, n: usize) -> (r: bool)
    requires
        n <= a@.len(),
        n <= b@.len(),
    ensures
        r == (views(a@).take(n as int) == views(b@).take(n as int)),
{
    let mut i: usize = 0;
    while i < n
        invariant
            i <= n,
            n <= a@.len(),
            n <= b@.len(),
            forall|j: int| 0 <= j < i ==> views(a@)[j] == views(b@)[j],
        decreases n - i,
    {
        if !same(a[i], b[i]) {
            proof {
                assert(views(a@).take(n as int)[i as int] == a@[i as int]@);
                assert(views(b@).take(n as int)[i as int] == b@[i as int]@);
            }
            return false;
        }
        i = i + 1;
    }
    assert(views(a@).take(n as int) =~= views(b@).take(n as int));
    true
}

pub(crate) proof fn lemma_share_len(p: Seq<char>)
    ensures
        0 <= share_len(p) <= p.len(),
        share_len(p) > 0 ==> share_len(p) >= 4 && !has_drive(p),
{
    let k = separator(true);
    if has_device(p) {
        lemma_span(p.skip(4), k, false);
    } else if share_len(p) > 0 {
        lemma_span(p.skip(2), k, false);
        lemma_span(p.skip(3 + span(p.skip(2), k, false) as int), k, false);
    }
}

pub(crate) proof fn lemma_literal_len(p: Seq<char>)
    requires
        is_literal(p),
    ensures
        4 <= literal_len(p) <= p.len(),
        is_literal_share(p) ==> literal_len(p) >= 8,
        !is_literal_share(p) && is_literal_drive(p) ==> literal_len(p) == 6,
        !has_drive(p),
{
    let k = separators(Form::Literal);
    if is_literal_share(p) {
        lemma_span(p.skip(8), k, false);
        let server = span(p.skip(8), k, false) as int;
        if 8 + server < p.len() {
            lemma_span(p.skip(9 + server), k, false);
        }
    } else {
        lemma_span(p.skip(4), k, false);
    }
}

fn starts_with_drive(p: &[char]) -> (r: bool)
    ensures
        r == has_drive(p@),
{
    p.len() >= 2 && (('a' <= p[0] && p[0] <= 'z') || ('A' <= p[0] && p[0] <= 'Z')) && p[1] == ':'
}

fn starts_literally(p: &[char]) -> (r: bool)
    ensures
        r == is_literal(p@),
{
    p.len() >= 4 && p[0] == '\\' && p[1] == '\\' && p[2] == '?' && p[3] == '\\'
}

fn share_length(p: &[char]) -> (r: usize)
    ensures
        r == share_len(p@),
        r <= p@.len(),
{
    proof {
        lemma_share_len(p@);
    }
    let sep = separator_class(true);
    if p.len() < 2 || !sep.holds(p[0]) || !sep.holds(p[1]) {
        return 0;
    }
    if p.len() >= 4 && p[2] == '.' && sep.holds(p[3]) {
        return 4 + span_len(from(p, 4), sep, false);
    }
    let rest = from(p, 2);
    let server = span_len(rest, sep, false);
    if server == 0 || server >= rest.len() {
        return 0;
    }
    let last = from(p, 3 + server);
    let name = span_len(last, sep, false);
    if name == 0 {
        0
    } else {
        3 + server + name
    }
}

fn names_literal_share(p: &[char]) -> (r: bool)
    ensures
        r == is_literal_share(p@),
{
    p.len() >= 8 && p[4] == 'U' && p[5] == 'N' && p[6] == 'C' && separator_class(true).holds(p[7])
}

fn names_literal_drive(p: &[char]) -> (r: bool)
    requires
        p@.len() >= 4,
    ensures
        r == is_literal_drive(p@),
{
    starts_with_drive(from(p, 4)) && (p.len() == 6 || separator_class(true).holds(p[6]))
}

fn literal_length(p: &[char]) -> (r: usize)
    requires
        is_literal(p@),
    ensures
        r == literal_len(p@),
        r <= p@.len(),
{
    proof {
        lemma_literal_len(p@);
    }
    let sep = piece_class(Form::Literal);
    if names_literal_share(p) {
        let server = span_len(from(p, 8), sep, false);
        if server >= p.len() - 8 {
            return 8 + server;
        }
        let name = span_len(from(p, 9 + server), sep, false);
        if name > 0 {
            9 + server + name
        } else {
            8 + server
        }
    } else if names_literal_drive(p) {
        6
    } else {
        let name = span_len(from(p, 4), sep, false);
        assert(name <= p@.len() - 4 && p.len() == p@.len());
        4 + name
    }
}

fn form_of(p: &[char], windows: bool) -> (r: Form)
    ensures
        r == form(p@, windows),
{
    if !windows {
        Form::Posix
    } else if starts_with_drive(p) {
        Form::Drive
    } else if starts_literally(p) {
        Form::Literal
    } else if share_length(p) > 0 {
        Form::Share
    } else {
        Form::Plain
    }
}

fn prefix_length(p: &[char], windows: bool) -> (r: usize)
    ensures
        r == prefix_len(p@, windows),
        r <= p@.len(),
{
    match form_of(p, windows) {
        Form::Posix => 0,
        Form::Plain => 0,
        Form::Drive => 2,
        Form::Share => share_length(p),
        Form::Literal => literal_length(p),
    }
}

fn prefix_of(p: &[char], windows: bool) -> (r: Vec<char>)
    ensures
        r@ == prefix_name(p@, windows),
{
    let t = upto(p, prefix_length(p, windows));
    match form_of(p, windows) {
        Form::Drive => lower_ascii(t),
        Form::Literal => {
            proof {
                lemma_literal_len(p@);
            }
            if names_literal_share(p) {
                let mut v = copied(t);
                v.set(7, '\\');
                v
            } else if names_literal_drive(p) {
                lower_ascii(t)
            } else {
                copied(t)
            }
        },
        _ => replace_class(t, Class::One('/'), '\\'),
    }
}

fn body_of(p: &[char], windows: bool) -> (r: Vec<char>)
    ensures
        r@ == body(p@, windows),
{
    let mut v = copied(from(p, prefix_length(p, windows)));
    if form_of(p, windows) == Form::Literal && v.len() > 0 && v[0] == '/' {
        v.set(0, '\\');
    }
    v
}

fn starts_slashed(t: &[char], f: Form) -> (r: bool)
    ensures
        r == slashed(t@, f),
{
    t.len() > 0 && piece_class(f).holds(t[0])
}

fn has_root(p: &[char], windows: bool) -> (r: bool)
    ensures
        r == rooted(p@, windows),
{
    let f = form_of(p, windows);
    f == Form::Share || starts_slashed(&body_of(p, windows), f)
}

/// See [`absolute`].
pub fn is_absolute(p: &str, windows: bool) -> (r: bool)
    ensures
        r == absolute(p@, windows),
{
    let v = chars_of(p);
    if windows {
        prefix_length(&v, windows) > 0 && (form_of(&v, windows) != Form::Drive || has_root(
            &v,
            windows,
        ))
    } else {
        has_root(&v, windows)
    }
}

/// See [`path_eq`].
pub fn same_path(a: &str, b: &str, windows: bool) -> (r: bool)
    ensures
        r == path_eq(a@, b@, windows),
{
    let x = chars_of(a);
    let y = chars_of(b);
    let f = form_of(&x, windows);
    if f != form_of(&y, windows) || !same(&prefix_of(&x, windows), &prefix_of(&y, windows))
        || has_root(&x, windows) != has_root(&y, windows) {
        return false;
    }
    let s = body_of(&x, windows);
    let t = body_of(&y, windows);
    let ps = split_pieces(&s, f);
    let qs = split_pieces(&t, f);
    let c = kept_pieces(&ps, f);
    let d = kept_pieces(&qs, f);
    if c.len() != d.len() {
        assert(views(c@).len() != views(d@).len());
        return false;
    }
    let r = same_list(&c, &d, c.len());
    assert(views(c@).take(c@.len() as int) =~= views(c@));
    assert(views(d@).take(c@.len() as int) =~= views(d@));
    r
}

fn is_name(c: &[char]) -> (r: bool)
    ensures
        r == (c@ != "."@ && c@ != ".."@),
{
    !spells(c, ".") && !spells(c, "..")
}

/// See [`steps`].
fn follow<'a>(front: Vec<&'a [char]>, way: &Vec<&'a [char]>) -> (r: Vec<&'a [char]>)
    ensures
        views(r@) == steps(views(front@), views(way@)),
{
    let ghost first = views(front@);
    let ghost all = views(way@);
    let mut cs: Vec<&'a [char]> = front;
    let mut i: usize = 0;
    assert(all.take(0).len() == 0);
    while i < way.len()
        invariant
            i <= way@.len(),
            all == views(way@),
            views(cs@) == steps(first, all.take(i as int)),
        decreases way@.len() - i,
    {
        let c = way[i];
        let ghost before = views(cs@);
        if is_name(c) {
            cs.push(c);
            assert(views(cs@) =~= before.push(c@));
        } else if !spells(c, ".") && cs.len() > 0 && is_name(cs[cs.len() - 1]) {
            assert(before.last() == cs@.last()@);
            cs.pop();
            assert(views(cs@) =~= before.drop_last());
        } else {
            assert(cs@.len() > 0 ==> before.last() == cs@.last()@);
        }
        proof {
            let s = all.take(i + 1);
            assert(s.drop_last() =~= all.take(i as int));
            assert(s.last() == c@);
        }
        i = i + 1;
    }
    assert(all.take(i as int) =~= all);
    cs
}

/// See [`written`].
fn write_components(cs: &Vec<&[char]>) -> (r: String)
    ensures
        r@ == written(views(cs@)),
{
    let ghost all = views(cs@);
    let mut r = String::new();
    let mut i: usize = 0;
    assert(all.take(0).len() == 0);
    while i < cs.len()
        invariant
            i <= cs@.len(),
            all == views(cs@),
            r@ == written(all.take(i as int)),
        decreases cs@.len() - i,
    {
        r = r.concat("\\").concat(&text_of(cs[i]));
        proof {
            let s = all.take(i + 1);
            assert(s.drop_last() =~= all.take(i as int));
            assert(s.last() == cs@[i as int]@);
        }
        i = i + 1;
    }
    assert(all.take(i as int) =~= all);
    r
}

fn join_literally(b: &[char], v: &[char]) -> (r: String)
    ensures
        r@ == joined_literally(b@, v@),
{
    let root = has_root(v, true);
    let f = form_of(b, true);
    let g = form_of(v, true);
    let s = body_of(b, true);
    let t = body_of(v, true);
    let ps = split_pieces(&s, f);
    let qs = split_pieces(&t, g);
    let way = kept_pieces(&qs, g);
    let front: Vec<&[char]> = if root {
        Vec::new()
    } else {
        kept_pieces(&ps, f)
    };
    assert(root ==> views(front@) =~= Seq::empty());
    let cs = follow(front, &way);
    assert(views(cs@).len() == cs@.len());
    let first = text_of(upto(b, prefix_length(b, true)));
    if cs.len() == 0 && (root || has_root(b, true)) {
        first.concat("\\")
    } else {
        first.concat(&write_components(&cs))
    }
}

/// See [`joined`].
pub fn join(base: &str, rel: &str, windows: bool) -> (r: String)
    ensures
        r@ == joined(base@, rel@, windows),
{
    let b = chars_of(base);
    let v = chars_of(rel);
    if is_absolute(rel, windows) || prefix_length(&v, windows) > 0 {
        rel.to_owned()
    } else if form_of(&b, windows) == Form::Literal && v.len() > 0 {
        join_literally(&b, &v)
    } else if has_root(&v, windows) {
        text_of(upto(&b, prefix_length(&b, windows))).concat(rel)
    } else if b.len() == 0 || separator_class(windows).holds(b[b.len() - 1]) || (form_of(
        &b,
        windows,
    ) == Form::Drive && b.len() == 2) {
        base.to_owned().concat(rel)
    } else if windows {
        base.to_owned().concat("\\").concat(rel)
    } else {
        base.to_owned().concat("/").concat(rel)
    }
}

/// See [`final_name`].
pub fn file_name(p: &str, windows: bool) -> (r: Option<String>)
    ensures
        r.deep_view() == final_name(p@, windows),
{
    let v = chars_of(p);
    let f = form_of(&v, windows);
    let t = body_of(&v, windows);
    let ps = split_pieces(&t, f);
    let c = kept_pieces(&ps, f);
    if c.len() == 0 {
        return None;
    }
    let last = c[c.len() - 1];
    assert(views(c@).last() == last@);
    if spells(last, "..") || spells(last, ".") {
        None
    } else {
        Some(text_of(last))
    }
}

fn last_kept(ps: &Vec<&[char]>, f: Form) -> (r: usize)
    ensures
        r == kept_end(views(ps@), ps@.len() as int, f),
        r <= ps@.len(),
{
    let ghost all = views(ps@);
    let mut end: usize = ps.len();
    while end > 0 && !keeps(ps, end - 1, f)
        invariant
            end <= ps@.len(),
            all == views(ps@),
            kept_end(all, ps@.len() as int, f) == kept_end(all, end as int, f),
        decreases end,
    {
        end = end - 1;
    }
    end
}

fn start_of(t: &[char], ps: &Vec<&[char]>, i: usize, f: Form) -> (r: usize)
    requires
        views(ps@) == pieces(t@, f),
        i < ps@.len(),
    ensures
        r == piece_start(views(ps@), i as int),
        r + views(ps@)[i as int].len() <= t@.len(),
{
    let ghost all = views(ps@);
    let mut r: usize = 0;
    let mut k: usize = 0;
    while k < i
        invariant
            k <= i < ps@.len(),
            all == views(ps@),
            all == pieces(t@, f),
            r == piece_start(all, k as int),
        decreases i - k,
    {
        proof {
            lemma_piece_starts(t@, k as int, f);
            lemma_piece_starts(t@, k + 1, f);
            assert(all[k as int] == ps@[k as int]@);
            assert(t.len() == t@.len());
        }
        r = r + ps[k].len() + 1;
        k = k + 1;
    }
    proof {
        lemma_piece_starts(t@, i as int, f);
    }
    r
}

/// The position behind piece `i - 1`.
fn end_of(t: &[char], ps: &Vec<&[char]>, i: usize, f: Form) -> (r: usize)
    requires
        views(ps@) == pieces(t@, f),
        0 < i <= ps@.len(),
    ensures
        r == piece_start(views(ps@), i as int) - 1,
        r <= t@.len(),
{
    proof {
        lemma_piece_starts(t@, i - 1, f);
        assert(views(ps@)[i - 1] == ps@[i - 1]@);
    }
    assert(t.len() == t@.len());
    start_of(t, ps, i - 1, f) + ps[i - 1].len()
}

fn bare_length(t: &[char], ps: &Vec<&[char]>, f: Form) -> (r: usize)
    requires
        views(ps@) == pieces(t@, f),
        ps@.len() > 0,
    ensures
        r == bare_len(t@, f),
        r <= t@.len(),
{
    proof {
        assert(views(ps@).len() == ps@.len());
        lemma_piece_starts(t@, 0, f);
        reveal_strlit(".");
    }
    let end = last_kept(ps, f);
    if end > 0 {
        end_of(t, ps, end, f)
    } else if starts_slashed(t, f) || spells(ps[0], ".") {
        1
    } else {
        0
    }
}

/// See [`relative`].
pub fn strip_prefix(p: &str, base: &str, windows: bool) -> (r: Option<String>)
    ensures
        r.deep_view() == relative(p@, base@, windows),
{
    let v = chars_of(p);
    let w = chars_of(base);
    let f = form_of(&v, windows);
    let g = form_of(&w, windows);
    let t = body_of(&v, windows);
    let u = body_of(&w, windows);
    let ps = split_pieces(&t, f);
    let bs = split_pieces(&u, g);
    let c = kept_pieces(&ps, f);
    let b = kept_pieces(&bs, g);
    let n = prefix_length(&v, windows);
    assert(v.len() == v@.len() && t@.len() == v@.len() - n);
    let ghost all = views(ps@);
    assert(all.len() == ps@.len());
    if w.len() == 0 {
        let m = bare_length(&t, &ps, f);
        return Some(text_of(upto(&v, n + m)));
    }
    assert(views(b@).len() == b@.len());
    assert(views(c@).len() == c@.len());
    if b.len() > c.len() {
        return None;
    }
    let prefix = same_list(&b, &c, b.len());
    proof {
        assert(views(b@).take(b@.len() as int) =~= views(b@));
        assert(views(c@).take(b@.len() as int) =~= views(c@).subrange(0, b@.len() as int));
    }
    let root_p = has_root(&v, windows);
    let root_b = has_root(&w, windows);
    if f != g || !same(&prefix_of(&v, windows), &prefix_of(&w, windows)) || !prefix || (root_b
        && !root_p) || (!root_b && root_p && b.len() > 0) {
        return None;
    }
    if !root_b && b.len() == 0 {
        let m = bare_length(&t, &ps, f);
        let r = text_of(from(upto(&v, n + m), n));
        assert(v@.take(n + m).skip(n as int) =~= v@.subrange(n as int, n + m));
        return Some(r);
    }
    let end = last_kept(&ps, f);
    let mut start: usize = 0;
    let mut left: usize = b.len();
    while left > 0 && start < ps.len()
        invariant
            start <= ps@.len(),
            all == views(ps@),
            behind(all, 0, b@.len(), f) == behind(all, start as int, left as nat, f),
        decreases ps@.len() - start,
    {
        if keeps(&ps, start, f) {
            left = left - 1;
        }
        start = start + 1;
    }
    while start < ps.len() && !keeps(&ps, start, f)
        invariant
            start <= ps@.len(),
            all == views(ps@),
            next_kept(all, behind(all, 0, b@.len(), f), f) == next_kept(all, start as int, f),
        decreases ps@.len() - start,
    {
        start = start + 1;
    }
    if start < end {
        proof {
            lemma_start_below(all, start as int, end as int);
        }
        let i = start_of(&t, &ps, start, f);
        let j = end_of(&t, &ps, end, f);
        let r = text_of(from(upto(&t, j), i));
        assert(t@.take(j as int).skip(i as int) =~= t@.subrange(i as int, j as int));
        Some(r)
    } else {
        Some(String::new())
    }
}

} // verus!
