//! Text as sequences of characters: classes of characters, trimming,
//! searching, splitting and building strings.

use vstd::prelude::*;
use vstd::slice::slice_subrange;

verus! {

/// `String::push`: the character is put behind the text that was there.
pub assume_specification[ String::push ](s: &mut String, c: char)
    ensures
        final(s)@ == old(s)@.push(c),
;

/// Unicode white space: the code points with the `White_Space` property.
pub open spec fn is_white(c: char) -> bool {
    ||| '\u{9}' <= c <= '\u{d}'
    ||| c == ' '
    ||| c == '\u{85}'
    ||| c == '\u{a0}'
    ||| c == '\u{1680}'
    ||| '\u{2000}' <= c <= '\u{200a}'
    ||| c == '\u{2028}'
    ||| c == '\u{2029}'
    ||| c == '\u{202f}'
    ||| c == '\u{205f}'
    ||| c == '\u{3000}'
}

pub fn white(c: char) -> (r: bool)
    ensures
        r == is_white(c),
{
    ('\u{9}' <= c && c <= '\u{d}') || c == ' ' || c == '\u{85}' || c == '\u{a0}' || c == '\u{1680}'
        || ('\u{2000}' <= c && c <= '\u{200a}') || c == '\u{2028}' || c == '\u{2029}' || c
        == '\u{202f}' || c == '\u{205f}' || c == '\u{3000}'
}

/// A set of characters to trim by or to search for.
#[derive(Clone, Copy)]
pub enum Class {
    White,
    One(char),
    Either(char, char),
}

impl Class {
    pub open spec fn has(self, c: char) -> bool {
        match self {
            Class::White => is_white(c),
            Class::One(a) => c == a,
            Class::Either(a, b) => c == a || c == b,
        }
    }

    pub fn holds(self, c: char) -> (r: bool)
        ensures
            r == self.has(c),
    {
        match self {
            Class::White => white(c),
            Class::One(a) => c == a,
            Class::Either(a, b) => c == a || c == b,
        }
    }
}

/// Length of the longest prefix whose characters are all in `k` (`want`), or
/// all outside it (`!want`).
pub open spec fn span(s: Seq<char>, k: Class, want: bool) -> nat
    decreases s.len(),
{
    if s.len() > 0 && k.has(s[0]) == want {
        1 + span(s.skip(1), k, want)
    } else {
        0
    }
}

/// Length of the longest suffix whose characters are all in `k` (`want`), or
/// all outside it (`!want`).
pub open spec fn rspan(s: Seq<char>, k: Class, want: bool) -> nat
    decreases s.len(),
{
    if s.len() > 0 && k.has(s.last()) == want {
        1 + rspan(s.drop_last(), k, want)
    } else {
        0
    }
}

/// `s` without its leading characters of `k`.
pub open spec fn trimmed_start(s: Seq<char>, k: Class) -> Seq<char> {
    s.skip(span(s, k, true) as int)
}

/// `s` without its trailing characters of `k`.
pub open spec fn trimmed_end(s: Seq<char>, k: Class) -> Seq<char> {
    s.take(s.len() - rspan(s, k, true))
}

/// `s` without the characters of `k` at either end.
pub open spec fn trimmed(s: Seq<char>, k: Class) -> Seq<char> {
    trimmed_end(trimmed_start(s, k), k)
}

/// Position of the first character of `k`.
pub open spec fn index_of(s: Seq<char>, k: Class) -> Option<int> {
    if span(s, k, false) < s.len() {
        Some(span(s, k, false) as int)
    } else {
        None
    }
}

/// Position of the last character of `k`.
pub open spec fn last_index_of(s: Seq<char>, k: Class) -> Option<int> {
    if rspan(s, k, false) < s.len() {
        Some(s.len() - 1 - rspan(s, k, false))
    } else {
        None
    }
}

/// The text before and after the first `c`.
pub open spec fn split_at_char(s: Seq<char>, c: char) -> Option<(Seq<char>, Seq<char>)> {
    match index_of(s, Class::One(c)) {
        Some(i) => Some((s.take(i), s.skip(i + 1))),
        None => None,
    }
}

/// The white-space separated words of `s`.
pub open spec fn words(s: Seq<char>) -> Seq<Seq<char>>
    decreases s.len(),
{
    let t = trimmed_start(s, Class::White);
    let n = span(t, Class::White, false) as int;
    if 0 < n <= t.len() <= s.len() {
        seq![t.take(n)] + words(t.skip(n))
    } else {
        Seq::empty()
    }
}

/// The first white-space delimited word, and the rest with both ends trimmed.
pub open spec fn first_word(s: Seq<char>) -> (Seq<char>, Seq<char>) {
    match index_of(s, Class::White) {
        Some(i) => (s.take(i), trimmed(s.skip(i), Class::White)),
        None => (s, Seq::empty()),
    }
}

/// `n` stands in `h` at position `i`.
pub open spec fn occurs_at(h: Seq<char>, n: Seq<char>, i: int) -> bool {
    0 <= i && i + n.len() <= h.len() && h.subrange(i, i + n.len()) == n
}

/// `n` stands somewhere in `h`.
pub open spec fn occurs(h: Seq<char>, n: Seq<char>) -> bool {
    exists|i: int| occurs_at(h, n, i)
}

/// `p` is a prefix of `s`.
pub open spec fn starts(s: Seq<char>, p: Seq<char>) -> bool {
    p.len() <= s.len() && s.take(p.len() as int) == p
}

/// What follows the prefix `p` of `s`.
pub open spec fn without_prefix(s: Seq<char>, p: Seq<char>) -> Option<Seq<char>> {
    if starts(s, p) {
        Some(s.skip(p.len() as int))
    } else {
        None
    }
}

/// Position of the first place from `i` on where `n` stands in `h`.
pub open spec fn first_at(h: Seq<char>, n: Seq<char>, i: int) -> Option<int>
    decreases h.len() + 1 - i,
{
    if i < 0 || i + n.len() > h.len() {
        None
    } else if occurs_at(h, n, i) {
        Some(i)
    } else {
        first_at(h, n, i + 1)
    }
}

/// Position of the last place up to `i` where `n` stands in `h`.
pub open spec fn last_at(h: Seq<char>, n: Seq<char>, i: int) -> Option<int>
    decreases i + 1,
{
    if i < 0 {
        None
    } else if occurs_at(h, n, i) {
        Some(i)
    } else {
        last_at(h, n, i - 1)
    }
}

/// `s` with every character of `k` replaced by `by`.
pub open spec fn replaced(s: Seq<char>, k: Class, by: char) -> Seq<char> {
    Seq::new(
        s.len(),
        |i: int|
            if k.has(s[i]) {
                by
            } else {
                s[i]
            },
    )
}

/// `s` with every `c` replaced by the text `by`.
pub open spec fn substituted(s: Seq<char>, c: char, by: Seq<char>) -> Seq<char>
    decreases s.len(),
{
    if s.len() == 0 {
        s
    } else {
        substituted(s.drop_last(), c, by) + if s.last() == c {
            by
        } else {
            seq![s.last()]
        }
    }
}

pub open spec fn ascii_lower_char(c: char) -> char {
    if 'A' <= c <= 'Z' {
        ((c as u32) + 32) as char
    } else {
        c
    }
}

/// `s` with `A` to `Z` in lower case and everything else as it is.
pub open spec fn ascii_lower(s: Seq<char>) -> Seq<char> {
    s.map_values(|c: char| ascii_lower_char(c))
}

// ---- facts about spans ----

/// What `span` is, without recursion.
pub proof fn lemma_span(s: Seq<char>, k: Class, want: bool)
    ensures
        span(s, k, want) <= s.len(),
        forall|i: int| 0 <= i < span(s, k, want) ==> k.has(#[trigger] s[i]) == want,
        span(s, k, want) < s.len() ==> k.has(s[span(s, k, want) as int]) != want,
    decreases s.len(),
{
    if s.len() > 0 && k.has(s[0]) == want {
        lemma_span(s.skip(1), k, want);
        let n = span(s.skip(1), k, want);
        assert forall|i: int| 0 <= i < n + 1 implies k.has(#[trigger] s[i]) == want by {
            if i > 0 {
                assert(s.skip(1)[i - 1] == s[i]);
            }
        }
        if n + 1 < s.len() {
            assert(s.skip(1)[n as int] == s[n as int + 1]);
        }
    }
}

/// The only length with the properties of `span` is `span`.
pub proof fn lemma_span_is(s: Seq<char>, k: Class, want: bool, n: nat)
    requires
        n <= s.len(),
        forall|i: int| 0 <= i < n ==> k.has(#[trigger] s[i]) == want,
        n < s.len() ==> k.has(s[n as int]) != want,
    ensures
        span(s, k, want) == n,
{
    lemma_span(s, k, want);
    let m = span(s, k, want);
    if m < n {
        assert(k.has(s[m as int]) == want);
    }
    if n < m {
        assert(k.has(s[n as int]) == want);
    }
}

/// What `rspan` is, without recursion.
pub proof fn lemma_rspan(s: Seq<char>, k: Class, want: bool)
    ensures
        rspan(s, k, want) <= s.len(),
        forall|i: int| s.len() - rspan(s, k, want) <= i < s.len() ==> k.has(
            #[trigger] s[i],
        ) == want,
        rspan(s, k, want) < s.len() ==> k.has(s[s.len() - 1 - rspan(s, k, want)]) != want,
    decreases s.len(),
{
    if s.len() > 0 && k.has(s.last()) == want {
        lemma_rspan(s.drop_last(), k, want);
        let n = rspan(s.drop_last(), k, want);
        assert forall|i: int| s.len() - (n + 1) <= i < s.len() implies k.has(#[trigger] s[i])
            == want by {
            if i < s.len() - 1 {
                assert(s.drop_last()[i] == s[i]);
            }
        }
        if n + 1 < s.len() {
            assert(s.drop_last()[s.len() - 2 - n] == s[s.len() - 2 - n]);
        }
    }
}

/// The only length with the properties of `rspan` is `rspan`.
pub proof fn lemma_rspan_is(s: Seq<char>, k: Class, want: bool, n: nat)
    requires
        n <= s.len(),
        forall|i: int| s.len() - n <= i < s.len() ==> k.has(#[trigger] s[i]) == want,
        n < s.len() ==> k.has(s[s.len() - 1 - n]) != want,
    ensures
        rspan(s, k, want) == n,
{
    lemma_rspan(s, k, want);
    let m = rspan(s, k, want);
    if m < n {
        assert(k.has(s[s.len() - 1 - m]) == want);
    }
    if n < m {
        assert(k.has(s[s.len() - 1 - n]) == want);
    }
}

/// A text with no character of `k` at its ends is left as it is by trimming.
pub proof fn lemma_trimmed_clean(s: Seq<char>, k: Class)
    requires
        s.len() > 0 ==> !k.has(s[0]) && !k.has(s.last()),
    ensures
        trimmed_start(s, k) == s,
        trimmed_end(s, k) == s,
        trimmed(s, k) == s,
{
    assert(s.skip(0) =~= s);
    assert(s.take(s.len() as int) =~= s);
}

/// Where the first place from `i` on is, without recursion.
pub proof fn lemma_first_at(h: Seq<char>, n: Seq<char>, i: int)
    requires
        0 <= i,
    ensures
        match first_at(h, n, i) {
            Some(j) => i <= j && occurs_at(h, n, j) && forall|x: int|
                i <= x < j ==> !#[trigger] occurs_at(h, n, x),
            None => forall|x: int| i <= x ==> !#[trigger] occurs_at(h, n, x),
        },
    decreases h.len() + 1 - i,
{
    if i + n.len() <= h.len() && !occurs_at(h, n, i) {
        lemma_first_at(h, n, i + 1);
    }
}

/// Where the last place up to `i` is, without recursion.
pub proof fn lemma_last_at(h: Seq<char>, n: Seq<char>, i: int)
    ensures
        match last_at(h, n, i) {
            Some(j) => j <= i && occurs_at(h, n, j) && forall|x: int|
                j < x <= i ==> !#[trigger] occurs_at(h, n, x),
            None => forall|x: int| x <= i ==> !#[trigger] occurs_at(h, n, x),
        },
    decreases i + 1,
{
    if i >= 0 && !occurs_at(h, n, i) {
        lemma_last_at(h, n, i - 1);
    }
}

/// Substituting in a concatenation is substituting in its parts.
pub proof fn lemma_substituted_add(a: Seq<char>, b: Seq<char>, c: char, by: Seq<char>)
    ensures
        substituted(a + b, c, by) == substituted(a, c, by) + substituted(b, c, by),
    decreases b.len(),
{
    if b.len() == 0 {
        assert(a + b =~= a);
        assert(substituted(a, c, by) + b =~= substituted(a, c, by));
    } else {
        lemma_substituted_add(a, b.drop_last(), c, by);
        assert((a + b).drop_last() =~= a + b.drop_last());
        let tail = if b.last() == c {
            by
        } else {
            seq![b.last()]
        };
        assert(substituted(a + b, c, by) =~= substituted(a, c, by) + (substituted(
            b.drop_last(),
            c,
            by,
        ) + tail));
    }
}

// ---- executable text ----

/// The characters of a string.
pub fn chars_of(s: &str) -> (v: Vec<char>)
    ensures
        v@ == s@,
{
    let mut v: Vec<char> = Vec::new();
    for c in it: s.chars()
        invariant
            v@ == it.seq().take(it.index()),
            it.seq() == s@,
    {
        v.push(c);
    }
    v
}

/// The string that some characters make up.
pub fn text_of(v: &[char]) -> (s: String)
    ensures
        s@ == v@,
{
    let mut s = String::new();
    let mut i: usize = 0;
    while i < v.len()
        invariant
            i <= v@.len(),
            s@ == v@.take(i as int),
        decreases v@.len() - i,
    {
        s.push(v[i]);
        proof {
            assert(v@.take(i + 1) =~= v@.take(i as int).push(v@[i as int]));
        }
        i = i + 1;
    }
    assert(v@.take(v@.len() as int) =~= v@);
    s
}

/// A copy of some characters.
pub fn copied(v: &[char]) -> (r: Vec<char>)
    ensures
        r@ == v@,
{
    let mut r: Vec<char> = Vec::new();
    let mut i: usize = 0;
    while i < v.len()
        invariant
            i <= v@.len(),
            r@ == v@.take(i as int),
        decreases v@.len() - i,
    {
        r.push(v[i]);
        i = i + 1;
    }
    assert(v@.take(v@.len() as int) =~= v@);
    r
}

pub fn same(a: &[char], b: &[char]) -> (r: bool)
    ensures
        r == (a@ == b@),
{
    if a.len() != b.len() {
        return false;
    }
    let mut i: usize = 0;
    while i < a.len()
        invariant
            i <= a@.len(),
            a@.len() == b@.len(),
            forall|j: int| 0 <= j < i ==> a@[j] == b@[j],
        decreases a@.len() - i,
    {
        if a[i] != b[i] {
            return false;
        }
        i = i + 1;
    }
    assert(a@ =~= b@);
    true
}

/// Whether two strings are the same text.
pub fn same_text(a: &str, b: &str) -> (r: bool)
    ensures
        r == (a@ == b@),
{
    let x = chars_of(a);
    let y = chars_of(b);
    same(&x, &y)
}

/// Whether some characters spell the text `b`.
pub fn spells(a: &[char], b: &str) -> (r: bool)
    ensures
        r == (a@ == b@),
{
    let y = chars_of(b);
    same(a, &y)
}

/// See [`span`].
pub fn span_len(s: &[char], k: Class, want: bool) -> (n: usize)
    ensures
        n == span(s@, k, want),
        n <= s@.len(),
{
    let mut i: usize = 0;
    while i < s.len() && k.holds(s[i]) == want
        invariant
            i <= s@.len(),
            forall|j: int| 0 <= j < i ==> k.has(#[trigger] s@[j]) == want,
        decreases s@.len() - i,
    {
        i = i + 1;
    }
    proof {
        lemma_span_is(s@, k, want, i as nat);
    }
    i
}

/// See [`rspan`].
pub fn rspan_len(s: &[char], k: Class, want: bool) -> (n: usize)
    ensures
        n == rspan(s@, k, want),
        n <= s@.len(),
{
    let len = s.len();
    let mut i: usize = 0;
    while i < len && k.holds(s[len - 1 - i]) == want
        invariant
            len == s@.len(),
            i <= len,
            forall|j: int| len - i <= j < len ==> k.has(#[trigger] s@[j]) == want,
        decreases len - i,
    {
        i = i + 1;
    }
    proof {
        lemma_rspan_is(s@, k, want, i as nat);
    }
    i
}

pub fn from(s: &[char], i: usize) -> (r: &[char])
    requires
        i <= s@.len(),
    ensures
        r@ == s@.skip(i as int),
{
    let r = slice_subrange(s, i, s.len());
    assert(r@ =~= s@.skip(i as int));
    r
}

pub fn upto(s: &[char], i: usize) -> (r: &[char])
    requires
        i <= s@.len(),
    ensures
        r@ == s@.take(i as int),
{
    let r = slice_subrange(s, 0, i);
    assert(r@ =~= s@.take(i as int));
    r
}

pub fn trim_start(s: &[char], k: Class) -> (r: &[char])
    ensures
        r@ == trimmed_start(s@, k),
{
    let n = span_len(s, k, true);
    from(s, n)
}

pub fn trim_end(s: &[char], k: Class) -> (r: &[char])
    ensures
        r@ == trimmed_end(s@, k),
{
    let n = rspan_len(s, k, true);
    upto(s, s.len() - n)
}

pub fn trim(s: &[char], k: Class) -> (r: &[char])
    ensures
        r@ == trimmed(s@, k),
{
    trim_end(trim_start(s, k), k)
}

pub fn find(s: &[char], k: Class) -> (r: Option<usize>)
    ensures
        match r {
            Some(i) => index_of(s@, k) == Some(i as int) && i < s@.len(),
            None => index_of(s@, k) is None,
        },
{
    let n = span_len(s, k, false);
    if n < s.len() {
        Some(n)
    } else {
        None
    }
}

pub fn rfind(s: &[char], k: Class) -> (r: Option<usize>)
    ensures
        match r {
            Some(i) => last_index_of(s@, k) == Some(i as int) && i < s@.len(),
            None => last_index_of(s@, k) is None,
        },
{
    let n = rspan_len(s, k, false);
    if n < s.len() {
        Some(s.len() - 1 - n)
    } else {
        None
    }
}

/// See [`split_at_char`].
pub fn split_once(s: &[char], c: char) -> (r: Option<(&[char], &[char])>)
    ensures
        match r {
            Some((a, b)) => split_at_char(s@, c) == Some((a@, b@)),
            None => split_at_char(s@, c) is None,
        },
{
    match find(s, Class::One(c)) {
        Some(i) => {
            assert(i < s.len());
            Some((upto(s, i), from(s, i + 1)))
        },
        None => None,
    }
}

/// See [`first_word`].
pub fn split_first(s: &[char]) -> (r: (&[char], &[char]))
    ensures
        (r.0@, r.1@) == first_word(s@),
{
    match find(s, Class::White) {
        Some(i) => (upto(s, i), trim(from(s, i), Class::White)),
        None => {
            let none = upto(s, 0);
            assert(none@ =~= Seq::<char>::empty());
            (s, none)
        },
    }
}

/// See [`words`].
pub fn split_words(s: &[char]) -> (r: Vec<&[char]>)
    ensures
        r@.len() == words(s@).len(),
        forall|i: int| 0 <= i < r@.len() ==> (#[trigger] r@[i])@ == words(s@)[i],
{
    let mut out: Vec<&[char]> = Vec::new();
    let mut rest: &[char] = s;
    let ghost mut done: Seq<Seq<char>> = Seq::empty();
    assert(done + words(rest@) =~= words(s@));
    loop
        invariant
            words(s@) == done + words(rest@),
            out@.len() == done.len(),
            forall|i: int| 0 <= i < out@.len() ==> (#[trigger] out@[i])@ == done[i],
        ensures
            words(s@) == done,
            out@.len() == done.len(),
            forall|i: int| 0 <= i < out@.len() ==> (#[trigger] out@[i])@ == done[i],
        decreases rest@.len(),
    {
        let ghost before = rest@;
        proof {
            lemma_span(before, Class::White, true);
        }
        let t = trim_start(rest, Class::White);
        let n = span_len(t, Class::White, false);
        if n == 0 {
            assert(words(before) =~= Seq::empty());
            assert(done + words(before) =~= done);
            break;
        }
        let word = upto(t, n);
        out.push(word);
        rest = from(t, n);
        proof {
            assert(words(before) == seq![word@] + words(rest@));
            assert(done + (seq![word@] + words(rest@)) =~= done.push(word@) + words(rest@));
            done = done.push(word@);
        }
    }
    out
}

/// Whether `n` stands in `h` at `i`.
pub fn at(h: &[char], n: &[char], i: usize) -> (r: bool)
    ensures
        r == occurs_at(h@, n@, i as int),
{
    if i > h.len() || n.len() > h.len() - i {
        return false;
    }
    let part = slice_subrange(h, i, i + n.len());
    same(part, n)
}

/// See [`first_at`].
pub fn find_text(h: &[char], n: &[char]) -> (r: Option<usize>)
    ensures
        match r {
            Some(i) => first_at(h@, n@, 0) == Some(i as int) && i + n@.len() <= h@.len(),
            None => first_at(h@, n@, 0) is None,
        },
{
    if n.len() > h.len() {
        return None;
    }
    let last = h.len() - n.len();
    let mut i: usize = 0;
    loop
        invariant
            i <= last,
            last == h@.len() - n@.len(),
            first_at(h@, n@, 0) == first_at(h@, n@, i as int),
        decreases last - i,
    {
        if at(h, n, i) {
            return Some(i);
        }
        if i == last {
            assert(first_at(h@, n@, i + 1) is None);
            return None;
        }
        i = i + 1;
    }
}

/// See [`last_at`].
pub fn rfind_text(h: &[char], n: &[char]) -> (r: Option<usize>)
    ensures
        match r {
            Some(i) => last_at(h@, n@, h@.len() as int) == Some(i as int) && i + n@.len()
                <= h@.len(),
            None => last_at(h@, n@, h@.len() as int) is None,
        },
{
    let mut i: usize = h.len();
    loop
        invariant
            i <= h@.len(),
            last_at(h@, n@, h@.len() as int) == last_at(h@, n@, i as int),
        decreases i,
    {
        if at(h, n, i) {
            return Some(i);
        }
        if i == 0 {
            assert(last_at(h@, n@, -1) is None);
            return None;
        }
        i = i - 1;
    }
}

/// See [`occurs`].
pub fn contains(h: &[char], n: &[char]) -> (r: bool)
    ensures
        r == occurs(h@, n@),
{
    proof {
        lemma_first_at(h@, n@, 0);
    }
    match find_text(h, n) {
        Some(_) => true,
        None => false,
    }
}

/// See [`starts`].
pub fn starts_with(s: &[char], p: &[char]) -> (r: bool)
    ensures
        r == starts(s@, p@),
{
    if p.len() > s.len() {
        return false;
    }
    same(upto(s, p.len()), p)
}

/// See [`without_prefix`].
pub fn strip_prefix<'a>(s: &'a [char], p: &str) -> (r: Option<&'a [char]>)
    ensures
        match r {
            Some(t) => without_prefix(s@, p@) == Some(t@),
            None => without_prefix(s@, p@) is None,
        },
{
    let q = chars_of(p);
    if starts_with(s, &q) {
        Some(from(s, q.len()))
    } else {
        None
    }
}

/// See [`replaced`].
pub fn replace_class(s: &[char], k: Class, by: char) -> (r: Vec<char>)
    ensures
        r@ == replaced(s@, k, by),
{
    let mut r: Vec<char> = Vec::new();
    let mut i: usize = 0;
    while i < s.len()
        invariant
            i <= s@.len(),
            r@ == replaced(s@, k, by).take(i as int),
        decreases s@.len() - i,
    {
        if k.holds(s[i]) {
            r.push(by);
        } else {
            r.push(s[i]);
        }
        proof {
            let all = replaced(s@, k, by);
            assert(all.take(i + 1) =~= all.take(i as int).push(all[i as int]));
        }
        i = i + 1;
    }
    proof {
        let all = replaced(s@, k, by);
        assert(all.take(s@.len() as int) =~= all);
    }
    r
}

/// See [`substituted`].
pub fn substitute(s: &[char], c: char, by: &str) -> (r: String)
    ensures
        r@ == substituted(s@, c, by@),
{
    let mut r = String::new();
    let mut i: usize = 0;
    while i < s.len()
        invariant
            i <= s@.len(),
            r@ == substituted(s@.take(i as int), c, by@),
        decreases s@.len() - i,
    {
        proof {
            let t = s@.take(i + 1);
            assert(t.drop_last() =~= s@.take(i as int));
            assert(t.last() == s@[i as int]);
        }
        if s[i] == c {
            r.append(by);
        } else {
            r.push(s[i]);
            proof {
                assert(r@ =~= substituted(s@.take(i as int), c, by@) + seq![s@[i as int]]);
            }
        }
        i = i + 1;
    }
    assert(s@.take(s@.len() as int) =~= s@);
    r
}

/// The four texts one after the other.
pub fn join4(a: &str, b: &str, c: &str, d: &str) -> (r: String)
    ensures
        r@ == a@ + b@ + c@ + d@,
{
    a.to_owned().concat(b).concat(c).concat(d)
}

/// See [`ascii_lower`].
pub fn lower_ascii(s: &[char]) -> (r: Vec<char>)
    ensures
        r@ == ascii_lower(s@),
{
    let mut r: Vec<char> = Vec::new();
    let mut i: usize = 0;
    while i < s.len()
        invariant
            i <= s@.len(),
            r@ == ascii_lower(s@).take(i as int),
        decreases s@.len() - i,
    {
        let c = s[i];
        r.push(
            if 'A' <= c && c <= 'Z' {
                (c as u8 + 32) as char
            } else {
                c
            },
        );
        assert(r@ =~= ascii_lower(s@).take(i + 1));
        i = i + 1;
    }
    assert(r@ =~= ascii_lower(s@));
    r
}

/// Unicode lower case, as the standard library defines it.
pub uninterp spec fn lowercase(s: Seq<char>) -> Seq<char>;

/// `str::to_lowercase`: the result depends on the text alone. Of a text made of
/// ASCII characters it is that text with `A` to `Z` in lower case.
#[verifier::external_body]
pub(crate) fn to_lower(s: &str) -> (r: String)
    ensures
        r@ == lowercase(s@),
        vstd::utf8::is_ascii_chars(s@) ==> r@ == ascii_lower(s@),
{
    s.to_lowercase()
}

/// The text of some bytes, with what is not UTF-8 replaced.
pub uninterp spec fn lossy_text(bytes: Seq<u8>) -> Seq<char>;

/// `String::from_utf8_lossy`: the result depends on the bytes alone. Where they
/// are UTF-8, it is the text that they encode.
#[verifier::external_body]
pub(crate) fn utf8_lossy(bytes: &[u8]) -> (r: String)
    ensures
        r@ == lossy_text(bytes@),
        vstd::utf8::valid_utf8(bytes@) ==> r@ == vstd::utf8::decode_utf8(bytes@),
{
    String::from_utf8_lossy(bytes).into_owned()
}

} // verus!
