//! Sorting by a number and then by a text, with ties left in their order.

use vstd::prelude::*;

verus! {

/// `a` comes before `b` in the order of character codes.
pub open spec fn text_lt(a: Seq<char>, b: Seq<char>) -> bool
    decreases a.len(),
{
    if b.len() == 0 {
        false
    } else if a.len() == 0 {
        true
    } else {
        a[0] < b[0] || (a[0] == b[0] && text_lt(a.skip(1), b.skip(1)))
    }
}

/// What entries are sorted by: the rank first, and then the name.
pub ghost struct Key {
    pub rank: int,
    pub name: Seq<char>,
}

pub open spec fn key_lt(a: Key, b: Key) -> bool {
    a.rank < b.rank || (a.rank == b.rank && text_lt(a.name, b.name))
}

/// Where entry `n` goes among the entries `o[..j]`, which are in order: behind
/// all that do not come after it.
pub open spec fn slot(o: Seq<int>, keys: Seq<Key>, n: int, j: int) -> int
    decreases j,
{
    if j > 0 && key_lt(keys[n], keys[o[j - 1]]) {
        slot(o, keys, n, j - 1)
    } else {
        j
    }
}

/// The places of the entries in sorted order.
pub open spec fn order(keys: Seq<Key>) -> Seq<int>
    decreases keys.len(),
{
    if keys.len() == 0 {
        Seq::empty()
    } else {
        let o = order(keys.drop_last());
        o.insert(slot(o, keys, keys.len() - 1, o.len() as int), keys.len() - 1)
    }
}

/// The entries in sorted order.
pub open spec fn sorted<T>(rows: Seq<T>, keys: Seq<Key>) -> Seq<T> {
    Seq::new(order(keys).len(), |i: int| rows[order(keys)[i]])
}

proof fn lemma_text_lt(a: Seq<char>, b: Seq<char>, c: Seq<char>)
    ensures
        !text_lt(a, a),
        text_lt(a, b) || text_lt(b, a) || a == b,
        !(text_lt(a, b) && text_lt(b, a)),
        text_lt(a, b) && text_lt(b, c) ==> text_lt(a, c),
    decreases a.len() + b.len() + c.len(),
{
    if a.len() > 0 && b.len() > 0 && c.len() > 0 {
        lemma_text_lt(a.skip(1), b.skip(1), c.skip(1));
    } else if a.len() > 0 && b.len() > 0 {
        lemma_text_lt(a.skip(1), b.skip(1), c);
    } else if a.len() > 0 && c.len() > 0 {
        lemma_text_lt(a.skip(1), b, c.skip(1));
    } else if a.len() > 0 {
        lemma_text_lt(a.skip(1), b, c);
    }
    if a.len() > 0 && b.len() > 0 && a[0] == b[0] && a.skip(1) == b.skip(1) {
        assert(a =~= seq![a[0]] + a.skip(1));
        assert(b =~= seq![b[0]] + b.skip(1));
    }
    if a.len() == 0 && b.len() == 0 {
        assert(a =~= b);
    }
}

/// Of two texts one comes first, unless they are the same.
pub(crate) proof fn lemma_text_total(a: Seq<char>, b: Seq<char>)
    ensures
        text_lt(a, b) || text_lt(b, a) || a == b,
{
    lemma_text_lt(a, b, a);
}

proof fn lemma_key_lt(a: Key, b: Key, c: Key)
    ensures
        !key_lt(a, a),
        key_lt(a, b) || key_lt(b, a) || a == b,
        !(key_lt(a, b) && key_lt(b, a)),
        key_lt(a, b) && key_lt(b, c) ==> key_lt(a, c),
        !key_lt(b, a) && !key_lt(c, b) ==> !key_lt(c, a),
{
    lemma_text_lt(a.name, b.name, c.name);
    lemma_text_lt(b.name, a.name, c.name);
    lemma_text_lt(c.name, a.name, b.name);
    lemma_text_lt(a.name, c.name, b.name);
    lemma_text_lt(c.name, b.name, a.name);
}

proof fn lemma_slot(o: Seq<int>, keys: Seq<Key>, n: int, j: int)
    requires
        0 <= j <= o.len(),
    ensures
        0 <= slot(o, keys, n, j) <= j,
        slot(o, keys, n, j) > 0 ==> !key_lt(keys[n], keys[o[slot(o, keys, n, j) - 1]]),
        forall|x: int|
            slot(o, keys, n, j) <= x < j ==> key_lt(keys[n], keys[#[trigger] o[x]]),
    decreases j,
{
    if j > 0 && key_lt(keys[n], keys[o[j - 1]]) {
        lemma_slot(o, keys, n, j - 1);
    }
}

/// `order` names each place once, in the order of the keys; entries with equal
/// keys keep their order.
pub proof fn order_is_stable_sort(keys: Seq<Key>)
    ensures
        order(keys).len() == keys.len(),
        forall|i: int| 0 <= i < keys.len() ==> 0 <= #[trigger] order(keys)[i] < keys.len(),
        forall|i: int| 0 <= i < keys.len() ==> #[trigger] order(keys).contains(i),
        forall|a: int, b: int|
            0 <= a < b < keys.len() ==> {
                let x = #[trigger] order(keys)[a];
                let y = #[trigger] order(keys)[b];
                x != y && !key_lt(keys[y], keys[x]) && (keys[x] == keys[y] ==> x < y)
            },
    decreases keys.len(),
{
    if keys.len() > 0 {
        let t = keys.drop_last();
        let n = keys.len() - 1;
        order_is_stable_sort(t);
        let o = order(t);
        lemma_slot(o, keys, n, o.len() as int);
        let p = slot(o, keys, n, o.len() as int);
        let r = order(keys);
        assert(r =~= o.insert(p, n));
        assert forall|i: int| 0 <= i < keys.len() implies 0 <= #[trigger] r[i] < keys.len() by {
            if i < p {
                assert(r[i] == o[i]);
            } else if i > p {
                assert(r[i] == o[i - 1]);
            }
        }
        assert forall|i: int| 0 <= i < keys.len() implies #[trigger] r.contains(i) by {
            if i == n {
                assert(r[p] == n);
            } else {
                assert(o.contains(i));
                let k = choose|k: int| 0 <= k < o.len() && o[k] == i;
                if k < p {
                    assert(r[k] == i);
                } else {
                    assert(r[k + 1] == i);
                }
            }
        }
        assert forall|a: int, b: int| 0 <= a < b < keys.len() implies {
            let x = #[trigger] r[a];
            let y = #[trigger] r[b];
            x != y && !key_lt(keys[y], keys[x]) && (keys[x] == keys[y] ==> x < y)
        } by {
            let a0 = if a < p {
                a
            } else {
                a - 1
            };
            let b0 = if b < p {
                b
            } else {
                b - 1
            };
            if a != p && b != p {
                assert(r[a] == o[a0] && r[b] == o[b0]);
                assert(t[o[a0]] == keys[o[a0]] && t[o[b0]] == keys[o[b0]]);
            } else if b == p {
                // What stands in front of the new entry does not come after it.
                assert(r[a] == o[a]);
                if a < p - 1 {
                    assert(t[o[a]] == keys[o[a]] && t[o[p - 1]] == keys[o[p - 1]]);
                    lemma_key_lt(keys[o[a]], keys[o[p - 1]], keys[n]);
                }
            } else {
                // What stands behind the new entry comes after it.
                assert(r[b] == o[b - 1]);
                lemma_key_lt(keys[n], keys[o[b - 1]], keys[n]);
            }
        }
    }
}

/// See [`text_lt`].
pub fn text_before(a: &[char], b: &[char]) -> (r: bool)
    ensures
        r == text_lt(a@, b@),
{
    let mut i: usize = 0;
    assert(a@.skip(0) =~= a@ && b@.skip(0) =~= b@);
    while i < a.len() && i < b.len()
        invariant
            i <= a@.len(),
            i <= b@.len(),
            text_lt(a@, b@) == text_lt(a@.skip(i as int), b@.skip(i as int)),
        decreases a@.len() - i,
    {
        proof {
            assert(a@.skip(i as int)[0] == a@[i as int]);
            assert(b@.skip(i as int)[0] == b@[i as int]);
            assert(a@.skip(i as int).skip(1) =~= a@.skip(i + 1));
            assert(b@.skip(i as int).skip(1) =~= b@.skip(i + 1));
        }
        if a[i] != b[i] {
            return a[i] < b[i];
        }
        i = i + 1;
    }
    i < b.len()
}

/// A key to sort by.
pub struct SortKey {
    pub rank: u32,
    pub name: Vec<char>,
}

impl DeepView for SortKey {
    type V = Key;

    open spec fn deep_view(&self) -> Key {
        Key { rank: self.rank as int, name: self.name@ }
    }
}

fn key_before(a: &SortKey, b: &SortKey) -> (r: bool)
    ensures
        r == key_lt(a.deep_view(), b.deep_view()),
{
    a.rank < b.rank || (a.rank == b.rank && text_before(&a.name, &b.name))
}

pub open spec fn places(v: Seq<usize>) -> Seq<int> {
    v.map_values(|i: usize| i as int)
}

proof fn lemma_slot_prefix(o: Seq<int>, ks: Seq<Key>, more: Seq<Key>, n: int, j: int)
    requires
        0 <= j <= o.len(),
        ks.len() <= more.len(),
        0 <= n < ks.len(),
        forall|i: int| 0 <= i < o.len() ==> 0 <= #[trigger] o[i] < ks.len(),
        forall|i: int| 0 <= i < ks.len() ==> #[trigger] ks[i] == more[i],
    ensures
        slot(o, ks, n, j) == slot(o, more, n, j),
    decreases j,
{
    if j > 0 {
        assert(ks[o[j - 1]] == more[o[j - 1]]);
        assert(ks[n] == more[n]);
        lemma_slot_prefix(o, ks, more, n, j - 1);
    }
}

/// See [`order`].
pub fn sort_order(keys: &Vec<SortKey>) -> (r: Vec<usize>)
    ensures
        places(r@) == order(keys.deep_view()),
        r@.len() == keys@.len(),
        forall|i: int| 0 <= i < r@.len() ==> #[trigger] r@[i] < keys@.len(),
{
    let ghost ks = keys.deep_view();
    let mut out: Vec<usize> = Vec::new();
    let mut n: usize = 0;
    assert(places(out@) =~= order(ks.take(0)));
    while n < keys.len()
        invariant
            n <= keys@.len(),
            ks == keys.deep_view(),
            places(out@) == order(ks.take(n as int)),
            out@.len() == n,
            forall|i: int| 0 <= i < out@.len() ==> #[trigger] out@[i] < n,
        decreases keys@.len() - n,
    {
        let ghost o = places(out@);
        let ghost t = ks.take(n + 1);
        let mut j: usize = out.len();
        proof {
            assert(t.drop_last() =~= ks.take(n as int));
            assert forall|i: int| 0 <= i < o.len() implies 0 <= #[trigger] o[i] < t.len() by {
                assert(out@[i] < n);
            }
            lemma_slot_prefix(o, t, ks, n as int, o.len() as int);
        }
        while j > 0 && key_before(&keys[n], &keys[out[j - 1]])
            invariant
                n < keys@.len(),
                ks == keys.deep_view(),
                o == places(out@),
                out@.len() == n,
                j <= out@.len(),
                forall|i: int| 0 <= i < out@.len() ==> #[trigger] out@[i] < n,
                slot(o, ks, n as int, o.len() as int) == slot(o, ks, n as int, j as int),
            decreases j,
        {
            assert(o[j - 1] == out@[j - 1]);
            j = j - 1;
        }
        proof {
            if j > 0 {
                assert(o[j - 1] == out@[j - 1]);
            }
        }
        out.insert(j, n);
        proof {
            assert(places(out@) =~= o.insert(j as int, n as int));
            assert forall|i: int| 0 <= i < out@.len() implies #[trigger] out@[i] < n + 1 by {
                if i < j {
                    assert(out@[i] == o[i]);
                } else if i > j {
                    assert(out@[i] == o[i - 1]);
                }
            }
        }
        n = n + 1;
    }
    assert(ks.take(n as int) =~= ks);
    out
}

/// Texts are in the order of the first characters in which they differ, and a
/// text comes before one that it starts.
pub proof fn first_difference_decides(p: Seq<char>, x: char, s: Seq<char>, y: char, t: Seq<char>)
    requires
        x < y,
    ensures
        text_lt(p + seq![x] + s, p + seq![y] + t),
        !text_lt(p + seq![y] + t, p + seq![x] + s),
        text_lt(p, p + seq![x] + s),
        !text_lt(p + seq![x] + s, p),
    decreases p.len(),
{
    let a = p + seq![x] + s;
    let b = p + seq![y] + t;
    if p.len() > 0 {
        let q = p.skip(1);
        first_difference_decides(q, x, s, y, t);
        assert(a.skip(1) =~= q + seq![x] + s);
        assert(b.skip(1) =~= q + seq![y] + t);
        assert(a[0] == p[0] && b[0] == p[0]);
    } else {
        assert(a[0] == x && b[0] == y);
    }
}

} // verus!
