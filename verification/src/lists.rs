//! Picking items out of sequences.

use vstd::prelude::*;

verus! {

/// `s` without the items that `f` holds of.
pub open spec fn without<T>(s: Seq<T>, f: spec_fn(T) -> bool) -> Seq<T>
    decreases s.len(),
{
    if s.len() == 0 {
        s
    } else if f(s.last()) {
        without(s.drop_last(), f)
    } else {
        without(s.drop_last(), f).push(s.last())
    }
}

/// The numbers below `n` that `f` holds of, in ascending order.
pub open spec fn picked(n: nat, f: spec_fn(int) -> bool) -> Seq<int>
    decreases n,
{
    if n == 0 {
        Seq::empty()
    } else if f(n - 1) {
        picked((n - 1) as nat, f).push(n - 1)
    } else {
        picked((n - 1) as nat, f)
    }
}

/// `picked` holds exactly the numbers it should, each once and in order.
pub proof fn picked_is_exact(n: nat, f: spec_fn(int) -> bool)
    ensures
        forall|k: int|
            0 <= k < picked(n, f).len() ==> 0 <= #[trigger] picked(n, f)[k] < n && f(
                picked(n, f)[k],
            ),
        forall|j: int, k: int|
            0 <= j < k < picked(n, f).len() ==> #[trigger] picked(n, f)[j] < #[trigger] picked(
                n,
                f,
            )[k],
        forall|i: int| 0 <= i < n && #[trigger] f(i) ==> picked(n, f).contains(i),
    decreases n,
{
    if n > 0 {
        picked_is_exact((n - 1) as nat, f);
        let r = picked((n - 1) as nat, f);
        assert forall|i: int| 0 <= i < n && #[trigger] f(i) implies picked(n, f).contains(i) by {
            if i < n - 1 {
                assert(r.contains(i));
                let k = choose|k: int| 0 <= k < r.len() && r[k] == i;
                assert(picked(n, f)[k] == i);
            } else {
                assert(picked(n, f).last() == i);
            }
        }
    }
}

/// What `without` leaves: items of `s` that `f` does not hold of.
pub proof fn without_is_exact<T>(s: Seq<T>, f: spec_fn(T) -> bool)
    ensures
        forall|k: int|
            0 <= k < without(s, f).len() ==> !f(#[trigger] without(s, f)[k]) && s.contains(
                without(s, f)[k],
            ),
        forall|x: T| s.contains(x) && !f(x) ==> #[trigger] without(s, f).contains(x),
        without(s, f).len() <= s.len(),
    decreases s.len(),
{
    if s.len() > 0 {
        let t = s.drop_last();
        without_is_exact(t, f);
        assert forall|k: int| 0 <= k < without(s, f).len() implies !f(#[trigger] without(s, f)[k])
            && s.contains(without(s, f)[k]) by {
            if k < without(t, f).len() {
                let x = without(t, f)[k];
                assert(!f(x) && t.contains(x));
                let j = choose|j: int| 0 <= j < t.len() && t[j] == x;
                assert(s[j] == x);
                assert(without(s, f)[k] == x);
            } else {
                assert(s[s.len() - 1] == s.last());
            }
        }
        assert forall|x: T| s.contains(x) && !f(x) implies #[trigger] without(s, f).contains(x) by {
            let j = choose|j: int| 0 <= j < s.len() && s[j] == x;
            if j < t.len() {
                assert(t[j] == x);
                assert(t.contains(x));
                assert(without(t, f).contains(x));
                let k = choose|k: int| 0 <= k < without(t, f).len() && without(t, f)[k] == x;
                assert(without(s, f)[k] == x);
            } else {
                assert(without(s, f).last() == x);
            }
        }
    }
}

/// The greatest number below `n` that `f` holds of.
pub open spec fn last_such(n: int, f: spec_fn(int) -> bool) -> Option<int>
    decreases n,
{
    if n <= 0 {
        None
    } else if f(n - 1) {
        Some(n - 1)
    } else {
        last_such(n - 1, f)
    }
}

/// What `last_such` finds, without recursion.
pub proof fn last_such_is_exact(n: int, f: spec_fn(int) -> bool)
    ensures
        match last_such(n, f) {
            Some(i) => 0 <= i < n && f(i) && forall|j: int| i < j < n ==> !#[trigger] f(j),
            None => forall|j: int| 0 <= j < n ==> !#[trigger] f(j),
        },
    decreases n,
{
    if n > 0 && !f(n - 1) {
        last_such_is_exact(n - 1, f);
    }
}

} // verus!
