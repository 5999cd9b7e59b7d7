//! Byte positions in a text, as line editors count them.

use vstd::prelude::*;
use vstd::utf8::{encode_scalar, encode_utf8};

verus! {

/// How many bytes a character takes in UTF-8.
pub open spec fn width(c: char) -> nat {
    let n = c as u32;
    if n < 0x80 {
        1
    } else if n < 0x800 {
        2
    } else if n < 0x10000 {
        3
    } else {
        4
    }
}

/// How many bytes a text takes.
pub open spec fn byte_len(s: Seq<char>) -> nat
    decreases s.len(),
{
    if s.len() == 0 {
        0
    } else {
        width(s[0]) + byte_len(s.skip(1))
    }
}

/// How many characters stand before byte `pos`, where a character starts there
/// or the text ends there.
pub open spec fn chars_before(s: Seq<char>, pos: int) -> Option<int>
    decreases s.len(),
{
    if pos == 0 {
        Some(0)
    } else if s.len() == 0 || pos < width(s[0]) {
        None
    } else {
        match chars_before(s.skip(1), pos - width(s[0])) {
            Some(k) => Some(k + 1),
            None => None,
        }
    }
}

proof fn lemma_width(c: char)
    ensures
        width(c) == encode_scalar(c as u32).len(),
{
}

/// The length is that of the UTF-8 form.
pub proof fn byte_len_is_utf8_len(s: Seq<char>)
    ensures
        byte_len(s) == encode_utf8(s).len(),
    decreases s.len(),
{
    if s.len() > 0 {
        byte_len_is_utf8_len(s.skip(1));
        assert(s.skip(1) =~= s.drop_first());
        lemma_width(s[0]);
    }
}

pub proof fn lemma_byte_len_add(a: Seq<char>, b: Seq<char>)
    ensures
        byte_len(a + b) == byte_len(a) + byte_len(b),
    decreases a.len(),
{
    if a.len() == 0 {
        assert(a + b =~= b);
    } else {
        assert((a + b).skip(1) =~= a.skip(1) + b);
        assert((a + b)[0] == a[0]);
        lemma_byte_len_add(a.skip(1), b);
    }
}

/// A position is that of `k` characters exactly if they take that many bytes.
pub proof fn chars_before_is_exact(s: Seq<char>, pos: int)
    ensures
        match chars_before(s, pos) {
            Some(k) => 0 <= k <= s.len() && byte_len(s.take(k)) == pos,
            None => forall|k: int| 0 <= k <= s.len() ==> byte_len(#[trigger] s.take(k)) != pos,
        },
    decreases s.len(),
{
    if pos == 0 {
        assert(s.take(0).len() == 0);
    } else if s.len() == 0 {
        assert forall|k: int| 0 <= k <= s.len() implies byte_len(#[trigger] s.take(k)) != pos by {
            assert(s.take(k).len() == 0);
        }
    } else {
        let t = s.skip(1);
        let w = width(s[0]);
        if pos >= w {
            chars_before_is_exact(t, pos - w);
        }
        assert forall|k: int| 0 < k <= s.len() implies byte_len(#[trigger] s.take(k)) == w
            + byte_len(t.take(k - 1)) by {
            assert(s.take(k).skip(1) =~= t.take(k - 1));
            assert(s.take(k)[0] == s[0]);
        }
        match chars_before(s, pos) {
            Some(k) => {
                assert(byte_len(s.take(k)) == w + byte_len(t.take(k - 1)));
            },
            None => {
                assert forall|k: int| 0 <= k <= s.len() implies byte_len(#[trigger] s.take(k))
                    != pos by {
                    if k == 0 {
                        assert(s.take(0).len() == 0);
                    }
                }
            },
        }
    }
}

pub fn char_width(c: char) -> (r: usize)
    ensures
        r == width(c),
        1 <= r <= 4,
{
    let n: u32 = c as u32;
    if n < 0x80 {
        1
    } else if n < 0x800 {
        2
    } else if n < 0x10000 {
        3
    } else {
        4
    }
}

/// See [`chars_before`].
pub fn char_index(s: &[char], pos: usize) -> (r: Option<usize>)
    ensures
        match r {
            Some(k) => chars_before(s@, pos as int) == Some(k as int) && k <= s@.len(),
            None => chars_before(s@, pos as int) is None,
        },
{
    let mut left: usize = pos;
    let mut i: usize = 0;
    assert(s@.skip(0) =~= s@);
    while left > 0
        invariant
            i <= s@.len(),
            chars_before(s@, pos as int) == match chars_before(s@.skip(i as int), left as int) {
                Some(k) => Some(k + i),
                None => None,
            },
        decreases left,
    {
        let ghost rest = s@.skip(i as int);
        if i >= s.len() {
            assert(chars_before(rest, left as int) is None);
            return None;
        }
        let w = char_width(s[i]);
        proof {
            assert(rest[0] == s@[i as int]);
            assert(rest.skip(1) =~= s@.skip(i + 1));
        }
        if left < w {
            return None;
        }
        left = left - w;
        i = i + 1;
    }
    assert(chars_before(s@.skip(i as int), 0) == Some(0int));
    Some(i)
}

/// The bytes that a text takes, where they are known to be at most `most`.
pub fn bytes_of(s: &[char], most: usize) -> (r: usize)
    requires
        byte_len(s@) <= most,
    ensures
        r == byte_len(s@),
{
    let mut n: usize = 0;
    let mut i: usize = 0;
    assert(s@.take(0).len() == 0);
    while i < s.len()
        invariant
            i <= s@.len(),
            n == byte_len(s@.take(i as int)),
            byte_len(s@) <= most,
        decreases s@.len() - i,
    {
        proof {
            assert(s@.take(i + 1) =~= s@.take(i as int) + seq![s@[i as int]]);
            lemma_byte_len_add(s@.take(i as int), seq![s@[i as int]]);
            let one = seq![s@[i as int]];
            assert(one.skip(1).len() == 0);
            assert(byte_len(one) == width(s@[i as int]) + byte_len(one.skip(1)));
            assert(s@ =~= s@.take(i + 1) + s@.skip(i + 1));
            lemma_byte_len_add(s@.take(i + 1), s@.skip(i + 1));
        }
        n = n + char_width(s[i]);
        i = i + 1;
    }
    assert(s@.take(i as int) =~= s@);
    n
}

/// The bytes that a text takes, but no more than `cap`.
pub fn bytes_capped(s: &[char], cap: u32) -> (r: u32)
    requires
        cap <= u32::MAX - 4,
    ensures
        r == if byte_len(s@) < cap {
            byte_len(s@) as int
        } else {
            cap as int
        },
{
    let mut n: u32 = 0;
    let mut i: usize = 0;
    assert(s@.take(0).len() == 0);
    while i < s.len() && n < cap
        invariant
            i <= s@.len(),
            n == byte_len(s@.take(i as int)),
            n <= cap + 4,
            cap <= u32::MAX - 4,
        decreases s@.len() - i,
    {
        proof {
            let one = seq![s@[i as int]];
            assert(s@.take(i + 1) =~= s@.take(i as int) + one);
            lemma_byte_len_add(s@.take(i as int), one);
            assert(one.skip(1).len() == 0);
            assert(byte_len(one) == width(s@[i as int]) + byte_len(one.skip(1)));
        }
        n = n + char_width(s[i]) as u32;
        i = i + 1;
    }
    proof {
        assert(s@ =~= s@.take(i as int) + s@.skip(i as int));
        lemma_byte_len_add(s@.take(i as int), s@.skip(i as int));
        if i == s@.len() {
            assert(s@.take(i as int) =~= s@);
        }
    }
    if n < cap {
        n
    } else {
        cap
    }
}

} // verus!
