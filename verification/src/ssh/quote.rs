//! Quoting for the shell of a remote.

use crate::text::{chars_of, lemma_substituted_add, substitute, substituted};
use vstd::prelude::*;

verus! {

/// `s` with each single quote written so that it can stand between two.
pub open spec fn escaped(s: Seq<char>) -> Seq<char> {
    substituted(s, '\'', "'\\''"@)
}

/// See [`escaped`].
pub fn escape(s: &str) -> (r: String)
    ensures
        r@ == escaped(s@),
{
    substitute(&chars_of(s), '\'', "'\\''")
}

/// The text that a shell makes of a word of single quotes and escaped
/// characters. `open` tells whether a quote is open.
pub open spec fn shell_reads(word: Seq<char>, open: bool) -> Option<Seq<char>>
    decreases word.len(),
{
    if word.len() == 0 {
        if open {
            None
        } else {
            Some(Seq::empty())
        }
    } else if word[0] == '\'' {
        shell_reads(word.skip(1), !open)
    } else if open {
        match shell_reads(word.skip(1), true) {
            Some(t) => Some(seq![word[0]] + t),
            None => None,
        }
    } else if word[0] == '\\' && word.len() > 1 {
        match shell_reads(word.skip(2), false) {
            Some(t) => Some(seq![word[1]] + t),
            None => None,
        }
    } else {
        None
    }
}

proof fn lemma_reads_inside(s: Seq<char>)
    ensures
        shell_reads(escaped(s) + seq!['\''], true) == Some(s),
    decreases s.len(),
{
    reveal_strlit("'\\''");
    let by = "'\\''"@;
    if s.len() == 0 {
        let w = escaped(s) + seq!['\''];
        assert(w =~= seq!['\'']);
        assert(w.skip(1) =~= Seq::empty());
        assert(shell_reads(w.skip(1), false) == Some(Seq::<char>::empty()));
        assert(s =~= Seq::empty());
    } else {
        let c = s[0];
        let t = s.skip(1);
        assert(s =~= seq![c] + t);
        lemma_substituted_add(seq![c], t, '\'', by);
        lemma_reads_inside(t);
        let one = substituted(seq![c], '\'', by);
        let none = seq![c].drop_last();
        assert(none =~= Seq::empty());
        assert(substituted(none, '\'', by) =~= Seq::empty());
        assert(seq![c].last() == c);
        let rest = escaped(t) + seq!['\''];
        let w = escaped(s) + seq!['\''];
        assert(w =~= one + rest);
        if c == '\'' {
            assert(one =~= by);
            assert(w.skip(1) =~= seq!['\\', '\'', '\''] + rest);
            let w1 = w.skip(1);
            assert(w1[0] == '\\' && w1[1] == '\'');
            assert(w1.skip(2) =~= seq!['\''] + rest);
            let w3 = w1.skip(2);
            assert(w3[0] == '\'');
            assert(w3.skip(1) =~= rest);
            assert(shell_reads(w3, false) == Some(t));
            assert(shell_reads(w1, false) == Some(seq!['\''] + t));
            assert(w[0] == '\'');
            assert(shell_reads(w, true) == Some(seq!['\''] + t));
        } else {
            assert(one =~= seq![c]);
            assert(w[0] == c);
            assert(w.skip(1) =~= rest);
        }
    }
}

/// Quoting is undone by the shell: the escaped text between single quotes reads
/// as the text itself, whatever characters it holds.
pub proof fn shell_reads_quoted(s: Seq<char>)
    ensures
        shell_reads(seq!['\''] + escaped(s) + seq!['\''], false) == Some(s),
{
    let w = seq!['\''] + escaped(s) + seq!['\''];
    assert(w[0] == '\'');
    assert(w.skip(1) =~= escaped(s) + seq!['\'']);
    lemma_reads_inside(s);
}

} // verus!
