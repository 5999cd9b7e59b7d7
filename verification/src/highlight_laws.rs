//! What coloring the input shows.

use crate::render::{
    color_of, colored, colored_word, colored_words, highlighted, is_flag, lemma_next_place,
    next_place, quote_at, separates, word_at, word_places, word_places_are_exact, COLOR_CYAN,
    COLOR_GREEN, COLOR_MAGENTA, COLOR_ORANGE, COLOR_RED, COLOR_RESET, COLOR_TEAL,
};
use crate::text::is_white;
use vstd::prelude::*;

verus! {

/// Word `k` of the line starts with a dash.
pub open spec fn dashed(line: Seq<char>, k: int) -> bool {
    let w = word_places(line, 0)[k];
    0 <= k < word_places(line, 0).len() && line[w.0] == '-'
}

/// The text of a word, with each quotation mark in orange and the rest in the
/// color of the word.
pub open spec fn in_color(text: Seq<char>, color: Seq<char>, n: int) -> Seq<char>
    decreases n,
{
    if n <= 0 {
        color
    } else if text[n - 1] == '"' || text[n - 1] == '\'' {
        in_color(text, color, n - 1) + COLOR_RESET@ + COLOR_ORANGE@ + seq![text[n - 1]]
            + COLOR_RESET@ + color
    } else {
        in_color(text, color, n - 1).push(text[n - 1])
    }
}

/// The line up to the end of its first `n` words, each word in its color and
/// what is between two words as it is.
pub open spec fn painted(line: Seq<char>, colors: Seq<Seq<char>>, n: int) -> Seq<char>
    decreases n,
{
    if n <= 0 {
        Seq::empty()
    } else {
        let ws = word_places(line, 0);
        let from = if n == 1 {
            0
        } else {
            ws[n - 2].1
        };
        let (a, b) = ws[n - 1];
        painted(line, colors, n - 1) + line.subrange(from, a) + in_color(
            line.subrange(a, b),
            colors[n - 1],
            b - a,
        ) + COLOR_RESET@
    }
}

proof fn lemma_in_color(text: Seq<char>, color: Seq<char>, n: int)
    requires
        0 <= n <= text.len(),
    ensures
        in_color(text, color, n) == color + colored(text.take(n), color),
    decreases n,
{
    let t = text.take(n);
    if n > 0 {
        lemma_in_color(text, color, n - 1);
        assert(t.drop_last() =~= text.take(n - 1));
        assert(t.last() == text[n - 1]);
        assert(in_color(text, color, n) =~= color + colored(t, color));
    } else {
        assert(color + colored(t, color) =~= color);
    }
}

/// The colors of the words of a line.
spec fn colors_of(line: Seq<char>, known: bool) -> Seq<Seq<char>> {
    let ws = word_places(line, 0);
    Seq::new(ws.len(), |k: int| color_of(line, ws, k, known))
}

proof fn lemma_painted(line: Seq<char>, known: bool, n: int)
    requires
        0 <= n <= word_places(line, 0).len(),
    ensures
        painted(line, colors_of(line, known), n) == colored_words(
            line,
            word_places(line, 0),
            n,
            known,
        ),
    decreases n,
{
    let ws = word_places(line, 0);
    if n > 0 {
        lemma_painted(line, known, n - 1);
        word_places_are_exact(line, 0);
        let (a, b) = ws[n - 1];
        let w = line.subrange(a, b);
        let c = colors_of(line, known)[n - 1];
        lemma_in_color(w, c, b - a);
        assert(w.take(b - a) =~= w);
        let from = if n == 1 {
            0
        } else {
            ws[n - 2].1
        };
        assert(painted(line, colors_of(line, known), n) =~= painted(
            line,
            colors_of(line, known),
            n - 1,
        ) + line.subrange(from, a) + colored_word(w, c));
    }
}

proof fn lemma_colors()
    ensures
        COLOR_GREEN@.len() == 5 && COLOR_GREEN@[2] == '9' && COLOR_GREEN@[3] == '2',
        COLOR_RED@.len() == 5 && COLOR_RED@[2] == '9' && COLOR_RED@[3] == '1',
        COLOR_MAGENTA@.len() == 5 && COLOR_MAGENTA@[2] == '9' && COLOR_MAGENTA@[3] == '5',
        COLOR_TEAL@.len() == 5 && COLOR_TEAL@[2] == '9' && COLOR_TEAL@[3] == '6',
        COLOR_CYAN@.len() == 5 && COLOR_CYAN@[2] == '9' && COLOR_CYAN@[3] == '6',
{
    reveal_strlit("\x1b[92m");
    reveal_strlit("\x1b[91m");
    reveal_strlit("\x1b[95m");
    reveal_strlit("\x1b[96m");
}

/// A line is shown as it is, with each word in a color of its own kind: the first
/// word, the command, is teal where it is known and red where it is not; behind
/// it a word is green exactly if it starts with a dash, whatever stands before
/// it; the first word without a dash behind the command is magenta, and all
/// further ones are cyan. Quotation marks are orange.
pub proof fn words_are_colored_by_their_kind(line: Seq<char>, known: bool)
    ensures
        ({
            let ws = word_places(line, 0);
            let end = if ws.len() == 0 {
                0
            } else {
                ws.last().1
            };
            exists|colors: Seq<Seq<char>>|
                {
                    &&& colors.len() == ws.len()
                    &&& highlighted(line, known) == #[trigger] painted(
                        line,
                        colors,
                        ws.len() as int,
                    ) + line.skip(end)
                    &&& ws.len() > 0 ==> colors[0] == if known {
                        COLOR_TEAL@
                    } else {
                        COLOR_RED@
                    }
                    &&& forall|k: int|
                        1 <= k < ws.len() ==> (#[trigger] colors[k] == COLOR_GREEN@ <==> dashed(
                            line,
                            k,
                        ))
                    &&& forall|k: int|
                        0 <= k < ws.len() && #[trigger] colors[k] == COLOR_GREEN@ ==> dashed(
                            line,
                            k,
                        )
                    &&& forall|k: int|
                        #![trigger colors[k]]
                        1 <= k < ws.len() && !dashed(line, k) && (forall|j: int|
                            1 <= j < k ==> #[trigger] dashed(line, j)) ==> colors[k]
                            == COLOR_MAGENTA@
                    &&& forall|j: int, k: int|
                        1 <= j < k < ws.len() && !#[trigger] dashed(line, j) && !#[trigger] dashed(
                            line,
                            k,
                        ) ==> colors[k] == COLOR_CYAN@
                }
        }),
{
    let ws = word_places(line, 0);
    let colors = colors_of(line, known);
    word_places_are_exact(line, 0);
    lemma_painted(line, known, ws.len() as int);
    lemma_colors();
    assert forall|k: int| 0 <= k < ws.len() implies #[trigger] dashed(line, k) == is_flag(
        word_at(line, ws, k),
    ) by {
        assert(word_at(line, ws, k)[0] == line[ws[k].0]);
    }
    assert forall|k: int| 1 <= k < ws.len() implies (#[trigger] colors[k] == COLOR_GREEN@ <==> dashed(
        line,
        k,
    )) by {
        assert(dashed(line, k) == is_flag(word_at(line, ws, k)));
    }
    assert forall|k: int|
        #![trigger colors[k]]
        1 <= k < ws.len() && !dashed(line, k) && (forall|j: int|
            1 <= j < k ==> #[trigger] dashed(line, j)) implies colors[k] == COLOR_MAGENTA@ by {
        assert forall|j: int| 1 <= j < k implies #[trigger] is_flag(word_at(line, ws, j)) by {
            assert(dashed(line, j));
        }
    }
    assert forall|j: int, k: int|
        1 <= j < k < ws.len() && !#[trigger] dashed(line, j) && !#[trigger] dashed(
            line,
            k,
        ) implies colors[k] == COLOR_CYAN@ by {
        assert(!is_flag(word_at(line, ws, j)));
    }
    assert(highlighted(line, known) == painted(line, colors, ws.len() as int) + line.skip(
        if ws.len() == 0 {
            0
        } else {
            ws.last().1
        },
    ));
}

proof fn lemma_unquoted(line: Seq<char>, i: int)
    requires
        0 <= i <= line.len(),
        forall|x: int| 0 <= x < i ==> #[trigger] line[x] != '"' && line[x] != '\'',
    ensures
        quote_at(line, i) is None,
    decreases i,
{
    if i > 0 {
        lemma_unquoted(line, i - 1);
        assert(line[i - 1] != '"' && line[i - 1] != '\'');
    }
}

proof fn lemma_quoted(line: Seq<char>, a: int, i: int)
    requires
        0 <= a < i <= line.len(),
        line[a] == '"' || line[a] == '\'',
        quote_at(line, a) is None,
        forall|x: int| a < x < i ==> #[trigger] line[x] != line[a],
    ensures
        quote_at(line, i) == Some(line[a]),
    decreases i,
{
    if i > a + 1 {
        lemma_quoted(line, a, i - 1);
        assert(line[i - 1] != line[a]);
    }
}

/// White space separates words up to the first quotation mark; from there to the
/// next mark of the same kind it does not, so that what is quoted stays in one
/// word, whatever marks of the other kind it holds; and behind that mark it does
/// again, up to the next one.
pub proof fn quotes_hold_words_together(line: Seq<char>, a: int, b: int, i: int)
    requires
        0 <= a < b < line.len(),
        line[a] == '"' || line[a] == '\'',
        line[b] == line[a],
        forall|x: int| 0 <= x < a ==> #[trigger] line[x] != '"' && line[x] != '\'',
        forall|x: int| a < x < b ==> #[trigger] line[x] != line[a],
        0 <= i < line.len(),
        forall|x: int| b < x < i ==> #[trigger] line[x] != '"' && line[x] != '\'',
    ensures
        i < a ==> separates(line, i) == is_white(line[i]),
        a <= i <= b ==> !separates(line, i),
        b < i ==> separates(line, i) == is_white(line[i]),
{
    lemma_unquoted(line, a);
    if i < a {
        lemma_unquoted(line, i);
    } else if a < i <= b {
        lemma_quoted(line, a, i);
    } else if b < i {
        lemma_quoted(line, a, b);
        lemma_unquoted_from(line, b + 1, i);
    }
}

proof fn lemma_unquoted_from(line: Seq<char>, b: int, i: int)
    requires
        0 <= b <= i <= line.len(),
        quote_at(line, b) is None,
        forall|x: int| b <= x < i ==> #[trigger] line[x] != '"' && line[x] != '\'',
    ensures
        quote_at(line, i) is None,
    decreases i,
{
    if i > b {
        lemma_unquoted_from(line, b, i - 1);
        assert(line[i - 1] != '"' && line[i - 1] != '\'');
    }
}

/// No word stops before it is over: behind each there is a separator, or the end
/// of the line. So two words never touch.
pub proof fn words_are_whole(line: Seq<char>, i: int, k: int)
    requires
        0 <= i <= line.len(),
        0 <= k < word_places(line, i).len(),
    ensures
        ({
            let end = word_places(line, i)[k].1;
            end == line.len() || (0 <= end < line.len() && separates(line, end))
        }),
    decreases line.len() - i,
{
    let a = next_place(line, false, i);
    lemma_next_place(line, false, i);
    let b = next_place(line, true, a);
    lemma_next_place(line, true, a);
    if k > 0 {
        words_are_whole(line, b, k - 1);
    }
}

/// A line without quotation marks has its words between white space.
pub proof fn white_space_separates_words(line: Seq<char>, i: int)
    requires
        0 <= i < line.len(),
        forall|x: int| 0 <= x < i ==> #[trigger] line[x] != '"' && line[x] != '\'',
    ensures
        separates(line, i) == is_white(line[i]),
{
    lemma_unquoted(line, i);
}

} // verus!
