//! What the arrow keys recall, told by what was typed and what is listed.

use crate::key_handling::{arrow_pressed, ArrowAction, CliRow, NavAxis};
use crate::nav::{lemma_newest_below, lemma_oldest_from, matching};
use crate::state::{HistoryRow, RecentRow};
use crate::util::tilded;
use vstd::prelude::*;

verus! {

/// The entry starts with what was typed.
pub open spec fn begins(h: Seq<HistoryRow>, i: int, typed: Seq<char>) -> bool {
    &&& 0 <= i < h.len()
    &&& typed.len() <= h[i].text.len()
    &&& forall|x: int| 0 <= x < typed.len() ==> h[i].text[x] == #[trigger] typed[x]
}

/// Nothing is recalled.
pub open spec fn at_rest(c: CliRow) -> bool {
    c.nav.settled() && c.nav.his is None && c.nav.cd is None
}

/// Entry `k` of the history is recalled for what was typed.
pub open spec fn recalls_entry(c: CliRow, h: Seq<HistoryRow>, k: int, typed: Seq<char>) -> bool {
    c.nav.settled() && c.nav.his == Some(k) && c.nav.draft == typed && begins(h, k, typed)
}

/// Entry `k` of the recent directories is recalled.
pub open spec fn recalls_dir(c: CliRow, recent: Seq<RecentRow>, k: int, typed: Seq<char>) -> bool {
    c.nav.settled() && c.nav.cd == Some(k) && c.nav.draft == typed && 0 <= k < recent.len()
}

proof fn lemma_begins(h: Seq<HistoryRow>, i: int, typed: Seq<char>)
    ensures
        matching(h, typed, i) == begins(h, i, typed),
{
    if 0 <= i < h.len() && typed.len() <= h[i].text.len() {
        let t = h[i].text.take(typed.len() as int);
        if begins(h, i, typed) {
            assert(t =~= typed);
        }
        if t == typed {
            assert forall|x: int| 0 <= x < typed.len() implies h[i].text[x]
                == #[trigger] typed[x] by {
                assert(t[x] == typed[x]);
            }
        }
    }
}

proof fn lemma_all_begin(h: Seq<HistoryRow>, typed: Seq<char>)
    ensures
        forall|i: int| #[trigger] matching(h, typed, i) == begins(h, i, typed),
{
    assert forall|i: int| #[trigger] matching(h, typed, i) == begins(h, i, typed) by {
        lemma_begins(h, i, typed);
    }
}

/// Up on a line that is not recalled puts in the newest entry that starts with
/// the line, whatever the line is, and keeps the line as the draft.
pub proof fn up_recalls_the_newest_match(
    c: CliRow,
    h: Seq<HistoryRow>,
    recent: Seq<RecentRow>,
    home: Option<Seq<char>>,
    line: Seq<char>,
    windows: bool,
    i: int,
)
    requires
        at_rest(c),
        begins(h, i, line),
        forall|j: int| i < j < h.len() ==> !#[trigger] begins(h, j, line),
    ensures
        ({
            let (after, action) = arrow_pressed(
                c,
                NavAxis::His,
                true,
                h,
                recent,
                home,
                line,
                windows,
            );
            &&& action == ArrowAction::Restart
            &&& after.pending_restart == Some(h[i].text)
            &&& recalls_entry(after, h, i, line)
        }),
{
    lemma_all_begin(h, line);
    lemma_newest_below(h, line, h.len() as int);
    assert(matching(h, line, i));
    let k = crate::nav::newest_below(h, line, h.len() as int)->0;
    assert(matching(h, line, k));
}

/// From an entry that is recalled, Up goes on to the next older entry that
/// starts with what was typed, and changes nothing where there is none.
pub proof fn up_goes_to_the_next_older_match(
    c: CliRow,
    h: Seq<HistoryRow>,
    recent: Seq<RecentRow>,
    home: Option<Seq<char>>,
    line: Seq<char>,
    windows: bool,
    k: int,
    typed: Seq<char>,
)
    requires
        recalls_entry(c, h, k, typed),
    ensures
        ({
            let (after, action) = arrow_pressed(
                c,
                NavAxis::His,
                true,
                h,
                recent,
                home,
                line,
                windows,
            );
            &&& forall|i: int|
                i < k && #[trigger] begins(h, i, typed) && (forall|j: int|
                    i < j < k ==> !#[trigger] begins(h, j, typed)) ==> action
                    == ArrowAction::Restart && after.pending_restart == Some(h[i].text)
                    && recalls_entry(after, h, i, typed)
            &&& (forall|i: int| i < k ==> !#[trigger] begins(h, i, typed)) ==> action
                == ArrowAction::Noop && after == c
        }),
{
    lemma_all_begin(h, typed);
    lemma_newest_below(h, typed, k);
    assert(matching(h, typed, k));
    assert forall|i: int|
        i < k && #[trigger] begins(h, i, typed) && (forall|j: int|
            i < j < k ==> !#[trigger] begins(h, j, typed)) implies crate::nav::newest_below(
        h,
        typed,
        k,
    ) == Some(i) by {
        assert(matching(h, typed, i));
        let x = crate::nav::newest_below(h, typed, k)->0;
        assert(matching(h, typed, x));
    }
    if forall|i: int| i < k ==> !#[trigger] begins(h, i, typed) {
        if crate::nav::newest_below(h, typed, k) is Some {
            assert(matching(h, typed, crate::nav::newest_below(h, typed, k)->0));
        }
    }
}

/// From an entry that is recalled, Down goes to the next newer entry that starts
/// with what was typed; where there is none, what was typed comes back, and
/// nothing is recalled any more.
pub proof fn down_goes_to_the_next_newer_match(
    c: CliRow,
    h: Seq<HistoryRow>,
    recent: Seq<RecentRow>,
    home: Option<Seq<char>>,
    line: Seq<char>,
    windows: bool,
    k: int,
    typed: Seq<char>,
)
    requires
        recalls_entry(c, h, k, typed),
    ensures
        ({
            let (after, action) = arrow_pressed(
                c,
                NavAxis::His,
                false,
                h,
                recent,
                home,
                line,
                windows,
            );
            &&& action == ArrowAction::Restart
            &&& forall|i: int|
                k < i && #[trigger] begins(h, i, typed) && (forall|j: int|
                    k < j < i ==> !#[trigger] begins(h, j, typed)) ==> after.pending_restart
                    == Some(h[i].text) && recalls_entry(after, h, i, typed)
            &&& (forall|i: int| k < i ==> !#[trigger] begins(h, i, typed))
                ==> after.pending_restart == Some(typed) && at_rest(after)
        }),
{
    lemma_all_begin(h, typed);
    lemma_oldest_from(h, typed, k + 1);
    assert(matching(h, typed, k));
    assert forall|i: int|
        k < i && #[trigger] begins(h, i, typed) && (forall|j: int|
            k < j < i ==> !#[trigger] begins(h, j, typed)) implies crate::nav::oldest_from(
        h,
        typed,
        k + 1,
    ) == Some(i) by {
        assert(matching(h, typed, i));
        let x = crate::nav::oldest_from(h, typed, k + 1)->0;
        assert(matching(h, typed, x));
    }
    if forall|i: int| k < i ==> !#[trigger] begins(h, i, typed) {
        if crate::nav::oldest_from(h, typed, k + 1) is Some {
            assert(matching(h, typed, crate::nav::oldest_from(h, typed, k + 1)->0));
        }
    }
}

/// The keys of the history are never passed on: they put something in, or do
/// nothing. They do nothing where nothing is recalled and no entry starts with
/// the line, and for Down where nothing is recalled.
pub proof fn history_keys_are_never_passed_on(
    c: CliRow,
    h: Seq<HistoryRow>,
    recent: Seq<RecentRow>,
    home: Option<Seq<char>>,
    line: Seq<char>,
    windows: bool,
    up: bool,
)
    ensures
        ({
            let (after, action) = arrow_pressed(c, NavAxis::His, up, h, recent, home, line, windows);
            &&& action != ArrowAction::Pass
            &&& action == ArrowAction::Noop ==> after == c
            &&& action == ArrowAction::Restart ==> after.pending_restart is Some
            &&& at_rest(c) && !up ==> action == ArrowAction::Noop
            &&& at_rest(c) && (forall|i: int| !#[trigger] begins(h, i, line)) ==> action
                == ArrowAction::Noop
        }),
{
    lemma_all_begin(h, line);
    lemma_newest_below(h, line, h.len() as int);
    if forall|i: int| !#[trigger] begins(h, i, line) {
        if crate::nav::newest_below(h, line, h.len() as int) is Some {
            assert(matching(h, line, crate::nav::newest_below(h, line, h.len() as int)->0));
        }
    }
}

/// Left and Right edit a line as usual, and leave recall as it is, as long as
/// there is something on it and no directory is recalled; else they are never
/// passed on.
pub proof fn cursor_keys_edit_what_is_typed(
    c: CliRow,
    h: Seq<HistoryRow>,
    recent: Seq<RecentRow>,
    home: Option<Seq<char>>,
    line: Seq<char>,
    windows: bool,
    left: bool,
)
    ensures
        ({
            let (after, action) = arrow_pressed(
                c,
                NavAxis::Cd,
                left,
                h,
                recent,
                home,
                line,
                windows,
            );
            &&& action == ArrowAction::Pass <==> line.len() > 0 && c.nav.cd is None
            &&& action != ArrowAction::Restart ==> after == c
        }),
{
}

/// Left on an empty line puts in `cd` with the newest recent directory, and from
/// one that is recalled the next older one; at the oldest it does nothing.
pub proof fn left_recalls_older_directories(
    c: CliRow,
    h: Seq<HistoryRow>,
    recent: Seq<RecentRow>,
    home: Option<Seq<char>>,
    line: Seq<char>,
    windows: bool,
    k: int,
    typed: Seq<char>,
)
    requires
        recent.len() > 0,
        at_rest(c) && k == recent.len() && line.len() == 0 && typed == line || recalls_dir(
            c,
            recent,
            k,
            typed,
        ),
    ensures
        ({
            let (after, action) = arrow_pressed(
                c,
                NavAxis::Cd,
                true,
                h,
                recent,
                home,
                line,
                windows,
            );
            if k == 0 {
                action == ArrowAction::Noop && after == c
            } else {
                &&& action == ArrowAction::Restart
                &&& after.pending_restart == Some("cd "@ + tilded(recent[k - 1].path, home, windows))
                &&& recalls_dir(after, recent, k - 1, typed)
            }
        }),
{
}

/// Right from a directory that is recalled puts in the next newer one, and from
/// the newest brings back what was typed.
pub proof fn right_recalls_newer_directories(
    c: CliRow,
    h: Seq<HistoryRow>,
    recent: Seq<RecentRow>,
    home: Option<Seq<char>>,
    line: Seq<char>,
    windows: bool,
    k: int,
    typed: Seq<char>,
)
    requires
        recalls_dir(c, recent, k, typed),
    ensures
        ({
            let (after, action) = arrow_pressed(
                c,
                NavAxis::Cd,
                false,
                h,
                recent,
                home,
                line,
                windows,
            );
            &&& action == ArrowAction::Restart
            &&& k + 1 < recent.len() ==> after.pending_restart == Some(
                "cd "@ + tilded(recent[k + 1].path, home, windows),
            ) && recalls_dir(after, recent, k + 1, typed)
            &&& k + 1 == recent.len() ==> after.pending_restart == Some(typed) && at_rest(after)
        }),
{
}

/// Up while a directory is recalled puts in the newest entry that starts with
/// what was typed before, and the directory is recalled no more.
pub proof fn up_leaves_the_directories(
    c: CliRow,
    h: Seq<HistoryRow>,
    recent: Seq<RecentRow>,
    home: Option<Seq<char>>,
    line: Seq<char>,
    windows: bool,
    k: int,
    typed: Seq<char>,
    i: int,
)
    requires
        recalls_dir(c, recent, k, typed),
        begins(h, i, typed),
        forall|j: int| i < j < h.len() ==> !#[trigger] begins(h, j, typed),
    ensures
        ({
            let (after, action) = arrow_pressed(
                c,
                NavAxis::His,
                true,
                h,
                recent,
                home,
                line,
                windows,
            );
            &&& action == ArrowAction::Restart
            &&& after.pending_restart == Some(h[i].text)
            &&& recalls_entry(after, h, i, typed)
        }),
{
    lemma_all_begin(h, typed);
    lemma_newest_below(h, typed, h.len() as int);
    assert(matching(h, typed, i));
    let x = crate::nav::newest_below(h, typed, h.len() as int)->0;
    assert(matching(h, typed, x));
}

} // verus!
