//! Arrow-key recall: Up and Down walk the history, Left and Right walk the
//! recent directories.

use crate::num::{decimal, show};
use crate::state::{HistoryItem, HistoryRow, RecentDir};
use crate::text::{chars_of, join4, starts, starts_with};
use vstd::prelude::*;

verus! {

/// Which entry of the history or of the recent directories the input box shows.
///
/// A cursor that is `None` means that the box holds the user's own input on
/// that axis. Stepping one axis from its own input clears the other, so at most
/// one of the two is active. `draft` is what the user had typed when recall
/// started, and comes back when they step past the newest entry.
#[derive(Debug)]
pub struct NavState {
    pub his_cursor: Option<usize>,
    pub cd_cursor: Option<usize>,
    pub draft: String,
    pub draft_set: bool,
}

pub ghost struct NavRow {
    pub his: Option<int>,
    pub cd: Option<int>,
    pub draft: Seq<char>,
    pub draft_set: bool,
}

pub open spec fn as_position(c: Option<usize>) -> Option<int> {
    match c {
        Some(i) => Some(i as int),
        None => None,
    }
}

impl DeepView for NavState {
    type V = NavRow;

    open spec fn deep_view(&self) -> NavRow {
        NavRow {
            his: as_position(self.his_cursor),
            cd: as_position(self.cd_cursor),
            draft: self.draft@,
            draft_set: self.draft_set,
        }
    }
}

impl NavRow {
    /// Nothing recalled and no draft.
    pub open spec fn idle() -> NavRow {
        NavRow { his: None, cd: None, draft: Seq::empty(), draft_set: false }
    }

    /// At most one axis is active.
    pub open spec fn exclusive(self) -> bool {
        self.his is None || self.cd is None
    }

    /// At most one axis is active, and a draft is kept just while one is.
    pub open spec fn settled(self) -> bool {
        &&& self.exclusive()
        &&& self.draft_set == (self.his is Some || self.cd is Some)
        &&& !self.draft_set ==> self.draft == Seq::<char>::empty()
    }

    /// With the live input kept as the draft, unless there is one already.
    pub open spec fn drafted(self, live: Seq<char>) -> NavRow {
        if self.draft_set {
            self
        } else {
            NavRow { draft: live, draft_set: true, ..self }
        }
    }

    /// Without the draft.
    pub open spec fn undrafted(self) -> NavRow {
        NavRow { draft: Seq::empty(), draft_set: false, ..self }
    }

    /// What entries have to start with: the draft, or else the live input.
    pub open spec fn prefix(self, live: Seq<char>) -> Seq<char> {
        if self.draft_set {
            self.draft
        } else {
            live
        }
    }
}

/// Entry `i` exists and starts with `p`.
pub open spec fn matching(h: Seq<HistoryRow>, p: Seq<char>, i: int) -> bool {
    0 <= i < h.len() && starts(h[i].text, p)
}

/// The last matching entry below `n`.
pub open spec fn newest_below(h: Seq<HistoryRow>, p: Seq<char>, n: int) -> Option<int>
    decreases n,
{
    if n <= 0 {
        None
    } else if matching(h, p, n - 1) {
        Some(n - 1)
    } else {
        newest_below(h, p, n - 1)
    }
}

/// The first matching entry from `n` on.
pub open spec fn oldest_from(h: Seq<HistoryRow>, p: Seq<char>, n: int) -> Option<int>
    decreases h.len() - n,
{
    if n >= h.len() {
        None
    } else if matching(h, p, n) {
        Some(n)
    } else {
        oldest_from(h, p, n + 1)
    }
}

/// Recall after an Up or a Down key, and what the input box then shows: `None`
/// where the key does nothing.
///
/// Up goes to the next older entry that starts with the prefix, and Down to the
/// next newer one; from the newest, Down goes back to the draft. A cursor that is
/// not on such an entry counts as the draft.
pub open spec fn stepped_his(
    nav: NavRow,
    h: Seq<HistoryRow>,
    up: bool,
    live: Seq<char>,
) -> (NavRow, Option<Seq<char>>) {
    let p = nav.prefix(live);
    let here = nav.his is Some && matching(h, p, nav.his->0);
    if up {
        let from = if here {
            nav.his->0
        } else {
            h.len() as int
        };
        match newest_below(h, p, from) {
            None => (nav, None),
            Some(i) => (
                if here {
                    NavRow { his: Some(i), ..nav }
                } else {
                    NavRow { his: Some(i), cd: None, ..nav.drafted(live) }
                },
                Some(h[i].text),
            ),
        }
    } else if here {
        match oldest_from(h, p, nav.his->0 + 1) {
            Some(i) => (NavRow { his: Some(i), ..nav }, Some(h[i].text)),
            None => (NavRow { his: None, ..nav.undrafted() }, Some(nav.draft)),
        }
    } else {
        (nav, None)
    }
}

/// Where a Left or a Right key takes the cursor on the recent directories.
pub ghost enum CdMove {
    /// The key does nothing.
    Stay,
    /// To this entry.
    Entry(int),
    /// Back to the draft.
    Draft,
}

pub open spec fn cd_move(cursor: Option<int>, len: int, left: bool) -> CdMove {
    if len == 0 {
        CdMove::Stay
    } else {
        match cursor {
            None => if left {
                CdMove::Entry(len - 1)
            } else {
                CdMove::Stay
            },
            Some(c) => if left {
                if c == 0 {
                    CdMove::Stay
                } else {
                    CdMove::Entry(c - 1)
                }
            } else if c + 1 < len {
                CdMove::Entry(c + 1)
            } else {
                CdMove::Draft
            },
        }
    }
}

/// Recall after a Left or a Right key.
pub open spec fn stepped_cd(nav: NavRow, len: int, left: bool, live: Seq<char>) -> NavRow {
    match cd_move(nav.cd, len, left) {
        CdMove::Stay => nav,
        CdMove::Entry(c) => if nav.cd is None {
            NavRow { cd: Some(c), his: None, ..nav.drafted(live) }
        } else {
            NavRow { cd: Some(c), ..nav }
        },
        CdMove::Draft => NavRow { cd: None, ..nav.undrafted() },
    }
}

/// A ` <word> N` marker for the prompt, or nothing.
pub open spec fn indicator(word: Seq<char>, cursor: Option<int>) -> Seq<char> {
    match cursor {
        Some(i) => " "@ + word + " "@ + decimal(i as nat),
        None => Seq::empty(),
    }
}

fn nav_indicator(word: &str, cursor: Option<usize>) -> (r: String)
    ensures
        r@ == indicator(word@, as_position(cursor)),
{
    match cursor {
        Some(i) => join4(" ", word, " ", &show(i as u64)),
        None => String::new(),
    }
}

fn entry_matches(history: &[HistoryItem], prefix: &[char], i: usize) -> (r: bool)
    ensures
        r == matching(history.deep_view(), prefix@, i as int),
{
    if i >= history.len() {
        return false;
    }
    let text = chars_of(&history[i].text);
    starts_with(&text, prefix)
}

fn find_below(history: &[HistoryItem], prefix: &[char], n: usize) -> (r: Option<usize>)
    requires
        n <= history@.len(),
    ensures
        as_position(r) == newest_below(history.deep_view(), prefix@, n as int),
        r is Some ==> r->0 < n,
{
    let mut i: usize = n;
    while i > 0
        invariant
            i <= n <= history@.len(),
            newest_below(history.deep_view(), prefix@, n as int) == newest_below(
                history.deep_view(),
                prefix@,
                i as int,
            ),
        decreases i,
    {
        if entry_matches(history, prefix, i - 1) {
            return Some(i - 1);
        }
        i = i - 1;
    }
    None
}

fn find_from(history: &[HistoryItem], prefix: &[char], n: usize) -> (r: Option<usize>)
    ensures
        as_position(r) == oldest_from(history.deep_view(), prefix@, n as int),
        r is Some ==> r->0 < history@.len(),
{
    let mut i: usize = n;
    while i < history.len()
        invariant
            n <= i,
            oldest_from(history.deep_view(), prefix@, n as int) == oldest_from(
                history.deep_view(),
                prefix@,
                i as int,
            ),
        decreases history@.len() - i,
    {
        if entry_matches(history, prefix, i) {
            return Some(i);
        }
        i = i + 1;
    }
    None
}

impl NavState {
    pub fn new() -> (r: NavState)
        ensures
            r.deep_view() == NavRow::idle(),
    {
        NavState { his_cursor: None, cd_cursor: None, draft: String::new(), draft_set: false }
    }

    /// Forget the cursors and the draft.
    pub fn reset(&mut self)
        ensures
            final(self).deep_view() == NavRow::idle(),
    {
        self.his_cursor = None;
        self.cd_cursor = None;
        self.draft = String::new();
        self.draft_set = false;
    }

    /// Keep the live input as the draft, the first time recall starts.
    fn ensure_draft(&mut self, live_input: &str)
        ensures
            final(self).deep_view() == old(self).deep_view().drafted(live_input@),
    {
        if !self.draft_set {
            self.draft = live_input.to_owned();
            self.draft_set = true;
        }
    }

    /// Take the draft out.
    fn pop_draft(&mut self) -> (r: String)
        ensures
            r@ == old(self).draft@,
            final(self).deep_view() == old(self).deep_view().undrafted(),
    {
        self.draft_set = false;
        let mut text = String::new();
        std::mem::swap(&mut text, &mut self.draft);
        text
    }

    /// Step the history for an Up (`up`) or a Down key. Gives the text that the
    /// input box should now show, or `None` where the key does nothing.
    ///
    /// What the user had typed when recall started is a prefix: only entries
    /// that start with it are walked. The cursor is the entry's place in the
    /// whole history.
    pub fn step_his(&mut self, history: &[HistoryItem], up: bool, live_input: &str) -> (r: Option<
        String,
    >)
        ensures
            (final(self).deep_view(), r.deep_view()) == stepped_his(
                old(self).deep_view(),
                history.deep_view(),
                up,
                live_input@,
            ),
    {
        let ghost h = history.deep_view();
        let prefix = if self.draft_set {
            chars_of(&self.draft)
        } else {
            chars_of(live_input)
        };
        let here: Option<usize> = match self.his_cursor {
            Some(c) => if entry_matches(history, &prefix, c) {
                Some(c)
            } else {
                None
            },
            None => None,
        };
        if up {
            let from: usize = match here {
                Some(c) => c,
                None => history.len(),
            };
            match find_below(history, &prefix, from) {
                None => None,
                Some(i) => {
                    if here.is_none() {
                        self.ensure_draft(live_input);
                        self.cd_cursor = None;
                    }
                    self.his_cursor = Some(i);
                    assert(h[i as int].text == history@[i as int].text@);
                    Some(history[i].text.clone())
                },
            }
        } else {
            match here {
                None => None,
                Some(c) => {
                    assert(c < history.len());
                    match find_from(history, &prefix, c + 1) {
                        Some(i) => {
                            self.his_cursor = Some(i);
                            assert(h[i as int].text == history@[i as int].text@);
                            Some(history[i].text.clone())
                        },
                        None => {
                            self.his_cursor = None;
                            Some(self.pop_draft())
                        },
                    }
                },
            }
        }
    }

    /// Step the recent directories for a Left (`left`) or a Right key.
    /// `render_buffer` gives the text for an entry, so that Enter goes there.
    /// Gives the text that the input box should now show, or `None` where the
    /// key does nothing.
    pub fn step_cd<F>(
        &mut self,
        recent: &[RecentDir],
        left: bool,
        live_input: &str,
        render_buffer: F,
    ) -> (r: Option<String>) where F: FnOnce(&String) -> String
        requires
            old(self).cd_cursor is Some && left ==> old(self).cd_cursor->0 <= recent@.len(),
            old(self).cd_cursor is Some && !left ==> old(self).cd_cursor->0 < usize::MAX,
            forall|i: int|
                0 <= i < recent@.len() ==> call_requires(
                    render_buffer,
                    (&(#[trigger] recent@[i]).path,),
                ),
        ensures
            final(self).deep_view() == stepped_cd(
                old(self).deep_view(),
                recent@.len() as int,
                left,
                live_input@,
            ),
            match cd_move(old(self).deep_view().cd, recent@.len() as int, left) {
                CdMove::Stay => r is None,
                CdMove::Entry(c) => r is Some && 0 <= c < recent@.len() && call_ensures(
                    render_buffer,
                    (&recent@[c].path,),
                    r->0,
                ),
                CdMove::Draft => r is Some && r->0@ == old(self).draft@,
            },
    {
        let len = recent.len();
        if len == 0 {
            return None;
        }
        match self.cd_cursor {
            None => {
                if !left {
                    return None;
                }
                self.ensure_draft(live_input);
                self.his_cursor = None;
                self.cd_cursor = Some(len - 1);
                Some(render_buffer(&recent[len - 1].path))
            },
            Some(c) => {
                if left {
                    if c == 0 {
                        return None;
                    }
                    self.cd_cursor = Some(c - 1);
                    Some(render_buffer(&recent[c - 1].path))
                } else if c + 1 < len {
                    self.cd_cursor = Some(c + 1);
                    Some(render_buffer(&recent[c + 1].path))
                } else {
                    self.cd_cursor = None;
                    Some(self.pop_draft())
                }
            },
        }
    }

    /// The ` his N` marker for the prompt, or nothing.
    pub fn his_indicator(&self) -> (r: String)
        ensures
            r@ == indicator("his"@, self.deep_view().his),
    {
        nav_indicator("his", self.his_cursor)
    }

    /// The ` cd N` marker for the prompt, or nothing.
    pub fn cd_indicator(&self) -> (r: String)
        ensures
            r@ == indicator("cd"@, self.deep_view().cd),
    {
        nav_indicator("cd", self.cd_cursor)
    }
}

impl Default for NavState {
    fn default() -> (r: NavState)
        ensures
            r.deep_view() == NavRow::idle(),
    {
        NavState::new()
    }
}

// ---- laws ----

/// What `newest_below` finds, without recursion.
pub proof fn lemma_newest_below(h: Seq<HistoryRow>, p: Seq<char>, n: int)
    ensures
        match newest_below(h, p, n) {
            Some(i) => i < n && matching(h, p, i) && forall|j: int|
                i < j < n ==> !#[trigger] matching(h, p, j),
            None => forall|j: int| j < n ==> !#[trigger] matching(h, p, j),
        },
    decreases n,
{
    if n > 0 && !matching(h, p, n - 1) {
        lemma_newest_below(h, p, n - 1);
    }
}

/// What `oldest_from` finds, without recursion.
pub proof fn lemma_oldest_from(h: Seq<HistoryRow>, p: Seq<char>, n: int)
    ensures
        match oldest_from(h, p, n) {
            Some(i) => n <= i && matching(h, p, i) && forall|j: int|
                n <= j < i ==> !#[trigger] matching(h, p, j),
            None => forall|j: int| n <= j ==> !#[trigger] matching(h, p, j),
        },
    decreases h.len() - n,
{
    if n < h.len() && !matching(h, p, n) {
        lemma_oldest_from(h, p, n + 1);
    }
}

/// An Up key that recalls something is undone by a Down key: recall is as it
/// was, and the box shows what it showed, be it an entry or the user's draft.
pub proof fn down_undoes_up(nav: NavRow, h: Seq<HistoryRow>, live: Seq<char>, shown: Seq<char>)
    requires
        nav == NavRow::idle() || (nav.draft_set && nav.his is Some && matching(
            h,
            nav.draft,
            nav.his->0,
        )),
        stepped_his(nav, h, true, live).1 is Some,
    ensures
        ({
            let back = stepped_his(stepped_his(nav, h, true, live).0, h, false, shown);
            &&& back.0 == nav
            &&& back.1 == Some(
                if nav.his is Some {
                    h[nav.his->0].text
                } else {
                    live
                },
            )
        }),
{
    let p = nav.prefix(live);
    let from = if nav.his is Some {
        nav.his->0
    } else {
        h.len() as int
    };
    lemma_newest_below(h, p, from);
    let i = newest_below(h, p, from)->0;
    lemma_oldest_from(h, p, i + 1);
    if nav.his is Some {
        assert(matching(h, p, nav.his->0));
    }
}

/// A Left key that recalls something is undone by a Right key.
pub proof fn right_undoes_left(nav: NavRow, len: int, live: Seq<char>, shown: Seq<char>)
    requires
        0 <= len,
        nav == NavRow::idle() || (nav.cd is Some && 0 <= nav.cd->0 < len),
        cd_move(nav.cd, len, true) !is Stay,
    ensures
        stepped_cd(stepped_cd(nav, len, true, live), len, false, shown) == nav,
        cd_move(stepped_cd(nav, len, true, live).cd, len, false) == (if nav.cd is Some {
            CdMove::Entry(nav.cd->0)
        } else {
            CdMove::Draft
        }),
        nav.cd is None ==> stepped_cd(nav, len, true, live).draft == live,
{
}

/// The two axes stay mutually exclusive, whatever key is pressed.
pub proof fn axes_stay_exclusive(
    nav: NavRow,
    h: Seq<HistoryRow>,
    len: int,
    backward: bool,
    live: Seq<char>,
)
    requires
        nav.exclusive(),
    ensures
        stepped_his(nav, h, backward, live).0.exclusive(),
        stepped_cd(nav, len, backward, live).exclusive(),
        NavRow::idle().exclusive(),
{
}

/// A draft is kept exactly while an axis is active, and is empty otherwise,
/// whatever key is pressed.
pub proof fn draft_is_kept_while_recalling(
    nav: NavRow,
    h: Seq<HistoryRow>,
    len: int,
    backward: bool,
    live: Seq<char>,
)
    requires
        nav.settled(),
    ensures
        stepped_his(nav, h, backward, live).0.settled(),
        stepped_cd(nav, len, backward, live).settled(),
        NavRow::idle().settled(),
{
}

/// An entry that Up or Down recalls starts with the prefix, and the cursor is on
/// it; where the step does nothing, nothing changes.
pub proof fn recalled_entries_match(nav: NavRow, h: Seq<HistoryRow>, up: bool, live: Seq<char>)
    ensures
        ({
            let (after, shown) = stepped_his(nav, h, up, live);
            &&& shown is None ==> after == nav
            &&& shown is Some && after.his is Some ==> matching(
                h,
                nav.prefix(live),
                after.his->0,
            ) && shown->0 == h[after.his->0].text
            &&& shown is Some && after.his is None ==> !up && shown->0 == nav.draft
        }),
{
    let p = nav.prefix(live);
    let here = nav.his is Some && matching(h, p, nav.his->0);
    lemma_newest_below(
        h,
        p,
        if here {
            nav.his->0
        } else {
            h.len() as int
        },
    );
    if here {
        lemma_oldest_from(h, p, nav.his->0 + 1);
    }
}

} // verus!
