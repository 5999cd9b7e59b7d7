//! What the keys of the prompt do: arrows recall, and the list keys turn pages.

use crate::nav::{cd_move, stepped_cd, stepped_his, CdMove, NavRow, NavState};
use crate::state::{HistoryItem, HistoryRow, RecentDir, RecentRow};
use crate::util::{lemma_pages, next_page, pages, render_with_tilde, tilded, DISP_PAGE_LEN};
use vstd::prelude::*;

verus! {

/// The list that an arrow key walks: Up and Down the history, Left and Right the
/// recent directories.
#[derive(Clone, Copy, Debug, PartialEq, Eq, Structural)]
pub enum NavAxis {
    His,
    Cd,
}

/// Recall at the prompt, and the text that the next prompt starts with.
#[derive(Debug)]
pub struct CliNav {
    pub nav: NavState,
    pub pending_restart: Option<String>,
}

pub ghost struct CliRow {
    pub nav: NavRow,
    pub pending_restart: Option<Seq<char>>,
}

impl DeepView for CliNav {
    type V = CliRow;

    open spec fn deep_view(&self) -> CliRow {
        CliRow {
            nav: self.nav.deep_view(),
            pending_restart: self.pending_restart.deep_view(),
        }
    }
}

/// What the line editor does after an arrow key.
#[derive(Clone, Copy, Debug, PartialEq, Eq, Structural)]
pub enum ArrowAction {
    /// Start the line again with the text that is pending.
    Restart,
    /// Nothing.
    Noop,
    /// What the key does by itself.
    Pass,
}

/// The command that goes to a directory.
pub open spec fn cd_text(path: Seq<char>, home: Option<Seq<char>>, windows: bool) -> Seq<char> {
    "cd "@ + tilded(path, home, windows)
}

/// What an arrow key shows next: an entry, the draft, or nothing new.
pub open spec fn shown_cd(
    nav: NavRow,
    recent: Seq<RecentRow>,
    home: Option<Seq<char>>,
    left: bool,
    windows: bool,
) -> Option<Seq<char>> {
    match cd_move(nav.cd, recent.len() as int, left) {
        CdMove::Stay => None,
        CdMove::Entry(c) => Some(cd_text(recent[c].path, home, windows)),
        CdMove::Draft => Some(nav.draft),
    }
}

/// An arrow key at the prompt. Left and Right move the cursor as usual while a
/// line is edited and no directory is recalled.
pub open spec fn arrow_pressed(
    c: CliRow,
    axis: NavAxis,
    backward: bool,
    history: Seq<HistoryRow>,
    recent: Seq<RecentRow>,
    home: Option<Seq<char>>,
    line: Seq<char>,
    windows: bool,
) -> (CliRow, ArrowAction) {
    if axis == NavAxis::Cd && line.len() > 0 && c.nav.cd is None {
        (c, ArrowAction::Pass)
    } else {
        let (nav, shown) = match axis {
            NavAxis::His => stepped_his(c.nav, history, backward, line),
            NavAxis::Cd => (
                stepped_cd(c.nav, recent.len() as int, backward, line),
                shown_cd(c.nav, recent, home, backward, windows),
            ),
        };
        match shown {
            Some(t) => (CliRow { nav, pending_restart: Some(t) }, ArrowAction::Restart),
            None => (CliRow { nav, ..c }, ArrowAction::Noop),
        }
    }
}

impl CliNav {
    pub fn new() -> (r: CliNav)
        ensures
            r.deep_view() == (CliRow { nav: NavRow::idle(), pending_restart: None }),
    {
        CliNav { nav: NavState::new(), pending_restart: None }
    }

    pub fn reset(&mut self)
        ensures
            final(self).deep_view() == (CliRow { nav: NavRow::idle(), pending_restart: None }),
    {
        self.nav.reset();
        self.pending_restart = None;
    }

    /// See [`arrow_pressed`].
    pub fn arrow(
        &mut self,
        axis: NavAxis,
        backward: bool,
        history: &[HistoryItem],
        recent: &[RecentDir],
        home: Option<&str>,
        line: &str,
        windows: bool,
    ) -> (r: ArrowAction)
        requires
            old(self).nav.cd_cursor is Some ==> old(self).nav.cd_cursor->0 <= recent@.len()
                && old(self).nav.cd_cursor->0 < usize::MAX,
        ensures
            (final(self).deep_view(), r) == arrow_pressed(
                old(self).deep_view(),
                axis,
                backward,
                history.deep_view(),
                recent.deep_view(),
                home.deep_view(),
                line@,
                windows,
            ),
    {
        let shown = match axis {
            NavAxis::His => self.nav.step_his(history, backward, line),
            NavAxis::Cd => {
                if crate::text::chars_of(line).len() > 0 && self.nav.cd_cursor.is_none() {
                    return ArrowAction::Pass;
                }
                let ghost was = self.nav.deep_view();
                let render = |path: &String| -> (s: String)
                    ensures
                        s@ == cd_text(path@, home.deep_view(), windows),
                    { "cd ".to_owned().concat(&render_with_tilde(path, home, windows)) };
                let shown = self.nav.step_cd(recent, backward, line, render);
                assert(shown.deep_view() == shown_cd(
                    was,
                    recent.deep_view(),
                    home.deep_view(),
                    backward,
                    windows,
                ));
                shown
            },
        };
        match shown {
            Some(t) => {
                self.pending_restart = Some(t);
                ArrowAction::Restart
            },
            None => ArrowAction::Noop,
        }
    }
}

/// The lists that a key opens.
#[derive(Clone, Copy, Debug, PartialEq, Eq, Structural)]
pub enum NavKind {
    History,
    HistoryInDir,
    RecentDirs,
    Bookmarks,
    Remotes,
}

/// Which list was shown last, and which page of it.
#[derive(Clone, Copy, Debug, PartialEq, Eq, Structural)]
pub struct Pager {
    pub shown: Option<NavKind>,
    pub page: usize,
}

/// After a list key: the newest page, or with the same key again the next older
/// one, and the newest again after the oldest.
pub open spec fn pressed(p: Pager, kind: NavKind, total: int) -> Pager {
    Pager {
        shown: Some(kind),
        page: if p.shown == Some(kind) && p.page + 1 < pages(total, DISP_PAGE_LEN as int) {
            (p.page + 1) as usize
        } else {
            0
        },
    }
}

/// After some more presses of the same key.
pub open spec fn pressed_again(p: Pager, kind: NavKind, total: int, n: nat) -> Pager
    decreases n,
{
    if n == 0 {
        p
    } else {
        pressed(pressed_again(p, kind, total, (n - 1) as nat), kind, total)
    }
}

impl Pager {
    /// No list was shown yet.
    pub fn new() -> (r: Pager)
        ensures
            r == (Pager { shown: None, page: 0 }),
    {
        Pager { shown: None, page: 0 }
    }

    /// The page to show for a list key: the newest, or with the same key again
    /// the next older one, and the newest again after the oldest.
    pub fn press(&mut self, kind: NavKind, total: usize) -> (r: usize)
        ensures
            r == (if old(self).shown == Some(kind) && old(self).page + 1 < pages(
                total as int,
                DISP_PAGE_LEN as int,
            ) {
                old(self).page + 1
            } else {
                0
            }),
            *final(self) == (Pager { shown: Some(kind), page: r }),
            *final(self) == pressed(*old(self), kind, total as int),
    {
        let again = match self.shown {
            Some(k) => k == kind,
            None => false,
        };
        let page = if again {
            next_page(self.page, total, DISP_PAGE_LEN)
        } else {
            0
        };
        self.shown = Some(kind);
        self.page = page;
        page
    }
}

/// The page that is shown after `n` more presses of the same key.
pub open spec fn pages_on(page: int, all: int, n: nat) -> int
    decreases n,
{
    if n == 0 {
        page
    } else {
        pages_on(
            if page + 1 < all {
                page + 1
            } else {
                0
            },
            all,
            (n - 1) as nat,
        )
    }
}

proof fn lemma_pages_on(page: int, all: int, n: nat)
    requires
        0 <= page,
        page + n < all,
    ensures
        pages_on(page, all, n) == page + n,
    decreases n,
{
    if n > 0 {
        lemma_pages_on(page + 1, all, (n - 1) as nat);
    }
}

proof fn lemma_pages_on_step(page: int, all: int, n: nat)
    ensures
        pages_on(page, all, n + 1) == pages_on(pages_on(page, all, n), all, 1),
    decreases n,
{
    if n == 0 {
        assert(pages_on(page, all, 0) == page);
    } else {
        let next = if page + 1 < all {
            page + 1
        } else {
            0
        };
        lemma_pages_on_step(next, all, (n - 1) as nat);
        assert(pages_on(page, all, n) == pages_on(next, all, (n - 1) as nat));
        assert(pages_on(page, all, n + 1) == pages_on(next, all, n));
    }
}

/// Pressing the same key goes through all pages, from the newest to the oldest,
/// and then starts again.
pub proof fn paging_wraps_around(all: int)
    requires
        all > 0,
    ensures
        forall|n: nat| n < all ==> #[trigger] pages_on(0, all, n) == n,
        pages_on(0, all, all as nat) == 0,
{
    assert forall|n: nat| n < all implies #[trigger] pages_on(0, all, n) == n by {
        lemma_pages_on(0, all, n);
    }
    let k = (all - 1) as nat;
    lemma_pages_on(0, all, k);
    lemma_pages_on_step(0, all, k);
    assert(pages_on(k as int, all, 1) == pages_on(0, all, 0));
    assert(pages_on(0, all, 0) == 0);
}

/// A list key shows the newest page of its list, whatever was shown before, if
/// that was another list or none; each further press of it shows the next older
/// page, and the press after the oldest page shows the newest again.
pub proof fn list_keys_turn_the_pages(p: Pager, kind: NavKind, total: int, n: nat)
    requires
        p.shown != Some(kind),
        0 <= total <= usize::MAX,
        n < pages(total, DISP_PAGE_LEN as int),
    ensures
        ({
            let all = pages(total, DISP_PAGE_LEN as int) as nat;
            &&& pressed_again(pressed(p, kind, total), kind, total, n) == (Pager {
                shown: Some(kind),
                page: n as usize,
            })
            &&& pressed_again(pressed(p, kind, total), kind, total, all) == (Pager {
                shown: Some(kind),
                page: 0,
            })
        }),
    decreases n,
{
    let first = pressed(p, kind, total);
    let all = pages(total, DISP_PAGE_LEN as int);
    lemma_pages(total, 0, DISP_PAGE_LEN as int);
    lemma_presses(first, kind, total, n);
    lemma_presses(first, kind, total, (all - 1) as nat);
    assert(pressed_again(first, kind, total, all as nat) == pressed(
        pressed_again(first, kind, total, (all - 1) as nat),
        kind,
        total,
    ));
}

proof fn lemma_presses(first: Pager, kind: NavKind, total: int, n: nat)
    requires
        first == (Pager { shown: Some(kind), page: 0 }),
        0 <= total <= usize::MAX,
        n < pages(total, DISP_PAGE_LEN as int),
    ensures
        pressed_again(first, kind, total, n) == (Pager { shown: Some(kind), page: n as usize }),
    decreases n,
{
    if n > 0 {
        lemma_presses(first, kind, total, (n - 1) as nat);
        lemma_pages(total, 0, DISP_PAGE_LEN as int);
    }
}

} // verus!
