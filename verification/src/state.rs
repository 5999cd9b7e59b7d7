//! The shell's lists, and the arrow-key recall over them.

use crate::git::{branch_indicator, branch_marker, branch_of, current_branch};
use crate::lists::{picked, picked_is_exact, without, without_is_exact};
use crate::nav::{indicator, NavRow, NavState};
use crate::path::{path_eq, path_eq_is_equivalence, same_path};
use crate::process::ProcessRun;
use crate::python::{venv_indicator, venv_marker};
use crate::render::{bookmarked, is_bookmarked};
use crate::save_data::{lines_of, loaded, save_state, LoadedRow, LoadedState, SavedRow};
use crate::ssh::{RemoteSession, SessionRow, SshMode};
use crate::text::chars_of;
use crate::time::{valid_instant, Instant, Timestamp};
use crate::util::{browser_list, read_browser_files, DirEntry};
use vstd::prelude::*;

verus! {

/// A command that was run, the directory it was run in, and when.
#[derive(Debug)]
pub struct HistoryItem {
    pub text: String,
    pub dir: String,
    pub dt: Timestamp,
}

pub ghost struct HistoryRow {
    pub text: Seq<char>,
    pub dir: Seq<char>,
    pub dt: Instant,
}

impl DeepView for HistoryItem {
    type V = HistoryRow;

    open spec fn deep_view(&self) -> HistoryRow {
        HistoryRow { text: self.text@, dir: self.dir@, dt: self.dt.deep_view() }
    }
}

impl Clone for HistoryItem {
    fn clone(&self) -> (r: HistoryItem)
        ensures
            r.deep_view() == self.deep_view(),
    {
        HistoryItem { text: self.text.clone(), dir: self.dir.clone(), dt: self.dt }
    }
}

/// One entry in the recent-directories list: a path that a command was run
/// from, and the time of the last visit.
#[derive(Debug)]
pub struct RecentDir {
    pub path: String,
    pub dt: Timestamp,
}

pub ghost struct RecentRow {
    pub path: Seq<char>,
    pub dt: Instant,
}

impl DeepView for RecentDir {
    type V = RecentRow;

    open spec fn deep_view(&self) -> RecentRow {
        RecentRow { path: self.path@, dt: self.dt.deep_view() }
    }
}

/// One entry of a directory listing.
#[derive(Debug)]
pub struct BrowserFile {
    pub path: String,
    pub disp_name: String,
    pub is_folder: bool,
    pub is_executable: bool,
}

pub ghost struct BrowserRow {
    pub path: Seq<char>,
    pub disp_name: Seq<char>,
    pub is_folder: bool,
    pub is_executable: bool,
}

impl DeepView for BrowserFile {
    type V = BrowserRow;

    open spec fn deep_view(&self) -> BrowserRow {
        BrowserRow {
            path: self.path@,
            disp_name: self.disp_name@,
            is_folder: self.is_folder,
            is_executable: self.is_executable,
        }
    }
}

/// A saved SSH remote. The password is not here: it lives in the credential
/// store of the operating system, under `username@host:port`.
#[derive(Debug)]
pub struct RemoteTerminal {
    pub host: String,
    pub port: u16,
    pub username: String,
}

pub ghost struct RemoteRow {
    pub host: Seq<char>,
    pub port: u16,
    pub username: Seq<char>,
}

impl DeepView for RemoteTerminal {
    type V = RemoteRow;

    open spec fn deep_view(&self) -> RemoteRow {
        RemoteRow { host: self.host@, port: self.port, username: self.username@ }
    }
}

/// Which side panels of the graphical frontend are visible. The command-line
/// shell only carries this from one save to the next.
#[derive(Clone, Copy, Debug, PartialEq, Eq, Structural)]
pub struct PanelVis {
    pub bookmarks: bool,
    pub recent_dirs: bool,
    pub recent_cmds: bool,
    pub recent_cmds_in_dir: bool,
    pub remote_terminals: bool,
    pub file_browser: bool,
}

impl PanelVis {
    /// Everything visible but the remote terminals.
    pub open spec fn initial() -> PanelVis {
        PanelVis {
            bookmarks: true,
            recent_dirs: true,
            recent_cmds: true,
            recent_cmds_in_dir: true,
            remote_terminals: false,
            file_browser: true,
        }
    }
}

impl Default for PanelVis {
    fn default() -> (r: PanelVis)
        ensures
            r == PanelVis::initial(),
    {
        PanelVis {
            bookmarks: true,
            recent_dirs: true,
            recent_cmds: true,
            recent_cmds_in_dir: true,
            remote_terminals: false,
            file_browser: true,
        }
    }
}

/// Last window size of the graphical frontend, each number as its text.
#[derive(Debug)]
pub struct WindowSize {
    pub x: String,
    pub y: String,
}

pub ghost struct SizeRow {
    pub x: Seq<char>,
    pub y: Seq<char>,
}

impl DeepView for WindowSize {
    type V = SizeRow;

    open spec fn deep_view(&self) -> SizeRow {
        SizeRow { x: self.x@, y: self.y@ }
    }
}

/// The working directory of each open tab of the graphical frontend, and which
/// tab was active. No paths means that nothing was saved.
#[derive(Debug)]
pub struct OpenTabs {
    pub paths: Vec<String>,
    pub active: usize,
}

pub ghost struct TabsRow {
    pub paths: Seq<Seq<char>>,
    pub active: usize,
}

impl TabsRow {
    pub open spec fn initial() -> TabsRow {
        TabsRow { paths: Seq::empty(), active: 0 }
    }
}

impl DeepView for OpenTabs {
    type V = TabsRow;

    open spec fn deep_view(&self) -> TabsRow {
        TabsRow { paths: self.paths.deep_view(), active: self.active }
    }
}

impl Default for OpenTabs {
    fn default() -> (r: OpenTabs)
        ensures
            r.deep_view() == TabsRow::initial(),
    {
        let r = OpenTabs { paths: Vec::new(), active: 0 };
        assert(r.paths.deep_view() =~= Seq::<Seq<char>>::empty());
        r
    }
}

// ---- recording ----

/// A history row with this command, run in this directory.
pub open spec fn same_command(
    text: Seq<char>,
    dir: Seq<char>,
    windows: bool,
) -> spec_fn(HistoryRow) -> bool {
    |r: HistoryRow| r.text == text && path_eq(r.dir, dir, windows)
}

/// The history with `row` at its end, and no other row of that command in that
/// directory.
pub open spec fn with_command(
    h: Seq<HistoryRow>,
    row: HistoryRow,
    windows: bool,
) -> Seq<HistoryRow> {
    without(h, same_command(row.text, row.dir, windows)).push(row)
}

/// No later row has the command and the directory of row `i`.
pub open spec fn newest_of_its_kind(h: Seq<HistoryRow>, i: int, windows: bool) -> bool {
    forall|j: int| i < j < h.len() ==> !same_command(h[i].text, h[i].dir, windows)(#[trigger] h[j])
}

/// The newest row of each command in each directory, in the order they had.
pub open spec fn deduped(h: Seq<HistoryRow>, windows: bool) -> Seq<HistoryRow> {
    let keep = picked(h.len(), |i: int| newest_of_its_kind(h, i, windows));
    Seq::new(keep.len(), |k: int| h[keep[k]])
}

/// No two rows have the same command in the same directory.
pub open spec fn distinct_commands(h: Seq<HistoryRow>, windows: bool) -> bool {
    forall|i: int| 0 <= i < h.len() ==> #[trigger] newest_of_its_kind(h, i, windows)
}

pub open spec fn at_path(path: Seq<char>, windows: bool) -> spec_fn(RecentRow) -> bool {
    |r: RecentRow| path_eq(r.path, path, windows)
}

/// The recent directories with `row` at the end, and its path nowhere else.
pub open spec fn with_recent(
    list: Seq<RecentRow>,
    row: RecentRow,
    windows: bool,
) -> Seq<RecentRow> {
    without(list, at_path(row.path, windows)).push(row)
}

/// Put `row` at the end of the recent directories, and drop what the list
/// already held at that path.
pub fn record_recent_dir_at(list: &mut Vec<RecentDir>, path: &str, dt: Timestamp, windows: bool)
    ensures
        final(list).deep_view() == with_recent(
            old(list).deep_view(),
            RecentRow { path: path@, dt: dt.deep_view() },
            windows,
        ),
{
    let ghost start = list.deep_view();
    let ghost gone = at_path(path@, windows);
    let mut i: usize = 0;
    let ghost mut seen: int = 0;
    assert(start.skip(0) =~= start);
    assert(without(start.take(0), gone) + start.skip(0) =~= start);
    while i < list.len()
        invariant
            gone == at_path(path@, windows),
            0 <= seen <= start.len(),
            i <= list@.len(),
            i == without(start.take(seen), gone).len(),
            list.deep_view() == without(start.take(seen), gone) + start.skip(seen),
        decreases list@.len() - i,
    {
        let ghost before = list.deep_view();
        let ghost kept = without(start.take(seen), gone);
        proof {
            assert(before.len() == list@.len());
            assert(before[i as int] == start.skip(seen)[0]);
            assert(list@[i as int].deep_view() == before[i as int]);
            assert(start.take(seen + 1).drop_last() =~= start.take(seen));
            assert(start.take(seen + 1).last() == start[seen]);
        }
        if same_path(&list[i].path, path, windows) {
            let _ = list.remove(i);
            proof {
                assert(list.deep_view() =~= before.remove(i as int));
                assert(list.deep_view() =~= kept + start.skip(seen + 1));
            }
        } else {
            i = i + 1;
            proof {
                assert(kept.push(start[seen]) + start.skip(seen + 1) =~= kept + start.skip(seen));
            }
        }
        proof {
            seen = seen + 1;
        }
    }
    proof {
        assert(list.deep_view().len() == list@.len());
        assert(start.take(seen) =~= start);
        assert(list.deep_view() =~= without(start, gone));
    }
    let ghost kept = list.deep_view();
    list.push(RecentDir { path: path.to_owned(), dt });
    assert(list.deep_view() =~= kept.push(RecentRow { path: path@, dt: dt.deep_view() }));
}

/// Record a visit to `cwd` now. A path that is in the list already moves to
/// its end, so that no path is in it twice.
pub fn record_recent_dir(list: &mut Vec<RecentDir>, cwd: &str, windows: bool)
    ensures
        exists|now: Instant|
            valid_instant(now.secs, now.nanos) && final(list).deep_view() == #[trigger] with_recent(
                old(list).deep_view(),
                RecentRow { path: cwd@, dt: now },
                windows,
            ),
{
    record_recent_dir_at(list, cwd, Timestamp::now(), windows);
}

/// Put the command at the end of the history, and drop what the history
/// already held of that command in that directory.
pub fn record_history_at(
    history: &mut Vec<HistoryItem>,
    text: &str,
    dir: &str,
    dt: Timestamp,
    windows: bool,
)
    ensures
        final(history).deep_view() == with_command(
            old(history).deep_view(),
            HistoryRow { text: text@, dir: dir@, dt: dt.deep_view() },
            windows,
        ),
{
    let ghost start = history.deep_view();
    let ghost gone = same_command(text@, dir@, windows);
    let command = text.to_owned();
    let mut i: usize = 0;
    let ghost mut seen: int = 0;
    assert(start.skip(0) =~= start);
    assert(without(start.take(0), gone) + start.skip(0) =~= start);
    while i < history.len()
        invariant
            gone == same_command(text@, dir@, windows),
            command@ == text@,
            0 <= seen <= start.len(),
            i <= history@.len(),
            i == without(start.take(seen), gone).len(),
            history.deep_view() == without(start.take(seen), gone) + start.skip(seen),
        decreases history@.len() - i,
    {
        let ghost before = history.deep_view();
        let ghost kept = without(start.take(seen), gone);
        proof {
            assert(before.len() == history@.len());
            assert(before[i as int] == start.skip(seen)[0]);
            assert(history@[i as int].deep_view() == before[i as int]);
            assert(start.take(seen + 1).drop_last() =~= start.take(seen));
            assert(start.take(seen + 1).last() == start[seen]);
        }
        if history[i].text == command && same_path(&history[i].dir, dir, windows) {
            let _ = history.remove(i);
            proof {
                assert(history.deep_view() =~= before.remove(i as int));
                assert(history.deep_view() =~= kept + start.skip(seen + 1));
            }
        } else {
            i = i + 1;
            proof {
                assert(kept.push(start[seen]) + start.skip(seen + 1) =~= kept + start.skip(seen));
            }
        }
        proof {
            seen = seen + 1;
        }
    }
    proof {
        assert(history.deep_view().len() == history@.len());
        assert(start.take(seen) =~= start);
        assert(history.deep_view() =~= without(start, gone));
    }
    let ghost kept = history.deep_view();
    history.push(HistoryItem { text: command, dir: dir.to_owned(), dt });
    assert(history.deep_view() =~= kept.push(
        HistoryRow { text: text@, dir: dir@, dt: dt.deep_view() },
    ));
}

/// Record that `text` is run in `dir` now. Running a command again in the same
/// directory moves it to the end; in another directory it is its own entry.
pub fn record_history(history: &mut Vec<HistoryItem>, text: &str, dir: &str, windows: bool)
    ensures
        exists|now: Instant|
            valid_instant(now.secs, now.nanos) && final(history).deep_view()
                == #[trigger] with_command(
                old(history).deep_view(),
                HistoryRow { text: text@, dir: dir@, dt: now },
                windows,
            ),
{
    record_history_at(history, text, dir, Timestamp::now(), windows);
}

fn is_newest(history: &Vec<HistoryItem>, i: usize, windows: bool) -> (r: bool)
    requires
        i < history@.len(),
    ensures
        r == newest_of_its_kind(history.deep_view(), i as int, windows),
{
    let ghost h = history.deep_view();
    assert(i < history.len());
    let mut j: usize = i + 1;
    while j < history.len()
        invariant
            i < history@.len(),
            i < j <= history@.len(),
            h == history.deep_view(),
            forall|x: int|
                i < x < j ==> !same_command(
                    h[i as int].text,
                    h[i as int].dir,
                    windows,
                )(#[trigger] h[x]),
        decreases history@.len() - j,
    {
        if history[j].text == history[i].text && same_path(
            &history[j].dir,
            &history[i].dir,
            windows,
        ) {
            assert(same_command(h[i as int].text, h[i as int].dir, windows)(h[j as int]));
            return false;
        }
        j = j + 1;
    }
    true
}

/// Keep only the newest entry of each command in each directory.
pub fn dedup_history(history: &mut Vec<HistoryItem>, windows: bool)
    ensures
        final(history).deep_view() == deduped(old(history).deep_view(), windows),
{
    let ghost h = history.deep_view();
    let ghost f = |i: int| newest_of_its_kind(h, i, windows);
    let mut out: Vec<HistoryItem> = Vec::new();
    let mut i: usize = 0;
    while i < history.len()
        invariant
            i <= history@.len(),
            h == history.deep_view(),
            f == (|i: int| newest_of_its_kind(h, i, windows)),
            out.deep_view() == Seq::new(picked(
                i as nat,
                f,
            ).len(), |k: int| h[picked(i as nat, f)[k]]),
        decreases history@.len() - i,
    {
        let ghost before = out.deep_view();
        if is_newest(history, i, windows) {
            out.push(history[i].clone());
            assert(out.deep_view() =~= before.push(h[i as int]));
        }
        proof {
            let n = (i + 1) as nat;
            assert(out.deep_view() =~= Seq::new(picked(n, f).len(), |k: int| h[picked(n, f)[k]]));
        }
        i = i + 1;
    }
    *history = out;
}

// ---- the state of the shell ----

/// Everything that the shell remembers.
#[derive(Debug)]
pub struct State {
    pub home: Option<String>,
    pub history: Vec<HistoryItem>,
    pub cwd: String,
    pub dir_bookmarks: Vec<String>,
    pub recent_dirs: Vec<RecentDir>,
    pub remote_terminals: Vec<RemoteTerminal>,
    /// The listing of the current directory. It is not saved.
    pub browser_files: Vec<BrowserFile>,
    /// The layout of the graphical frontend is only carried from one save to the
    /// next: this and the next three.
    pub panel_vis: PanelVis,
    pub window_size: Option<WindowSize>,
    pub open_tabs: OpenTabs,
    pub font_size: Option<String>,
    /// The git branch of the current directory, if it is in a repository.
    pub branch: Option<String>,
    /// The connection that commands go to, if there is one.
    pub active_remote: Option<RemoteSession>,
    /// Whether paths and commands follow the rules of Windows.
    pub windows: bool,
}

pub ghost struct StateRow {
    pub home: Option<Seq<char>>,
    pub history: Seq<HistoryRow>,
    pub cwd: Seq<char>,
    pub dir_bookmarks: Seq<Seq<char>>,
    pub recent_dirs: Seq<RecentRow>,
    pub remote_terminals: Seq<RemoteRow>,
    pub browser_files: Seq<BrowserRow>,
    pub panel_vis: PanelVis,
    pub window_size: Option<SizeRow>,
    pub open_tabs: TabsRow,
    pub font_size: Option<Seq<char>>,
    pub branch: Option<Seq<char>>,
    pub active_remote: Option<SessionRow>,
    pub windows: bool,
}

impl DeepView for State {
    type V = StateRow;

    open spec fn deep_view(&self) -> StateRow {
        StateRow {
            home: self.home.deep_view(),
            history: self.history.deep_view(),
            cwd: self.cwd@,
            dir_bookmarks: self.dir_bookmarks.deep_view(),
            recent_dirs: self.recent_dirs.deep_view(),
            remote_terminals: self.remote_terminals.deep_view(),
            browser_files: self.browser_files.deep_view(),
            panel_vis: self.panel_vis,
            window_size: self.window_size.deep_view(),
            open_tabs: self.open_tabs.deep_view(),
            font_size: self.font_size.deep_view(),
            branch: self.branch.deep_view(),
            active_remote: self.active_remote.deep_view(),
            windows: self.windows,
        }
    }
}

impl StateRow {
    /// What of it goes to the state file.
    pub open spec fn saved(self) -> SavedRow {
        SavedRow {
            bookmarks: self.dir_bookmarks,
            recent_dirs: self.recent_dirs,
            history: self.history,
            remote_terminals: self.remote_terminals,
            panel_vis: self.panel_vis,
            window_size: self.window_size,
            open_tabs: self.open_tabs,
            font_size: self.font_size,
        }
    }

    /// The prompt. On a remote it names the remote and its directory; else the
    /// current directory, with a star if it is bookmarked, the git branch and the
    /// mark of a virtual environment. Either shows the entry that is recalled.
    pub open spec fn prompt(self, nav: NavRow, files: Seq<Seq<char>>) -> Seq<char> {
        let recall = indicator("his"@, nav.his) + indicator("cd"@, nav.cd);
        match self.active_remote {
            Some(r) => "S ["@ + r.label() + ":"@ + (if r.cwd.len() == 0 {
                "~"@
            } else {
                r.cwd
            }) + "]"@ + (if r.mode == SshMode::Pty {
                " (pty)"@
            } else {
                ""@
            }) + recall + " $ "@,
            None => "S "@ + (if bookmarked(self.dir_bookmarks, self.cwd, self.windows) {
                "*"@
            } else {
                ""@
            }) + self.cwd + branch_marker(self.branch) + venv_marker(
                self.cwd,
                files,
                self.windows,
            ) + recall + " $ "@,
        }
    }

    /// What was loaded from the state file, and where the shell is.
    pub open spec fn restored(
        l: LoadedRow,
        home: Option<Seq<char>>,
        cwd: Seq<char>,
        branch: Option<Seq<char>>,
        window_size: Option<SizeRow>,
        font_size: Option<Seq<char>>,
        windows: bool,
    ) -> StateRow {
        StateRow {
            history: l.history,
            dir_bookmarks: l.bookmarks,
            recent_dirs: l.recent_dirs,
            remote_terminals: l.remote_terminals,
            panel_vis: l.panel_vis,
            window_size,
            open_tabs: l.open_tabs,
            font_size,
            ..StateRow::fresh(home, cwd, branch, windows)
        }
    }

    /// A state with nothing in it but where the shell is.
    pub open spec fn fresh(
        home: Option<Seq<char>>,
        cwd: Seq<char>,
        branch: Option<Seq<char>>,
        windows: bool,
    ) -> StateRow {
        StateRow {
            home,
            history: Seq::empty(),
            cwd,
            dir_bookmarks: Seq::empty(),
            recent_dirs: Seq::empty(),
            remote_terminals: Seq::empty(),
            browser_files: Seq::empty(),
            panel_vis: PanelVis::initial(),
            window_size: None,
            open_tabs: TabsRow::initial(),
            font_size: None,
            branch,
            active_remote: None,
            windows,
        }
    }
}

impl State {
    /// A state with nothing in it but where the shell is.
    pub fn new(home: Option<String>, cwd: String, branch: Option<String>, windows: bool) -> (r:
        State)
        ensures
            r.deep_view() == StateRow::fresh(home.deep_view(), cwd@, branch.deep_view(), windows),
    {
        let s = State {
            home,
            history: Vec::new(),
            cwd,
            dir_bookmarks: Vec::new(),
            recent_dirs: Vec::new(),
            remote_terminals: Vec::new(),
            browser_files: Vec::new(),
            panel_vis: PanelVis::default(),
            window_size: None,
            open_tabs: OpenTabs::default(),
            font_size: None,
            branch,
            active_remote: None,
            windows,
        };
        proof {
            let v = s.deep_view();
            assert(v.history =~= Seq::empty());
            assert(v.dir_bookmarks =~= Seq::empty());
            assert(v.recent_dirs =~= Seq::empty());
            assert(v.remote_terminals =~= Seq::empty());
            assert(v.browser_files =~= Seq::empty());
        }
        s
    }

    /// The state that was loaded from the state file. The sizes are those of the
    /// file that the caller found valid.
    /// See [`StateRow::restored`].
    pub fn load(
        loaded: LoadedState,
        home: Option<String>,
        cwd: String,
        branch: Option<String>,
        window_size: Option<WindowSize>,
        font_size: Option<String>,
        windows: bool,
    ) -> (r: State)
        ensures
            r.deep_view() == (StateRow {
                history: loaded.deep_view().history,
                dir_bookmarks: loaded.deep_view().bookmarks,
                recent_dirs: loaded.deep_view().recent_dirs,
                remote_terminals: loaded.deep_view().remote_terminals,
                panel_vis: loaded.deep_view().panel_vis,
                window_size: window_size.deep_view(),
                open_tabs: loaded.deep_view().open_tabs,
                font_size: font_size.deep_view(),
                ..StateRow::fresh(home.deep_view(), cwd@, branch.deep_view(), windows)
            }),
            r.deep_view() == StateRow::restored(
                loaded.deep_view(),
                home.deep_view(),
                cwd@,
                branch.deep_view(),
                window_size.deep_view(),
                font_size.deep_view(),
                windows,
            ),
    {
        let s = State {
            home,
            history: loaded.history,
            cwd,
            dir_bookmarks: loaded.bookmarks,
            recent_dirs: loaded.recent_dirs,
            remote_terminals: loaded.remote_terminals,
            browser_files: Vec::new(),
            panel_vis: loaded.panel_vis,
            window_size,
            open_tabs: loaded.open_tabs,
            font_size,
            branch,
            active_remote: None,
            windows,
        };
        assert(s.browser_files.deep_view() =~= Seq::empty());
        s
    }

    /// See [`StateRow::prompt`]. `files` are those of
    /// [`crate::python::venv_probes`] for the current directory that exist.
    pub fn prompt(&self, nav: &NavState, files: &[String]) -> (r: String)
        ensures
            r@ == self.deep_view().prompt(nav.deep_view(), files.deep_view()),
    {
        let recall = nav.his_indicator().concat(&nav.cd_indicator());
        match &self.active_remote {
            Some(remote) => {
                let dir = if chars_of(remote.cwd()).len() == 0 {
                    "~"
                } else {
                    remote.cwd()
                };
                let mode = match remote.mode() {
                    SshMode::Exec => "",
                    SshMode::Pty => " (pty)",
                };
                "S [".to_owned().concat(&remote.label()).concat(":").concat(dir).concat("]").concat(
                    mode,
                ).concat(&recall).concat(" $ ")
            },
            None => {
                let star = if is_bookmarked(&self.dir_bookmarks, &self.cwd, self.windows) {
                    "*"
                } else {
                    ""
                };
                let branch = match &self.branch {
                    Some(b) => branch_indicator(Some(b)),
                    None => branch_indicator(None),
                };
                "S ".to_owned().concat(star).concat(&self.cwd).concat(&branch).concat(
                    &venv_indicator(&self.cwd, files, self.windows),
                ).concat(&recall).concat(" $ ")
            },
        }
    }

    /// Take in the git branch of the current directory, as a run of git tells it.
    pub fn refresh_branch(&mut self, run: Option<&ProcessRun>)
        ensures
            final(self).deep_view() == (StateRow {
                branch: branch_of(run),
                ..old(self).deep_view()
            }),
    {
        self.branch = current_branch(run);
    }

    /// Take in the listing of the current directory.
    pub fn refresh_browser_files(&mut self, entries: &[DirEntry])
        ensures
            final(self).deep_view() == (StateRow {
                browser_files: browser_list(entries.deep_view(), old(self).windows),
                ..old(self).deep_view()
            }),
    {
        self.browser_files = read_browser_files(entries, self.windows);
    }

    /// The contents of the state file. What the file can hold as it is loads
    /// again.
    pub fn save(&self) -> (r: String)
        ensures
            r@ == self.deep_view().saved().text(),
            self.deep_view().saved().storable() ==> forall|windows: bool| #[trigger]
                loaded(lines_of(r@), windows) == self.deep_view().saved().reread(windows),
    {
        let window_size = match &self.window_size {
            Some(w) => Some(w),
            None => None,
        };
        let font_size = match &self.font_size {
            Some(s) => Some(s.as_str()),
            None => None,
        };
        assert(window_size.deep_view() == self.window_size.deep_view());
        assert(font_size.deep_view() == self.font_size.deep_view());
        save_state(
            &self.dir_bookmarks,
            &self.recent_dirs,
            &self.history,
            &self.remote_terminals,
            &self.panel_vis,
            window_size,
            &self.open_tabs,
            font_size,
        )
    }
}

/// What a key press that bookmarks the current directory does: the bookmarks
/// after it, and what to show.
pub open spec fn bookmark_added(bookmarks: Seq<Seq<char>>, cwd: Seq<char>, windows: bool) -> (
    Seq<Seq<char>>,
    Seq<char>,
) {
    if bookmarked(bookmarks, cwd, windows) {
        (bookmarks, "This bookmark already exists\n"@)
    } else {
        (bookmarks.push(cwd), "Added a bookmark: "@ + cwd + "\n"@)
    }
}

/// Bookmark a directory, unless it is bookmarked. Gives what to show, and
/// whether the bookmarks changed.
pub fn add_bookmark(bookmarks: &mut Vec<String>, cwd: &str, windows: bool) -> (r: (String, bool))
    ensures
        (final(bookmarks).deep_view(), r.0@) == bookmark_added(
            old(bookmarks).deep_view(),
            cwd@,
            windows,
        ),
        r.1 == !bookmarked(old(bookmarks).deep_view(), cwd@, windows),
        r.1 == (final(bookmarks).deep_view() != old(bookmarks).deep_view()),
{
    if is_bookmarked(bookmarks, cwd, windows) {
        ("This bookmark already exists\n".to_owned(), false)
    } else {
        let ghost was = bookmarks.deep_view();
        bookmarks.push(cwd.to_owned());
        assert(bookmarks.deep_view() =~= was.push(cwd@));
        ("Added a bookmark: ".to_owned().concat(cwd).concat("\n"), true)
    }
}

// ---- laws ----

proof fn lemma_without_keeps_distinct(
    h: Seq<HistoryRow>,
    f: spec_fn(HistoryRow) -> bool,
    windows: bool,
)
    requires
        distinct_commands(h, windows),
    ensures
        distinct_commands(without(h, f), windows),
    decreases h.len(),
{
    if h.len() > 0 {
        let t = h.drop_last();
        let r = without(h, f);
        let q = without(t, f);
        assert forall|i: int| 0 <= i < t.len() implies #[trigger] newest_of_its_kind(
            t,
            i,
            windows,
        ) by {
            assert(newest_of_its_kind(h, i, windows));
            assert forall|j: int| i < j < t.len() implies !same_command(
                t[i].text,
                t[i].dir,
                windows,
            )(
                #[trigger] t[j],
            ) by {
                assert(t[j] == h[j]);
            }
        }
        lemma_without_keeps_distinct(t, f, windows);
        without_is_exact(t, f);
        assert forall|k: int| 0 <= k < r.len() implies #[trigger] newest_of_its_kind(
            r,
            k,
            windows,
        ) by {
            if k < q.len() {
                assert(newest_of_its_kind(q, k, windows));
                assert(t.contains(q[k]));
                let i = choose|i: int| 0 <= i < t.len() && t[i] == q[k];
                assert(newest_of_its_kind(h, i, windows));
                assert(h[h.len() - 1] == h.last());
                assert forall|j: int| k < j < r.len() implies !same_command(
                    r[k].text,
                    r[k].dir,
                    windows,
                )(
                    #[trigger] r[j],
                ) by {
                    if j < q.len() {
                        assert(r[j] == q[j]);
                    }
                }
            }
        }
    }
}

/// Recording a command keeps the history free of repeats: each command has at
/// most one entry for each directory. The command just recorded is the last.
pub proof fn recording_keeps_commands_distinct(h: Seq<HistoryRow>, row: HistoryRow, windows: bool)
    requires
        distinct_commands(h, windows),
    ensures
        distinct_commands(with_command(h, row, windows), windows),
        with_command(h, row, windows).last() == row,
{
    let f = same_command(row.text, row.dir, windows);
    let q = without(h, f);
    let r = with_command(h, row, windows);
    lemma_without_keeps_distinct(h, f, windows);
    without_is_exact(h, f);
    assert forall|k: int| 0 <= k < r.len() implies #[trigger] newest_of_its_kind(r, k, windows) by {
        if k < q.len() {
            assert(newest_of_its_kind(q, k, windows));
            assert(!f(q[k]));
            path_eq_is_equivalence(row.dir, q[k].dir, row.dir, windows);
            assert forall|j: int| k < j < r.len() implies !same_command(
                r[k].text,
                r[k].dir,
                windows,
            )(
                #[trigger] r[j],
            ) by {
                if j < q.len() {
                    assert(r[j] == q[j]);
                }
            }
        }
    }
}

/// Recording a command loses no entry of another command or directory.
pub proof fn recording_keeps_other_commands(
    h: Seq<HistoryRow>,
    row: HistoryRow,
    other: HistoryRow,
    windows: bool,
)
    requires
        h.contains(other),
        other.text != row.text || !path_eq(other.dir, row.dir, windows),
    ensures
        with_command(h, row, windows).contains(other),
{
    let f = same_command(row.text, row.dir, windows);
    without_is_exact(h, f);
    assert(without(h, f).contains(other));
    let k = choose|k: int| 0 <= k < without(h, f).len() && without(h, f)[k] == other;
    assert(with_command(h, row, windows)[k] == other);
}

/// No command is twice in the same directory in what `dedup_history` leaves.
pub proof fn dedup_leaves_distinct_commands(h: Seq<HistoryRow>, windows: bool)
    ensures
        distinct_commands(deduped(h, windows), windows),
{
    let f = |i: int| newest_of_its_kind(h, i, windows);
    let keep = picked(h.len(), f);
    let d = deduped(h, windows);
    picked_is_exact(h.len(), f);
    assert forall|k: int| 0 <= k < d.len() implies #[trigger] newest_of_its_kind(d, k, windows) by {
        assert(f(keep[k]));
        assert forall|j: int| k < j < d.len() implies !same_command(d[k].text, d[k].dir, windows)(
            #[trigger] d[j],
        ) by {
            assert(keep[k] < keep[j]);
            assert(d[j] == h[keep[j]]);
        }
    }
}

/// `dedup_history` keeps an entry of every command and directory: the newest one.
pub proof fn dedup_keeps_the_newest(h: Seq<HistoryRow>, i: int, windows: bool)
    requires
        0 <= i < h.len(),
    ensures
        exists|j: int|
            #![trigger h[j]]
            i <= j < h.len() && h[j].text == h[i].text && path_eq(h[j].dir, h[i].dir, windows)
                && newest_of_its_kind(h, j, windows) && deduped(h, windows).contains(h[j]),
    decreases h.len() - i,
{
    let f = |x: int| newest_of_its_kind(h, x, windows);
    let keep = picked(h.len(), f);
    picked_is_exact(h.len(), f);
    if newest_of_its_kind(h, i, windows) {
        assert(f(i));
        let k = choose|k: int| 0 <= k < keep.len() && keep[k] == i;
        assert(deduped(h, windows)[k] == h[i]);
        path_eq_is_equivalence(h[i].dir, h[i].dir, h[i].dir, windows);
    } else {
        let m = choose|m: int|
            i < m < h.len() && same_command(h[i].text, h[i].dir, windows)(#[trigger] h[m]);
        dedup_keeps_the_newest(h, m, windows);
        let j = choose|j: int|
            #![trigger h[j]]
            m <= j < h.len() && h[j].text == h[m].text && path_eq(h[j].dir, h[m].dir, windows)
                && newest_of_its_kind(h, j, windows) && deduped(h, windows).contains(h[j]);
        path_eq_is_equivalence(h[j].dir, h[m].dir, h[i].dir, windows);
        assert(i <= j < h.len() && h[j].text == h[i].text && path_eq(h[j].dir, h[i].dir, windows));
    }
}

/// A history without repeats is left as it is.
pub proof fn dedup_of_distinct_commands(h: Seq<HistoryRow>, windows: bool)
    requires
        distinct_commands(h, windows),
    ensures
        deduped(h, windows) == h,
{
    let f = |i: int| newest_of_its_kind(h, i, windows);
    lemma_picked_all(h.len(), f);
    assert(deduped(h, windows) =~= h);
}

proof fn lemma_picked_all(n: nat, f: spec_fn(int) -> bool)
    requires
        forall|i: int| 0 <= i < n ==> #[trigger] f(i),
    ensures
        picked(n, f) == Seq::new(n, |i: int| i),
    decreases n,
{
    if n > 0 {
        lemma_picked_all((n - 1) as nat, f);
        assert(f(n - 1));
    }
    assert(picked(n, f) =~= Seq::new(n, |i: int| i));
}

/// No two entries are at the same path.
pub open spec fn distinct_paths(list: Seq<RecentRow>, windows: bool) -> bool {
    forall|i: int, j: int|
        0 <= i < j < list.len() ==> !path_eq(
            (#[trigger] list[i]).path,
            (#[trigger] list[j]).path,
            windows,
        )
}

proof fn lemma_without_keeps_paths(
    list: Seq<RecentRow>,
    f: spec_fn(RecentRow) -> bool,
    windows: bool,
)
    requires
        distinct_paths(list, windows),
    ensures
        distinct_paths(without(list, f), windows),
    decreases list.len(),
{
    if list.len() > 0 {
        let t = list.drop_last();
        let r = without(list, f);
        let q = without(t, f);
        lemma_without_keeps_paths(t, f, windows);
        without_is_exact(t, f);
        assert forall|i: int, j: int| 0 <= i < j < r.len() implies !path_eq(
            (#[trigger] r[i]).path,
            (#[trigger] r[j]).path,
            windows,
        ) by {
            if j < q.len() {
                assert(r[i] == q[i] && r[j] == q[j]);
            } else {
                assert(r[i] == q[i]);
                assert(t.contains(q[i]));
                let x = choose|x: int| 0 <= x < t.len() && t[x] == q[i];
                assert(list[x] == q[i] && list[list.len() - 1] == r[j]);
            }
        }
    }
}

/// Recording a visit keeps the recent directories free of repeats, with the
/// directory just visited at the end.
pub proof fn recording_keeps_paths_distinct(list: Seq<RecentRow>, row: RecentRow, windows: bool)
    requires
        distinct_paths(list, windows),
    ensures
        distinct_paths(with_recent(list, row, windows), windows),
        with_recent(list, row, windows).last() == row,
{
    let f = at_path(row.path, windows);
    let q = without(list, f);
    let r = with_recent(list, row, windows);
    lemma_without_keeps_paths(list, f, windows);
    without_is_exact(list, f);
    assert forall|i: int, j: int| 0 <= i < j < r.len() implies !path_eq(
        (#[trigger] r[i]).path,
        (#[trigger] r[j]).path,
        windows,
    ) by {
        assert(r[i] == q[i]);
        if j < q.len() {
            assert(r[j] == q[j]);
        } else {
            assert(!f(q[i]));
        }
    }
}

} // verus!
