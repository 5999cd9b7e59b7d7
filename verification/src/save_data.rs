//! The state file: bookmarks, recent directories, command history, saved
//! remotes and the layout of the graphical frontend, one entry to a line.
//!
//! A line starts with a tag. Lines with an unknown tag are skipped, so that files
//! of a later version still load. `HIS` and `REMOTE_TERMINAL` separate their
//! fields by tabs, since the last field can hold spaces; line breaks and tabs in
//! those fields are written as spaces, so that an entry stays on one line.

use crate::num::{decimal, parse_u16, parse_usize, parsed_u16, parsed_usize, show};
use crate::path::{join, joined};
use crate::round_trip::saved_state_reads_back;
use crate::state::{
    dedup_history, deduped, HistoryItem, HistoryRow, OpenTabs, PanelVis, RecentDir, RecentRow,
    RemoteRow, RemoteTerminal, SizeRow, TabsRow, WindowSize,
};
use crate::text::{
    ascii_lower, chars_of, find, from, index_of, lower_ascii, replace_class, replaced,
    split_at_char, split_once, split_words, spells, strip_prefix, text_of, trim_end, trim_start,
    trimmed_end, trimmed_start, upto, without_prefix, words, Class,
};
use crate::time::{four_digit_year, read, Timestamp};
use vstd::prelude::*;

verus! {

pub const FILENAME: &'static str = "shell_state.ss";

pub const HEADER: &'static str = "# Shell state — auto-generated. Do not edit while shell is running.";

pub const BOOKMARK_TAG: &'static str = "BM ";

pub const RECENT_DIR_TAG: &'static str = "REC_DIR ";

pub const HISTORY_TAG: &'static str = "HIS ";

pub const REMOTE_TERMINAL_TAG: &'static str = "REMOTE_TERMINAL ";

pub const PANEL_VIS_TAG: &'static str = "PANEL_VIS ";

pub const WINDOW_SIZE_TAG: &'static str = "WINDOW_SIZE ";

pub const OPEN_TAB_TAG: &'static str = "OPEN_TAB ";

pub const ACTIVE_TAB_TAG: &'static str = "ACTIVE_TAB ";

pub const FONT_SIZE_TAG: &'static str = "FONT_SIZE ";

/// Everything that the state file holds.
///
/// The sizes of the graphical frontend are kept as they are written. A reader
/// adopts the last one of the list whose numbers are positive and finite.
#[derive(Debug)]
pub struct LoadedState {
    pub bookmarks: Vec<String>,
    pub recent_dirs: Vec<RecentDir>,
    pub history: Vec<HistoryItem>,
    pub remote_terminals: Vec<RemoteTerminal>,
    pub panel_vis: PanelVis,
    pub window_size: Vec<WindowSize>,
    pub open_tabs: OpenTabs,
    pub font_size: Vec<String>,
}

pub ghost struct LoadedRow {
    pub bookmarks: Seq<Seq<char>>,
    pub recent_dirs: Seq<RecentRow>,
    pub history: Seq<HistoryRow>,
    pub remote_terminals: Seq<RemoteRow>,
    pub panel_vis: PanelVis,
    pub window_size: Seq<SizeRow>,
    pub open_tabs: TabsRow,
    pub font_size: Seq<Seq<char>>,
}

impl DeepView for LoadedState {
    type V = LoadedRow;

    open spec fn deep_view(&self) -> LoadedRow {
        LoadedRow {
            bookmarks: self.bookmarks.deep_view(),
            recent_dirs: self.recent_dirs.deep_view(),
            history: self.history.deep_view(),
            remote_terminals: self.remote_terminals.deep_view(),
            panel_vis: self.panel_vis,
            window_size: self.window_size.deep_view(),
            open_tabs: self.open_tabs.deep_view(),
            font_size: self.font_size.deep_view(),
        }
    }
}

impl LoadedRow {
    /// What is loaded when there is no file.
    pub open spec fn initial() -> LoadedRow {
        LoadedRow {
            bookmarks: Seq::empty(),
            recent_dirs: Seq::empty(),
            history: Seq::empty(),
            remote_terminals: Seq::empty(),
            panel_vis: PanelVis::initial(),
            window_size: Seq::empty(),
            open_tabs: TabsRow::initial(),
            font_size: Seq::empty(),
        }
    }
}

// ---- lines ----

/// `s` without a carriage return at its end.
pub open spec fn without_cr(s: Seq<char>) -> Seq<char> {
    if s.len() > 0 && s.last() == '\r' {
        s.drop_last()
    } else {
        s
    }
}

/// The lines of a text. A line break belongs to the line before it, and may be
/// preceded by a carriage return.
pub open spec fn lines_of(s: Seq<char>) -> Seq<Seq<char>>
    decreases s.len(),
{
    match index_of(s, Class::One('\n')) {
        Some(i) => if 0 <= i < s.len() {
            seq![without_cr(s.take(i))] + lines_of(s.skip(i + 1))
        } else {
            Seq::empty()
        },
        None => if s.len() == 0 {
            Seq::empty()
        } else {
            seq![s]
        },
    }
}

/// The lines one after the other, each with its line break.
pub open spec fn joined_lines(ls: Seq<Seq<char>>) -> Seq<char>
    decreases ls.len(),
{
    if ls.len() == 0 {
        Seq::empty()
    } else {
        joined_lines(ls.drop_last()) + ls.last() + "\n"@
    }
}

// ---- saving ----

/// Everything that is written to the state file. The sizes are texts.
pub ghost struct SavedRow {
    pub bookmarks: Seq<Seq<char>>,
    pub recent_dirs: Seq<RecentRow>,
    pub history: Seq<HistoryRow>,
    pub remote_terminals: Seq<RemoteRow>,
    pub panel_vis: PanelVis,
    pub window_size: Option<SizeRow>,
    pub open_tabs: TabsRow,
    pub font_size: Option<Seq<char>>,
}

/// `s` with line breaks and tabs turned to spaces.
pub open spec fn flattened(s: Seq<char>) -> Seq<char> {
    replaced(replaced(s, Class::Either('\r', '\n'), ' '), Class::One('\t'), ' ')
}

pub open spec fn bit(b: bool) -> Seq<char> {
    if b {
        "1"@
    } else {
        "0"@
    }
}

pub open spec fn bookmark_line(p: Seq<char>) -> Seq<char> {
    BOOKMARK_TAG@ + p
}

pub open spec fn recent_line(r: RecentRow) -> Seq<char> {
    RECENT_DIR_TAG@ + r.dt.text() + " "@ + r.path
}

pub open spec fn history_line(h: HistoryRow) -> Seq<char> {
    HISTORY_TAG@ + h.dt.text() + "\t"@ + h.dir + "\t"@ + flattened(h.text)
}

pub open spec fn panel_line(v: PanelVis) -> Seq<char> {
    PANEL_VIS_TAG@ + "bookmarks="@ + bit(v.bookmarks) + " recent_dirs="@ + bit(v.recent_dirs)
        + " recent_cmds="@ + bit(v.recent_cmds) + " recent_cmds_in_dir="@ + bit(
        v.recent_cmds_in_dir,
    ) + " remote_terminals="@ + bit(v.remote_terminals) + " file_browser="@ + bit(v.file_browser)
}

pub open spec fn size_line(w: SizeRow) -> Seq<char> {
    WINDOW_SIZE_TAG@ + "x="@ + w.x + " y="@ + w.y
}

pub open spec fn tab_line(p: Seq<char>) -> Seq<char> {
    OPEN_TAB_TAG@ + p
}

pub open spec fn active_line(i: usize) -> Seq<char> {
    ACTIVE_TAB_TAG@ + decimal(i as nat)
}

pub open spec fn font_line(s: Seq<char>) -> Seq<char> {
    FONT_SIZE_TAG@ + "size="@ + s
}

pub open spec fn remote_line(r: RemoteRow) -> Seq<char> {
    REMOTE_TERMINAL_TAG@ + flattened(r.host) + "\t"@ + decimal(r.port as nat) + "\t"@ + flattened(
        r.username,
    )
}

impl SavedRow {
    pub open spec fn bookmark_lines(self) -> Seq<Seq<char>> {
        self.bookmarks.map_values(|p: Seq<char>| bookmark_line(p))
    }

    pub open spec fn recent_lines(self) -> Seq<Seq<char>> {
        self.recent_dirs.map_values(|r: RecentRow| recent_line(r))
    }

    pub open spec fn history_lines(self) -> Seq<Seq<char>> {
        self.history.map_values(|h: HistoryRow| history_line(h))
    }

    pub open spec fn size_lines(self) -> Seq<Seq<char>> {
        match self.window_size {
            Some(w) => seq![size_line(w)],
            None => Seq::empty(),
        }
    }

    /// One line for each tab, and one for the active tab if there are any.
    pub open spec fn tab_lines(self) -> Seq<Seq<char>> {
        if self.open_tabs.paths.len() == 0 {
            Seq::empty()
        } else {
            self.open_tabs.paths.map_values(|p: Seq<char>| tab_line(p)).push(
                active_line(self.open_tabs.active),
            )
        }
    }

    pub open spec fn font_lines(self) -> Seq<Seq<char>> {
        match self.font_size {
            Some(s) => seq![font_line(s)],
            None => Seq::empty(),
        }
    }

    pub open spec fn remote_lines(self) -> Seq<Seq<char>> {
        self.remote_terminals.map_values(|r: RemoteRow| remote_line(r))
    }

    /// The lines of the state file, in order.
    pub open spec fn lines(self) -> Seq<Seq<char>> {
        seq![HEADER@] + self.bookmark_lines() + self.recent_lines() + self.history_lines()
            + seq![panel_line(self.panel_vis)] + self.size_lines() + self.tab_lines()
            + self.font_lines() + self.remote_lines()
    }

    /// The contents of the state file.
    pub open spec fn text(self) -> Seq<char> {
        joined_lines(self.lines())
    }
}

// ---- loading ----

/// The values that stand behind `key=` among some words.
pub open spec fn keyed(ws: Seq<Seq<char>>, key: Seq<char>) -> Seq<Seq<char>>
    decreases ws.len(),
{
    if ws.len() == 0 {
        Seq::empty()
    } else {
        let before = keyed(ws.drop_last(), key);
        match split_at_char(ws.last(), '=') {
            Some((k, v)) => if k == key {
                before.push(v)
            } else {
                before
            },
            None => before,
        }
    }
}

pub open spec fn recent_of(rest: Seq<char>) -> Option<RecentRow> {
    let s = trimmed_end(rest, Class::White);
    match index_of(s, Class::One(' ')) {
        Some(i) => match read(s.take(i)) {
            Some(dt) => Some(RecentRow { path: trimmed_start(s.skip(i), Class::White), dt }),
            None => None,
        },
        None => None,
    }
}

pub open spec fn history_of(rest: Seq<char>) -> Option<HistoryRow> {
    match split_at_char(trimmed_end(rest, Class::One('\r')), '\t') {
        Some((when, more)) => match split_at_char(more, '\t') {
            Some((dir, text)) => match read(when) {
                Some(dt) => Some(HistoryRow { text, dir, dt }),
                None => None,
            },
            None => None,
        },
        None => None,
    }
}

/// What a value says of a panel: `1` and `true` show it, `0` and `false` hide
/// it, and anything else says nothing.
pub open spec fn panel_value(x: Seq<char>) -> Option<bool> {
    if x == "1"@ || ascii_lower(x) == "true"@ {
        Some(true)
    } else if x == "0"@ || ascii_lower(x) == "false"@ {
        Some(false)
    } else {
        None
    }
}

/// The panels with one `key=value` word taken in. An unknown key changes nothing,
/// and a malformed value leaves the panel at its default.
pub open spec fn panel_word(v: PanelVis, w: Seq<char>) -> PanelVis {
    match split_at_char(w, '=') {
        None => v,
        Some((k, x)) => match panel_value(x) {
            Some(on) => panel_set(v, k, on),
            None => panel_set(v, k, panel_shown(PanelVis::initial(), k)),
        },
    }
}

/// Whether the panel of that name is shown. There is no panel of any other name.
pub open spec fn panel_shown(v: PanelVis, k: Seq<char>) -> bool {
    if k == "bookmarks"@ {
        v.bookmarks
    } else if k == "recent_dirs"@ {
        v.recent_dirs
    } else if k == "recent_cmds"@ {
        v.recent_cmds
    } else if k == "recent_cmds_in_dir"@ {
        v.recent_cmds_in_dir
    } else if k == "remote_terminals"@ {
        v.remote_terminals
    } else {
        k == "file_browser"@ && v.file_browser
    }
}

/// The panels with the one of that name shown or hidden.
pub open spec fn panel_set(v: PanelVis, k: Seq<char>, on: bool) -> PanelVis {
    if k == "bookmarks"@ {
        PanelVis { bookmarks: on, ..v }
    } else if k == "recent_dirs"@ {
        PanelVis { recent_dirs: on, ..v }
    } else if k == "recent_cmds"@ {
        PanelVis { recent_cmds: on, ..v }
    } else if k == "recent_cmds_in_dir"@ {
        PanelVis { recent_cmds_in_dir: on, ..v }
    } else if k == "remote_terminals"@ {
        PanelVis { remote_terminals: on, ..v }
    } else if k == "file_browser"@ {
        PanelVis { file_browser: on, ..v }
    } else {
        v
    }
}

pub open spec fn panel_words(v: PanelVis, ws: Seq<Seq<char>>) -> PanelVis
    decreases ws.len(),
{
    if ws.len() == 0 {
        v
    } else {
        panel_word(panel_words(v, ws.drop_last()), ws.last())
    }
}

pub open spec fn size_of_line(rest: Seq<char>) -> Option<SizeRow> {
    let xs = keyed(words(rest), "x"@);
    let ys = keyed(words(rest), "y"@);
    if xs.len() > 0 && ys.len() > 0 {
        Some(SizeRow { x: xs.last(), y: ys.last() })
    } else {
        None
    }
}

pub open spec fn remote_of(rest: Seq<char>) -> Option<RemoteRow> {
    match split_at_char(trimmed_end(rest, Class::One('\r')), '\t') {
        Some((host, more)) => match split_at_char(more, '\t') {
            Some((port, last)) => match parsed_u16(port) {
                Some(n) => Some(
                    RemoteRow {
                        host,
                        port: n as u16,
                        username: match split_at_char(last, '\t') {
                            Some((user, _)) => user,
                            None => last,
                        },
                    },
                ),
                None => None,
            },
            None => None,
        },
        None => None,
    }
}

pub open spec fn pushed<T>(s: Seq<T>, x: Option<T>) -> Seq<T> {
    match x {
        Some(x) => s.push(x),
        None => s,
    }
}

/// What is loaded so far, with one more line taken in.
pub open spec fn absorbed(acc: LoadedRow, line: Seq<char>) -> LoadedRow {
    let t = trimmed_start(line, Class::White);
    if t.len() == 0 || t[0] == '#' {
        acc
    } else if let Some(rest) = without_prefix(t, BOOKMARK_TAG@) {
        LoadedRow { bookmarks: acc.bookmarks.push(trimmed_end(rest, Class::White)), ..acc }
    } else if let Some(rest) = without_prefix(t, RECENT_DIR_TAG@) {
        LoadedRow { recent_dirs: pushed(acc.recent_dirs, recent_of(rest)), ..acc }
    } else if let Some(rest) = without_prefix(t, HISTORY_TAG@) {
        LoadedRow { history: pushed(acc.history, history_of(rest)), ..acc }
    } else if let Some(rest) = without_prefix(t, PANEL_VIS_TAG@) {
        LoadedRow { panel_vis: panel_words(acc.panel_vis, words(rest)), ..acc }
    } else if let Some(rest) = without_prefix(t, WINDOW_SIZE_TAG@) {
        LoadedRow { window_size: pushed(acc.window_size, size_of_line(rest)), ..acc }
    } else if let Some(rest) = without_prefix(t, OPEN_TAB_TAG@) {
        LoadedRow {
            open_tabs: TabsRow {
                paths: acc.open_tabs.paths.push(trimmed_end(rest, Class::White)),
                ..acc.open_tabs
            },
            ..acc
        }
    } else if let Some(rest) = without_prefix(t, ACTIVE_TAB_TAG@) {
        match parsed_usize(trimmed_end(rest, Class::White)) {
            Some(i) => LoadedRow {
                open_tabs: TabsRow { active: i as usize, ..acc.open_tabs },
                ..acc
            },
            None => acc,
        }
    } else if let Some(rest) = without_prefix(t, FONT_SIZE_TAG@) {
        LoadedRow { font_size: acc.font_size + keyed(words(rest), "size"@), ..acc }
    } else if let Some(rest) = without_prefix(t, REMOTE_TERMINAL_TAG@) {
        LoadedRow { remote_terminals: pushed(acc.remote_terminals, remote_of(rest)), ..acc }
    } else {
        acc
    }
}

pub open spec fn absorbed_all(acc: LoadedRow, ls: Seq<Seq<char>>) -> LoadedRow
    decreases ls.len(),
{
    if ls.len() == 0 {
        acc
    } else {
        absorbed(absorbed_all(acc, ls.drop_last()), ls.last())
    }
}

/// What the lines of a state file load as. Of a command that is there more than
/// once in a directory, only the newest entry is kept.
pub open spec fn loaded(ls: Seq<Seq<char>>, windows: bool) -> LoadedRow {
    let all = absorbed_all(LoadedRow::initial(), ls);
    LoadedRow { history: deduped(all.history, windows), ..all }
}

// ---- code ----

/// Where the state file lives: in the home directory, if there is one.
pub fn default_path(home: Option<&str>, windows: bool) -> (r: Option<String>)
    ensures
        match home {
            Some(h) => r is Some && r->0@ == joined(h@, FILENAME@, windows),
            None => r is None,
        },
        r.deep_view() == state_file(home.deep_view(), windows),
{
    match home {
        Some(h) => Some(join(h, FILENAME, windows)),
        None => None,
    }
}

/// See [`flattened`].
fn sanitize_field(s: &str) -> (r: String)
    ensures
        r@ == flattened(s@),
{
    let v = chars_of(s);
    let w = replace_class(&v, Class::Either('\r', '\n'), ' ');
    text_of(&replace_class(&w, Class::One('\t'), ' '))
}

fn bool_to_int(b: bool) -> (r: &'static str)
    ensures
        r@ == bit(b),
{
    if b {
        "1"
    } else {
        "0"
    }
}

fn write_panel_vis(v: &PanelVis) -> (r: String)
    ensures
        r@ == panel_line(*v),
{
    PANEL_VIS_TAG.to_owned().concat("bookmarks=").concat(bool_to_int(v.bookmarks)).concat(
        " recent_dirs=",
    ).concat(bool_to_int(v.recent_dirs)).concat(" recent_cmds=").concat(
        bool_to_int(v.recent_cmds),
    ).concat(" recent_cmds_in_dir=").concat(bool_to_int(v.recent_cmds_in_dir)).concat(
        " remote_terminals=",
    ).concat(bool_to_int(v.remote_terminals)).concat(" file_browser=").concat(
        bool_to_int(v.file_browser),
    )
}

fn join_lines(ls: &Vec<String>) -> (r: String)
    ensures
        r@ == joined_lines(ls.deep_view()),
{
    let ghost all = ls.deep_view();
    let mut r = String::new();
    let mut i: usize = 0;
    assert(all.take(0) =~= Seq::empty());
    while i < ls.len()
        invariant
            i <= ls@.len(),
            all == ls.deep_view(),
            r@ == joined_lines(all.take(i as int)),
        decreases ls@.len() - i,
    {
        r = r.concat(&ls[i]).concat("\n");
        proof {
            let t = all.take(i + 1);
            assert(t.drop_last() =~= all.take(i as int));
            assert(t.last() == all[i as int]);
        }
        i = i + 1;
    }
    assert(all.take(i as int) =~= all);
    r
}

fn push_bookmark_lines(ls: &mut Vec<String>, paths: &[String], tag: &str)
    ensures
        final(ls).deep_view() == old(ls).deep_view() + paths.deep_view().map_values(
            |p: Seq<char>| tag@ + p,
        ),
{
    let ghost start = ls.deep_view();
    let ghost all = paths.deep_view().map_values(|p: Seq<char>| tag@ + p);
    let mut i: usize = 0;
    assert(start + all.take(0) =~= start);
    while i < paths.len()
        invariant
            i <= paths@.len(),
            all == paths.deep_view().map_values(|p: Seq<char>| tag@ + p),
            ls.deep_view() == start + all.take(i as int),
        decreases paths@.len() - i,
    {
        let ghost before = ls.deep_view();
        ls.push(tag.to_owned().concat(&paths[i]));
        assert(ls.deep_view() =~= before.push(all[i as int]));
        assert(before.push(all[i as int]) =~= start + all.take(i + 1));
        i = i + 1;
    }
    assert(all.take(i as int) =~= all);
}

fn push_recent_lines(ls: &mut Vec<String>, recent: &[RecentDir])
    ensures
        final(ls).deep_view() == old(ls).deep_view() + recent.deep_view().map_values(
            |r: RecentRow| recent_line(r),
        ),
        forall|j: int|
            0 <= j < recent@.len() && four_digit_year(recent.deep_view()[j].dt.secs)
                ==> #[trigger] recent.deep_view()[j].dt.reads_back(),
{
    let ghost start = ls.deep_view();
    let ghost rows = recent.deep_view();
    let ghost all = rows.map_values(|r: RecentRow| recent_line(r));
    let mut i: usize = 0;
    assert(start + all.take(0) =~= start);
    while i < recent.len()
        invariant
            i <= recent@.len(),
            rows == recent.deep_view(),
            all == rows.map_values(|r: RecentRow| recent_line(r)),
            ls.deep_view() == start + all.take(i as int),
            forall|j: int|
                0 <= j < i && four_digit_year(rows[j].dt.secs)
                    ==> #[trigger] rows[j].dt.reads_back(),
        decreases recent@.len() - i,
    {
        let ghost before = ls.deep_view();
        let when = recent[i].dt.to_rfc3339();
        ls.push(RECENT_DIR_TAG.to_owned().concat(&when).concat(" ").concat(&recent[i].path));
        assert(rows[i as int] == recent@[i as int].deep_view());
        assert(ls.deep_view() =~= before.push(all[i as int]));
        assert(before.push(all[i as int]) =~= start + all.take(i + 1));
        i = i + 1;
    }
    assert(all.take(i as int) =~= all);
}

fn push_history_lines(ls: &mut Vec<String>, history: &[HistoryItem])
    ensures
        final(ls).deep_view() == old(ls).deep_view() + history.deep_view().map_values(
            |h: HistoryRow| history_line(h),
        ),
        forall|j: int|
            0 <= j < history@.len() && four_digit_year(history.deep_view()[j].dt.secs)
                ==> #[trigger] history.deep_view()[j].dt.reads_back(),
{
    let ghost start = ls.deep_view();
    let ghost rows = history.deep_view();
    let ghost all = rows.map_values(|h: HistoryRow| history_line(h));
    let mut i: usize = 0;
    assert(start + all.take(0) =~= start);
    while i < history.len()
        invariant
            i <= history@.len(),
            rows == history.deep_view(),
            all == rows.map_values(|h: HistoryRow| history_line(h)),
            ls.deep_view() == start + all.take(i as int),
            forall|j: int|
                0 <= j < i && four_digit_year(rows[j].dt.secs)
                    ==> #[trigger] rows[j].dt.reads_back(),
        decreases history@.len() - i,
    {
        let ghost before = ls.deep_view();
        let when = history[i].dt.to_rfc3339();
        let text = sanitize_field(&history[i].text);
        ls.push(
            HISTORY_TAG.to_owned().concat(&when).concat("\t").concat(&history[i].dir).concat(
                "\t",
            ).concat(&text),
        );
        assert(rows[i as int] == history@[i as int].deep_view());
        assert(ls.deep_view() =~= before.push(all[i as int]));
        assert(before.push(all[i as int]) =~= start + all.take(i + 1));
        i = i + 1;
    }
    assert(all.take(i as int) =~= all);
}

fn push_remote_lines(ls: &mut Vec<String>, remotes: &[RemoteTerminal])
    ensures
        final(ls).deep_view() == old(ls).deep_view() + remotes.deep_view().map_values(
            |r: RemoteRow| remote_line(r),
        ),
{
    let ghost start = ls.deep_view();
    let ghost rows = remotes.deep_view();
    let ghost all = rows.map_values(|r: RemoteRow| remote_line(r));
    let mut i: usize = 0;
    assert(start + all.take(0) =~= start);
    while i < remotes.len()
        invariant
            i <= remotes@.len(),
            rows == remotes.deep_view(),
            all == rows.map_values(|r: RemoteRow| remote_line(r)),
            ls.deep_view() == start + all.take(i as int),
        decreases remotes@.len() - i,
    {
        let ghost before = ls.deep_view();
        let host = sanitize_field(&remotes[i].host);
        let username = sanitize_field(&remotes[i].username);
        ls.push(
            REMOTE_TERMINAL_TAG.to_owned().concat(&host).concat("\t").concat(
                &show(remotes[i].port as u64),
            ).concat("\t").concat(&username),
        );
        assert(rows[i as int] == remotes@[i as int].deep_view());
        assert(ls.deep_view() =~= before.push(all[i as int]));
        assert(before.push(all[i as int]) =~= start + all.take(i + 1));
        i = i + 1;
    }
    assert(all.take(i as int) =~= all);
}

/// The contents of the state file for the given lists. Only connection details
/// of a remote are written, never a password. What the lines can hold as it is
/// loads again: see [`SavedRow::storable`] and [`SavedRow::reread`].
pub fn save_state(
    bookmarks: &[String],
    recent_dirs: &[RecentDir],
    history: &[HistoryItem],
    remote_terminals: &[RemoteTerminal],
    panel_vis: &PanelVis,
    window_size: Option<&WindowSize>,
    open_tabs: &OpenTabs,
    font_size: Option<&str>,
) -> (r: String)
    ensures
        ({
            let saved = SavedRow {
                bookmarks: bookmarks.deep_view(),
                recent_dirs: recent_dirs.deep_view(),
                history: history.deep_view(),
                remote_terminals: remote_terminals.deep_view(),
                panel_vis: *panel_vis,
                window_size: window_size.deep_view(),
                open_tabs: open_tabs.deep_view(),
                font_size: font_size.deep_view(),
            };
            r@ == saved.text() && (saved.storable() ==> forall|windows: bool| #[trigger]
                loaded(lines_of(r@), windows) == saved.reread(windows))
        }),
{
    let ghost saved = SavedRow {
        bookmarks: bookmarks.deep_view(),
        recent_dirs: recent_dirs.deep_view(),
        history: history.deep_view(),
        remote_terminals: remote_terminals.deep_view(),
        panel_vis: *panel_vis,
        window_size: window_size.deep_view(),
        open_tabs: open_tabs.deep_view(),
        font_size: font_size.deep_view(),
    };
    let mut ls: Vec<String> = Vec::new();
    ls.push(HEADER.to_owned());
    assert(ls.deep_view() =~= seq![HEADER@]);
    push_bookmark_lines(&mut ls, bookmarks, BOOKMARK_TAG);
    assert(saved.bookmark_lines() =~= bookmarks.deep_view().map_values(
        |p: Seq<char>| BOOKMARK_TAG@ + p,
    ));
    push_recent_lines(&mut ls, recent_dirs);
    push_history_lines(&mut ls, history);
    let ghost before = ls.deep_view();
    ls.push(write_panel_vis(panel_vis));
    assert(ls.deep_view() =~= before + seq![panel_line(*panel_vis)]);
    let ghost before = ls.deep_view();
    match window_size {
        Some(w) => {
            ls.push(
                WINDOW_SIZE_TAG.to_owned().concat("x=").concat(&w.x).concat(" y=").concat(&w.y),
            );
        },
        None => {},
    }
    assert(ls.deep_view() =~= before + saved.size_lines());
    let ghost before = ls.deep_view();
    if open_tabs.paths.len() > 0 {
        push_bookmark_lines(&mut ls, &open_tabs.paths, OPEN_TAB_TAG);
        let ghost tabs = ls.deep_view();
        ls.push(ACTIVE_TAB_TAG.to_owned().concat(&show(open_tabs.active as u64)));
        proof {
            let paths = open_tabs.paths.deep_view();
            assert(paths.map_values(|p: Seq<char>| OPEN_TAB_TAG@ + p) =~= paths.map_values(
                |p: Seq<char>| tab_line(p),
            ));
            assert(ls.deep_view() =~= tabs.push(active_line(open_tabs.active)));
            assert(saved.open_tabs.paths == paths);
        }
    }
    assert(ls.deep_view() =~= before + saved.tab_lines());
    let ghost before = ls.deep_view();
    match font_size {
        Some(s) => {
            ls.push(FONT_SIZE_TAG.to_owned().concat("size=").concat(s));
        },
        None => {},
    }
    assert(ls.deep_view() =~= before + saved.font_lines());
    push_remote_lines(&mut ls, remote_terminals);
    assert(ls.deep_view() =~= saved.lines());
    proof {
        if saved.storable() {
            assert(saved.times_read_back()) by {
                assert forall|i: int|
                    0 <= i
                        < saved.recent_dirs.len() implies #[trigger] saved.recent_dirs[i].dt.reads_back() by {
                    assert(four_digit_year(saved.recent_dirs[i].dt.secs));
                }
                assert forall|i: int|
                    0 <= i
                        < saved.history.len() implies #[trigger] saved.history[i].dt.reads_back() by {
                    assert(four_digit_year(saved.history[i].dt.secs));
                }
            }
            saved_state_reads_back(saved, true);
            saved_state_reads_back(saved, false);
        }
    }
    join_lines(&ls)
}

spec fn views(v: Seq<&[char]>) -> Seq<Seq<char>> {
    Seq::new(v.len(), |i: int| v[i]@)
}

fn rest_words(rest: &[char]) -> (r: Vec<&[char]>)
    ensures
        views(r@) == words(rest@),
{
    let r = split_words(rest);
    assert(views(r@) =~= words(rest@));
    r
}

/// See [`keyed`].
fn values_of(ws: &Vec<&[char]>, key: &str) -> (r: Vec<String>)
    ensures
        r.deep_view() == keyed(views(ws@), key@),
{
    let ghost all = views(ws@);
    let mut out: Vec<String> = Vec::new();
    let mut i: usize = 0;
    assert(all.take(0).len() == 0);
    assert(out.deep_view() =~= keyed(all.take(0), key@));
    while i < ws.len()
        invariant
            i <= ws@.len(),
            all == views(ws@),
            out.deep_view() == keyed(all.take(i as int), key@),
        decreases ws@.len() - i,
    {
        let ghost before = out.deep_view();
        proof {
            let t = all.take(i + 1);
            assert(t.drop_last() =~= all.take(i as int));
            assert(t.last() == ws@[i as int]@);
        }
        match split_once(ws[i], '=') {
            Some((k, v)) => {
                if spells(k, key) {
                    out.push(text_of(v));
                    assert(out.deep_view() =~= before.push(v@));
                }
            },
            None => {},
        }
        i = i + 1;
    }
    assert(all.take(i as int) =~= all);
    out
}

fn parse_recent(rest: &[char]) -> (r: Option<RecentDir>)
    ensures
        r.deep_view() == recent_of(rest@),
{
    let s = trim_end(rest, Class::White);
    match find(s, Class::One(' ')) {
        Some(i) => match Timestamp::from_rfc3339(&text_of(upto(s, i))) {
            Some(dt) => Some(
                RecentDir { path: text_of(trim_start(from(s, i), Class::White)), dt },
            ),
            None => None,
        },
        None => None,
    }
}

fn parse_history(rest: &[char]) -> (r: Option<HistoryItem>)
    ensures
        r.deep_view() == history_of(rest@),
{
    match split_once(trim_end(rest, Class::One('\r')), '\t') {
        Some((when, more)) => match split_once(more, '\t') {
            Some((dir, text)) => match Timestamp::from_rfc3339(&text_of(when)) {
                Some(dt) => Some(HistoryItem { text: text_of(text), dir: text_of(dir), dt }),
                None => None,
            },
            None => None,
        },
        None => None,
    }
}

fn parse_panel_value(x: &[char]) -> (r: Option<bool>)
    ensures
        r == panel_value(x@),
{
    if spells(x, "1") || spells(&lower_ascii(x), "true") {
        Some(true)
    } else if spells(x, "0") || spells(&lower_ascii(x), "false") {
        Some(false)
    } else {
        None
    }
}

fn parse_panel_word(v: PanelVis, w: &[char]) -> (r: PanelVis)
    ensures
        r == panel_word(v, w@),
{
    let (k, x): (&[char], &[char]) = match split_once(w, '=') {
        None => return v,
        Some((k, x)) => (k, x),
    };
    let on = parse_panel_value(x);
    let d = PanelVis::default();
    if spells(k, "bookmarks") {
        PanelVis { bookmarks: on.unwrap_or(d.bookmarks), ..v }
    } else if spells(k, "recent_dirs") {
        PanelVis { recent_dirs: on.unwrap_or(d.recent_dirs), ..v }
    } else if spells(k, "recent_cmds") {
        PanelVis { recent_cmds: on.unwrap_or(d.recent_cmds), ..v }
    } else if spells(k, "recent_cmds_in_dir") {
        PanelVis { recent_cmds_in_dir: on.unwrap_or(d.recent_cmds_in_dir), ..v }
    } else if spells(k, "remote_terminals") {
        PanelVis { remote_terminals: on.unwrap_or(d.remote_terminals), ..v }
    } else if spells(k, "file_browser") {
        PanelVis { file_browser: on.unwrap_or(d.file_browser), ..v }
    } else {
        v
    }
}

fn parse_panel_vis(v: PanelVis, rest: &[char]) -> (r: PanelVis)
    ensures
        r == panel_words(v, words(rest@)),
{
    let ws = rest_words(rest);
    let ghost all = views(ws@);
    let mut r: PanelVis = v;
    let mut i: usize = 0;
    assert(all.take(0).len() == 0);
    while i < ws.len()
        invariant
            i <= ws@.len(),
            all == views(ws@),
            r == panel_words(v, all.take(i as int)),
        decreases ws@.len() - i,
    {
        r = parse_panel_word(r, ws[i]);
        proof {
            let t = all.take(i + 1);
            assert(t.drop_last() =~= all.take(i as int));
            assert(t.last() == ws@[i as int]@);
        }
        i = i + 1;
    }
    assert(all.take(i as int) =~= all);
    r
}

fn parse_size(rest: &[char]) -> (r: Option<WindowSize>)
    ensures
        r.deep_view() == size_of_line(rest@),
{
    let ws = rest_words(rest);
    let xs = values_of(&ws, "x");
    let ys = values_of(&ws, "y");
    assert(xs.deep_view().len() == xs@.len() && ys.deep_view().len() == ys@.len());
    if xs.len() > 0 && ys.len() > 0 {
        Some(WindowSize { x: xs[xs.len() - 1].clone(), y: ys[ys.len() - 1].clone() })
    } else {
        None
    }
}

fn parse_remote(rest: &[char]) -> (r: Option<RemoteTerminal>)
    ensures
        r.deep_view() == remote_of(rest@),
{
    match split_once(trim_end(rest, Class::One('\r')), '\t') {
        Some((host, more)) => match split_once(more, '\t') {
            Some((port, last)) => match parse_u16(port) {
                Some(n) => {
                    let username = match split_once(last, '\t') {
                        Some((user, _)) => user,
                        None => last,
                    };
                    Some(
                        RemoteTerminal {
                            host: text_of(host),
                            port: n,
                            username: text_of(username),
                        },
                    )
                },
                None => None,
            },
            None => None,
        },
        None => None,
    }
}

/// See [`absorbed`].
#[verifier::spinoff_prover]
#[verifier::rlimit(50)]
fn absorb(acc: &mut LoadedState, line: &[char])
    ensures
        final(acc).deep_view() == absorbed(old(acc).deep_view(), line@),
{
    let ghost was = acc.deep_view();
    let t = trim_start(line, Class::White);
    if t.len() == 0 || t[0] == '#' {
        return;
    }
    if let Some(rest) = strip_prefix(t, BOOKMARK_TAG) {
        acc.bookmarks.push(text_of(trim_end(rest, Class::White)));
        assert(acc.bookmarks.deep_view() =~= was.bookmarks.push(trimmed_end(rest@, Class::White)));
    } else if let Some(rest) = strip_prefix(t, RECENT_DIR_TAG) {
        if let Some(r) = parse_recent(rest) {
            acc.recent_dirs.push(r);
            assert(acc.recent_dirs.deep_view() =~= was.recent_dirs.push(r.deep_view()));
        }
    } else if let Some(rest) = strip_prefix(t, HISTORY_TAG) {
        if let Some(h) = parse_history(rest) {
            acc.history.push(h);
            assert(acc.history.deep_view() =~= was.history.push(h.deep_view()));
        }
    } else if let Some(rest) = strip_prefix(t, PANEL_VIS_TAG) {
        acc.panel_vis = parse_panel_vis(acc.panel_vis, rest);
    } else if let Some(rest) = strip_prefix(t, WINDOW_SIZE_TAG) {
        if let Some(w) = parse_size(rest) {
            acc.window_size.push(w);
            assert(acc.window_size.deep_view() =~= was.window_size.push(w.deep_view()));
        }
    } else if let Some(rest) = strip_prefix(t, OPEN_TAB_TAG) {
        acc.open_tabs.paths.push(text_of(trim_end(rest, Class::White)));
        assert(acc.open_tabs.paths.deep_view() =~= was.open_tabs.paths.push(
            trimmed_end(rest@, Class::White),
        ));
    } else if let Some(rest) = strip_prefix(t, ACTIVE_TAB_TAG) {
        if let Some(i) = parse_usize(trim_end(rest, Class::White)) {
            acc.open_tabs.active = i;
        }
    } else if let Some(rest) = strip_prefix(t, FONT_SIZE_TAG) {
        let ws = rest_words(rest);
        let mut sizes = values_of(&ws, "size");
        let ghost more = sizes.deep_view();
        acc.font_size.append(&mut sizes);
        assert(acc.font_size.deep_view() =~= was.font_size + more);
    } else if let Some(rest) = strip_prefix(t, REMOTE_TERMINAL_TAG) {
        if let Some(r) = parse_remote(rest) {
            acc.remote_terminals.push(r);
            assert(acc.remote_terminals.deep_view() =~= was.remote_terminals.push(r.deep_view()));
        }
    }
}

fn chop_cr(line: &[char]) -> (r: &[char])
    ensures
        r@ == without_cr(line@),
{
    if line.len() > 0 && line[line.len() - 1] == '\r' {
        let r = upto(line, line.len() - 1);
        assert(r@ =~= line@.drop_last());
        r
    } else {
        line
    }
}

/// Where the state file is: in the home directory.
pub open spec fn state_file(home: Option<Seq<char>>, windows: bool) -> Option<Seq<char>> {
    match home {
        Some(h) => Some(joined(h, FILENAME@, windows)),
        None => None,
    }
}

/// What is loaded from the state file, if there is one.
pub open spec fn read_back(contents: Option<Seq<char>>, windows: bool) -> LoadedRow {
    match contents {
        Some(s) => loaded(lines_of(s), windows),
        None => LoadedRow::initial(),
    }
}

/// Read the contents of the state file. No file is not an error: nothing has
/// been saved yet.
pub fn load_state(contents: Option<&str>, windows: bool) -> (r: LoadedState)
    ensures
        r.deep_view() == match contents {
            Some(s) => loaded(lines_of(s@), windows),
            None => LoadedRow::initial(),
        },
        r.deep_view() == read_back(contents.deep_view(), windows),
{
    let mut acc = LoadedState {
        bookmarks: Vec::new(),
        recent_dirs: Vec::new(),
        history: Vec::new(),
        remote_terminals: Vec::new(),
        panel_vis: PanelVis::default(),
        window_size: Vec::new(),
        open_tabs: OpenTabs::default(),
        font_size: Vec::new(),
    };
    let ghost start = LoadedRow::initial();
    proof {
        let v = acc.deep_view();
        assert(v.bookmarks =~= start.bookmarks);
        assert(v.recent_dirs =~= start.recent_dirs);
        assert(v.history =~= start.history);
        assert(v.remote_terminals =~= start.remote_terminals);
        assert(v.window_size =~= start.window_size);
        assert(v.font_size =~= start.font_size);
    }
    let text = match contents {
        Some(s) => chars_of(s),
        None => return acc,
    };
    let mut rest: &[char] = &text;
    let ghost mut done: Seq<Seq<char>> = Seq::empty();
    assert(done + lines_of(rest@) =~= lines_of(text@));
    while rest.len() > 0
        invariant
            done + lines_of(rest@) == lines_of(text@),
            start == LoadedRow::initial(),
            acc.deep_view() == absorbed_all(start, done),
        decreases rest@.len(),
    {
        let ghost before = rest@;
        let ghost was = done;
        let line: &[char];
        match find(rest, Class::One('\n')) {
            Some(i) => {
                line = chop_cr(upto(rest, i));
                assert(i < rest.len());
                rest = from(rest, i + 1);
            },
            None => {
                line = rest;
                rest = from(rest, rest.len());
            },
        }
        absorb(&mut acc, line);
        proof {
            done = was.push(line@);
            assert(done.drop_last() =~= was);
            assert(rest@.len() == 0 ==> lines_of(rest@) =~= Seq::empty());
            assert(lines_of(before) =~= seq![line@] + lines_of(rest@));
            assert(done + lines_of(rest@) =~= was + (seq![line@] + lines_of(rest@)));
        }
    }
    assert(done + lines_of(rest@) =~= done);
    dedup_history(&mut acc.history, windows);
    acc
}

} // verus!
