use shell::save_data::{default_path, load_state, save_state, LoadedState, FILENAME};
use shell::state::{HistoryItem, OpenTabs, PanelVis, RecentDir, RemoteTerminal, State, WindowSize};
use shell::time::Timestamp;

const HEADER: &str = "# Shell state — auto-generated. Do not edit while shell is running.\n";

fn at(secs: i64) -> Timestamp {
    Timestamp::new(secs, 123_456_789).unwrap()
}

fn load(s: &str) -> LoadedState {
    load_state(Some(s), false)
}

#[test]
fn the_state_file_is_written_line_by_line() {
    let text = save_state(
        &["/a b".to_string()],
        &[RecentDir { path: "/r".to_string(), dt: at(0) }],
        &[HistoryItem { text: "echo\ta\r\nb ".to_string(), dir: "/d".to_string(), dt: at(60) }],
        &[RemoteTerminal { host: "h\tx".to_string(), port: 22, username: "u".to_string() }],
        &PanelVis::default(),
        Some(&WindowSize { x: "800".to_string(), y: "600.5".to_string() }),
        &OpenTabs { paths: vec!["/t1".to_string(), "/t2".to_string()], active: 1 },
        Some("14"),
    );
    let expected = [
        "BM /a b",
        "REC_DIR 1970-01-01T00:00:00Z /r",
        "HIS 1970-01-01T00:01:00Z\t/d\techo a  b ",
        "PANEL_VIS bookmarks=1 recent_dirs=1 recent_cmds=1 recent_cmds_in_dir=1 remote_terminals=0 file_browser=1",
        "WINDOW_SIZE x=800 y=600.5",
        "OPEN_TAB /t1",
        "OPEN_TAB /t2",
        "ACTIVE_TAB 1",
        "FONT_SIZE size=14",
        "REMOTE_TERMINAL h x\t22\tu",
    ];
    assert_eq!(text, format!("{HEADER}{}\n", expected.join("\n")));
}

#[test]
fn what_is_saved_loads_again() {
    let panels = PanelVis { bookmarks: false, remote_terminals: true, ..PanelVis::default() };
    let text = save_state(
        &["/a b".to_string(), "".to_string(), " /lead".to_string()],
        &[RecentDir { path: "/r s".to_string(), dt: at(1782222092) }],
        &[
            HistoryItem { text: "ls ".to_string(), dir: "".to_string(), dt: at(-5) },
            HistoryItem { text: "".to_string(), dir: "/d e".to_string(), dt: at(7) },
        ],
        &[RemoteTerminal { host: "h".to_string(), port: 65535, username: "".to_string() }],
        &panels,
        Some(&WindowSize { x: "1".to_string(), y: "2".to_string() }),
        &OpenTabs { paths: vec!["/t".to_string()], active: 7 },
        Some("12.5"),
    );
    let back = load(&text);
    assert_eq!(back.bookmarks, ["/a b", "", " /lead"]);
    assert_eq!(back.recent_dirs.len(), 1);
    assert_eq!(back.recent_dirs[0].path, "/r s");
    assert_eq!((back.recent_dirs[0].dt.secs(), back.recent_dirs[0].dt.nanos()), (1782222092, 0));
    let items: Vec<_> = back
        .history
        .iter()
        .map(|h| (h.text.as_str(), h.dir.as_str(), h.dt.secs(), h.dt.nanos()))
        .collect();
    assert_eq!(items, [("ls ", "", -5, 0), ("", "/d e", 7, 0)]);
    assert_eq!(back.remote_terminals[0].port, 65535);
    assert_eq!(back.remote_terminals[0].username, "");
    assert_eq!(back.panel_vis, panels);
    assert_eq!(back.window_size.len(), 1);
    assert_eq!((back.window_size[0].x.as_str(), back.window_size[0].y.as_str()), ("1", "2"));
    assert_eq!(back.open_tabs.paths, ["/t"]);
    assert_eq!(back.open_tabs.active, 7);
    assert_eq!(back.font_size, ["12.5"]);
}

#[test]
fn no_file_is_no_saved_state() {
    let s = load_state(None, false);
    assert!(s.bookmarks.is_empty() && s.history.is_empty() && s.recent_dirs.is_empty());
    assert!(s.remote_terminals.is_empty() && s.window_size.is_empty() && s.font_size.is_empty());
    assert_eq!(s.panel_vis, PanelVis::default());
    assert_eq!((s.open_tabs.paths.len(), s.open_tabs.active), (0, 0));
    assert!(!s.panel_vis.remote_terminals && s.panel_vis.file_browser);
}

#[test]
fn odd_lines_are_skipped() {
    let s = load(
        "\n   \n # note\nNEW_TAG x\nBM\n  BM /indented  \r\nREC_DIR nonsense\nREC_DIR yesterday /x\n\
         HIS 1970-01-01T00:00:00Z\t/only\nHIS bad\t/d\tls\nREMOTE_TERMINAL h\t99999\tu\n\
         REMOTE_TERMINAL h\t22\nACTIVE_TAB x\nWINDOW_SIZE x=1\nFONT_SIZE big\nBM /last",
    );
    assert_eq!(s.bookmarks, ["/indented", "/last"]);
    assert!(s.recent_dirs.is_empty() && s.history.is_empty() && s.remote_terminals.is_empty());
    assert_eq!(s.open_tabs.active, 0);
    assert!(s.window_size.is_empty() && s.font_size.is_empty());
}

#[test]
fn carriage_returns_at_line_ends_are_dropped() {
    let s = load("HIS 1970-01-01T00:00:00Z\t/d\tls \r\r\nREMOTE_TERMINAL h\t+22\tu\tmore\r\n");
    assert_eq!(s.history[0].text, "ls ");
    assert_eq!(s.remote_terminals[0].username, "u");
    assert_eq!(s.remote_terminals[0].port, 22);
}

#[test]
fn panels_take_known_keys() {
    let s = load("PANEL_VIS bookmarks=0 recent_dirs=TRUE recent_cmds=False other=1 file_browser noise\n");
    assert!(!s.panel_vis.bookmarks);
    assert!(s.panel_vis.recent_dirs);
    assert!(!s.panel_vis.recent_cmds);
    assert!(s.panel_vis.recent_cmds_in_dir);
    assert!(s.panel_vis.file_browser);
}

#[test]
fn malformed_panel_values_give_the_default() {
    let s = load("PANEL_VIS bookmarks=maybe remote_terminals=1 future_panel=1\n");
    assert_eq!(s.panel_vis, PanelVis { remote_terminals: true, ..PanelVis::default() });
    let s = load("PANEL_VIS bookmarks=0 bookmarks=2 recent_dirs=no\n");
    assert_eq!(s.panel_vis, PanelVis::default());
    let s = load("PANEL_VIS remote_terminals=1 remote_terminals=2\nPANEL_VIS recent_cmds=0\nPANEL_VIS recent_cmds=\n");
    assert_eq!(s.panel_vis, PanelVis::default());
}

#[test]
fn sizes_are_kept_in_order() {
    let s = load("WINDOW_SIZE x=1 y=2 x=3\nWINDOW_SIZE y=5 x=4 z\nFONT_SIZE size=1 size=2 x=3\nFONT_SIZE size=a=b\n");
    let sizes: Vec<_> = s.window_size.iter().map(|w| (w.x.as_str(), w.y.as_str())).collect();
    assert_eq!(sizes, [("3", "2"), ("4", "5")]);
    assert_eq!(s.font_size, ["1", "2", "a=b"]);
}

#[test]
fn loading_keeps_the_newest_of_repeated_commands() {
    let line = |secs: u32, dir: &str, text: &str| format!("HIS 1970-01-01T00:00:0{secs}Z\t{dir}\t{text}\n");
    let s = load(&(line(1, "/a", "x") + &line(2, "/a", "y") + &line(3, "/a/", "x") + &line(4, "/b", "x")));
    let items: Vec<_> = s.history.iter().map(|h| (h.text.as_str(), h.dt.secs())).collect();
    assert_eq!(items, [("y", 2), ("x", 3), ("x", 4)]);
}

#[test]
fn the_file_lives_in_the_home_directory() {
    assert_eq!(FILENAME, "shell_state.ss");
    assert_eq!(default_path(Some("/home/u"), false).as_deref(), Some("/home/u/shell_state.ss"));
    assert_eq!(default_path(None, false), None);
}

#[test]
fn a_state_carries_the_layout_from_load_to_save() {
    let text = format!(
        "{HEADER}BM /b\nPANEL_VIS bookmarks=0 recent_dirs=1 recent_cmds=1 recent_cmds_in_dir=1 remote_terminals=1 file_browser=0\nWINDOW_SIZE x=10 y=20\nOPEN_TAB /t\nACTIVE_TAB 0\nFONT_SIZE size=9\n"
    );
    let mut loaded = load(&text);
    let size = loaded.window_size.pop();
    let font = loaded.font_size.pop();
    let state = State::load(loaded, None, "/".to_string(), None, size, font, false);
    assert_eq!(state.save(), text);
    assert!(state.active_remote.is_none());
}
