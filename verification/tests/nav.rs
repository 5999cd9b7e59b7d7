use shell::state::HistoryItem;
use shell::time::Timestamp;
use shell::NavState;

fn hist(texts: &[&str]) -> Vec<HistoryItem> {
    texts
        .iter()
        .map(|t| HistoryItem {
            text: (*t).to_string(),
            dir: String::new(),
            dt: Timestamp::now(),
        })
        .collect()
}

#[test]
fn step_his_empty_prefix_walks_all() {
    let h = hist(&["one", "two", "three"]);
    let mut nav = NavState::new();
    assert_eq!(nav.step_his(&h, true, "").as_deref(), Some("three"));
    assert_eq!(nav.step_his(&h, true, "").as_deref(), Some("two"));
    assert_eq!(nav.step_his(&h, true, "").as_deref(), Some("one"));
    assert_eq!(nav.step_his(&h, true, ""), None);
    assert_eq!(nav.his_cursor, Some(0));
}

#[test]
fn step_his_prefix_filters() {
    let h = hist(&["git status", "cargo build", "git commit", "ls"]);
    let mut nav = NavState::new();
    assert_eq!(nav.step_his(&h, true, "git").as_deref(), Some("git commit"));
    assert_eq!(nav.his_cursor, Some(2));
    assert_eq!(nav.step_his(&h, true, "git").as_deref(), Some("git status"));
    assert_eq!(nav.his_cursor, Some(0));
    assert_eq!(nav.step_his(&h, true, "git"), None);
}

#[test]
fn step_his_down_restores_draft() {
    let h = hist(&["git status", "git commit"]);
    let mut nav = NavState::new();
    assert_eq!(
        nav.step_his(&h, true, "git ").as_deref(),
        Some("git commit")
    );
    assert_eq!(
        nav.step_his(&h, false, "git commit").as_deref(),
        Some("git ")
    );
    assert_eq!(nav.his_cursor, None);
}

#[test]
fn step_his_no_match_is_noop() {
    let h = hist(&["git status"]);
    let mut nav = NavState::new();
    assert_eq!(nav.step_his(&h, true, "zzz"), None);
    assert_eq!(nav.his_cursor, None);
}

#[test]
fn up_then_down_comes_back_to_every_entry() {
    let h = hist(&["git a", "ls", "git b", "git c"]);
    let mut nav = NavState::new();
    assert_eq!(nav.step_his(&h, true, "git").as_deref(), Some("git c"));
    assert_eq!(nav.step_his(&h, true, "git c").as_deref(), Some("git b"));
    assert_eq!(nav.step_his(&h, false, "git b").as_deref(), Some("git c"));
    assert_eq!(nav.his_cursor, Some(3));
    assert_eq!(nav.step_his(&h, false, "git c").as_deref(), Some("git"));
    assert_eq!(nav.step_his(&h, false, "git"), None);
    assert!(!nav.draft_set);
    assert_eq!(nav.draft, "");
}

#[test]
fn down_without_recall_and_empty_history_do_nothing() {
    let mut nav = NavState::new();
    assert_eq!(nav.step_his(&[], true, "x"), None);
    assert_eq!(nav.step_his(&hist(&["a"]), false, "x"), None);
    assert!(!nav.draft_set);
}

fn recent(paths: &[&str]) -> Vec<shell::RecentDir> {
    paths
        .iter()
        .map(|p| shell::RecentDir {
            path: (*p).to_string(),
            dt: Timestamp::now(),
        })
        .collect()
}

#[test]
fn left_and_right_walk_recent_directories() {
    let r = recent(&["/a", "/b"]);
    let show = |p: &String| format!("cd {p}");
    let mut nav = NavState::new();
    assert_eq!(nav.step_cd(&r, false, "", show), None);
    assert_eq!(nav.step_cd(&r, true, "", show).as_deref(), Some("cd /b"));
    assert_eq!(nav.step_cd(&r, true, "", show).as_deref(), Some("cd /a"));
    assert_eq!(nav.step_cd(&r, true, "", show), None);
    assert_eq!(nav.cd_cursor, Some(0));
    assert_eq!(nav.step_cd(&r, false, "", show).as_deref(), Some("cd /b"));
    assert_eq!(nav.step_cd(&r, false, "", show).as_deref(), Some(""));
    assert_eq!(nav.cd_cursor, None);
    assert_eq!(nav.step_cd(&[], true, "", show), None);
}

#[test]
fn the_two_axes_exclude_each_other() {
    let h = hist(&["one"]);
    let r = recent(&["/a"]);
    let mut nav = NavState::new();
    nav.step_his(&h, true, "");
    assert_eq!(nav.his_indicator(), " his 0");
    assert_eq!(nav.cd_indicator(), "");
    nav.step_cd(&r, true, "", |p: &String| p.clone());
    assert_eq!(nav.his_cursor, None);
    assert_eq!(nav.cd_indicator(), " cd 0");
    nav.reset();
    assert_eq!(nav.his_indicator(), "");
    assert_eq!(nav.cd_indicator(), "");
    assert_eq!(NavState::default().draft, "");
}

#[test]
fn a_draft_is_kept_only_while_recalling() {
    let h = hist(&["git a", "ls"]);
    let mut nav = NavState::new();
    assert_eq!(nav.step_his(&h, false, "gi"), None);
    assert!(!nav.draft_set && nav.draft.is_empty());
    assert_eq!(nav.step_his(&h, true, "gi").as_deref(), Some("git a"));
    assert!(nav.draft_set && nav.draft == "gi");
    assert_eq!(nav.step_his(&h, false, "git a").as_deref(), Some("gi"));
    assert!(!nav.draft_set && nav.draft.is_empty());
}
