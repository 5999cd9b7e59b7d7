use shell::state::{
    add_bookmark, dedup_history, record_history, record_history_at, record_recent_dir,
    record_recent_dir_at, HistoryItem, RecentDir,
};
use shell::time::Timestamp;
use shell::util::{
    find_bookmark, find_history_index, find_recent_dir, get_home, history_indices_in_dir,
    history_latest_indices, next_page, page_count, path_from_args, read_browser_files,
    render_history, render_history_in_dir, render_page, render_with_tilde, DirEntry, DIVIDER,
};

fn item(text: &str, dir: &str) -> HistoryItem {
    HistoryItem {
        text: text.to_string(),
        dir: dir.to_string(),
        dt: Timestamp::now(),
    }
}

#[test]
fn cwd_history_keeps_global_indices_and_pages_only_matches() {
    let here = "/work/here";
    let elsewhere = "/work/elsewhere";
    let history: Vec<_> = (0..25)
        .map(|i| item(&format!("task {i}"), if i == 2 { elsewhere } else { here }))
        .collect();

    let first = render_history_in_dir(&history, here, 0, false);
    let second = render_history_in_dir(&history, here, 1, false);
    assert!(first.contains("24:  task 24"));
    assert!(!first.lines().any(|line| line.starts_with("2:  ")));
    assert!(second.contains("0:  task 0"));
    assert!(!second.lines().any(|line| line.starts_with("2:  ")));
    assert_eq!(find_history_index(&history, Some(here), "2", false), None);
    assert_eq!(
        find_history_index(&history, Some(here), "TASK 2", false),
        Some(24)
    );
    assert_eq!(find_history_index(&history, None, "task 2", false), Some(24));
}

#[test]
fn history_dedups_per_dir_and_hides_cross_dir_repeats_globally() {
    let a = "/a";
    let b = "/b";
    let mut history = Vec::new();
    record_history(&mut history, "build", a, false);
    record_history(&mut history, "git pull", a, false);
    record_history(&mut history, "build", a, false);
    record_history(&mut history, "build", b, false);

    let texts: Vec<_> = history
        .iter()
        .map(|h| (h.text.as_str(), h.dir.as_str()))
        .collect();
    assert_eq!(texts, [("git pull", a), ("build", a), ("build", b)]);

    assert_eq!(history_indices_in_dir(&history, a, false), [0, 1]);
    assert_eq!(history_latest_indices(&history), [0, 2]);
    let global = render_history(&history, 0);
    assert!(global.contains("2:  build"));
    assert!(!global.lines().any(|line| line.starts_with("1:  ")));

    let mut loaded: Vec<_> = ["x", "y", "x", "x"].iter().map(|t| item(t, a)).collect();
    dedup_history(&mut loaded, false);
    let texts: Vec<_> = loaded.iter().map(|h| h.text.as_str()).collect();
    assert_eq!(texts, ["y", "x"]);
}

#[test]
fn recording_takes_paths_by_component() {
    let now = Timestamp::now();
    let mut history = vec![item("make", "/a/b/")];
    record_history_at(&mut history, "make", "/a//b", now, false);
    assert_eq!(history.len(), 1);
    assert_eq!(history[0].dir, "/a//b");

    let mut recent: Vec<RecentDir> = Vec::new();
    record_recent_dir_at(&mut recent, "/x", now, false);
    record_recent_dir_at(&mut recent, "/y", now, false);
    record_recent_dir_at(&mut recent, "/x/.", now, false);
    let paths: Vec<_> = recent.iter().map(|r| r.path.as_str()).collect();
    assert_eq!(paths, ["/y", "/x/."]);
    record_recent_dir(&mut recent, "/y", false);
    assert_eq!(recent.len(), 2);
    assert_eq!(recent[1].path, "/y");
}

#[test]
fn bookmarks_are_added_once() {
    let mut list = vec!["/a".to_string()];
    assert_eq!(
        add_bookmark(&mut list, "/a/", false),
        ("This bookmark already exists\n".to_string(), false)
    );
    assert_eq!(
        add_bookmark(&mut list, "/b", false),
        ("Added a bookmark: /b\n".to_string(), true)
    );
    assert_eq!(list, ["/a", "/b"]);
}

#[test]
fn pages_are_counted_and_turned() {
    assert_eq!(page_count(0, 20), 1);
    assert_eq!(page_count(0, 0), 1);
    assert_eq!(page_count(1, 20), 1);
    assert_eq!(page_count(20, 20), 1);
    assert_eq!(page_count(21, 20), 2);
    assert_eq!(page_count(usize::MAX, 1), usize::MAX);
    assert_eq!(next_page(0, 41, 20), 1);
    assert_eq!(next_page(1, 41, 20), 2);
    assert_eq!(next_page(2, 41, 20), 0);
    assert_eq!(next_page(9, 41, 20), 0);
    assert_eq!(next_page(0, 0, 20), 0);
}

#[test]
fn a_page_frames_its_rows() {
    let items = ["a", "b", "c", "d", "e"];
    let row = |i: usize, t: &&str| format!("{i}={t}");
    assert_eq!(
        render_page("T", "hint", "use", "none", &items, 0, 2, row),
        format!("\nT  (hint).  use.  Page 1/3:\n{DIVIDER}\n3=d\n4=e\n{DIVIDER}\n\n")
    );
    assert_eq!(
        render_page("T", "hint", "use", "none", &items, 2, 2, row),
        format!("\nT  (hint).  use.  Page 3/3:\n{DIVIDER}\n0=a\n{DIVIDER}\n\n")
    );
    assert_eq!(
        render_page("T", "hint", "use", "none", &items, 9, 2, row),
        render_page("T", "hint", "use", "none", &items, 2, 2, row)
    );
    assert_eq!(
        render_page("T", "hint", "use", "none", &items, 0, 5, row),
        format!("\nT.  use.  Page 1/1:\n{DIVIDER}\n0=a\n1=b\n2=c\n3=d\n4=e\n{DIVIDER}\n\n")
    );
    let nothing: [&str; 0] = [];
    assert_eq!(
        render_page("T", "hint", "use", "none", &nothing, 3, 2, row),
        format!("\nT.  use.  Page 1/1:\n{DIVIDER}\nnone\n{DIVIDER}\n\n")
    );
}

#[test]
fn every_entry_is_on_one_page() {
    let items: Vec<usize> = (0..47).collect();
    let mut seen = Vec::new();
    for page in 0..page_count(items.len(), 10) {
        let text = render_page("", "", "", "", &items, page, 10, |i: usize, _: &usize| {
            format!("row {i}")
        });
        for line in text.lines() {
            if let Some(n) = line.strip_prefix("row ") {
                seen.push(n.parse::<usize>().unwrap());
            }
        }
    }
    seen.sort_unstable();
    assert_eq!(seen, items);
}

#[test]
fn letters_find_the_newest_match() {
    let history = vec![item("Make all", "/a"), item("ls", "/b"), item("remake", "/b")];
    assert_eq!(find_history_index(&history, None, "MAKE", false), Some(2));
    assert_eq!(find_history_index(&history, Some("/a"), "make", false), Some(0));
    assert_eq!(find_history_index(&history, None, "1", false), Some(1));
    assert_eq!(find_history_index(&history, None, "7", false), None);
    assert_eq!(find_history_index(&history, None, "nope", false), None);

    let bookmarks = vec!["/home/u/Code".to_string(), "/srv/code".to_string()];
    assert_eq!(find_bookmark(&bookmarks, "CODE").as_deref(), Some("/srv/code"));
    assert_eq!(find_bookmark(&bookmarks, "u/c").as_deref(), Some("/home/u/Code"));
    assert_eq!(find_bookmark(&bookmarks, "zzz"), None);

    let recent = vec![
        RecentDir { path: "/x/Straße".to_string(), dt: Timestamp::now() },
        RecentDir { path: "/x/other".to_string(), dt: Timestamp::now() },
    ];
    assert_eq!(find_recent_dir(&recent, "STRA").as_deref(), Some("/x/Straße"));
    assert_eq!(find_recent_dir(&recent, "X").as_deref(), Some("/x/other"));
}

#[test]
fn lower_case_is_that_of_unicode() {
    let bookmarks = vec!["/x/ÄPFEL".to_string()];
    assert_eq!(find_bookmark(&bookmarks, "äpfel").as_deref(), Some("/x/ÄPFEL"));
}

#[test]
fn path_arguments_resolve() {
    let bookmarks = vec!["/data/Projects".to_string()];
    let go = |args: &str, exists: bool| {
        path_from_args(Some("/home/u"), "/work", &bookmarks, args, exists, false)
    };
    assert_eq!(go("", false), "/home/u");
    assert_eq!(go("~", false), "/home/u");
    assert_eq!(go("~/x", false), "/home/u/x");
    assert_eq!(go("~\\x", false), "/home/u/x");
    assert_eq!(go("sub", true), "/work/sub");
    assert_eq!(go("/etc", true), "/etc");
    assert_eq!(go("proj", true), "/work/proj");
    assert_eq!(go("proj", false), "/data/Projects");
    assert_eq!(go("nothing", false), "/work/nothing");
    assert_eq!(path_from_args(None, "/work", &bookmarks, "", false, false), "/work");
    assert_eq!(path_from_args(None, "/work", &bookmarks, "~/x", false, false), "/work/~/x");
}

#[test]
fn what_exists_is_taken_literally() {
    let bookmarks = vec!["/home/u/notes".to_string()];
    assert_eq!(path_from_args(None, "/srv", &bookmarks, "notes", true, false), "/srv/notes");
    assert_eq!(path_from_args(None, "/srv", &bookmarks, "notes", false, false), "/home/u/notes");
}

#[test]
fn shown_paths_are_found_again() {
    for (home, path, windows) in [
        ("/home/u", "/home/u", false),
        ("/home/u/", "/home/u//a/./b/", false),
        ("/", "/x/y", false),
        ("", "/x", false),
        ("", "x/y", false),
        (".", "./x", false),
        ("C:\\Users\\u", "c:/Users\\u\\a b\\c", true),
        ("C:", "C:\\x", true),
        ("C:", "C:x", true),
        ("\\\\server\\home", "//server/home/x/y", true),
        ("C:.", "C:x", true),
        ("C:.", "C:\\x", true),
        ("\\\\?\\C:\\Users\\u", "\\\\?\\c:\\Users\\u\\a\\b", true),
        ("\\\\?\\C:", "\\\\?\\C:\\a", true),
    ] {
        let shown = render_with_tilde(path, Some(home), windows);
        assert!(shown.starts_with('~'), "{shown}");
        for exists in [true, false] {
            let back = path_from_args(Some(home), "/else", &["/x".to_string()], &shown, exists, windows);
            assert!(shell::path::same_path(&back, path, windows), "{back} {path}");
        }
    }
    for (home, path, windows) in [
        (Some("/home/u"), "/srv/a", false),
        (None, "/home/u/a\\b", false),
        (Some("C:\\Users\\u"), "D:\\a", true),
        (None, "\\\\server\\share\\a", true),
    ] {
        let shown = render_with_tilde(path, home, windows);
        assert_eq!(shown, path);
        assert_eq!(path_from_args(home, "/else", &["/srv/abc".to_string()], &shown, true, windows), path);
    }
}

#[test]
fn paths_under_home_are_shown_from_the_tilde() {
    assert_eq!(render_with_tilde("C:\\Users\\u\\a\\b", Some("c:\\Users\\u"), true), "~/a/b");
    assert_eq!(render_with_tilde("D:\\u", Some("C:\\"), true), "D:\\u");
    assert_eq!(render_with_tilde("/home/u", Some("/home/u"), false), "~");
    assert_eq!(render_with_tilde("/home/u/a/b", Some("/home/u"), false), "~/a/b");
    assert_eq!(render_with_tilde("/home/u/a\\b", Some("/home/u/"), false), "~/a/b");
    assert_eq!(render_with_tilde("/home/user", Some("/home/u"), false), "/home/user");
    assert_eq!(render_with_tilde("/x", None, false), "/x");
}

#[test]
fn home_is_the_first_that_is_set() {
    let s = |t: &str| Some(t.to_string());
    assert_eq!(get_home(s("C"), s("/h")), s("C"));
    assert_eq!(get_home(None, s("/h")), s("/h"));
    assert_eq!(get_home(None, None), None);
}

fn entry(name: &str, is_dir: Option<bool>, mode: Option<u32>) -> DirEntry {
    DirEntry {
        path: format!("/d/{name}"),
        name: name.to_string(),
        is_dir,
        mode,
        hidden: false,
    }
}

#[test]
fn listings_put_folders_first() {
    let entries = vec![
        entry("b.sh", Some(false), Some(0o755)),
        entry("Zoo", Some(true), Some(0o755)),
        entry("A.txt", Some(false), Some(0o644)),
        entry("apple", Some(true), None),
        entry("lost", None, Some(0o755)),
        entry("b.SH", Some(false), None),
    ];
    let files = read_browser_files(&entries, false);
    let shown: Vec<_> = files
        .iter()
        .map(|f| (f.disp_name.as_str(), f.is_folder, f.is_executable))
        .collect();
    assert_eq!(
        shown,
        [
            ("apple", true, false),
            ("Zoo", true, false),
            ("A.txt", false, false),
            ("b.sh", false, true),
            ("b.SH", false, false),
        ]
    );
    assert_eq!(files[0].path, "/d/apple");
}

#[test]
fn windows_runs_files_by_extension() {
    let entries = vec![
        entry("a.EXE", Some(false), Some(0)),
        entry("b.msi", Some(false), Some(0)),
        entry("c.txt", Some(false), Some(0o755)),
        entry(".exe", Some(false), Some(0)),
    ];
    let files = read_browser_files(&entries, true);
    let shown: Vec<_> = files
        .iter()
        .map(|f| (f.disp_name.as_str(), f.is_executable))
        .collect();
    assert_eq!(
        shown,
        [(".exe", false), ("a.EXE", true), ("b.msi", true), ("c.txt", false)]
    );
}
