use shell::input_completion::{
    apply_completion, cd_listing_dir, cd_search_name, command_listing_dir,
    complete_cd_path, complete_command_path, BookmarkWalk, CompletionCandidate, CompletionResult,
    DESCENDANT_MAX_DEPTH,
};
use shell::state::RecentDir;
use shell::time::Timestamp;
use shell::util::DirEntry;

/// The directories and files of a made-up disk.
struct Disk {
    dirs: Vec<String>,
    files: Vec<String>,
}

impl Disk {
    fn new(dirs: &[&str], files: &[&str]) -> Disk {
        let mut all: Vec<String> = Vec::new();
        for d in dirs {
            let mut path = String::new();
            for piece in d.split('/').skip(1) {
                path.push('/');
                path.push_str(piece);
                if !all.contains(&path) {
                    all.push(path.clone());
                }
            }
        }
        Disk {
            dirs: all,
            files: files.iter().map(|f| f.to_string()).collect(),
        }
    }

    fn list(&self, dir: &str) -> Vec<DirEntry> {
        let base = dir.trim_end_matches('/').trim_end_matches("/.");
        let of = |paths: &Vec<String>, is_dir: bool| -> Vec<DirEntry> {
            paths
                .iter()
                .filter_map(|p| {
                    let (parent, name) = p.rsplit_once('/')?;
                    (parent == base).then_some(DirEntry {
                        path: p.clone(),
                        name: name.to_string(),
                        is_dir: Some(is_dir),
                        mode: Some(0),
                        hidden: false,
                    })
                })
                .collect()
        };
        let mut out = of(&self.dirs, true);
        out.extend(of(&self.files, false));
        out
    }

    fn complete(
        &self,
        line: &str,
        pos: usize,
        cwd: &str,
        home: Option<&str>,
        bookmarks: &[String],
        recent: &[RecentDir],
    ) -> Option<CompletionResult> {
        let entries = match cd_listing_dir(line, pos, cwd, home, false) {
            Some(dir) => self.list(&dir),
            None => Vec::new(),
        };
        let below = match cd_search_name(line, pos, cwd, home, bookmarks, recent, &entries, false) {
            Some(name) => {
                let mut walk = BookmarkWalk::new(bookmarks, false);
                while let Some(dir) = walk.next_dir() {
                    assert!(dir.depth < DESCENDANT_MAX_DEPTH);
                    walk.take_listing(&name, home, dir.depth, &self.list(&dir.path));
                }
                walk.finish()
            }
            None => Vec::new(),
        };
        complete_cd_path(line, pos, cwd, home, bookmarks, recent, &entries, below, false)
    }
}

fn recent(paths: &[&str]) -> Vec<RecentDir> {
    paths
        .iter()
        .map(|p| RecentDir {
            path: p.to_string(),
            dt: Timestamp::now(),
        })
        .collect()
}

fn shown(r: &CompletionResult) -> Vec<(&str, &str)> {
    r.candidates
        .iter()
        .map(|c| (c.display.as_str(), c.replacement.as_str()))
        .collect()
}

#[test]
fn tab_completes_recent_directory() {
    let recent = recent(&["/work/code"]);
    let disk = Disk::new(&[], &[]);
    let result = disk
        .complete("cd cod", 6, "/work", None, &[], &recent)
        .unwrap();
    assert_eq!(result.candidates.len(), 1);
    assert!(result.candidates[0].replacement.ends_with("code"));
}

#[test]
fn local_prefix_beats_fuzzy_recent_directory() {
    let cwd = "/tmp/shell_completion_test_local_prefix";
    let disk = Disk::new(&["/tmp/shell_completion_test_local_prefix/openmm"], &[]);
    let recent = recent(&["/code/position_mesh/position_mesh_x"]);
    let result = disk
        .complete("cd openm", 8, cwd, None, &[], &recent)
        .unwrap();
    assert_eq!(result.candidates.len(), 1);
    assert_eq!(result.candidates[0].replacement, "openmm");
}

#[test]
fn tab_completes_directory_under_bookmark() {
    let bookmark = "/tmp/shell_completion_test_descendant/code/Bio".to_string();
    let cwd = "/tmp/shell_completion_test_descendant/elsewhere";
    let disk = Disk::new(
        &[
            &format!("{bookmark}/plascad/src"),
            &format!("{bookmark}/site/images/plascad"),
            cwd,
        ],
        &[],
    );
    let result = disk
        .complete("cd plasc", 8, cwd, None, std::slice::from_ref(&bookmark), &[])
        .unwrap();
    assert_eq!(result.candidates.len(), 1);
    assert_eq!(
        result.candidates[0].replacement,
        format!("{bookmark}/plascad")
    );
}

#[test]
fn local_prefix_beats_directory_under_bookmark() {
    let root = "/tmp/shell_completion_test_descendant_local";
    let bookmark = format!("{root}/bm");
    let disk = Disk::new(
        &[
            &format!("{bookmark}/plascad"),
            &format!("{root}/cwd/plascad_local"),
        ],
        &[],
    );
    let result = disk
        .complete("cd plasc", 8, &format!("{root}/cwd"), None, &[bookmark], &[])
        .unwrap();
    assert_eq!(result.candidates.len(), 1);
    assert_eq!(result.candidates[0].replacement, "plascad_local");
}

#[test]
fn bookmarks_come_before_directories_on_disk() {
    let disk = Disk::new(&["/work/code", "/work/docs"], &["/work/cods"]);
    let bookmarks = vec!["/home/u/codes".to_string()];
    let result = disk
        .complete("  cd  CO", 8, "/work", Some("/home/u"), &bookmarks, &[])
        .unwrap();
    assert_eq!(result.start, 6);
    assert_eq!(shown(&result), [("codes", "~/codes")]);
    let result = disk.complete("cd co", 5, "/work", None, &[], &[]).unwrap();
    assert_eq!(shown(&result), [("code", "code")]);
}

#[test]
fn an_empty_argument_offers_bookmarks_then_directories() {
    let disk = Disk::new(&["/work/b", "/work/A"], &["/work/file"]);
    let result = disk
        .complete("cd ", 3, "/work", None, &[], &recent(&["/r"]))
        .unwrap();
    assert_eq!(result.start, 3);
    assert_eq!(shown(&result), [("A", "A"), ("b", "b")]);
    assert!(disk.complete("cd", 2, "/work", None, &[], &[]).is_none());
    assert!(disk.complete("ls x", 4, "/work", None, &[], &[]).is_none());
    assert!(disk.complete("cd x", 9, "/work", None, &[], &[]).is_none());
    assert!(disk.complete("cd ä", 4, "/work", None, &[], &[]).is_none());
}

#[test]
fn nested_arguments_complete_their_last_part() {
    let disk = Disk::new(&["/work/code/Bio", "/work/code/big", "/etc/x"], &[]);
    let result = disk
        .complete("cd code/Bi", 10, "/work", None, &[], &[])
        .unwrap();
    assert_eq!(result.start, 3);
    assert_eq!(shown(&result), [("big", "code/big"), ("Bio", "code/Bio")]);
    let result = disk.complete("cd /et", 6, "/work", None, &[], &[]).unwrap();
    assert_eq!(shown(&result), [("etc", "/etc")]);
}

#[test]
fn parts_rank_by_their_place_and_beat_scattered_letters() {
    let disk = Disk::new(
        &["/w/xxab", "/w/xab", "/w/a_b", "/w/yab"],
        &[],
    );
    let result = disk.complete("cd ab", 5, "/w", None, &[], &[]).unwrap();
    assert_eq!(
        shown(&result),
        [("xab", "xab"), ("yab", "yab"), ("xxab", "xxab")]
    );
    let result = disk.complete("cd a_", 5, "/w", None, &[], &[]).unwrap();
    assert_eq!(shown(&result), [("a_b", "a_b")]);
    let result = disk.complete("cd xb", 5, "/w", None, &[], &[]).unwrap();
    assert_eq!(shown(&result), [("xab", "xab"), ("xxab", "xxab")]);
    let result = disk.complete("cd zz", 5, "/w", None, &[], &[]).unwrap();
    assert!(result.candidates.is_empty());
}

#[test]
fn the_search_skips_hidden_and_built_directories() {
    let disk = Disk::new(
        &[
            "/b/.git/needle",
            "/b/target/needle",
            "/b/node_modules/needle",
            "/b/one/two/three/needle",
            "/b/one/two/three/four/needle_deep",
        ],
        &[],
    );
    let bookmarks = vec!["/b".to_string()];
    let result = disk
        .complete("cd needl", 8, "/w", None, &bookmarks, &[])
        .unwrap();
    assert_eq!(
        shown(&result),
        [("/b/one/two/three/needle", "/b/one/two/three/needle")]
    );
    let result = disk
        .complete("cd deep", 7, "/w", None, &bookmarks, &[])
        .unwrap();
    assert!(result.candidates.is_empty());
}

#[test]
fn the_search_visits_a_directory_once() {
    let disk = Disk::new(&["/b/in/needle"], &[]);
    let bookmarks = vec!["/b".to_string(), "/b/in".to_string()];
    let result = disk
        .complete("cd needl", 8, "/w", None, &bookmarks, &[])
        .unwrap();
    assert_eq!(result.candidates.len(), 1);
}

#[test]
fn explicit_paths_offer_files_too() {
    let disk = Disk::new(&["/work/install_dir"], &["/work/install_program.sh", "/work/x"]);
    let line = "sudo ./install_";
    let dir = command_listing_dir(line, line.len(), "/work", None, false).unwrap();
    assert_eq!(dir, "/work/.");
    let result =
        complete_command_path(line, line.len(), "/work", None, &disk.list(&dir), false).unwrap();
    assert_eq!(result.start, 5);
    assert_eq!(
        shown(&result),
        [
            ("install_dir/", "./install_dir/"),
            ("install_program.sh", "./install_program.sh"),
        ]
    );
    assert!(complete_command_path("install", 7, "/work", None, &[], false).is_none());
    for word in ["./", ".\\", "../x", "..\\x", "~/", "~\\", "/", "\\", "C:/x", "c:\\"] {
        assert!(complete_command_path(word, word.len(), "/", None, &[], false).is_some(), "{word}");
    }
    for word in ["x/y", "C:x", "1:/", ".x", "~x", ""] {
        assert!(complete_command_path(word, word.len(), "/", None, &[], false).is_none(), "{word}");
    }
}

#[test]
fn words_stand_behind_any_white_space() {
    let line = "ls\u{3000}./x";
    let result = complete_command_path(line, 8, "/nonexistent", None, &[], false).unwrap();
    assert_eq!(result.start, 5);
    assert!(result.candidates.is_empty());
}

#[test]
fn the_tilde_is_completed_in_the_home_directory() {
    let disk = Disk::new(&["/home/u/inner", "/work"], &["/home/u/install.sh"]);
    let home = Some("/home/u");
    let dir = command_listing_dir("~/ins", 5, "/work", home, false).unwrap();
    assert_eq!(dir, "/home/u");
    let result =
        complete_command_path("~/ins", 5, "/work", home, &disk.list(&dir), false).unwrap();
    assert_eq!(result.start, 0);
    assert_eq!(shown(&result), [("install.sh", "~/install.sh")]);
    assert_eq!(cd_listing_dir("cd ~/inn", 8, "/work", home, false).as_deref(), Some("/home/u"));
    assert_eq!(cd_listing_dir("cd ~\\inn", 8, "/work", home, false).as_deref(), Some("/home/u"));
    assert_eq!(cd_listing_dir("cd ~/a/b", 8, "/work", home, false).as_deref(), Some("/home/u/a"));
    assert_eq!(cd_listing_dir("cd ~/inn", 8, "/work", None, false).as_deref(), Some("/work/~"));
}

#[test]
fn windows_paths_complete_by_their_last_part() {
    let home = Some("C:\\Users\\u");
    let bookmarks = vec!["c:\\Users\\u\\Code".to_string(), "D:\\data".to_string()];
    let result =
        complete_cd_path("cd cod", 6, "D:\\", home, &bookmarks, &[], &[], Vec::new(), true).unwrap();
    assert_eq!(shown(&result), [("Code", "~/Code")]);
    assert_eq!(cd_listing_dir("cd C:\\x", 7, "D:\\", home, true).as_deref(), Some("C:\\"));
    assert_eq!(cd_listing_dir("cd a\\x", 6, "D:\\w", home, true).as_deref(), Some("D:\\w\\a"));
}

fn result(start: usize, texts: &[&str]) -> CompletionResult {
    CompletionResult {
        start,
        candidates: texts
            .iter()
            .map(|t| CompletionCandidate {
                display: t.to_string(),
                replacement: t.to_string(),
            })
            .collect(),
    }
}

#[test]
fn a_completion_puts_in_what_all_candidates_share() {
    let apply = |line: &str, pos: usize, r: &CompletionResult| apply_completion(line, pos, r);
    assert_eq!(apply("cd co", 5, &result(3, &["code"])).as_deref(), Some("cd code"));
    assert_eq!(
        apply("cd co && ls", 5, &result(3, &["code", "coder", "codes"])).as_deref(),
        Some("cd code && ls")
    );
    assert_eq!(apply("cd co", 5, &result(3, &["cow", "cot"])), None);
    assert_eq!(apply("cd co", 5, &result(3, &[])), None);
    assert_eq!(apply("cd co", 2, &result(3, &["x"])), None);
    assert_eq!(apply("cd co", 6, &result(3, &["x"])), None);
    assert_eq!(apply("cd ä", 4, &result(3, &["x"])), None);
    assert_eq!(apply("cd ä", 5, &result(4, &["x"])), None);
    assert_eq!(apply("cd ä", 5, &result(3, &["ähre", "ähnlich"])).as_deref(), Some("cd äh"));
    assert_eq!(apply("cd x", 4, &result(3, &["a", "b"])).as_deref(), Some("cd "));
}
