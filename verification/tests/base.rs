use shell::bytes::{bytes_capped, char_index, char_width};
use shell::num::{parse_u16, parse_usize, show};
use shell::order::text_before;
use shell::path::{file_name, is_absolute, join, same_path, strip_prefix};
use shell::text::{
    chars_of, contains, find_text, lower_ascii, rfind_text, split_words, text_of, trim, white,
    Class,
};
use shell::time::Timestamp;
use std::path::Path;

fn all_words(letters: &[char], max: usize) -> Vec<String> {
    let mut out = vec![String::new()];
    let mut last = out.clone();
    for _ in 0..max {
        let mut next = Vec::new();
        for w in &last {
            for c in letters {
                let mut t = w.clone();
                t.push(*c);
                next.push(t);
            }
        }
        out.extend(next.iter().cloned());
        last = next;
    }
    out
}

#[test]
fn white_space_is_that_of_unicode() {
    for n in 0..=0x10ffffu32 {
        if let Some(c) = char::from_u32(n) {
            assert_eq!(white(c), c.is_whitespace(), "{n:x}");
            assert_eq!(char_width(c), c.len_utf8());
        }
    }
}

#[test]
fn paths_compare_by_components() {
    let paths = all_words(&['/', '.', 'a'], 5);
    for a in &paths {
        assert_eq!(is_absolute(a, false), Path::new(a).is_absolute());
        assert_eq!(
            file_name(a, false),
            Path::new(a)
                .file_name()
                .map(|n| n.to_string_lossy().into_owned())
        );
        for b in &paths {
            assert_eq!(same_path(a, b, false), Path::new(a) == Path::new(b), "{a} {b}");
        }
    }
}

#[test]
fn paths_join_and_strip_as_the_system_does() {
    let paths = all_words(&['/', '.', 'a', 'b'], 4);
    for a in &paths {
        for b in &paths {
            assert_eq!(join(a, b, false), Path::new(a).join(b).display().to_string());
            assert_eq!(
                strip_prefix(a, b, false),
                Path::new(a)
                    .strip_prefix(b)
                    .ok()
                    .map(|r| r.display().to_string()),
                "{a} {b}"
            );
        }
    }
}

#[test]
fn windows_paths_have_drives_and_shares() {
    for (base, rel, path) in [
        ("C:\\x", "y", "C:\\x\\y"),
        ("C:\\x", "D:\\y", "D:\\y"),
        ("C:\\x", "D:y", "D:y"),
        ("C:\\x", "\\y", "C:\\y"),
        ("C:\\x", "/y", "C:/y"),
        ("C:", "y", "C:y"),
        ("C:\\", "y", "C:\\y"),
        ("x/", "y", "x/y"),
        ("", "y", "y"),
        ("\\\\s\\d", "y", "\\\\s\\d\\y"),
        ("\\\\s\\d\\x", "\\y", "\\\\s\\d\\y"),
        ("C:\\x", "\\\\s\\d\\y", "\\\\s\\d\\y"),
    ] {
        assert_eq!(join(base, rel, true), path, "{base} {rel}");
    }
    assert!(is_absolute("C:\\", true) && is_absolute("\\\\s\\d", true));
    assert!(!is_absolute("C:x", true) && !is_absolute("\\x", true) && !is_absolute("x", true));
    assert_eq!(file_name("C:\\work/code\\", true).as_deref(), Some("code"));
    assert_eq!(file_name("C:\\", true), None);
    assert_eq!(file_name("C:x", true).as_deref(), Some("x"));
    assert_eq!(file_name("\\\\s\\d", true), None);
    assert!(same_path("c:\\A\\.\\b", "C:/A//b/", true));
    assert!(same_path("\\\\s\\d", "//s/d/", true));
    assert!(!same_path("C:\\a", "C:\\A", true));
    assert!(!same_path("C:\\a", "C:a", true));
    assert!(!same_path("C:\\a", "D:\\a", true));
    assert!(!same_path("a\\b", "a/b", false));
    assert_eq!(strip_prefix("C:\\a\\b/c\\", "c:/a", true).as_deref(), Some("b/c"));
    assert_eq!(strip_prefix("C:\\a", "C:", true).as_deref(), Some("\\a"));
    assert_eq!(strip_prefix("C:\\a", "D:\\", true), None);
    assert_eq!(strip_prefix("C:\\a", "C:a", true), None);
    assert_eq!(strip_prefix("C:\\a\\", "", true).as_deref(), Some("C:\\a"));
}

#[test]
fn some_windows_paths_are_read_literally() {
    for (base, rel, path) in [
        ("\\\\?\\C:\\a", "b", "\\\\?\\C:\\a\\b"),
        ("\\\\?\\C:\\a", "..\\b/./c/", "\\\\?\\C:\\b\\c"),
        ("\\\\?\\C:\\a", "..\\..", "\\\\?\\C:\\"),
        ("\\\\?\\C:\\a\\.", "..", "\\\\?\\C:\\a\\."),
        ("\\\\?\\C:", "x", "\\\\?\\C:\\x"),
        ("\\\\?\\C:", ".", "\\\\?\\C:"),
        ("\\\\?\\C:\\a", "/y", "\\\\?\\C:\\y"),
        ("\\\\?\\C:\\a", "", "\\\\?\\C:\\a\\"),
        ("\\\\?\\C:\\a", "D:\\y", "D:\\y"),
        ("C:\\a", "\\\\?\\D:\\y", "\\\\?\\D:\\y"),
        ("\\\\?\\UNC\\s\\d", "x/y", "\\\\?\\UNC\\s\\d\\x\\y"),
        ("//?/C:/a", "../b", "//?/C:/a\\../b"),
        ("\\\\.\\COM1", "x", "\\\\.\\COM1\\x"),
        ("\\\\.\\", "x", "\\\\.\\x"),
    ] {
        assert_eq!(join(base, rel, true), path, "{base} {rel}");
    }
    assert!(is_absolute("\\\\?\\x", true) && is_absolute("\\\\?\\C:", true));
    assert!(is_absolute("\\\\.\\x", true) && is_absolute("//?/C:", true));
    assert_eq!(file_name("\\\\?\\C:\\a/b", true).as_deref(), Some("a/b"));
    assert_eq!(file_name("//?/C:/a/b", true).as_deref(), Some("b"));
    assert_eq!(file_name("\\\\?\\C:\\a\\.", true), None);
    assert_eq!(file_name("\\\\?\\a\\b\\", true).as_deref(), Some("b"));
    assert_eq!(file_name("\\\\?\\a", true), None);
    for (a, b) in [
        ("\\\\?\\c:\\a", "\\\\?\\C:\\\\a\\"),
        ("\\\\?\\C:/a", "\\\\?\\C:\\a"),
        ("\\\\?\\UNC\\s\\d\\a", "\\\\?\\UNC/s\\d\\a"),
        ("\\\\.\\COM1", "//./COM1/"),
        ("\\\\?\\UNC\\s\\d", "\\\\?\\UNC\\s\\d"),
    ] {
        assert!(same_path(a, b, true), "{a} {b}");
    }
    for (a, b) in [
        ("\\\\?\\C:\\a/b", "\\\\?\\C:\\a\\b"),
        ("\\\\?\\C:", "\\\\?\\C:\\"),
        ("\\\\?\\C:\\.\\a", "\\\\?\\C:\\a"),
        ("\\\\?\\C:\\a", "C:\\a"),
        ("\\\\?\\C:\\a", "//?/C:/a"),
        ("\\\\?\\UNC\\s\\d", "\\\\s\\d"),
        ("\\\\?\\UNC\\s\\d\\a", "\\\\?\\UNC\\s\\D\\a"),
    ] {
        assert!(!same_path(a, b, true), "{a} {b}");
    }
    for (path, base, rest) in [
        ("\\\\?\\UNC\\s\\d\\a\\b", "\\\\?\\UNC\\s\\d", Some("\\a\\b")),
        ("\\\\?\\UNC\\s\\d\\a\\b", "\\\\?\\UNC\\s\\d\\", Some("a\\b")),
        ("\\\\?\\UNC\\s\\d\\a", "\\\\?\\UNC\\s", None),
        ("\\\\?\\C:/a\\.\\b\\", "\\\\?\\c:", Some("/a\\.\\b")),
        ("\\\\?\\C:\\a\\.\\b", "\\\\?\\c:\\a", Some(".\\b")),
        ("\\\\?\\C:\\a\\.\\b", "", Some("\\\\?\\C:\\a\\.\\b")),
    ] {
        assert_eq!(strip_prefix(path, base, true).as_deref(), rest, "{path} {base}");
    }
}

#[test]
fn a_dot_behind_a_drive_names_nothing() {
    assert!(same_path("C:.\\x", "C:x", true));
    assert!(!same_path(".\\x", "x", true));
    assert_eq!(file_name("C:.", true), None);
    assert_eq!(strip_prefix("C:.\\x\\y", "C:x", true).as_deref(), Some("y"));
    assert_eq!(strip_prefix("C:.\\x", "C:", true).as_deref(), Some(".\\x"));
    assert_eq!(strip_prefix("C:.\\", "C:", true).as_deref(), Some("."));
    assert_eq!(strip_prefix("C:x", "C:.", true).as_deref(), Some("x"));
}

#[test]
fn bytes_are_counted_up_to_a_cap() {
    let text: Vec<char> = "aé😀".chars().collect();
    assert_eq!(bytes_capped(&text, 100), 7);
    assert_eq!(bytes_capped(&text, 7), 7);
    assert_eq!(bytes_capped(&text, 5), 5);
    assert_eq!(bytes_capped(&text, 0), 0);
}

#[test]
fn dots_inside_names_are_names() {
    assert_eq!(file_name("/x/..a", false).as_deref(), Some("..a"));
    assert_eq!(file_name("/x/..", false), None);
    assert_eq!(file_name(".", false), None);
    assert!(same_path("/a//b/./c/", "/a/b/c", false));
    assert!(!same_path("/a", "a", false));
}

#[test]
fn numbers_parse_as_the_standard_library_does() {
    for s in [
        "", "+", "-1", "0", "00", "+7", "12", "65535", "65536", "18446744073709551615",
        "18446744073709551616", "1 ", " 1", "1a", "++1", "٣",
    ] {
        assert_eq!(parse_usize(&chars_of(s)), s.parse::<usize>().ok(), "{s}");
        assert_eq!(parse_u16(&chars_of(s)), s.parse::<u16>().ok(), "{s}");
    }
    for n in [0u64, 9, 10, 99, 100, 12345, u64::MAX] {
        assert_eq!(show(n), n.to_string());
    }
}

#[test]
fn searches_find_the_first_and_the_last_place() {
    let h = chars_of("abcabc");
    assert_eq!(find_text(&h, &chars_of("bc")), Some(1));
    assert_eq!(rfind_text(&h, &chars_of("bc")), Some(4));
    assert_eq!(rfind_text(&h, &chars_of("")), Some(6));
    assert_eq!(find_text(&h, &chars_of("x")), None);
    assert!(contains(&h, &chars_of("ca")));
}

#[test]
fn trimming_and_words() {
    let s = chars_of(" \u{3000}a b\t");
    assert_eq!(text_of(trim(&s, Class::White)), "a b");
    let quoted = chars_of("\"\"x\"");
    assert_eq!(text_of(trim(&quoted, Class::One('"'))), "x");
    let v = chars_of("  one\u{a0}two \n three ");
    let ws: Vec<String> = split_words(&v).into_iter().map(text_of).collect();
    assert_eq!(ws, ["one", "two", "three"]);
    assert_eq!(text_of(&lower_ascii(&chars_of("AbÄZ"))), "abÄz");
}

#[test]
fn byte_positions_fall_on_characters() {
    let line = "aä€😀";
    let v = chars_of(line);
    for pos in 0..12 {
        let expected = if pos <= line.len() && line.is_char_boundary(pos) {
            Some(line[..pos].chars().count())
        } else {
            None
        };
        assert_eq!(char_index(&v, pos), expected);
    }
}

#[test]
fn texts_are_ordered_by_character_code() {
    let words = all_words(&['a', 'Z', 'é', '😀'], 3);
    for a in &words {
        for b in &words {
            assert_eq!(text_before(&chars_of(a), &chars_of(b)), a < b);
        }
    }
}

#[test]
fn times_are_written_in_whole_seconds() {
    let t = Timestamp::new(1782222092, 987_654_321).unwrap();
    assert_eq!(t.to_rfc3339(), "2026-06-23T13:41:32Z");
    let back = Timestamp::from_rfc3339("2026-06-23T13:41:32Z").unwrap();
    assert_eq!((back.secs(), back.nanos()), (1782222092, 0));
    let zoned = Timestamp::from_rfc3339("2026-06-23T15:41:32.5+02:00").unwrap();
    assert_eq!((zoned.secs(), zoned.nanos()), (1782222092, 500_000_000));
    assert!(Timestamp::from_rfc3339("yesterday").is_none());
    assert!(Timestamp::from_rfc3339("").is_none());
}

#[test]
fn times_read_back_in_four_digit_years() {
    for secs in [-62167219200i64, -1, 0, 59, 1782222092, 253402300799] {
        let t = Timestamp::new(secs, 1).unwrap();
        let back = Timestamp::from_rfc3339(&t.to_rfc3339()).unwrap();
        assert_eq!((back.secs(), back.nanos()), (secs, 0));
    }
    let leap = Timestamp::new(1483228799, 1_500_000_000).unwrap();
    let back = Timestamp::from_rfc3339(&leap.to_rfc3339()).unwrap();
    assert_eq!((back.secs(), back.nanos()), (1483228799, 1_000_000_000));
}

#[test]
fn instants_outside_the_calendar_are_refused() {
    assert!(Timestamp::new(8210266876799, 0).is_some());
    assert!(Timestamp::new(8210266876800, 0).is_none());
    assert!(Timestamp::new(-8334601228800, 0).is_some());
    assert!(Timestamp::new(-8334601228801, 0).is_none());
    assert!(Timestamp::new(0, 1_000_000_000).is_none());
    assert!(Timestamp::new(59, 1_999_999_999).is_some());
    assert!(Timestamp::new(59, 2_000_000_000).is_none());
    assert!(Timestamp::new(-1, 1_000_000_000).is_some());
    assert_eq!(
        Timestamp::new(8210266876799, 0).unwrap().to_rfc3339(),
        "+262142-12-31T23:59:59Z"
    );
}

#[test]
fn the_clock_tells_the_present() {
    let a = Timestamp::now();
    let b = Timestamp::now();
    assert!(a.secs() > 1_700_000_000);
    assert!(b.secs() >= a.secs());
    assert!(a.nanos() < 1_000_000_000);
}
