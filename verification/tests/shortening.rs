use dff::shorten::{truncate_mid, truncate_path_lossy};

/// The same shortening written with std's string functions.
fn expected_mid(s: &str, max_len: usize) -> String {
    if s.len() <= max_len || max_len < 5 {
        return s.chars().take(max_len).collect();
    }
    let half = (max_len - 3) / 2;
    let a: String = s.chars().take(half).collect();
    let b: String = s.chars().rev().take(half).collect();
    format!("{}\u{2026}{}", a, b.chars().rev().collect::<String>())
}

/// The same path shortening written with std's string functions: a leading,
/// non-empty home directory becomes `~`.
fn expected_path(s: &str, max_len: usize, home: &str) -> String {
    if s.len() <= max_len || max_len < 15 {
        return s.chars().take(max_len).collect();
    }
    let collapsed = match s.strip_prefix(home) {
        Some(rest) if !home.is_empty() => format!("~{}", rest),
        _ => s.to_string(),
    };
    if collapsed.len() <= max_len {
        return collapsed;
    }
    let half = (max_len.saturating_sub(3)) / 2;
    if collapsed.len() > half * 2 + 3 {
        let bytes = collapsed.as_bytes();
        let mut start_end = half;
        while start_end > 0 && !bytes[start_end].is_ascii() {
            if bytes[start_end] & 0xC0 != 0x80 {
                break;
            }
            start_end -= 1;
        }
        let mut end_start = collapsed.len().saturating_sub(half);
        while end_start < collapsed.len() && !bytes[end_start].is_ascii() {
            if bytes[end_start] & 0xC0 != 0x80 {
                break;
            }
            end_start += 1;
        }
        format!("{}\u{2026}{}", &collapsed[..start_end], &collapsed[end_start..])
    } else {
        collapsed
    }
}

#[test]
fn middle_truncation_values() {
    assert_eq!(truncate_mid("short", 10), "short");
    assert_eq!(truncate_mid("abcdefghijkl", 9), "abc\u{2026}jkl");
    assert_eq!(truncate_mid("abcdefghijkl", 10), "abc\u{2026}jkl");
    assert_eq!(truncate_mid("abcdef", 4), "abcd");
    assert_eq!(truncate_mid("abcdef", 0), "");
}

#[test]
fn middle_truncation_counts_bytes_but_cuts_characters() {
    // Six characters, twelve bytes.
    let s = "\u{00E9}\u{00E9}\u{00E9}\u{00E8}\u{00E8}\u{00E8}";
    assert_eq!(truncate_mid(s, 8), "\u{00E9}\u{00E9}\u{2026}\u{00E8}\u{00E8}");
    for max in 0..16 {
        assert_eq!(truncate_mid(s, max), expected_mid(s, max));
    }
}

#[test]
fn path_truncation_values() {
    assert_eq!(truncate_path_lossy("/home/u/x", 30, "/home/u"), "/home/u/x");
    assert_eq!(truncate_path_lossy("/home/u/a-long-name.txt", 20, "/home/u"), "~/a-long-name.txt");
    assert_eq!(
        truncate_path_lossy("/home/u/very/long/path/to/file.txt", 20, "/home/u"),
        "~/very/l\u{2026}file.txt"
    );
    assert_eq!(truncate_path_lossy("/some/long/path", 10, "/home/u"), "/some/long");
}

#[test]
fn only_a_leading_home_is_collapsed() {
    // no home directory: nothing is put in front
    assert_eq!(truncate_path_lossy("/very/long/path/name.txt", 20, ""), "/very/lo\u{2026}name.txt");
    // the home directory in the middle of a path stays
    assert_eq!(truncate_path_lossy("/data/home/u/files.bin", 20, "/home/u"), "/data/ho\u{2026}iles.bin");
    // a leading one becomes `~`
    assert_eq!(truncate_path_lossy("/home/u/some/files.bin", 20, "/home/u"), "~/some/files.bin");
}

#[test]
fn path_truncation_agrees_with_std_string_functions() {
    let cases = [
        ("/home/u/very/long/path/to/file.txt", "/home/u"),
        ("/very/long/path/name/here/file.txt", ""),
        ("/data/home/u/copy/of/home/u/file.bin", "/home/u"),
        ("/m\u{00FC}sik/\u{00E4}lbum/\u{00FC}ber/sch\u{00F6}n/lied.mp3", "/home/u"),
        ("/photos/\u{65E5}\u{672C}/\u{6771}\u{4EAC}/\u{5199}\u{771F}/img.jpg", "/photos"),
    ];
    for (path, home) in cases {
        for max in 0..50 {
            assert_eq!(truncate_path_lossy(path, max, home), expected_path(path, max, home), "{} {}", path, max);
        }
    }
}

#[test]
fn middle_truncation_agrees_with_std() {
    let cases = ["a", "abcdefghijklmnopqrstuvwxyz", "\u{65E5}\u{672C}\u{8A9E}\u{306E}\u{30D5}\u{30A1}\u{30A4}\u{30EB}.txt"];
    for s in cases {
        for max in 0..40 {
            assert_eq!(truncate_mid(s, max), expected_mid(s, max));
        }
    }
}
