use dff::grouping::{build_groups, sizes_fit};
use dff::paths::file_name_of;
use dff::scanner::{
    FileEntry, ScanProgress, WalkTally, full_hash_progress, quick_hash_candidates, quick_hash_progress,
    size_candidates, tail_bytes,
};

fn entry(path: &str, size: u64) -> FileEntry {
    FileEntry { path: path.to_string(), size }
}

fn paths(files: &[FileEntry]) -> Vec<&str> {
    files.iter().map(|f| f.path.as_str()).collect()
}

#[test]
fn size_candidates_keep_shared_sizes_in_order() {
    let entries = vec![
        entry("/a", 10),
        entry("/b", 20),
        entry("/c", 10),
        entry("/d", 30),
        entry("/e", 20),
    ];
    let out = size_candidates(&entries);
    assert_eq!(paths(&out), vec!["/a", "/b", "/c", "/e"]);
    assert!(size_candidates(&vec![entry("/a", 1), entry("/b", 2)]).is_empty());
}

#[test]
fn quick_hash_candidates_skip_unique_and_failed_hashes() {
    let hashed = vec![
        ("aaaa".to_string(), entry("/a", 1)),
        ("bbbb".to_string(), entry("/b", 1)),
        (String::new(), entry("/c", 1)),
        ("aaaa".to_string(), entry("/d", 1)),
        (String::new(), entry("/e", 1)),
    ];
    let out = quick_hash_candidates(&hashed);
    assert_eq!(paths(&out), vec!["/a", "/d"]);
}

#[test]
fn groups_by_hash_sorted_by_waste() {
    let h1 = "1111111111111111aaaa".to_string();
    let h2 = "2222222222222222bbbb".to_string();
    let hashed = vec![
        (h1.clone(), entry("/x/small-b", 10)),
        (h2.clone(), entry("/y/big-b", 100)),
        (h1.clone(), entry("/x/small-a", 10)),
        (String::new(), entry("/z/failed", 5)),
        (h2.clone(), entry("/y/big-a", 100)),
        (h2.clone(), entry("/y/big-c", 100)),
        ("3333".to_string(), entry("/lonely", 7)),
    ];
    assert!(sizes_fit(&hashed));
    let groups = build_groups(&hashed);
    assert_eq!(groups.len(), 2);

    assert_eq!(groups[0].wasted_bytes, 200);
    assert_eq!(paths(&groups[0].files), vec!["/y/big-a", "/y/big-b", "/y/big-c"]);
    assert_eq!(groups[0].file_name, "big-a");
    assert_eq!(groups[0].hash, "222222222222");

    assert_eq!(groups[1].wasted_bytes, 10);
    assert_eq!(paths(&groups[1].files), vec!["/x/small-a", "/x/small-b"]);
    assert_eq!(groups[1].file_name, "small-a");
    assert_eq!(groups[1].hash, "111111111111");

    let mut all: Vec<&str> = groups.iter().flat_map(|g| paths(&g.files)).collect();
    let n = all.len();
    all.sort();
    all.dedup();
    assert_eq!(all.len(), n);
}

#[test]
fn files_are_ordered_by_path_components() {
    // By components `/x/a` comes before `/x/a-b`, though as plain text
    // `-` sorts before `/`.
    let h = "abcdef".to_string();
    let hashed = vec![
        (h.clone(), entry("/x/a-b", 3)),
        (h.clone(), entry("/x/a/b", 3)),
    ];
    let groups = build_groups(&hashed);
    assert_eq!(groups.len(), 1);
    assert_eq!(paths(&groups[0].files), vec!["/x/a/b", "/x/a-b"]);
    assert_eq!(groups[0].hash, "abcdef");
    assert_eq!(groups[0].file_name, "b");
}

#[test]
fn no_groups_without_shared_hashes() {
    let hashed = vec![("a".to_string(), entry("/a", 1)), ("b".to_string(), entry("/b", 1))];
    assert!(build_groups(&hashed).is_empty());
    assert!(build_groups(&Vec::new()).is_empty());
}

#[test]
fn sizes_that_overflow_do_not_fit() {
    let hashed = vec![
        ("a".to_string(), entry("/a", u64::MAX)),
        ("a".to_string(), entry("/b", 1)),
    ];
    assert!(!sizes_fit(&hashed));
}

#[test]
fn waste_counts_all_copies_but_the_first() {
    let files = vec![entry("/a", 5), entry("/b", 7), entry("/c", 11)];
    assert_eq!(tail_bytes(&files), 18);
    assert_eq!(tail_bytes(&Vec::new()), 0);
}

#[test]
fn file_names_are_the_last_component() {
    assert_eq!(file_name_of("/home/user/photo.jpg"), "photo.jpg");
    assert_eq!(file_name_of("relative/dir/file"), "file");
    assert_eq!(file_name_of("/home/user/dir/"), "dir");
    assert_eq!(file_name_of("/"), "");
    assert_eq!(file_name_of("a/.."), "");
}

#[test]
fn walk_keeps_large_enough_files_and_reports_every_hundred() {
    let mut tally = WalkTally::new(10);
    assert!(tally.take_file("/small".to_string(), 9).is_none());
    assert!(tally.entries.is_empty());
    let mut reports = 0;
    for i in 0..250 {
        if let Some(ScanProgress::Walking { found }) = tally.take_file(format!("/f{}", i), 10) {
            assert_eq!(found % 100, 0);
            reports += 1;
        }
    }
    assert_eq!(reports, 2);
    assert_eq!(tally.entries.len(), 250);
    assert!(matches!(tally.finish(), ScanProgress::Walking { found: 250 }));
}

#[test]
fn hashing_reports_are_spaced() {
    assert!(matches!(quick_hash_progress(0, 5), Some(ScanProgress::QuickHash { current: 0, total: 5 })));
    assert!(matches!(quick_hash_progress(200, 500), Some(ScanProgress::QuickHash { current: 200, total: 500 })));
    assert!(quick_hash_progress(150, 500).is_none());
    assert!(matches!(full_hash_progress(30, 40), Some(ScanProgress::FullHash { current: 30, total: 40 })));
    assert!(full_hash_progress(31, 40).is_none());
}
