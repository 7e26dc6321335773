use dff::scan_steps::{ScanNext, after_full_hash, after_quick_hash, after_walk, fingerprint_spans};
use dff::scanner::{FileEntry, ScanProgress, WalkTally};

fn entry(path: &str, size: u64) -> FileEntry {
    FileEntry { path: path.to_string(), size }
}

#[test]
fn fingerprint_reads_first_and_last_four_kilobytes() {
    assert_eq!(fingerprint_spans(0), (0, None));
    assert_eq!(fingerprint_spans(100), (100, None));
    assert_eq!(fingerprint_spans(4096), (4096, None));
    assert_eq!(fingerprint_spans(8192), (4096, None));
    assert_eq!(fingerprint_spans(8193), (4096, Some(4097)));
    assert_eq!(fingerprint_spans(1 << 20), (4096, Some((1 << 20) - 4096)));
}

#[test]
fn a_walk_without_shared_sizes_ends_the_scan() {
    let mut tally = WalkTally::new(1);
    tally.take_file("/a".to_string(), 1);
    tally.take_file("/b".to_string(), 2);
    let (reports, next) = after_walk(&tally);
    assert!(matches!(next, ScanNext::Finished));
    assert_eq!(reports.len(), 2);
    assert!(matches!(reports[0], ScanProgress::Walking { found: 2 }));
    match &reports[1] {
        ScanProgress::Done { groups, total_files } => {
            assert!(groups.is_empty());
            assert_eq!(*total_files, 2);
        }
        _ => panic!("expected the end of the scan"),
    }
}

#[test]
fn a_walk_with_shared_sizes_starts_quick_hashing() {
    let mut tally = WalkTally::new(1);
    tally.take_file("/a".to_string(), 5);
    tally.take_file("/b".to_string(), 6);
    tally.take_file("/c".to_string(), 5);
    let (reports, next) = after_walk(&tally);
    assert!(matches!(reports[0], ScanProgress::Walking { found: 3 }));
    assert!(matches!(reports[1], ScanProgress::QuickHash { current: 0, total: 2 }));
    match next {
        ScanNext::QuickHash(files) => {
            let paths: Vec<&str> = files.iter().map(|f| f.path.as_str()).collect();
            assert_eq!(paths, vec!["/a", "/c"]);
        }
        _ => panic!("expected quick hashing"),
    }
}

#[test]
fn quick_hashes_that_differ_end_the_scan() {
    let hashed = vec![("aaaaaaaa".to_string(), entry("/a", 5)), ("bbbbbbbb".to_string(), entry("/c", 5))];
    let (reports, next) = after_quick_hash(7, &hashed);
    assert!(matches!(next, ScanNext::Finished));
    assert_eq!(reports.len(), 3);
    assert!(matches!(reports[0], ScanProgress::QuickHash { current: 2, total: 2 }));
    assert!(matches!(reports[1], ScanProgress::FullHash { current: 0, total: 0 }));
    assert!(matches!(&reports[2], ScanProgress::Done { groups, total_files: 7 } if groups.is_empty()));
}

#[test]
fn shared_quick_hashes_go_on_to_full_hashing() {
    let hashed = vec![
        ("aaaaaaaa".to_string(), entry("/a", 5)),
        (String::new(), entry("/b", 5)),
        ("aaaaaaaa".to_string(), entry("/c", 5)),
    ];
    let (reports, next) = after_quick_hash(7, &hashed);
    assert_eq!(reports.len(), 2);
    assert!(matches!(reports[1], ScanProgress::FullHash { current: 0, total: 2 }));
    assert!(matches!(next, ScanNext::FullHash(files) if files.len() == 2));
}

#[test]
fn full_hashes_give_the_groups() {
    let h = "f".repeat(64);
    let hashed = vec![(h.clone(), entry("/b", 5)), (h.clone(), entry("/a", 5)), ("0".repeat(64), entry("/c", 5))];
    let reports = after_full_hash(7, &hashed);
    assert_eq!(reports.len(), 2);
    assert!(matches!(reports[0], ScanProgress::FullHash { current: 3, total: 3 }));
    match &reports[1] {
        ScanProgress::Done { groups, total_files } => {
            assert_eq!(*total_files, 7);
            assert_eq!(groups.len(), 1);
            let paths: Vec<&str> = groups[0].files.iter().map(|f| f.path.as_str()).collect();
            assert_eq!(paths, vec!["/a", "/b"]);
            assert_eq!(groups[0].wasted_bytes, 5);
        }
        _ => panic!("expected the groups"),
    }
}
