use dff::app::App;
use dff::input::{Key, KeyAction, KeyInput, KeyKind, MouseInput};
use dff::scanner::{DuplicateGroup, FileEntry, ScanProgress};
use dff::view::{Gauge, RowView, StatusTone};

const SECOND: u64 = 1_000_000_000;

fn entry(path: &str, size: u64) -> FileEntry {
    FileEntry { path: path.to_string(), size }
}

fn group(name: &str, hash: &str, files: Vec<FileEntry>) -> DuplicateGroup {
    let wasted = files.iter().skip(1).map(|f| f.size).sum();
    DuplicateGroup { file_name: name.to_string(), hash: hash.to_string(), files, wasted_bytes: wasted }
}

/// A finished scan with two groups: three copies of 100 bytes (flat indices
/// 0..=2) and two copies of 10 bytes (flat indices 3..=4).
fn scanned() -> App {
    let groups = vec![
        group("a1", "aaaaaaaaaaaa", vec![entry("/d/a1", 100), entry("/d/a2", 100), entry("/d/a3", 100)]),
        group("b1", "bbbbbbbbbbbb", vec![entry("/d/b1", 10), entry("/d/b2", 10)]),
    ];
    let mut app = App::new();
    app.apply_progress(ScanProgress::Done { groups, total_files: 9 }, 0);
    app
}

fn press(c: char) -> KeyInput {
    KeyInput { key: Key::Char(c), kind: KeyKind::Press, ctrl: false }
}

fn key(k: Key) -> KeyInput {
    KeyInput { key: k, kind: KeyKind::Press, ctrl: false }
}

fn marked(app: &App) -> Vec<usize> {
    let mut v: Vec<usize> = app.marked.iter().copied().collect();
    v.sort();
    v
}

fn status(app: &App) -> String {
    app.status_message.as_ref().map(|(m, _)| m.clone()).unwrap_or_default()
}

#[test]
fn a_new_session_is_scanning() {
    let app = App::new();
    assert!(app.scanning);
    assert_eq!(app.scan_progress, "Initializing\u{2026}");
    assert_eq!(app.flat_count(), 0);
    assert_eq!(app.total_rows(), 0);
    assert!(app.status_message.is_none());
}

#[test]
fn progress_reports_update_the_progress_text() {
    let mut app = App::new();
    app.apply_progress(ScanProgress::Walking { found: 5 }, 0);
    assert_eq!(app.scan_progress, "Walking \u{2026} 5 files found");
    assert!(matches!(app.scan_gauge(), Gauge::Indeterminate));
    app.apply_progress(ScanProgress::QuickHash { current: 3, total: 4 }, 0);
    assert_eq!(app.scan_progress, "Quick hash \u{2026} 3/4 (75%)");
    assert!(matches!(app.scan_gauge(), Gauge::Percent(75)));
    app.apply_progress(ScanProgress::FullHash { current: 0, total: 0 }, 0);
    assert_eq!(app.scan_progress, "Full hash \u{2026} 0/0 (0%)");
    assert!(matches!(app.scan_gauge(), Gauge::Percent(0)));
    app.scan_progress = "Initializing\u{2026}".to_string();
    assert!(matches!(app.scan_gauge(), Gauge::Hidden));
}

#[test]
fn the_end_of_a_scan_installs_the_groups() {
    let app = scanned();
    assert!(!app.scanning);
    assert_eq!(app.total_scanned, 9);
    assert_eq!(app.total_groups(), 2);
    assert_eq!(app.total_files_in_groups(), 5);
    assert_eq!(app.flat_count(), 5);
    assert_eq!(app.total_wasted(), 210);
    assert_eq!(status(&app), "\u{2713} Scan complete \u{00B7} 2 groups \u{00B7} 5 files \u{00B7} 210 B wasted");

    let mut empty = App::new();
    empty.apply_progress(ScanProgress::Done { groups: Vec::new(), total_files: 3 }, 0);
    assert_eq!(status(&empty), "\u{2713} No duplicates found \u{00B7} clean directory!");
    assert_eq!(empty.header_summary(), "  \u{2713} No duplicates found  ");
}

#[test]
fn rows_and_files_map_both_ways() {
    let app = scanned();
    assert_eq!(app.total_rows(), 8);
    assert_eq!(app.flat_to_group_file(0), Some((0, 0)));
    assert_eq!(app.flat_to_group_file(4), Some((1, 1)));
    assert_eq!(app.flat_to_group_file(5), None);
    let rows: Vec<Option<usize>> = (0..5).map(|i| app.file_to_row(i)).collect();
    assert_eq!(rows, vec![Some(1), Some(2), Some(3), Some(6), Some(7)]);
    for i in 0..5 {
        assert_eq!(app.row_to_file(app.file_to_row(i).unwrap()), Some(i));
    }
    for r in [0, 4, 5, 8, 100] {
        assert_eq!(app.row_to_file(r), None);
    }
    assert_eq!(app.file_to_row(5), None);
}

#[test]
fn moving_is_clamped_to_the_list() {
    let mut app = scanned();
    app.move_selection(-1);
    assert_eq!(app.selected_idx, 0);
    assert_eq!(app.selected_row, 1);
    app.move_selection(3);
    assert_eq!(app.selected_idx, 3);
    assert_eq!(app.selected_row, 6);
    app.move_selection(10);
    assert_eq!(app.selected_idx, 4);
    app.go_top();
    assert_eq!((app.selected_idx, app.selected_row), (0, 1));
    app.go_bottom();
    assert_eq!((app.selected_idx, app.selected_row), (4, 7));
    let (g, f, file) = app.current_file().unwrap();
    assert_eq!((g, f, file.path.as_str()), (1, 1, "/d/b2"));
}

#[test]
fn marking_groups_keeps_first_copies() {
    let mut app = scanned();
    app.mark_duplicates();
    assert_eq!(marked(&app), vec![1, 2]);
    assert!(!app.has_primary_marked());
    app.unmark_group();
    assert!(marked(&app).is_empty());
    app.mark_all_duplicates();
    assert_eq!(marked(&app), vec![1, 2, 4]);
    assert!(!app.has_primary_marked());
    app.go_bottom();
    app.mark_duplicates();
    app.unmark_group();
    assert_eq!(marked(&app), vec![1, 2]);
    app.go_top();
    app.toggle_mark();
    assert!(app.has_primary_marked());
    app.clear_marks();
    assert!(marked(&app).is_empty());
}

#[test]
fn toggling_twice_restores_the_marks() {
    let mut app = scanned();
    app.move_selection(2);
    app.toggle_mark();
    assert_eq!(marked(&app), vec![2]);
    app.toggle_mark();
    assert!(marked(&app).is_empty());
}

#[test]
fn deleting_all_duplicates_clears_the_list() {
    let mut app = scanned();
    app.mark_all_duplicates();
    let plan = app.deletion_targets();
    assert_eq!(plan.len(), 3);
    assert_eq!(app.marked_size(), 210);
    let removed = vec![true; plan.len()];
    app.finish_deletion(&removed, 5 * SECOND);
    assert!(app.groups.is_empty());
    assert!(app.marked.is_empty());
    assert_eq!(app.selected_idx, 0);
    assert_eq!(app.total_scanned, 9);
    assert!(!app.confirm_delete);
    assert_eq!(status(&app), "\u{2713} Deleted 3 files (210 B freed)");
}

#[test]
fn surviving_groups_keep_two_files_and_failures_free_nothing() {
    let mut app = scanned();
    app.go_bottom();
    app.toggle_mark(); // /d/b2
    app.go_top();
    app.toggle_mark(); // /d/a1
    let plan = app.deletion_targets();
    assert_eq!(plan.len(), 2);
    let announced = app.marked_size();
    assert_eq!(announced, 110);
    let removed: Vec<bool> = plan.iter().map(|(i, _, _)| *i == 0).collect();
    let (count, freed) = app.delete_marked(&removed);
    assert_eq!((count, freed), (1, 100));
    // the selection stays on the same flat index, within the list
    assert_eq!(app.selected_idx, 0);
    assert!(freed <= announced);
    assert_eq!(app.groups.len(), 1);
    assert!(app.groups.iter().all(|g| g.files.len() >= 2));
    let paths: Vec<&str> = app.groups[0].files.iter().map(|f| f.path.as_str()).collect();
    assert_eq!(paths, vec!["/d/a2", "/d/a3"]);
    assert_eq!(app.groups[0].wasted_bytes, 100);
    assert_eq!(app.flat_count(), 2);
}

#[test]
fn a_deletion_that_removes_nothing_says_so() {
    let mut app = scanned();
    app.toggle_mark();
    let removed = vec![false];
    app.finish_deletion(&removed, 0);
    assert_eq!(status(&app), "\u{2717} Could not delete any files");
    // The marked file leaves the list all the same.
    assert_eq!(app.flat_count(), 4);
}

#[test]
fn keys_during_a_scan_only_quit() {
    let mut app = App::new();
    assert!(matches!(app.handle_key(press('j'), 0), KeyAction::Nothing));
    assert!(!app.should_quit);
    app.handle_key(press('q'), 0);
    assert!(app.should_quit);

    let mut app = App::new();
    app.handle_key(KeyInput { key: Key::Char('c'), kind: KeyKind::Press, ctrl: true }, 0);
    assert!(app.should_quit);
}

#[test]
fn space_holds_marking_while_moving() {
    let mut app = scanned();
    app.handle_key(press(' '), 0);
    assert!(app.space_held);
    assert_eq!(marked(&app), vec![0]);
    app.handle_key(press('j'), 100);
    app.handle_key(key(Key::Down), 200);
    assert_eq!(marked(&app), vec![0, 1, 2]);
    assert_eq!(app.space_at, Some(200));
    // moving back over marked files keeps them marked
    app.handle_key(press('k'), 250);
    assert_eq!(app.selected_idx, 1);
    assert_eq!(marked(&app), vec![0, 1, 2]);
    // a jump does not mark, and ends the hold
    app.handle_key(key(Key::End), 300);
    assert_eq!(marked(&app), vec![0, 1, 2]);
    assert!(!app.space_held);
    // Space marks the last file and holds again
    app.handle_key(press(' '), 400);
    assert_eq!(marked(&app), vec![0, 1, 2, 4]);
    assert!(app.space_held);
    // a repeated Space changes nothing
    app.handle_key(KeyInput { key: Key::Char(' '), kind: KeyKind::Repeat, ctrl: false }, 500);
    assert!(app.space_held);
    assert_eq!(marked(&app), vec![0, 1, 2, 4]);
    // Space again releases
    app.handle_key(press(' '), 600);
    assert!(!app.space_held);
    app.handle_key(press('k'), 700);
    assert_eq!(app.selected_idx, 3);
    assert_eq!(marked(&app), vec![0, 1, 2, 4]);
}

#[test]
fn held_space_expires() {
    let mut app = scanned();
    app.handle_key(press(' '), 0);
    app.on_tick(SECOND / 10);
    assert!(app.space_held);
    app.on_tick(SECOND);
    assert!(!app.space_held);
    assert!(app.space_at.is_none());
}

#[test]
fn the_spinner_turns_every_frame() {
    let mut app = App::new();
    let first = app.spinner_char();
    app.on_tick(SECOND / 100);
    assert_eq!(app.spinner_char(), first);
    app.on_tick(SECOND / 10);
    assert_ne!(app.spinner_char(), first);
    assert_eq!(app.last_tick, SECOND / 10);
    for _ in 0..9 {
        app.tick_spinner();
    }
    assert_eq!(app.spinner_char(), first);
    app.tick_spinner();
    assert_eq!(app.spinner_char(), '\u{2819}');
}

#[test]
fn deleting_asks_for_confirmation() {
    let mut app = scanned();
    app.handle_key(press('d'), 0);
    assert!(!app.confirm_delete);
    assert_eq!(status(&app), "No files marked \u{2014} hold Space & scroll or use [m]/[a]");

    app.handle_key(press('m'), 0);
    assert_eq!(status(&app), "Marked 2 files in group");
    app.handle_key(press('d'), 0);
    assert!(app.confirm_delete);
    // other keys wait
    assert!(matches!(app.handle_key(press('j'), 0), KeyAction::Nothing));
    assert!(app.confirm_delete);
    assert_eq!(app.selected_idx, 0);
    // declining
    app.handle_key(press('n'), 0);
    assert!(!app.confirm_delete);
    assert_eq!(status(&app), "Deletion cancelled");
    assert_eq!(marked(&app), vec![1, 2]);
    // confirming
    app.handle_key(press('d'), 0);
    assert!(matches!(app.handle_key(key(Key::Enter), 0), KeyAction::DeleteMarked));
    assert!(app.confirm_delete);
}

#[test]
fn control_c_quits_even_in_the_confirmation() {
    let mut app = scanned();
    app.handle_key(press('a'), 0);
    app.handle_key(press('d'), 0);
    assert!(app.confirm_delete);
    let ctrl_c = KeyInput { key: Key::Char('c'), kind: KeyKind::Press, ctrl: true };
    assert!(matches!(app.handle_key(ctrl_c, 0), KeyAction::Nothing));
    assert!(app.should_quit);
    assert_eq!(marked(&app), vec![1, 2, 4]);
    assert_eq!(app.flat_count(), 5);
}

#[test]
fn mark_all_and_delete_in_one_key() {
    let mut app = scanned();
    app.handle_key(press('D'), 0);
    assert!(app.confirm_delete);
    assert_eq!(marked(&app), vec![1, 2, 4]);
    assert!(matches!(app.handle_key(press('y'), 0), KeyAction::DeleteMarked));

    let mut empty = App::new();
    empty.apply_progress(ScanProgress::Done { groups: Vec::new(), total_files: 0 }, 0);
    empty.handle_key(press('D'), 0);
    assert!(!empty.confirm_delete);
    assert_eq!(status(&empty), "No duplicates to delete");
}

#[test]
fn other_action_keys() {
    let mut app = scanned();
    assert!(matches!(app.handle_key(key(Key::Enter), 0), KeyAction::OpenDir));
    assert!(matches!(app.handle_key(press('o'), 0), KeyAction::OpenFile));
    app.handle_key(press('a'), 0);
    assert_eq!(status(&app), "Marked 3 files in all groups");
    app.handle_key(press('M'), 0);
    assert_eq!(status(&app), "Unmarked files in group \u{00B7} 1 remain marked");
    app.handle_key(press('u'), 0);
    assert_eq!(status(&app), "Cleared all marks");
    app.handle_key(press('r'), 0);
    assert_eq!(status(&app), "Re-scan not yet implemented \u{2014} restart the app");
    app.handle_key(key(Key::PageDown), 0);
    assert_eq!(app.selected_idx, 4);
    app.handle_key(key(Key::PageUp), 0);
    assert_eq!(app.selected_idx, 0);
    app.handle_key(press('G'), 0);
    assert_eq!(app.selected_idx, 4);
    app.handle_key(press('g'), 0);
    assert_eq!(app.selected_idx, 0);
    app.handle_key(key(Key::Esc), 0);
    assert!(app.should_quit);
}

#[test]
fn the_mouse_moves_and_selects() {
    let mut app = scanned();
    app.handle_mouse(MouseInput::ScrollDown);
    assert_eq!(app.selected_idx, 1);
    app.handle_mouse(MouseInput::ScrollUp);
    app.handle_mouse(MouseInput::ScrollUp);
    assert_eq!(app.selected_idx, 0);
    // terminal row 10 shows rendered row 6: the first copy of the second group
    app.handle_mouse(MouseInput::LeftPress { row: 10 });
    assert_eq!((app.selected_idx, app.selected_row), (3, 6));
    // the first list row is drawn on terminal row 4: a group header
    app.handle_mouse(MouseInput::LeftPress { row: 4 });
    assert_eq!(app.selected_idx, 3);
    // terminal row 5 shows the first file
    app.handle_mouse(MouseInput::LeftPress { row: 5 });
    assert_eq!((app.selected_idx, app.selected_row), (0, 1));
    // the header and the border above the list select nothing
    app.handle_mouse(MouseInput::LeftPress { row: 3 });
    app.handle_mouse(MouseInput::LeftPress { row: 1 });
    assert_eq!(app.selected_idx, 0);
    app.scroll_offset = 5;
    app.handle_mouse(MouseInput::LeftPress { row: 6 });
    assert_eq!(app.selected_idx, 4);
}

#[test]
fn screen_texts() {
    let mut app = scanned();
    assert_eq!(app.header_summary(), "  2 groups \u{00B7} 5 files \u{00B7} 210 B wasted  ");
    let (text, tone) = app.status_line(SECOND);
    assert_eq!(text, "\u{2713} Scan complete \u{00B7} 2 groups \u{00B7} 5 files \u{00B7} 210 B wasted");
    assert!(matches!(tone, StatusTone::Success));
    let (text, tone) = app.status_line(9 * SECOND);
    assert!(text.starts_with(" 0 marked \u{00B7} [Space] hold+scroll"));
    assert!(matches!(tone, StatusTone::Plain));
    app.set_status("\u{2717} failed".to_string(), 9 * SECOND);
    assert!(matches!(app.status_line(9 * SECOND).1, StatusTone::Failure));

    let scanning = App::new();
    assert_eq!(scanning.status_line(0).0, " Scanning\u{2026}  [q] quit ");
    assert_eq!(scanning.header_summary(), format!(" {} Initializing\u{2026} ", scanning.spinner_char()));
}

#[test]
fn content_rows_of_the_list() {
    let mut app = scanned();
    app.handle_key(press(' '), 0);
    let rows = app.content_rows(80, "/d");
    assert_eq!(rows.len(), 9);
    match &rows[0] {
        RowView::Header { number, name, copies, wasted, has_marked } => {
            assert_eq!(number, "  1. ");
            assert_eq!(name, "a1");
            assert_eq!(copies, "3 \u{00D7} 100 B");
            assert_eq!(wasted, "  (200 B wasted)");
            assert!(*has_marked);
        }
        _ => panic!("expected a header"),
    }
    match &rows[1] {
        RowView::File { selected, marked, path, size } => {
            assert!(*selected && *marked);
            assert_eq!(path, " /d/a1");
            assert_eq!(size, "  100 B");
        }
        _ => panic!("expected a file"),
    }
    assert!(matches!(&rows[4], RowView::Separator));
    assert!(matches!(&rows[5], RowView::Header { has_marked: false, .. }));
    assert!(matches!(&rows[7], RowView::File { selected: false, marked: false, .. }));
    match &rows[8] {
        RowView::Footer { text } => {
            assert_eq!(text, &format!("  {}  20% \u{00B7} file 1 of 5", "\u{2500}".repeat(30)));
        }
        _ => panic!("expected the footer"),
    }
    match &app.content_rows(30, "/d")[8] {
        RowView::Footer { text } => {
            assert_eq!(text, &format!("  {}  20% \u{00B7} file 1 of 5", "\u{2500}".repeat(5)));
        }
        _ => panic!("expected the footer"),
    }
}

#[test]
fn scrolling_keeps_the_selection_in_view() {
    let mut app = scanned();
    app.go_bottom(); // row 7
    let first = app.adjust_scroll(9, 7); // three rows in view
    assert_eq!(first, 5);
    assert!(app.scroll_offset <= app.selected_row && app.selected_row < app.scroll_offset + 3);
    app.go_top(); // row 1
    let first = app.adjust_scroll(9, 7);
    assert_eq!(first, 1);
    assert_eq!(app.scroll_offset, 1);
    // with room for all rows, the position stays
    let first = app.adjust_scroll(9, 40);
    assert_eq!(first, 1);
}

#[test]
fn the_confirmation_dialog() {
    let mut app = scanned();
    app.mark_all_duplicates();
    let view = app.confirm_view(100);
    assert_eq!((view.width, view.height), (56, 9));
    assert_eq!(view.count_text, " You are about to delete 3 files ");
    assert_eq!(view.size_text, " 210 B will be freed. ");
    assert!(!view.warn_first_copy);

    app.clear_marks();
    app.toggle_mark();
    let view = app.confirm_view(30);
    assert_eq!((view.width, view.height), (26, 11));
    assert_eq!(view.count_text, " You are about to delete 1 file ");
    assert!(view.warn_first_copy);
}

#[test]
fn the_selection_is_clamped_after_a_deletion() {
    let mut app = scanned();
    app.move_selection(1);
    app.toggle_mark(); // /d/a2
    app.go_bottom();
    let removed = vec![true];
    app.finish_deletion(&removed, 0);
    assert_eq!(app.flat_count(), 4);
    assert_eq!(app.selected_idx, 3);
    assert_eq!(app.selected_row, app.file_to_row(3).unwrap());
}
