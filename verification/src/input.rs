//! Keys and mouse events: what each one does to the session.

use vstd::prelude::*;

use crate::app::{App, clamp_index, duplicate_indices, file_count, file_at_row, group_indices, locate, within_limits};
use crate::text::{decimal, push_decimal, text};

verus! {

broadcast use vstd::std_specs::hash::group_hash_axioms;

/// A key of the keyboard, as far as the session tells keys apart.
pub enum Key {
    Char(char),
    Enter,
    Esc,
    Up,
    Down,
    PageUp,
    PageDown,
    Home,
    End,
    Other,
}

/// Whether a key went down or repeats while held.
pub enum KeyKind {
    Press,
    Repeat,
}

/// A key event: the key, how it came, and whether Control was held.
pub struct KeyInput {
    pub key: Key,
    pub kind: KeyKind,
    pub ctrl: bool,
}

/// What the caller must do after a key: nothing, delete the marked files
/// (then call `finish_deletion`), or open the directory of the selected file
/// or the file itself.
pub enum KeyAction {
    Nothing,
    DeleteMarked,
    OpenDir,
    OpenFile,
}

/// A mouse event, as far as the session tells them apart.
pub enum MouseInput {
    ScrollDown,
    ScrollUp,
    /// The left button went down on terminal row `row`.
    LeftPress { row: u16 },
    Other,
}

pub open spec fn is_char(i: KeyInput, c: char) -> bool {
    i.key == Key::Char(c)
}

/// `y` or Enter: confirms a deletion.
pub open spec fn confirms(i: KeyInput) -> bool {
    is_char(i, 'y') || i.key == Key::Enter
}

/// `n` or Esc: declines a deletion.
pub open spec fn declines(i: KeyInput) -> bool {
    is_char(i, 'n') || i.key == Key::Esc
}

/// Control-C: always quits.
pub open spec fn quit_chord(i: KeyInput) -> bool {
    is_char(i, 'c') && i.ctrl
}

/// `q` or Esc: quits.
pub open spec fn quits(i: KeyInput) -> bool {
    is_char(i, 'q') || i.key == Key::Esc
}

/// The relative move of a key, if it moves the selection by steps:
/// `j`/Down and `k`/Up by one, PageDown and PageUp by ten.
pub open spec fn step_of(i: KeyInput) -> Option<int> {
    if is_char(i, 'j') || i.key == Key::Down {
        Some(1)
    } else if is_char(i, 'k') || i.key == Key::Up {
        Some(-1)
    } else if i.key == Key::PageDown {
        Some(10)
    } else if i.key == Key::PageUp {
        Some(-10)
    } else {
        None
    }
}

/// `j`, `k`, Down and Up: single steps, which also mark files while Space
/// is held.
pub open spec fn is_single_step(i: KeyInput) -> bool {
    is_char(i, 'j') || i.key == Key::Down || is_char(i, 'k') || i.key == Key::Up
}

/// `g` or Home: to the first file.
pub open spec fn jumps_top(i: KeyInput) -> bool {
    is_char(i, 'g') || i.key == Key::Home
}

/// `G` or End: to the last file.
pub open spec fn jumps_bottom(i: KeyInput) -> bool {
    is_char(i, 'G') || i.key == Key::End
}

/// The key moves the selection.
pub open spec fn moves(i: KeyInput) -> bool {
    step_of(i) is Some || jumps_top(i) || jumps_bottom(i)
}

/// `set` with `x` added if absent and removed if present.
pub open spec fn toggled(set: Set<usize>, x: usize) -> Set<usize> {
    if set.contains(x) { set.remove(x) } else { set.insert(x) }
}

/// Where a moving key puts the selection.
pub open spec fn moved_selection(app: App, i: KeyInput) -> usize {
    let total = file_count(app.groups@);
    if total == 0 {
        app.selected_idx
    } else if jumps_top(i) {
        0
    } else if jumps_bottom(i) {
        (total - 1) as usize
    } else {
        clamp_index(app.selected_idx + step_of(i)->0, total, app.selected_idx as int)
    }
}

/// The marks that `m` leaves: all files but the first of the selected
/// file's group are marked too.
pub open spec fn marks_after_group_mark(app: App) -> Set<usize> {
    match locate(app.groups@, app.selected_idx as int) {
        Some((g, _f)) => app.marked@.union(group_indices(app.groups@, g, 1)),
        None => app.marked@,
    }
}

/// The marks that `M` leaves: no file of the selected file's group is
/// marked.
pub open spec fn marks_after_group_unmark(app: App) -> Set<usize> {
    match locate(app.groups@, app.selected_idx as int) {
        Some((g, _f)) => app.marked@.difference(group_indices(app.groups@, g, 0)),
        None => app.marked@,
    }
}

/// The session is running: no confirmation is shown, the key is not
/// Control-C, and the scan is over.
pub open spec fn browsing(app: App, i: KeyInput) -> bool {
    !app.confirm_delete && !quit_chord(i) && !app.scanning
}

/// `status` is `text` set at `now`.
pub open spec fn status_is(status: Option<(String, u64)>, text: Seq<char>, now: u64) -> bool {
    status matches Some((m, t)) && m@ == text && t == now
}

/// The first terminal row of the list: below the three rows of the header
/// and the top border of the content.
pub const LIST_TOP: u16 = 4;

/// The rendered row under terminal row `row` (at or below `LIST_TOP`), the
/// list being scrolled by `scroll`.
pub open spec fn row_under(row: u16, scroll: usize) -> int {
    row - LIST_TOP + scroll
}

impl KeyInput {
    /// Whether the key moves the selection by a number of files (`j`, `k`,
    /// Up, Down, PageUp, PageDown).
    pub fn is_step(&self) -> (b: bool)
        ensures
            b == (step_of(*self) is Some),
    {
        match self.key {
            Key::Char('j') | Key::Char('k') | Key::Up | Key::Down | Key::PageUp | Key::PageDown => true,
            _ => false,
        }
    }
}

impl App {
    /// Handles a mouse event: the wheel moves the selection by one file, and
    /// a left click below the header selects the file on the clicked row, if
    /// a file is shown there.
    pub fn handle_mouse(&mut self, m: MouseInput)
        requires
            old(self).wf(),
            file_count(old(self).groups@) <= i32::MAX,
            old(self).selected_idx < i32::MAX,
            old(self).scroll_offset + 0xffff <= usize::MAX,
        ensures
            final(self).wf(),
            match m {
                MouseInput::ScrollDown => final(self).selected_idx == clamp_index(
                    old(self).selected_idx + 1,
                    file_count(old(self).groups@),
                    old(self).selected_idx as int,
                ) && (file_count(old(self).groups@) > 0 ==> final(self).selected_row_follows())
                    && (file_count(old(self).groups@) == 0 ==> *final(self) == *old(self)),
                MouseInput::ScrollUp => final(self).selected_idx == clamp_index(
                    old(self).selected_idx - 1,
                    file_count(old(self).groups@),
                    old(self).selected_idx as int,
                ) && (file_count(old(self).groups@) > 0 ==> final(self).selected_row_follows())
                    && (file_count(old(self).groups@) == 0 ==> *final(self) == *old(self)),
                MouseInput::LeftPress { row } => if row >= LIST_TOP && file_at_row(
                    old(self).groups@,
                    row_under(row, old(self).scroll_offset),
                ) is Some {
                    &&& final(self).selected_idx as int == file_at_row(
                        old(self).groups@,
                        row_under(row, old(self).scroll_offset),
                    )->0
                    &&& final(self).selected_row_follows()
                } else {
                    *final(self) == *old(self)
                },
                MouseInput::Other => *final(self) == *old(self),
            },
            *final(self) == (App {
                selected_idx: final(self).selected_idx,
                selected_row: final(self).selected_row,
                ..*old(self)
            }),
    {
        match m {
            MouseInput::ScrollDown => self.move_selection(1),
            MouseInput::ScrollUp => self.move_selection(-1),
            MouseInput::LeftPress { row } => {
                if row >= LIST_TOP {
                    let text_row = (row - LIST_TOP) as usize + self.scroll_offset;
                    if let Some(flat_idx) = self.row_to_file(text_row) {
                        self.selected_idx = flat_idx;
                        self.update_selected_row();
                    }
                }
            },
            MouseInput::Other => {},
        }
    }

    /// Handles a key at time `now`, and says what the caller must do next.
    ///
    /// While a deletion awaits confirmation, `y`/Enter confirms it and
    /// `n`/Esc declines it; other keys do nothing. Control-C always quits, the
    /// confirmation included. While
    /// scanning, only `q`/Esc work. Space toggles the mark of the selected
    /// file and holds Space, so that single steps also mark every file they
    /// reach, until Space is pressed again, a key other than a single step
    /// is used or time passes. Moving keys move the selection; `m`/`M` mark and unmark the selected group
    /// (keeping its first copy), `a` marks all duplicates, `u` clears the
    /// marks, `d` asks to delete the marked files, `D` marks all duplicates
    /// and asks to delete them, Enter and `o` open the selected file's
    /// directory or the file.
    pub fn handle_key(&mut self, input: KeyInput, now: u64) -> (r: KeyAction)
        requires
            old(self).wf(),
            // a step moves the selection by signed 32-bit arithmetic
            step_of(input) is Some ==> file_count(old(self).groups@) <= i32::MAX,
            step_of(input) is Some ==> old(self).selected_idx <= i32::MAX - 10,
        ensures
            final(self).wf(),
            // files are deleted only on an explicit confirmation
            r == KeyAction::DeleteMarked ==> old(self).confirm_delete && confirms(input),
            // Control-C always quits, whatever is on screen
            quit_chord(input) ==> r == KeyAction::Nothing
                && *final(self) == (App { should_quit: true, ..*old(self) }),
            // a deletion awaits confirmation
            old(self).confirm_delete && !quit_chord(input) && confirms(input) ==> r == KeyAction::DeleteMarked
                && *final(self) == *old(self),
            old(self).confirm_delete && !quit_chord(input) && !confirms(input) && declines(input) ==> r == KeyAction::Nothing
                && *final(self) == (App { confirm_delete: false, status_message: final(self).status_message, ..*old(self) })
                && status_is(final(self).status_message, "Deletion cancelled"@, now),
            old(self).confirm_delete && !quit_chord(input) && !confirms(input) && !declines(input)
                ==> r == KeyAction::Nothing && *final(self) == *old(self),
            // scanning
            !old(self).confirm_delete && !quit_chord(input) && old(self).scanning ==> r == KeyAction::Nothing
                && *final(self) == (App { should_quit: old(self).should_quit || quits(input), ..*old(self) }),
            // Space
            browsing(*old(self), input) && is_char(input, ' ') ==> r == KeyAction::Nothing && (
                if input.kind != KeyKind::Press {
                    *final(self) == *old(self)
                } else if old(self).space_held {
                    *final(self) == (App { space_held: false, space_at: None, ..*old(self) })
                } else {
                    &&& final(self).marked@ == toggled(old(self).marked@, old(self).selected_idx)
                    &&& *final(self) == (App {
                        marked: final(self).marked,
                        space_held: true,
                        space_at: Some(now),
                        ..*old(self)
                    })
                }),
            // moving
            browsing(*old(self), input) && !is_char(input, ' ') && moves(input) ==> {
                &&& r == KeyAction::Nothing
                &&& final(self).selected_idx == moved_selection(*old(self), input)
                &&& (file_count(old(self).groups@) > 0 ==> final(self).selected_row_follows())
                // while Space is held, every file passed by a single step is marked
                &&& if is_single_step(input) && old(self).space_held {
                    &&& final(self).marked@ == old(self).marked@.insert(final(self).selected_idx)
                    &&& final(self).space_at == Some(now)
                } else {
                    &&& final(self).marked@ == old(self).marked@
                    &&& final(self).space_at == old(self).space_at
                }
                // single steps keep Space held, jumps end it
                &&& final(self).space_held == (is_single_step(input) && old(self).space_held)
                &&& *final(self) == (App {
                    selected_idx: final(self).selected_idx,
                    selected_row: final(self).selected_row,
                    marked: final(self).marked,
                    space_held: final(self).space_held,
                    space_at: final(self).space_at,
                    ..*old(self)
                })
            },
            // other keys end a held Space, then act
            browsing(*old(self), input) && !is_char(input, ' ') && !moves(input) ==> {
                &&& !final(self).space_held
                &&& *final(self) == (App {
                    marked: final(self).marked,
                    status_message: final(self).status_message,
                    confirm_delete: final(self).confirm_delete,
                    should_quit: final(self).should_quit,
                    space_held: false,
                    ..*old(self)
                })
                &&& (r == KeyAction::OpenDir <==> input.key == Key::Enter)
                &&& (r == KeyAction::OpenFile <==> is_char(input, 'o'))
                &&& r != KeyAction::DeleteMarked
                &&& final(self).should_quit == (old(self).should_quit || quits(input))
                &&& if is_char(input, 'm') {
                    &&& final(self).marked@ == marks_after_group_mark(*old(self))
                    &&& status_is(final(self).status_message,
                        "Marked "@ + decimal(final(self).marked@.len()) + " files in group"@, now)
                    &&& final(self).confirm_delete == old(self).confirm_delete
                } else if is_char(input, 'M') {
                    &&& final(self).marked@ == marks_after_group_unmark(*old(self))
                    &&& status_is(final(self).status_message,
                        "Unmarked files in group \u{00B7} "@ + decimal(final(self).marked@.len()) + " remain marked"@, now)
                    &&& final(self).confirm_delete == old(self).confirm_delete
                } else if is_char(input, 'u') {
                    &&& final(self).marked@ == Set::<usize>::empty()
                    &&& status_is(final(self).status_message, "Cleared all marks"@, now)
                    &&& final(self).confirm_delete == old(self).confirm_delete
                } else if is_char(input, 'a') {
                    &&& final(self).marked@ == old(self).marked@.union(duplicate_indices(old(self).groups@))
                    &&& status_is(final(self).status_message,
                        "Marked "@ + decimal(final(self).marked@.len()) + " files in all groups"@, now)
                    &&& final(self).confirm_delete == old(self).confirm_delete
                } else if is_char(input, 'd') {
                    &&& final(self).marked@ == old(self).marked@
                    &&& if !old(self).marked@.is_empty() {
                        &&& final(self).confirm_delete
                        &&& final(self).status_message == old(self).status_message
                    } else {
                        &&& final(self).confirm_delete == old(self).confirm_delete
                        &&& status_is(final(self).status_message,
                            "No files marked \u{2014} hold Space & scroll or use [m]/[a]"@, now)
                    }
                } else if is_char(input, 'D') {
                    &&& final(self).marked@ == old(self).marked@.union(duplicate_indices(old(self).groups@))
                    &&& if !final(self).marked@.is_empty() {
                        &&& final(self).confirm_delete
                        &&& final(self).status_message == old(self).status_message
                    } else {
                        &&& final(self).confirm_delete == old(self).confirm_delete
                        &&& status_is(final(self).status_message, "No duplicates to delete"@, now)
                    }
                } else if is_char(input, 'r') {
                    &&& final(self).marked@ == old(self).marked@
                    &&& final(self).confirm_delete == old(self).confirm_delete
                    &&& status_is(final(self).status_message,
                        "Re-scan not yet implemented \u{2014} restart the app"@, now)
                } else {
                    &&& final(self).marked@ == old(self).marked@
                    &&& final(self).confirm_delete == old(self).confirm_delete
                    &&& final(self).status_message == old(self).status_message
                }
            },
    {
        // Control-C always quits
        if input.ctrl {
            if let Key::Char('c') = input.key {
                self.should_quit = true;
                return KeyAction::Nothing;
            }
        }
        // a deletion awaits confirmation
        if self.confirm_delete {
            match input.key {
                Key::Char('y') | Key::Enter => {
                    return KeyAction::DeleteMarked;
                },
                Key::Char('n') | Key::Esc => {
                    self.confirm_delete = false;
                    self.set_status(text("Deletion cancelled"), now);
                },
                _ => {},
            }
            return KeyAction::Nothing;
        }
        // while scanning only quitting works
        if self.scanning {
            match input.key {
                Key::Char('q') | Key::Esc => {
                    self.should_quit = true;
                },
                _ => {},
            }
            return KeyAction::Nothing;
        }
        // Space: toggle and hold, or release a held Space
        if let Key::Char(' ') = input.key {
            if let KeyKind::Press = input.kind {
                if self.space_held {
                    self.space_held = false;
                    self.space_at = None;
                } else {
                    self.toggle_mark();
                    self.space_held = true;
                    self.space_at = Some(now);
                }
            }
            return KeyAction::Nothing;
        }
        // moving
        let moved = match input.key {
            Key::Char('j') | Key::Down => {
                self.move_selection(1);
                Some(true)
            },
            Key::Char('k') | Key::Up => {
                self.move_selection(-1);
                Some(true)
            },
            Key::Char('G') | Key::End => {
                self.go_bottom();
                Some(false)
            },
            Key::Char('g') | Key::Home => {
                self.go_top();
                Some(false)
            },
            Key::PageDown => {
                self.move_selection(10);
                Some(false)
            },
            Key::PageUp => {
                self.move_selection(-10);
                Some(false)
            },
            _ => None,
        };
        if let Some(single) = moved {
            if !single {
                self.space_held = false;
            } else if self.space_held {
                self.marked.insert(self.selected_idx);
                self.space_at = Some(now);
            }
            return KeyAction::Nothing;
        }
        // any other key ends a held Space
        self.space_held = false;
        match input.key {
            Key::Char('q') | Key::Esc => {
                self.should_quit = true;
                KeyAction::Nothing
            },
            Key::Char('m') => {
                self.mark_duplicates();
                let mut s = text("Marked ");
                push_decimal(&mut s, self.marked.len() as u64);
                s.append(" files in group");
                self.set_status(s, now);
                KeyAction::Nothing
            },
            Key::Char('M') => {
                self.unmark_group();
                let mut s = text("Unmarked files in group \u{00B7} ");
                push_decimal(&mut s, self.marked.len() as u64);
                s.append(" remain marked");
                self.set_status(s, now);
                KeyAction::Nothing
            },
            Key::Char('u') => {
                self.clear_marks();
                self.set_status(text("Cleared all marks"), now);
                KeyAction::Nothing
            },
            Key::Char('a') => {
                self.mark_all_duplicates();
                let mut s = text("Marked ");
                push_decimal(&mut s, self.marked.len() as u64);
                s.append(" files in all groups");
                self.set_status(s, now);
                KeyAction::Nothing
            },
            Key::Char('d') => {
                if !self.marked.is_empty() {
                    self.confirm_delete = true;
                } else {
                    self.set_status(text("No files marked \u{2014} hold Space & scroll or use [m]/[a]"), now);
                }
                KeyAction::Nothing
            },
            Key::Char('D') => {
                self.mark_all_duplicates();
                if !self.marked.is_empty() {
                    self.confirm_delete = true;
                } else {
                    self.set_status(text("No duplicates to delete"), now);
                }
                KeyAction::Nothing
            },
            Key::Enter => KeyAction::OpenDir,
            Key::Char('o') => KeyAction::OpenFile,
            Key::Char('r') => {
                self.set_status(text("Re-scan not yet implemented \u{2014} restart the app"), now);
                KeyAction::Nothing
            },
            _ => KeyAction::Nothing,
        }
    }
}

} // verus!
