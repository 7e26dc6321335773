//! How the session changes over time: status messages, the spinner, scan
//! progress, and the end of a deletion.

use vstd::prelude::*;

use crate::app::{App, file_count, locate, row_of, wasted_before, within_limits};
use crate::deletion::{count_removed, deletion_plan, freed_bytes, pruned};
use crate::scanner::{DuplicateGroup, ScanProgress};
use crate::text::{decimal, format_bytes, push_decimal, spec_format_bytes, text};

verus! {

/// Nanoseconds in a millisecond.
pub const MILLISECOND: u64 = 1_000_000;

/// How long the spinner shows one frame.
pub const SPINNER_FRAME: u64 = 80 * MILLISECOND;

/// How long Space stays held without a key.
pub const SPACE_HOLD: u64 = 300 * MILLISECOND;

/// How long a status message stays shown.
pub const STATUS_SHOWN: u64 = 8000 * MILLISECOND;

/// The spinner frame at position `i`.
pub open spec fn spinner_glyph(i: nat) -> char {
    if i == 0 { '\u{280B}' }
    else if i == 1 { '\u{2819}' }
    else if i == 2 { '\u{2839}' }
    else if i == 3 { '\u{2838}' }
    else if i == 4 { '\u{283C}' }
    else if i == 5 { '\u{2834}' }
    else if i == 6 { '\u{2826}' }
    else if i == 7 { '\u{2827}' }
    else if i == 8 { '\u{2807}' }
    else { '\u{280F}' }
}

/// The spinner position after `n` frames from position `i`.
pub open spec fn spinner_after(i: nat, n: nat) -> nat
    decreases n,
{
    if n == 0 {
        i
    } else {
        (spinner_after(i, (n - 1) as nat) + 1) % 10
    }
}

/// Time from `earlier` to `now`, or zero if `now` is not later.
pub open spec fn elapsed(now: u64, earlier: u64) -> u64 {
    if now >= earlier { (now - earlier) as u64 } else { 0 }
}

/// At time `now`, Space is held but has gone unused for too long.
pub open spec fn space_expires(app: App, now: u64) -> bool {
    app.space_held && (app.space_at matches Some(t) && elapsed(now, t) > SPACE_HOLD)
}

/// `current` of `total` in percent, rounded down; 0 when `total` is 0.
pub open spec fn percent(current: nat, total: nat) -> nat {
    if total > 0 { current * 100 / total } else { 0 }
}

/// The progress text of a walk that kept `found` files.
pub open spec fn walking_text(found: nat) -> Seq<char> {
    "Walking \u{2026} "@ + decimal(found) + " files found"@
}

/// The progress text of a hashing phase named `phase`.
pub open spec fn hashing_text(phase: Seq<char>, current: nat, total: nat) -> Seq<char> {
    phase + decimal(current) + "/"@ + decimal(total) + " ("@ + decimal(percent(current, total)) + "%)"@
}

/// The status set when a scan ends with `groups`.
pub open spec fn scan_done_text(groups: Seq<DuplicateGroup>) -> Seq<char> {
    if groups.len() > 0 {
        "\u{2713} Scan complete \u{00B7} "@ + decimal(groups.len()) + " groups \u{00B7} "@
            + decimal(file_count(groups)) + " files \u{00B7} "@
            + spec_format_bytes(wasted_before(groups, groups.len() as int)) + " wasted"@
    } else {
        "\u{2713} No duplicates found \u{00B7} clean directory!"@
    }
}

/// The status set after a deletion removed `count` files freeing `freed`
/// bytes.
pub open spec fn deleted_text(count: nat, freed: nat) -> Seq<char> {
    if count > 0 {
        "\u{2713} Deleted "@ + decimal(count) + " files ("@ + spec_format_bytes(freed) + " freed)"@
    } else {
        "\u{2717} Could not delete any files"@
    }
}

impl App {
    /// Shows `msg` in the status bar from time `now`.
    pub fn set_status(&mut self, msg: String, now: u64)
        ensures
            *final(self) == (App { status_message: Some((msg, now)), ..*old(self) }),
    {
        self.status_message = Some((msg, now));
    }

    /// Advances the spinner by one frame.
    pub fn tick_spinner(&mut self)
        requires
            old(self).spinner_idx.wf(),
        ensures
            final(self).spinner_idx.wf(),
            final(self).spinner_idx@ == (old(self).spinner_idx@ + 1) % 10,
            *final(self) == (App { spinner_idx: final(self).spinner_idx, ..*old(self) }),
    {
        self.spinner_idx.advance();
    }

    /// The current spinner frame.
    pub fn spinner_char(&self) -> (c: char)
        ensures
            c == spinner_glyph(self.spinner_idx@),
    {
        let i = self.spinner_idx.index();
        if i == 0 { '\u{280B}' }
        else if i == 1 { '\u{2819}' }
        else if i == 2 { '\u{2839}' }
        else if i == 3 { '\u{2838}' }
        else if i == 4 { '\u{283C}' }
        else if i == 5 { '\u{2834}' }
        else if i == 6 { '\u{2826}' }
        else if i == 7 { '\u{2827}' }
        else if i == 8 { '\u{2807}' }
        else { '\u{280F}' }
    }

    /// The passing of time, at time `now`: the spinner advances once a frame
    /// has been shown long enough, and Space stops being held once it has not
    /// been used for long enough.
    pub fn on_tick(&mut self, now: u64)
        requires
            old(self).spinner_idx.wf(),
        ensures
            final(self).spinner_idx.wf(),
            elapsed(now, old(self).last_tick) >= SPINNER_FRAME ==> {
                &&& final(self).spinner_idx@ == (old(self).spinner_idx@ + 1) % 10
                &&& final(self).last_tick == now
            },
            elapsed(now, old(self).last_tick) < SPINNER_FRAME ==> {
                &&& final(self).spinner_idx == old(self).spinner_idx
                &&& final(self).last_tick == old(self).last_tick
            },
            space_expires(*old(self), now) ==> {
                &&& !final(self).space_held
                &&& final(self).space_at is None
            },
            !space_expires(*old(self), now) ==> {
                &&& final(self).space_held == old(self).space_held
                &&& final(self).space_at == old(self).space_at
            },
            *final(self) == (App {
                spinner_idx: final(self).spinner_idx,
                last_tick: final(self).last_tick,
                space_held: final(self).space_held,
                space_at: final(self).space_at,
                ..*old(self)
            }),
    {
        let since_tick = if now >= self.last_tick { now - self.last_tick } else { 0 };
        if since_tick >= SPINNER_FRAME {
            self.tick_spinner();
            self.last_tick = now;
        }
        if self.space_held {
            if let Some(t) = self.space_at {
                let since_space = if now >= t { now - t } else { 0 };
                if since_space > SPACE_HOLD {
                    self.space_held = false;
                    self.space_at = None;
                }
            }
        }
    }

    /// Takes a report of the running scan at time `now`: progress updates
    /// the progress text; the final report installs the groups, ends the
    /// scan and sets a status that sums it up.
    pub fn apply_progress(&mut self, progress: ScanProgress, now: u64)
        requires
            old(self).wf(),
            progress matches ScanProgress::QuickHash { current, total } ==> current * 100 <= usize::MAX,
            progress matches ScanProgress::FullHash { current, total } ==> current * 100 <= usize::MAX,
            progress matches ScanProgress::Done { groups, total_files } ==> within_limits(groups@),
        ensures
            final(self).wf(),
            match progress {
                ScanProgress::Walking { found } => *final(self) == (App {
                    scan_progress: final(self).scan_progress,
                    ..*old(self)
                }) && final(self).scan_progress@ == walking_text(found as nat),
                ScanProgress::QuickHash { current, total } => *final(self) == (App {
                    scan_progress: final(self).scan_progress,
                    ..*old(self)
                }) && final(self).scan_progress@ == hashing_text(
                    "Quick hash \u{2026} "@,
                    current as nat,
                    total as nat,
                ),
                ScanProgress::FullHash { current, total } => *final(self) == (App {
                    scan_progress: final(self).scan_progress,
                    ..*old(self)
                }) && final(self).scan_progress@ == hashing_text(
                    "Full hash \u{2026} "@,
                    current as nat,
                    total as nat,
                ),
                ScanProgress::Done { groups, total_files } => {
                    &&& final(self).groups@ == groups@
                    &&& final(self).total_scanned == total_files
                    &&& !final(self).scanning
                    &&& final(self).selected_row_follows()
                    &&& final(self).status_message matches Some((msg, t)) && t == now
                        && msg@ == scan_done_text(groups@)
                    &&& *final(self) == (App {
                        groups: final(self).groups,
                        flat_lookup: final(self).flat_lookup,
                        total_scanned: total_files,
                        scanning: false,
                        selected_row: final(self).selected_row,
                        status_message: final(self).status_message,
                        ..*old(self)
                    })
                },
            },
    {
        match progress {
            ScanProgress::Walking { found } => {
                let mut s = text("Walking \u{2026} ");
                push_decimal(&mut s, found as u64);
                s.append(" files found");
                self.scan_progress = s;
            },
            ScanProgress::QuickHash { current, total } => {
                let pct = if total > 0 { current * 100 / total } else { 0 };
                let mut s = text("Quick hash \u{2026} ");
                push_decimal(&mut s, current as u64);
                s.append("/");
                push_decimal(&mut s, total as u64);
                s.append(" (");
                push_decimal(&mut s, pct as u64);
                s.append("%)");
                self.scan_progress = s;
            },
            ScanProgress::FullHash { current, total } => {
                let pct = if total > 0 { current * 100 / total } else { 0 };
                let mut s = text("Full hash \u{2026} ");
                push_decimal(&mut s, current as u64);
                s.append("/");
                push_decimal(&mut s, total as u64);
                s.append(" (");
                push_decimal(&mut s, pct as u64);
                s.append("%)");
                self.scan_progress = s;
            },
            ScanProgress::Done { groups, total_files } => {
                self.groups = groups;
                self.rebuild_flat_lookup();
                self.total_scanned = total_files;
                self.scanning = false;
                self.update_selected_row();
                let fg = self.total_files_in_groups();
                let gc = self.total_groups();
                let ws = self.total_wasted();
                if gc > 0 {
                    let mut s = text("\u{2713} Scan complete \u{00B7} ");
                    push_decimal(&mut s, gc as u64);
                    s.append(" groups \u{00B7} ");
                    push_decimal(&mut s, fg as u64);
                    s.append(" files \u{00B7} ");
                    let w = format_bytes(ws);
                    s.append(w.as_str());
                    s.append(" wasted");
                    self.set_status(s, now);
                } else {
                    self.set_status(text("\u{2713} No duplicates found \u{00B7} clean directory!"), now);
                }
            },
        }
    }

    /// Ends a confirmed deletion at time `now`, once the caller has tried to
    /// delete the files of `deletion_targets` (see `delete_marked`): reports
    /// in the status how many files went and the space that freed, and
    /// closes the confirmation.
    pub fn finish_deletion(&mut self, removed: &Vec<bool>, now: u64)
        requires
            old(self).wf(),
            removed@.len() == deletion_plan(old(self).groups@, old(self).marked@).len(),
        ensures
            final(self).wf(),
            pruned(old(self).groups@, old(self).marked@, final(self).groups@),
            final(self).marked@ == Set::<usize>::empty(),
            final(self).selected_idx == if file_count(final(self).groups@) == 0 {
                0
            } else if old(self).selected_idx < file_count(final(self).groups@) {
                old(self).selected_idx
            } else {
                (file_count(final(self).groups@) - 1) as usize
            },
            final(self).selected_row_follows(),
            !final(self).confirm_delete,
            final(self).status_message matches Some((msg, t)) && t == now && msg@ == deleted_text(
                count_removed(removed@),
                freed_bytes(deletion_plan(old(self).groups@, old(self).marked@), removed@),
            ),
            *final(self) == (App {
                groups: final(self).groups,
                flat_lookup: final(self).flat_lookup,
                marked: final(self).marked,
                selected_idx: final(self).selected_idx,
                selected_row: final(self).selected_row,
                status_message: final(self).status_message,
                confirm_delete: false,
                ..*old(self)
            }),
    {
        let (count, freed) = self.delete_marked(removed);
        if count > 0 {
            let mut s = text("\u{2713} Deleted ");
            push_decimal(&mut s, count as u64);
            s.append(" files (");
            let f = format_bytes(freed);
            s.append(f.as_str());
            s.append(" freed)");
            self.set_status(s, now);
        } else {
            self.set_status(text("\u{2717} Could not delete any files"), now);
        }
        self.confirm_delete = false;
    }
}

} // verus!
