//! What the screen shows: the header summary, the status line, the rows of
//! the list, the delete confirmation and the scan gauge, as plain values for
//! the caller to draw.

use vstd::prelude::*;

use crate::app::{App, file_count, files_before, is_position, lemma_files_before_monotonic, marks_a_first_copy,
    row_count, row_of, wasted_before, within_limits};
use crate::shorten::{spec_truncate_mid, spec_truncate_path, truncate_mid, truncate_path_lossy};
use crate::deletion::{deletion_plan, plan_bytes};
use crate::session::{STATUS_SHOWN, elapsed, spinner_glyph};
use crate::text::{char_from, decimal, digits_value, find_char, format_bytes, is_digits, parse_digits, push_char, push_decimal,
    spec_format_bytes, text};

verus! {

broadcast use vstd::std_specs::hash::group_hash_axioms;

/// The colour of the status line: success, failure, or neither.
pub enum StatusTone {
    Success,
    Failure,
    Plain,
}

/// The progress gauge of the scanning screen.
pub enum Gauge {
    /// A gauge filled to this percentage.
    Percent(u64),
    /// A gauge with no known end (while walking).
    Indeterminate,
    /// No gauge.
    Hidden,
}

/// The delete confirmation.
pub struct ConfirmView {
    /// Width of the dialog.
    pub width: u16,
    /// Height of the dialog.
    pub height: u16,
    /// How many files are about to go.
    pub count_text: String,
    /// How much space that frees.
    pub size_text: String,
    /// A marked file is the first copy of its group.
    pub warn_first_copy: bool,
}

/// One row of the rendered list.
pub enum RowView {
    /// The header of a group.
    Header { number: String, name: String, copies: String, wasted: String, has_marked: bool },
    /// One file of a group.
    File { selected: bool, marked: bool, path: String, size: String },
    /// The line between two groups.
    Separator,
    /// The position of the selection, below the list.
    Footer { text: String },
}

/// `n` right-aligned in two columns.
pub open spec fn pad2(n: nat) -> Seq<char> {
    if n < 10 { " "@ + decimal(n) } else { decimal(n) }
}

/// Room for paths and names in a list `width` columns wide.
pub open spec fn path_room(width: u16) -> nat {
    if width > 34 { (width - 34) as nat } else { 0 }
}

/// A group has a marked file.
pub open spec fn group_has_mark(app: App, g: int) -> bool {
    exists|i: int| files_before(app.groups@, g) <= i < files_before(app.groups@, g) + app.groups@[g].files@.len()
        && #[trigger] app.marked@.contains(i as usize)
}

/// The header row of group `g`.
pub open spec fn header_row(app: App, width: u16, row: RowView, g: int) -> bool {
    let group = app.groups@[g];
    row matches RowView::Header { number, name, copies, wasted, has_marked }
        && number@ == " "@ + pad2((g + 1) as nat) + ". "@
        && name@ == spec_truncate_mid(group.file_name@, path_room(width))
        && copies@ == decimal(group.files@.len()) + " \u{00D7} "@ + spec_format_bytes(group.files@[0].size as nat)
        && wasted@ == "  ("@ + spec_format_bytes(group.wasted_bytes as nat) + " wasted)"@
        && has_marked == group_has_mark(app, g)
}

/// The row of file `f` of group `g`.
pub open spec fn file_row(app: App, width: u16, home: Seq<char>, row: RowView, g: int, f: int) -> bool {
    let i = files_before(app.groups@, g) + f;
    let file = app.groups@[g].files@[f];
    row matches RowView::File { selected, marked, path, size }
        && selected == (i == app.selected_idx)
        && marked == app.marked@.contains(i as usize)
        && path@ == " "@ + spec_truncate_path(file.path@, path_room(width), home)
        && size@ == "  "@ + spec_format_bytes(file.size as nat)
}

/// `k` horizontal lines.
pub open spec fn rule(k: nat) -> Seq<char> {
    Seq::new(k, |_i: int| '\u{2500}')
}

/// The text below the list: a rule, how far down the selection is in
/// percent, and which file of how many it is.
pub open spec fn footer_text(app: App, width: u16) -> Seq<char> {
    let total = file_count(app.groups@) as int;
    let at = app.selected_idx + 1;
    let pct = if total > 0 { (at * 100) / total } else { 0 };
    let k = if sat_sub(width as int, 25) < 30 { sat_sub(width as int, 25) } else { 30 };
    "  "@ + rule(k as nat) + "  "@ + decimal(pct as nat) + "% \u{00B7} file "@ + decimal(at as nat) + " of "@
        + decimal(total as nat)
}

/// The summary in the header.
pub open spec fn spec_header_summary(app: App) -> Seq<char> {
    if app.scanning {
        seq![' ', spinner_glyph(app.spinner_idx@), ' '] + app.scan_progress@ + seq![' ']
    } else if app.groups@.len() == 0 {
        "  \u{2713} No duplicates found  "@
    } else {
        "  "@ + decimal(app.groups@.len()) + " groups \u{00B7} "@ + decimal(file_count(app.groups@))
            + " files \u{00B7} "@ + spec_format_bytes(wasted_before(app.groups@, app.groups@.len() as int))
            + " wasted  "@
    }
}

/// The status message to show at time `now`, if one is still fresh.
pub open spec fn fresh_status(app: App, now: u64) -> Option<Seq<char>> {
    match app.status_message {
        Some((msg, t)) => if elapsed(now, t) <= STATUS_SHOWN && msg@.len() > 0 { Some(msg@) } else { None },
        None => None,
    }
}

/// The text of the status line at time `now`.
pub open spec fn spec_status_text(app: App, now: u64) -> Seq<char> {
    if app.scanning {
        " Scanning\u{2026}  [q] quit "@
    } else if fresh_status(app, now) is Some {
        fresh_status(app, now)->0
    } else {
        " "@ + decimal(app.marked@.len())
            + " marked \u{00B7} [Space] hold+scroll \u{00B7} [m] group \u{00B7} [a] all \u{00B7} [d] delete \u{00B7} [D] all+del \u{00B7} [q] quit "@
    }
}

/// The colour of a status text: success when it starts with a check mark,
/// failure when it starts with a cross.
pub open spec fn tone_of(s: Seq<char>) -> StatusTone {
    if s.len() > 0 && s[0] == '\u{2713}' {
        StatusTone::Success
    } else if s.len() > 0 && s[0] == '\u{2717}' {
        StatusTone::Failure
    } else {
        StatusTone::Plain
    }
}

/// `a` reduced by `b`, or zero.
pub open spec fn sat_sub(a: int, b: int) -> int {
    if a > b { a - b } else { 0 }
}

/// The scroll position that keeps the selected row in view: the rows shown
/// are those below the header and the border, `height - 4` of them; the
/// selected row is taken within the `line_count` lines.
pub open spec fn scrolled(scroll: int, selected_row: int, line_count: int, height: int) -> int {
    let content_h = sat_sub(height, 4);
    let last = sat_sub(line_count, 1);
    let sel = if selected_row < last { selected_row } else { last };
    if sel < scroll {
        sel
    } else if sel >= scroll + content_h {
        sat_sub(sel + 1, content_h)
    } else {
        scroll
    }
}

/// Where `%)` first occurs in `s` at or after `i`, if it does.
pub open spec fn percent_close_from(s: Seq<char>, i: int) -> Option<int>
    decreases s.len() - i,
{
    if i < 0 || i + 1 >= s.len() {
        None
    } else if s[i] == '%' && s[i + 1] == ')' {
        Some(i)
    } else {
        percent_close_from(s, i + 1)
    }
}

/// The percentage that a progress text shows: the number between its first
/// `(` and its first `%)`, if that is a run of digits.
pub open spec fn shown_percent(s: Seq<char>) -> Option<nat> {
    match (char_from(s, '(', 0), percent_close_from(s, 0)) {
        (Some(a), Some(b)) => {
            let t = s.subrange(a + 1, b);
            if is_digits(t) && digits_value(t) <= u64::MAX { Some(digits_value(t)) } else { None }
        },
        _ => None,
    }
}

/// The gauge for a progress text: its percentage if it shows one, a gauge
/// with no end while walking, and none otherwise.
pub open spec fn spec_scan_gauge(s: Seq<char>) -> Gauge {
    match shown_percent(s) {
        Some(n) => Gauge::Percent(n as u64),
        None => if s.len() >= 7 && s.take(7) == "Walking"@ { Gauge::Indeterminate } else { Gauge::Hidden },
    }
}

/// The progress text names a percentage that closes before it opens.
pub open spec fn percent_out_of_order(s: Seq<char>) -> bool {
    match (char_from(s, '(', 0), percent_close_from(s, 0)) {
        (Some(a), Some(b)) => b < a + 1,
        _ => false,
    }
}

fn find_percent_close(v: &Vec<char>) -> (r: Option<usize>)
    ensures
        match r {
            Some(i) => percent_close_from(v@, 0) == Some(i as int) && i + 1 < v@.len(),
            None => percent_close_from(v@, 0) is None,
        },
{
    let mut i: usize = 0;
    while v.len() > 1 && i < v.len() - 1
        invariant
            percent_close_from(v@, 0) == percent_close_from(v@, i as int),
            v@.len() == v.len(),
        decreases v@.len() - i,
    {
        if v[i] == '%' && v[i + 1] == ')' {
            return Some(i);
        }
        i = i + 1;
    }
    None
}

impl App {
    /// The header row of group `gi`, whose files start at `base`.
    fn header_view(&self, gi: usize, base: usize, room: usize, width: u16) -> (r: RowView)
        requires
            self.wf(),
            gi < self.groups@.len(),
            self.groups@[gi as int].files@.len() > 0,
            base == files_before(self.groups@, gi as int),
            base + self.groups@[gi as int].files@.len() <= usize::MAX,
            room == path_room(width),
        ensures
            header_row(*self, width, r, gi as int),
    {
        let group = &self.groups[gi];
        let copies = group.files.len();
        let mut has_marked = false;
        let mut k: usize = 0;
        while k < copies
            invariant
                copies == self.groups@[gi as int].files@.len(),
                base + copies <= usize::MAX,
                k <= copies,
                has_marked == exists|i: int| base <= i < base + k && #[trigger] self.marked@.contains(i as usize),
            decreases copies - k,
        {
            if self.marked.contains(&(base + k)) {
                has_marked = true;
            }
            k = k + 1;
        }
        let mut number = text(" ");
        if gi + 1 < 10 {
            push_char(&mut number, ' ');
        }
        push_decimal(&mut number, (gi + 1) as u64);
        number.append(". ");
        proof {
            reveal_strlit(" ");
            assert(number@ =~= " "@ + pad2((gi + 1) as nat) + ". "@);
        }
        let name = truncate_mid(group.file_name.as_str(), room);
        let mut copies_text = String::new();
        push_decimal(&mut copies_text, copies as u64);
        copies_text.append(" \u{00D7} ");
        let per = format_bytes(group.files[0].size);
        copies_text.append(per.as_str());
        let mut wasted = text("  (");
        let w = format_bytes(group.wasted_bytes);
        wasted.append(w.as_str());
        wasted.append(" wasted)");
        proof {
            assert(copies_text@ =~= decimal(copies as nat) + " \u{00D7} "@ + spec_format_bytes(group.files@[0].size as nat));
        }
        RowView::Header { number, name, copies: copies_text, wasted, has_marked }
    }

    /// The row of file `f` of group `gi`, whose files start at `base`.
    fn file_view(&self, gi: usize, f: usize, base: usize, room: usize, width: u16, home: &str) -> (r: RowView)
        requires
            gi < self.groups@.len(),
            f < self.groups@[gi as int].files@.len(),
            base == files_before(self.groups@, gi as int),
            base + self.groups@[gi as int].files@.len() <= usize::MAX,
            room == path_room(width),
        ensures
            file_row(*self, width, home@, r, gi as int, f as int),
    {
        let file = &self.groups[gi].files[f];
        let i = base + f;
        let mut path = text(" ");
        let shown = truncate_path_lossy(file.path.as_str(), room, home);
        path.append(shown.as_str());
        let mut size = text("  ");
        let fs = format_bytes(file.size);
        size.append(fs.as_str());
        let marked = self.marked.contains(&i);
        RowView::File { selected: i == self.selected_idx, marked, path, size }
    }

    /// The rows of the list for a screen `width` columns wide, `home` being
    /// the home directory: for each group its header and its files, a
    /// separator between groups, and a footer.
    pub fn content_rows(&self, width: u16, home: &str) -> (rows: Vec<RowView>)
        requires
            self.wf(),
            forall|g: int| 0 <= g < self.groups@.len() ==> #[trigger] self.groups@[g].files@.len() > 0,
            (self.selected_idx + 1) * 100 <= usize::MAX,
        ensures
            rows@.len() == row_count(self.groups@) + 1,
            forall|g: int| 0 <= g < self.groups@.len()
                ==> header_row(*self, width, rows@[files_before(self.groups@, g) + 2 * g], g),
            forall|g: int, f: int| is_position(self.groups@, files_before(self.groups@, g) + f, g, f)
                ==> file_row(*self, width, home@, rows@[row_of(self.groups@, g, f)], g, f),
            forall|g: int| 0 < g < self.groups@.len()
                ==> rows@[files_before(self.groups@, g) + 2 * g - 1] is Separator,
            rows@.last() matches RowView::Footer { text } && text@ == footer_text(*self, width),
    {
        let ghost gs = self.groups@;
        let room: usize = if width > 34 { (width - 34) as usize } else { 0 };
        let mut rows: Vec<RowView> = Vec::new();
        let mut base: usize = 0;
        let mut gi: usize = 0;
        while gi < self.groups.len()
            invariant
                gs == self.groups@,
                self.wf(),
                room == path_room(width),
                forall|g: int| 0 <= g < gs.len() ==> #[trigger] gs[g].files@.len() > 0,
                gi <= gs.len(),
                base == files_before(gs, gi as int),
                rows@.len() == if gi == 0 { 0 } else { files_before(gs, gi as int) + 2 * gi - 1 },
                forall|g: int| 0 <= g < gi ==> header_row(*self, width, rows@[files_before(gs, g) + 2 * g], g),
                forall|g: int, f: int| 0 <= g < gi && is_position(gs, files_before(gs, g) + f, g, f)
                    ==> file_row(*self, width, home@, rows@[row_of(gs, g, f)], g, f),
                forall|g: int| 0 < g < gi ==> rows@[files_before(gs, g) + 2 * g - 1] is Separator,
            decreases gs.len() - gi,
        {
            proof {
                lemma_files_before_monotonic(gs, gi as int + 1, gs.len() as int);
            }
            let copies = self.groups[gi].files.len();
            let ghost before = rows@;
            if gi > 0 {
                rows.push(RowView::Separator);
            }
            let ghost with_sep = rows@;
            let header = self.header_view(gi, base, room, width);
            rows.push(header);
            let ghost with_header = rows@;
            let mut f: usize = 0;
            while f < copies
                invariant
                    gs == self.groups@,
                    self.wf(),
                    room == path_room(width),
                    gi < gs.len(),
                    copies == gs[gi as int].files@.len(),
                    base == files_before(gs, gi as int),
                    base + copies <= usize::MAX,
                    f <= copies,
                    rows@.len() == with_header.len() + f,
                    with_header.len() == files_before(gs, gi as int) + 2 * gi + 1,
                    forall|t: int| 0 <= t < with_header.len() ==> rows@[t] == with_header[t],
                    forall|t: int| 0 <= t < f ==> file_row(*self, width, home@, #[trigger] rows@[with_header.len() + t], gi as int, t),
                decreases copies - f,
            {
                let row = self.file_view(gi, f, base, room, width, home);
                rows.push(row);
                f = f + 1;
            }
            proof {
                let g0 = gi as int;
                assert forall|t: int| 0 <= t < before.len() implies rows@[t] == before[t] by {
                    assert(rows@[t] == with_header[t]);
                    assert(with_header[t] == with_sep[t]);
                }
                assert(with_header[with_sep.len() as int] == header);
                assert(rows@[with_sep.len() as int] == with_header[with_sep.len() as int]);
                assert forall|g: int| 0 <= g < g0 + 1 implies header_row(*self, width, rows@[files_before(gs, g) + 2 * g], g) by {
                    if g < g0 {
                        lemma_files_before_monotonic(gs, g + 1, g0);
                        assert(rows@[files_before(gs, g) + 2 * g] == before[files_before(gs, g) + 2 * g]);
                    }
                }
                assert forall|g: int, ff: int| 0 <= g < g0 + 1 && is_position(gs, files_before(gs, g) + ff, g, ff)
                    implies file_row(*self, width, home@, rows@[row_of(gs, g, ff)], g, ff) by {
                    if g < g0 {
                        lemma_files_before_monotonic(gs, g + 1, g0);
                        assert(rows@[row_of(gs, g, ff)] == before[row_of(gs, g, ff)]);
                    } else {
                        assert(rows@[row_of(gs, g, ff)] == rows@[with_header.len() + ff]);
                    }
                }
                assert forall|g: int| 0 < g < g0 + 1 implies rows@[files_before(gs, g) + 2 * g - 1] is Separator by {
                    if g < g0 {
                        lemma_files_before_monotonic(gs, g, g0);
                        assert(rows@[files_before(gs, g) + 2 * g - 1] == before[files_before(gs, g) + 2 * g - 1]);
                    } else {
                        assert(rows@[before.len() as int] == with_header[before.len() as int]);
                        assert(with_sep[before.len() as int] is Separator);
                    }
                }
            }
            base = base + copies;
            gi = gi + 1;
        }
        // the footer
        let total = self.flat_count();
        let at = self.selected_idx + 1;
        let pct = if total > 0 { at * 100 / total } else { 0 };
        let avail: usize = if width > 25 { (width - 25) as usize } else { 0 };
        let k = if avail < 30 { avail } else { 30 };
        let mut footer = text("  ");
        let mut d: usize = 0;
        while d < k
            invariant
                d <= k,
                footer@ == "  "@ + rule(d as nat),
            decreases k - d,
        {
            push_char(&mut footer, '\u{2500}');
            d = d + 1;
            assert(footer@ =~= "  "@ + rule(d as nat));
        }
        footer.append("  ");
        push_decimal(&mut footer, pct as u64);
        footer.append("% \u{00B7} file ");
        push_decimal(&mut footer, at as u64);
        footer.append(" of ");
        push_decimal(&mut footer, total as u64);
        let ghost before_footer = rows@;
        rows.push(RowView::Footer { text: footer });
        proof {
            assert forall|g: int| 0 <= g < gs.len() implies header_row(*self, width, rows@[files_before(gs, g) + 2 * g], g) by {
                lemma_files_before_monotonic(gs, g + 1, gs.len() as int);
                assert(rows@[files_before(gs, g) + 2 * g] == before_footer[files_before(gs, g) + 2 * g]);
            }
            assert forall|g: int, ff: int| is_position(gs, files_before(gs, g) + ff, g, ff)
                implies file_row(*self, width, home@, rows@[row_of(gs, g, ff)], g, ff) by {
                lemma_files_before_monotonic(gs, g + 1, gs.len() as int);
                assert(rows@[row_of(gs, g, ff)] == before_footer[row_of(gs, g, ff)]);
            }
            assert forall|g: int| 0 < g < gs.len() implies rows@[files_before(gs, g) + 2 * g - 1] is Separator by {
                lemma_files_before_monotonic(gs, g, gs.len() as int);
                assert(rows@[files_before(gs, g) + 2 * g - 1] == before_footer[files_before(gs, g) + 2 * g - 1]);
            }
        }
        rows
    }

    /// The gauge of the scanning screen, from the progress text.
    pub fn scan_gauge(&self) -> (g: Gauge)
        requires
            !percent_out_of_order(self.scan_progress@),
        ensures
            g == spec_scan_gauge(self.scan_progress@),
    {
        let v = crate::paths::chars_of(self.scan_progress.as_str());
        let pct = match (find_char(&v, '('), find_percent_close(&v)) {
            (Some(a), Some(b)) => parse_digits(&v, a + 1, b),
            _ => None,
        };
        match pct {
            Some(n) => Gauge::Percent(n),
            None => {
                let walking = v.len() >= 7 && v[0] == 'W' && v[1] == 'a' && v[2] == 'l' && v[3] == 'k'
                    && v[4] == 'i' && v[5] == 'n' && v[6] == 'g';
                proof {
                    reveal_strlit("Walking");
                    if walking {
                        assert(v@.take(7) =~= "Walking"@);
                    } else if v@.len() >= 7 && v@.take(7) == "Walking"@ {
                        assert(v@.take(7)[0] == v@[0]);
                        assert(v@.take(7)[1] == v@[1]);
                        assert(v@.take(7)[2] == v@[2]);
                        assert(v@.take(7)[3] == v@[3]);
                        assert(v@.take(7)[4] == v@[4]);
                        assert(v@.take(7)[5] == v@[5]);
                        assert(v@.take(7)[6] == v@[6]);
                    }
                }
                if walking { Gauge::Indeterminate } else { Gauge::Hidden }
            },
        }
    }

    /// The summary in the header.
    pub fn header_summary(&self) -> (s: String)
        requires
            within_limits(self.groups@),
        ensures
            s@ == spec_header_summary(*self),
    {
        if self.scanning {
            let mut s = String::new();
            push_char(&mut s, ' ');
            push_char(&mut s, self.spinner_char());
            push_char(&mut s, ' ');
            s.append(self.scan_progress.as_str());
            push_char(&mut s, ' ');
            assert(s@ =~= spec_header_summary(*self));
            s
        } else if self.groups.len() == 0 {
            text("  \u{2713} No duplicates found  ")
        } else {
            let mut s = text("  ");
            push_decimal(&mut s, self.total_groups() as u64);
            s.append(" groups \u{00B7} ");
            push_decimal(&mut s, self.total_files_in_groups() as u64);
            s.append(" files \u{00B7} ");
            let w = format_bytes(self.total_wasted());
            s.append(w.as_str());
            s.append(" wasted  ");
            s
        }
    }

    /// The status line at time `now` and its colour: while scanning a hint to
    /// quit, else a status message set in the last 8 seconds, else the number
    /// of marks and the main keys.
    pub fn status_line(&self, now: u64) -> (r: (String, StatusTone))
        ensures
            r.0@ == spec_status_text(*self, now),
            r.1 == tone_of(r.0@),
    {
        let s = if self.scanning {
            text(" Scanning\u{2026}  [q] quit ")
        } else {
            let fresh = match &self.status_message {
                Some((msg, t)) => {
                    let age = if now >= *t { now - *t } else { 0 };
                    if age <= STATUS_SHOWN && !msg.as_str().is_empty() {
                        Some(msg.clone())
                    } else {
                        None
                    }
                },
                None => None,
            };
            match fresh {
                Some(m) => m,
                None => {
                    let mut s = text(" ");
                    push_decimal(&mut s, self.marked.len() as u64);
                    s.append(" marked \u{00B7} [Space] hold+scroll \u{00B7} [m] group \u{00B7} [a] all \u{00B7} [d] delete \u{00B7} [D] all+del \u{00B7} [q] quit ");
                    s
                },
            }
        };
        let v = crate::paths::chars_of(s.as_str());
        let tone = if v.len() > 0 && v[0] == '\u{2713}' {
            StatusTone::Success
        } else if v.len() > 0 && v[0] == '\u{2717}' {
            StatusTone::Failure
        } else {
            StatusTone::Plain
        };
        (s, tone)
    }

    /// Scrolls so that the selected row is in view, given the `line_count`
    /// lines of the list and the `height` of its area, and returns the first
    /// line to show (at most the last line).
    pub fn adjust_scroll(&mut self, line_count: usize, height: u16) -> (first: usize)
        requires
            old(self).scroll_offset + 0xffff <= usize::MAX,
        ensures
            final(self).scroll_offset == scrolled(
                old(self).scroll_offset as int,
                old(self).selected_row as int,
                line_count as int,
                height as int,
            ),
            first == if final(self).scroll_offset < sat_sub(line_count as int, 1) {
                final(self).scroll_offset as int
            } else {
                sat_sub(line_count as int, 1)
            },
            *final(self) == (App { scroll_offset: final(self).scroll_offset, ..*old(self) }),
    {
        let content_h: usize = if height > 4 { (height - 4) as usize } else { 0 };
        let last: usize = if line_count > 1 { line_count - 1 } else { 0 };
        let sel_row = if self.selected_row < last { self.selected_row } else { last };
        if sel_row < self.scroll_offset {
            self.scroll_offset = sel_row;
        } else if sel_row >= self.scroll_offset + content_h {
            self.scroll_offset = if sel_row + 1 > content_h { sel_row + 1 - content_h } else { 0 };
        }
        if self.scroll_offset < last {
            self.scroll_offset
        } else {
            last
        }
    }

    /// The sizes of the marked files (those that stand for a file), summed.
    pub fn marked_size(&self) -> (total: u64)
        requires
            within_limits(self.groups@),
        ensures
            total == plan_bytes(deletion_plan(self.groups@, self.marked@)),
    {
        let plan = self.deletion_targets();
        let ghost p = plan@;
        proof {
            crate::deletion::lemma_targets_bytes(self.groups@, self.marked@, self.groups@.len() as int);
        }
        let mut total: u64 = 0;
        let mut k: usize = 0;
        while k < plan.len()
            invariant
                p == plan@,
                k <= p.len(),
                total == plan_bytes(p.take(k as int)),
                plan_bytes(p) <= u64::MAX,
            decreases p.len() - k,
        {
            proof {
                assert(p.take(k as int + 1).drop_last() =~= p.take(k as int));
                crate::app::lemma_plan_bytes_prefix(p, k as int + 1);
            }
            total = total + plan[k].2;
            k = k + 1;
        }
        assert(p.take(k as int) =~= p);
        total
    }

    /// The delete confirmation for a screen `width` columns wide.
    pub fn confirm_view(&self, width: u16) -> (v: ConfirmView)
        requires
            within_limits(self.groups@),
        ensures
            v.width == if width > 60 { 56 } else if width > 4 { (width - 4) as u16 } else { 0 },
            v.warn_first_copy == marks_a_first_copy(self.groups@, self.marked@),
            v.height == if v.warn_first_copy { 11u16 } else { 9u16 },
            v.count_text@ == " You are about to delete "@ + decimal(self.marked@.len())
                + (if self.marked@.len() == 1 { " file "@ } else { " files "@ }),
            v.size_text@ == " "@ + spec_format_bytes(plan_bytes(deletion_plan(self.groups@, self.marked@)))
                + " will be freed. "@,
    {
        let count = self.marked.len();
        let size = self.marked_size();
        let warn = self.has_primary_marked();
        let avail: u16 = if width > 4 { width - 4 } else { 0 };
        let w: u16 = if avail < 56 { avail } else { 56 };
        let mut count_text = text(" You are about to delete ");
        push_decimal(&mut count_text, count as u64);
        if count == 1 {
            count_text.append(" file ");
        } else {
            count_text.append(" files ");
        }
        let mut size_text = text(" ");
        let f = format_bytes(size);
        size_text.append(f.as_str());
        size_text.append(" will be freed. ");
        ConfirmView {
            width: w,
            height: if warn { 11 } else { 9 },
            count_text,
            size_text,
            warn_first_copy: warn,
        }
    }
}

} // verus!
