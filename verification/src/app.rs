//! The interactive session: the duplicate groups as one flat list of files,
//! the selection, the marks, and how they change.

use std::collections::HashSet;
use vstd::prelude::*;

use crate::deletion::{count_removed, deletion_plan, freed_bytes, plan_bytes, pruned};
use crate::scanner::{DuplicateGroup, FileEntry, total_size, tail_size};

verus! {

broadcast use vstd::std_specs::hash::group_hash_axioms;

// ---------------------------------------------------------------------------
// The flat list model
// ---------------------------------------------------------------------------

/// Number of files in the groups before group `g`: the flat index of the
/// first file of group `g`.
pub open spec fn files_before(gs: Seq<DuplicateGroup>, g: int) -> nat
    decreases g,
{
    if g <= 0 {
        0
    } else {
        files_before(gs, g - 1) + gs[g - 1].files@.len()
    }
}

/// Number of files in all groups: the length of the flat list.
pub open spec fn file_count(gs: Seq<DuplicateGroup>) -> nat {
    files_before(gs, gs.len() as int)
}

/// Flat index `i` is file `f` of group `g`.
pub open spec fn is_position(gs: Seq<DuplicateGroup>, i: int, g: int, f: int) -> bool {
    &&& 0 <= g < gs.len()
    &&& 0 <= f < gs[g].files@.len()
    &&& i == files_before(gs, g) + f
}

/// The group and file that flat index `i` stands for, if any.
pub open spec fn locate(gs: Seq<DuplicateGroup>, i: int) -> Option<(int, int)> {
    if exists|g: int, f: int| is_position(gs, i, g, f) {
        Some(choose|g: int, f: int| is_position(gs, i, g, f))
    } else {
        None
    }
}

/// The (group, file) pairs of the flat list, group by group, up to group `n`.
pub open spec fn flat_pairs(gs: Seq<DuplicateGroup>, n: int) -> Seq<(usize, usize)>
    decreases n,
{
    if n <= 0 {
        Seq::empty()
    } else {
        flat_pairs(gs, n - 1) + Seq::new(gs[n - 1].files@.len(), |f: int| ((n - 1) as usize, f as usize))
    }
}

/// Row of file `f` of group `g` in the rendered list: each group is a header
/// row followed by its files, and groups are divided by one separator row.
pub open spec fn row_of(gs: Seq<DuplicateGroup>, g: int, f: int) -> int {
    files_before(gs, g) + 2 * g + 1 + f
}

/// The flat index of the file shown on rendered row `r`, if a file is shown
/// there (headers and separators show none).
pub open spec fn file_at_row(gs: Seq<DuplicateGroup>, r: int) -> Option<int> {
    if exists|g: int, f: int| is_position(gs, files_before(gs, g) + f, g, f) && row_of(gs, g, f) == r {
        let (g, f) = choose|g: int, f: int|
            is_position(gs, files_before(gs, g) + f, g, f) && row_of(gs, g, f) == r;
        Some(files_before(gs, g) + f)
    } else {
        None
    }
}

/// Number of rendered rows: a header and the files of each group, and a
/// separator between consecutive groups.
pub open spec fn row_count(gs: Seq<DuplicateGroup>) -> nat {
    if gs.len() == 0 {
        0
    } else {
        (file_count(gs) + 2 * gs.len() - 1) as nat
    }
}

/// Sum of the sizes of the files of the groups before group `g`.
pub open spec fn bytes_before(gs: Seq<DuplicateGroup>, g: int) -> nat
    decreases g,
{
    if g <= 0 {
        0
    } else {
        bytes_before(gs, g - 1) + total_size(gs[g - 1].files@)
    }
}

/// Sum of the `wasted_bytes` of the groups before group `g`.
pub open spec fn wasted_before(gs: Seq<DuplicateGroup>, g: int) -> nat
    decreases g,
{
    if g <= 0 {
        0
    } else {
        wasted_before(gs, g - 1) + gs[g - 1].wasted_bytes as nat
    }
}

/// The counts and sums that the session keeps fit its integer types: the
/// rendered rows in `usize`, the bytes of all files and the wasted bytes of
/// all groups in `u64`.
pub open spec fn within_limits(gs: Seq<DuplicateGroup>) -> bool {
    &&& file_count(gs) + 2 * gs.len() + 1 <= usize::MAX
    &&& bytes_before(gs, gs.len() as int) <= u64::MAX
    &&& wasted_before(gs, gs.len() as int) <= u64::MAX
}

/// `target` kept within the flat list of `total` files; `current` when the
/// list is empty.
pub open spec fn clamp_index(target: int, total: nat, current: int) -> usize {
    if total == 0 {
        current as usize
    } else if target < 0 {
        0
    } else if target > total - 1 {
        (total - 1) as usize
    } else {
        target as usize
    }
}

/// The flat indices of the files of group `g` from its file `from` on.
pub open spec fn group_indices(gs: Seq<DuplicateGroup>, g: int, from: int) -> Set<usize> {
    Set::new(|i: usize| files_before(gs, g) + from <= i < files_before(gs, g) + gs[g].files@.len())
}

/// The flat indices of all files but the first copy of each group.
pub open spec fn duplicate_indices(gs: Seq<DuplicateGroup>) -> Set<usize> {
    Set::new(|i: usize| locate(gs, i as int) matches Some((g, f)) && f >= 1)
}

/// Some marked index is the first copy of its group.
pub open spec fn marks_a_first_copy(gs: Seq<DuplicateGroup>, marked: Set<usize>) -> bool {
    exists|i: usize| #[trigger] marked.contains(i) && (locate(gs, i as int) matches Some((g, f)) && f == 0)
}

// ---------------------------------------------------------------------------
// Lemmas on the flat list
// ---------------------------------------------------------------------------

pub proof fn lemma_files_before_monotonic(gs: Seq<DuplicateGroup>, a: int, b: int)
    requires
        a <= b <= gs.len(),
    ensures
        files_before(gs, a) <= files_before(gs, b),
    decreases b - a,
{
    if a < b {
        lemma_files_before_monotonic(gs, a, b - 1);
    }
}

/// No two positions share a flat index.
pub proof fn lemma_position_unique(gs: Seq<DuplicateGroup>, i: int, g1: int, f1: int, g2: int, f2: int)
    requires
        is_position(gs, i, g1, f1),
        is_position(gs, i, g2, f2),
    ensures
        g1 == g2 && f1 == f2,
{
    if g1 < g2 {
        lemma_files_before_monotonic(gs, g1 + 1, g2);
    } else if g2 < g1 {
        lemma_files_before_monotonic(gs, g2 + 1, g1);
    }
}

/// Every flat index below the file count is a position, and no other is.
pub proof fn lemma_position_exists(gs: Seq<DuplicateGroup>, i: int, n: int)
    requires
        0 <= n <= gs.len(),
        0 <= i < files_before(gs, n),
    ensures
        exists|g: int, f: int| g < n && #[trigger] is_position(gs, i, g, f),
    decreases n,
{
    if i < files_before(gs, n - 1) {
        lemma_position_exists(gs, i, n - 1);
    } else {
        assert(is_position(gs, i, n - 1, i - files_before(gs, n - 1)));
    }
}

pub proof fn lemma_position_bound(gs: Seq<DuplicateGroup>, i: int, g: int, f: int)
    requires
        is_position(gs, i, g, f),
    ensures
        0 <= i < file_count(gs),
{
    lemma_files_before_monotonic(gs, g + 1, gs.len() as int);
}

/// `locate` gives the unique position of each flat index below the file count,
/// and nothing for any other index.
pub proof fn lemma_locate(gs: Seq<DuplicateGroup>, i: int)
    ensures
        (0 <= i < file_count(gs)) <==> locate(gs, i) is Some,
        locate(gs, i) matches Some((g, f)) ==> is_position(gs, i, g, f),
        forall|g: int, f: int| is_position(gs, i, g, f) ==> locate(gs, i) == Some((g, f)),
{
    if 0 <= i < file_count(gs) {
        lemma_position_exists(gs, i, gs.len() as int);
    }
    if locate(gs, i) is Some {
        let (g, f) = locate(gs, i).unwrap();
        lemma_position_bound(gs, i, g, f);
        assert forall|g2: int, f2: int| is_position(gs, i, g2, f2) implies locate(gs, i) == Some((g2, f2)) by {
            lemma_position_unique(gs, i, g, f, g2, f2);
        }
    }
}

/// The pairs of `flat_pairs` are the positions of their indices.
pub proof fn lemma_flat_pairs(gs: Seq<DuplicateGroup>, n: int)
    requires
        0 <= n <= gs.len(),
        gs.len() <= usize::MAX,
        forall|g: int| 0 <= g < gs.len() ==> #[trigger] gs[g].files@.len() <= usize::MAX,
    ensures
        flat_pairs(gs, n).len() == files_before(gs, n),
        forall|i: int| 0 <= i < flat_pairs(gs, n).len() ==>
            is_position(gs, i, #[trigger] flat_pairs(gs, n)[i].0 as int, flat_pairs(gs, n)[i].1 as int),
    decreases n,
{
    if n > 0 {
        lemma_flat_pairs(gs, n - 1);
        lemma_files_before_monotonic(gs, n - 1, gs.len() as int);
        let prev = flat_pairs(gs, n - 1);
        let tail = Seq::new(gs[n - 1].files@.len(), |f: int| ((n - 1) as usize, f as usize));
        assert forall|i: int| 0 <= i < flat_pairs(gs, n).len() implies
            is_position(gs, i, #[trigger] flat_pairs(gs, n)[i].0 as int, flat_pairs(gs, n)[i].1 as int) by {
            if i < prev.len() {
                assert(flat_pairs(gs, n)[i] == prev[i]);
            } else {
                assert(flat_pairs(gs, n)[i] == tail[i - prev.len()]);
            }
        }
    }
}

/// Rows of files increase with their flat index, so distinct files have
/// distinct rows, and each file row lies below the row count.
pub proof fn lemma_row_order(gs: Seq<DuplicateGroup>, g1: int, f1: int, g2: int, f2: int)
    requires
        is_position(gs, files_before(gs, g1) + f1, g1, f1),
        is_position(gs, files_before(gs, g2) + f2, g2, f2),
        g1 < g2 || (g1 == g2 && f1 < f2),
    ensures
        row_of(gs, g1, f1) < row_of(gs, g2, f2),
        files_before(gs, g1) + f1 < files_before(gs, g2) + f2,
{
    if g1 < g2 {
        lemma_files_before_monotonic(gs, g1 + 1, g2);
    }
}

pub proof fn lemma_row_below_count(gs: Seq<DuplicateGroup>, g: int, f: int)
    requires
        is_position(gs, files_before(gs, g) + f, g, f),
    ensures
        0 <= row_of(gs, g, f) < row_count(gs),
{
    lemma_files_before_monotonic(gs, g + 1, gs.len() as int);
}

/// A file's row shows that file: `file_at_row` undoes `row_of`.
pub proof fn lemma_file_at_row_of(gs: Seq<DuplicateGroup>, g: int, f: int)
    requires
        is_position(gs, files_before(gs, g) + f, g, f),
    ensures
        file_at_row(gs, row_of(gs, g, f)) == Some(files_before(gs, g) + f),
{
    let r = row_of(gs, g, f);
    assert(is_position(gs, files_before(gs, g) + f, g, f) && row_of(gs, g, f) == r);
    let (g2, f2) = choose|g2: int, f2: int|
        is_position(gs, files_before(gs, g2) + f2, g2, f2) && row_of(gs, g2, f2) == r;
    if g2 < g || (g2 == g && f2 < f) {
        lemma_row_order(gs, g2, f2, g, f);
    } else if g < g2 || (g2 == g && f < f2) {
        lemma_row_order(gs, g, f, g2, f2);
    }
}

// ---------------------------------------------------------------------------
// The session
// ---------------------------------------------------------------------------

/// The state of a session.
///
/// Times are nanoseconds on a monotonic clock that the caller reads; the
/// session starts at time 0.
pub struct App {
    /// The duplicate groups, largest waste first.
    pub groups: Vec<DuplicateGroup>,
    /// How many files the scan considered.
    pub total_scanned: usize,
    /// The selected file, as a flat index over all groups.
    pub selected_idx: usize,
    /// The rendered row of the selected file.
    pub selected_row: usize,
    /// The first rendered row that is in view.
    pub scroll_offset: usize,
    /// Marked files, as flat indices.
    pub marked: HashSet<usize>,
    /// The last status message and when it was set.
    pub status_message: Option<(String, u64)>,
    /// The scan is still running.
    pub scanning: bool,
    /// What the scan is doing now.
    pub scan_progress: String,
    /// The delete confirmation is shown.
    pub confirm_delete: bool,
    /// Space is held: moving also toggles marks.
    pub space_held: bool,
    /// When space was last pressed or used while held.
    pub space_at: Option<u64>,
    /// The session should end.
    pub should_quit: bool,
    /// When the spinner last advanced.
    pub last_tick: u64,
    /// The position of the spinner animation.
    pub spinner_idx: SpinnerPhase,
    /// The (group, file) pair of each flat index.
    pub flat_lookup: FlatLookup,
}

/// The position of the spinner animation, 0..=9.
pub struct SpinnerPhase {
    idx: usize,
}

impl SpinnerPhase {
    pub closed spec fn view(&self) -> nat {
        self.idx as nat
    }

    pub closed spec fn wf(&self) -> bool {
        self.idx < 10
    }

    /// The first position.
    pub fn start() -> (p: SpinnerPhase)
        ensures
            p@ == 0,
            p.wf(),
    {
        SpinnerPhase { idx: 0 }
    }

    /// A well-formed position is below 10.
    pub proof fn lemma_below_ten(&self)
        requires
            self.wf(),
        ensures
            self@ < 10,
    {
    }

    /// The position, as an index.
    pub fn index(&self) -> (i: usize)
        ensures
            i == self@,
            self.wf() ==> i < 10,
    {
        self.idx
    }

    /// The next position, wrapping after the last.
    pub fn advance(&mut self)
        requires
            old(self).wf(),
        ensures
            final(self).wf(),
            final(self)@ == (old(self)@ + 1) % 10,
    {
        self.idx = (self.idx + 1) % 10;
    }
}

/// The (group, file) pair of each flat index, precomputed from the groups.
pub struct FlatLookup {
    pairs: Vec<(usize, usize)>,
}

impl FlatLookup {
    pub closed spec fn view(&self) -> Seq<(usize, usize)> {
        self.pairs@
    }

    /// An empty lookup.
    pub fn empty() -> (l: FlatLookup)
        ensures
            l@ == Seq::<(usize, usize)>::empty(),
    {
        FlatLookup { pairs: Vec::new() }
    }

    /// Number of pairs.
    pub fn len(&self) -> (n: usize)
        ensures
            n == self@.len(),
    {
        self.pairs.len()
    }

    /// The pair at `i`.
    pub fn get(&self, i: usize) -> (p: (usize, usize))
        requires
            i < self@.len(),
        ensures
            p == self@[i as int],
    {
        self.pairs[i]
    }

    /// Removes all pairs.
    pub fn clear(&mut self)
        ensures
            final(self)@ == Seq::<(usize, usize)>::empty(),
    {
        self.pairs.clear();
    }

    /// Appends a pair.
    pub fn push(&mut self, p: (usize, usize))
        ensures
            final(self)@ == old(self)@.push(p),
    {
        self.pairs.push(p);
    }
}

impl App {
    /// The session's own bookkeeping is consistent with its groups, and its
    /// counts fit their types.
    pub open spec fn wf(&self) -> bool {
        &&& self.flat_lookup@ == flat_pairs(self.groups@, self.groups@.len() as int)
        &&& within_limits(self.groups@)
        &&& self.spinner_idx.wf()
    }

    /// A session that is scanning, with no groups, no marks and the first file
    /// selected.
    pub fn new() -> (app: App)
        ensures
            app.wf(),
            app.groups@.len() == 0,
            app.total_scanned == 0,
            app.selected_idx == 0,
            app.selected_row == 0,
            app.scroll_offset == 0,
            app.marked@ == Set::<usize>::empty(),
            app.status_message is None,
            app.scanning,
            app.scan_progress@ == "Initializing\u{2026}"@,
            !app.confirm_delete,
            !app.space_held,
            app.space_at is None,
            !app.should_quit,
            app.last_tick == 0,
            app.spinner_idx@ == 0,
    {
        App {
            groups: Vec::new(),
            total_scanned: 0,
            selected_idx: 0,
            selected_row: 0,
            scroll_offset: 0,
            marked: HashSet::new(),
            status_message: None,
            scanning: true,
            scan_progress: "Initializing\u{2026}".to_string(),
            confirm_delete: false,
            space_held: false,
            space_at: None,
            should_quit: false,
            last_tick: 0,
            spinner_idx: SpinnerPhase::start(),
            flat_lookup: FlatLookup::empty(),
        }
    }

    // -- convenience queries --------------------------------------------------

    /// Number of files in all groups.
    pub fn total_files_in_groups(&self) -> (n: usize)
        requires
            within_limits(self.groups@),
        ensures
            n == file_count(self.groups@),
    {
        self.flat_count()
    }

    /// Sum of the wasted bytes of all groups.
    pub fn total_wasted(&self) -> (w: u64)
        requires
            within_limits(self.groups@),
        ensures
            w == wasted_before(self.groups@, self.groups@.len() as int),
    {
        let mut w: u64 = 0;
        let mut g: usize = 0;
        while g < self.groups.len()
            invariant
                g <= self.groups@.len(),
                w == wasted_before(self.groups@, g as int),
                within_limits(self.groups@),
            decreases self.groups@.len() - g,
        {
            proof {
                lemma_wasted_before_monotonic(self.groups@, g as int + 1, self.groups@.len() as int);
            }
            w = w + self.groups[g].wasted_bytes;
            g = g + 1;
        }
        w
    }

    /// Number of groups.
    pub fn total_groups(&self) -> (n: usize)
        ensures
            n == self.groups@.len(),
    {
        self.groups.len()
    }

    /// Number of files in the flat list.
    pub fn flat_count(&self) -> (n: usize)
        requires
            within_limits(self.groups@),
        ensures
            n == file_count(self.groups@),
    {
        let mut n: usize = 0;
        let mut g: usize = 0;
        while g < self.groups.len()
            invariant
                g <= self.groups@.len(),
                n == files_before(self.groups@, g as int),
                within_limits(self.groups@),
            decreases self.groups@.len() - g,
        {
            proof {
                lemma_files_before_monotonic(self.groups@, g as int + 1, self.groups@.len() as int);
            }
            n = n + self.groups[g].files.len();
            g = g + 1;
        }
        n
    }

    // -- index mapping --------------------------------------------------------

    /// The group and file of flat index `flat_idx`, if it is one.
    pub fn flat_to_group_file(&self, flat_idx: usize) -> (r: Option<(usize, usize)>)
        requires
            self.wf(),
        ensures
            r matches Some((g, f)) ==> locate(self.groups@, flat_idx as int) == Some((g as int, f as int)),
            r is None <==> locate(self.groups@, flat_idx as int) is None,
    {
        proof {
            self.lemma_lookup(flat_idx as int);
        }
        if flat_idx < self.flat_lookup.len() {
            Some(self.flat_lookup.get(flat_idx))
        } else {
            None
        }
    }

    proof fn lemma_lookup(&self, i: int)
        requires
            self.wf(),
        ensures
            self.flat_lookup@.len() == file_count(self.groups@),
            0 <= i < self.flat_lookup@.len() ==> locate(self.groups@, i) == Some(
                (self.flat_lookup@[i].0 as int, self.flat_lookup@[i].1 as int),
            ),
            !(0 <= i < self.flat_lookup@.len()) ==> locate(self.groups@, i) is None,
    {
        self.lemma_vec_bounds();
        lemma_flat_pairs(self.groups@, self.groups@.len() as int);
        lemma_locate(self.groups@, i);
    }

    proof fn lemma_vec_bounds(&self)
        ensures
            self.groups@.len() <= usize::MAX,
            forall|g: int| 0 <= g < self.groups@.len() ==> #[trigger] self.groups@[g].files@.len() <= usize::MAX,
    {
        assert(self.groups@.len() == self.groups.len());
        assert forall|g: int| 0 <= g < self.groups@.len() implies #[trigger] self.groups@[g].files@.len() <= usize::MAX by {
            let v = &self.groups@[g].files;
            assert(v@.len() == v.len());
        }
    }

    /// Recomputes the (group, file) pair of each flat index from the groups.
    pub fn rebuild_flat_lookup(&mut self)
        requires
            within_limits(old(self).groups@),
            old(self).spinner_idx.wf(),
        ensures
            final(self).wf(),
            final(self).same_fields_but_lookup(*old(self)),
    {
        self.flat_lookup.clear();
        let mut gi: usize = 0;
        proof {
            self.lemma_vec_bounds();
        }
        while gi < self.groups.len()
            invariant
                gi <= self.groups@.len(),
                self.flat_lookup@ == flat_pairs(self.groups@, gi as int),
                self.groups == old(self).groups,
                self.same_fields_but_lookup(*old(self)),
                forall|g: int| 0 <= g < self.groups@.len() ==> #[trigger] self.groups@[g].files@.len() <= usize::MAX,
            decreases self.groups@.len() - gi,
        {
            let n = self.groups[gi].files.len();
            let mut fi: usize = 0;
            while fi < n
                invariant
                    gi < self.groups@.len(),
                    n == self.groups@[gi as int].files@.len(),
                    fi <= n,
                    self.flat_lookup@ == flat_pairs(self.groups@, gi as int) + Seq::new(
                        fi as nat,
                        |f: int| (gi, f as usize),
                    ),
                    self.groups == old(self).groups,
                    self.same_fields_but_lookup(*old(self)),
                decreases n - fi,
            {
                self.flat_lookup.push((gi, fi));
                fi = fi + 1;
                assert(self.flat_lookup@ =~= flat_pairs(self.groups@, gi as int) + Seq::new(
                    fi as nat,
                    |f: int| (gi, f as usize),
                ));
            }
            assert(flat_pairs(self.groups@, gi as int + 1) =~= flat_pairs(self.groups@, gi as int) + Seq::new(
                n as nat,
                |f: int| (gi, f as usize),
            ));
            gi = gi + 1;
        }
    }

    /// The rendered row of flat index `flat_idx`, if it is a file.
    pub fn file_to_row(&self, flat_idx: usize) -> (r: Option<usize>)
        requires
            self.wf(),
        ensures
            match locate(self.groups@, flat_idx as int) {
                Some((g, f)) => r == Some(row_of(self.groups@, g, f) as usize),
                None => r is None,
            },
    {
        match self.flat_to_group_file(flat_idx) {
            None => None,
            Some((gi, fi)) => {
                proof {
                    lemma_locate(self.groups@, flat_idx as int);
                    lemma_files_before_monotonic(self.groups@, gi as int + 1, self.groups@.len() as int);
                }
                // each group before `gi` takes a header, its files and a separator
                Some(flat_idx + 2 * gi + 1)
            }
        }
    }

    /// Moves `selected_row` to the row of the selected file (row 0 if none is
    /// selected).
    pub fn update_selected_row(&mut self)
        requires
            old(self).wf(),
        ensures
            final(self).wf(),
            final(self).selected_row == match locate(old(self).groups@, old(self).selected_idx as int) {
                Some((g, f)) => row_of(old(self).groups@, g, f) as usize,
                None => 0usize,
            },
            final(self).same_but_selected_row(*old(self)),
    {
        let r = self.file_to_row(self.selected_idx);
        self.selected_row = match r {
            Some(row) => row,
            None => 0,
        };
    }

    /// Number of rendered rows.
    pub fn total_rows(&self) -> (n: usize)
        requires
            within_limits(self.groups@),
        ensures
            n == row_count(self.groups@),
    {
        let mut rows: usize = 0;
        let mut gi: usize = 0;
        while gi < self.groups.len()
            invariant
                gi <= self.groups@.len(),
                within_limits(self.groups@),
                rows == (if gi == 0 { 0 } else { files_before(self.groups@, gi as int) + 2 * gi - 1 }),
            decreases self.groups@.len() - gi,
        {
            proof {
                lemma_files_before_monotonic(self.groups@, gi as int + 1, self.groups@.len() as int);
            }
            if gi > 0 {
                rows = rows + 1;  // separator before this group
            }
            rows = rows + 1;  // group header
            rows = rows + self.groups[gi].files.len();
            gi = gi + 1;
        }
        rows
    }

    /// The selected file: its group, its place in the group, and the entry.
    pub fn current_file(&self) -> (r: Option<(usize, usize, &FileEntry)>)
        requires
            self.wf(),
        ensures
            match locate(self.groups@, self.selected_idx as int) {
                Some((g, f)) => r matches Some((rg, rf, e)) && rg == g && rf == f
                    && *e == self.groups@[g].files@[f],
                None => r is None,
            },
    {
        match self.flat_to_group_file(self.selected_idx) {
            None => None,
            Some((gi, fi)) => {
                proof {
                    lemma_locate(self.groups@, self.selected_idx as int);
                }
                Some((gi, fi, &self.groups[gi].files[fi]))
            }
        }
    }

    /// The flat index of the file on rendered row `row`; `None` on a header,
    /// a separator or past the end.
    pub fn row_to_file(&self, row: usize) -> (r: Option<usize>)
        requires
            within_limits(self.groups@),
        ensures
            r == match file_at_row(self.groups@, row as int) {
                Some(i) => Some(i as usize),
                None => None::<usize>,
            },
    {
        let ghost gs = self.groups@;
        let mut current: usize = 0;  // first row of group `gi`
        let mut base: usize = 0;  // flat index of the first file of group `gi`
        let mut gi: usize = 0;
        while gi < self.groups.len()
            invariant
                gi <= gs.len(),
                gs == self.groups@,
                within_limits(gs),
                base == files_before(gs, gi as int),
                current == files_before(gs, gi as int) + 2 * gi,
                gi < gs.len() ==> row >= current,
                forall|g: int, f: int| 0 <= g < gi && 0 <= f < gs[g].files@.len() ==> row_of(gs, g, f) < row,
            decreases gs.len() - gi,
        {
            proof {
                lemma_files_before_monotonic(gs, gi as int + 1, gs.len() as int);
            }
            let n = self.groups[gi].files.len();
            // header row
            if row == current {
                proof { self.lemma_no_file_at(row as int, gi as int); }
                return None;
            }
            if row - current - 1 < n {
                let fi = row - current - 1;
                proof {
                    assert(is_position(gs, files_before(gs, gi as int) + fi, gi as int, fi as int));
                    lemma_file_at_row_of(gs, gi as int, fi as int);
                }
                return Some(base + fi);
            }
            current = current + 1 + n;
            base = base + n;
            // separator row between groups
            if gi + 1 < self.groups.len() {
                if row == current {
                    proof { self.lemma_no_file_at(row as int, gi as int + 1); }
                    return None;
                }
            }
            current = current + 1;
            gi = gi + 1;
        }
        proof { self.lemma_no_file_at(row as int, gs.len() as int); }
        None
    }

    // -- navigation -----------------------------------------------------------

    /// Moves the selection by `delta` files, stopping at the first and the
    /// last file; nothing happens when there are no files.
    pub fn move_selection(&mut self, delta: i32)
        requires
            old(self).wf(),
            file_count(old(self).groups@) <= i32::MAX,
            old(self).selected_idx <= i32::MAX,
            i32::MIN <= old(self).selected_idx + delta <= i32::MAX,
        ensures
            final(self).wf(),
            final(self).selected_idx == clamp_index(
                old(self).selected_idx + delta,
                file_count(old(self).groups@),
                old(self).selected_idx as int,
            ),
            file_count(old(self).groups@) > 0 ==> final(self).selected_row_follows(),
            file_count(old(self).groups@) == 0 ==> *final(self) == *old(self),
            final(self).same_but_selection(*old(self)),
    {
        let total = self.flat_count();
        if total == 0 {
            return;
        }
        let target: i32 = self.selected_idx as i32 + delta;
        let last: i32 = total as i32 - 1;
        let new: i32 = if target < 0 {
            0
        } else if target > last {
            last
        } else {
            target
        };
        self.selected_idx = new as usize;
        self.update_selected_row();
    }

    /// Selects the first file, if there is one.
    pub fn go_top(&mut self)
        requires
            old(self).wf(),
        ensures
            final(self).wf(),
            final(self).selected_idx == if file_count(old(self).groups@) > 0 { 0 } else { old(self).selected_idx },
            file_count(old(self).groups@) > 0 ==> final(self).selected_row_follows(),
            file_count(old(self).groups@) == 0 ==> *final(self) == *old(self),
            final(self).same_but_selection(*old(self)),
    {
        if self.flat_count() > 0 {
            self.selected_idx = 0;
            self.update_selected_row();
        }
    }

    /// Selects the last file, if there is one.
    pub fn go_bottom(&mut self)
        requires
            old(self).wf(),
        ensures
            final(self).wf(),
            final(self).selected_idx == if file_count(old(self).groups@) > 0 {
                (file_count(old(self).groups@) - 1) as usize
            } else {
                old(self).selected_idx
            },
            file_count(old(self).groups@) > 0 ==> final(self).selected_row_follows(),
            file_count(old(self).groups@) == 0 ==> *final(self) == *old(self),
            final(self).same_but_selection(*old(self)),
    {
        let total = self.flat_count();
        if total > 0 {
            self.selected_idx = total - 1;
            self.update_selected_row();
        }
    }

    /// `selected_row` is the row of the selected file, or 0 if none is
    /// selected.
    pub open spec fn selected_row_follows(&self) -> bool {
        self.selected_row == match locate(self.groups@, self.selected_idx as int) {
            Some((g, f)) => row_of(self.groups@, g, f) as usize,
            None => 0usize,
        }
    }

    // -- marking --------------------------------------------------------------

    /// Marks the selected file if it is unmarked, and unmarks it otherwise.
    pub fn toggle_mark(&mut self)
        ensures
            final(self).marked@ == if old(self).marked@.contains(old(self).selected_idx) {
                old(self).marked@.remove(old(self).selected_idx)
            } else {
                old(self).marked@.insert(old(self).selected_idx)
            },
            final(self).same_but_marks(*old(self)),
    {
        if self.marked.contains(&self.selected_idx) {
            self.marked.remove(&self.selected_idx);
        } else {
            self.marked.insert(self.selected_idx);
        }
    }

    /// Marks every file of the selected file's group but the first copy.
    pub fn mark_duplicates(&mut self)
        requires
            old(self).wf(),
        ensures
            final(self).marked@ == match locate(old(self).groups@, old(self).selected_idx as int) {
                Some((g, _f)) => old(self).marked@.union(group_indices(old(self).groups@, g, 1)),
                None => old(self).marked@,
            },
            final(self).same_but_marks(*old(self)),
    {
        if let Some((gi, fi, _)) = self.current_file() {
            let ghost gs = self.groups@;
            proof {
                lemma_locate(gs, self.selected_idx as int);
                lemma_files_before_monotonic(gs, gi as int + 1, gs.len() as int);
            }
            let base = self.selected_idx - fi;
            let n = self.groups[gi].files.len();
            let mut k: usize = 1;
            while k < n
                invariant
                    gs == self.groups@,
                    gi < gs.len(),
                    n == gs[gi as int].files@.len(),
                    base == files_before(gs, gi as int),
                    base + n <= usize::MAX,
                    1 <= k,
                    k <= n || n == 0,
                    self.marked@ == old(self).marked@.union(
                        Set::new(|i: usize| base + 1 <= i < base + k && k <= n),
                    ),
                    self.same_but_marks(*old(self)),
                decreases n - k,
            {
                self.marked.insert(base + k);
                k = k + 1;
                assert(self.marked@ =~= old(self).marked@.union(
                    Set::new(|i: usize| base + 1 <= i < base + k && k <= n),
                ));
            }
            assert(self.marked@ =~= old(self).marked@.union(group_indices(gs, gi as int, 1)));
        }
    }

    /// Unmarks every file of the selected file's group.
    pub fn unmark_group(&mut self)
        requires
            old(self).wf(),
        ensures
            final(self).marked@ == match locate(old(self).groups@, old(self).selected_idx as int) {
                Some((g, _f)) => old(self).marked@.difference(group_indices(old(self).groups@, g, 0)),
                None => old(self).marked@,
            },
            final(self).same_but_marks(*old(self)),
    {
        if let Some((gi, fi, _)) = self.current_file() {
            let ghost gs = self.groups@;
            proof {
                lemma_locate(gs, self.selected_idx as int);
                lemma_files_before_monotonic(gs, gi as int + 1, gs.len() as int);
            }
            let base = self.selected_idx - fi;
            let n = self.groups[gi].files.len();
            let mut k: usize = 0;
            while k < n
                invariant
                    gs == self.groups@,
                    gi < gs.len(),
                    n == gs[gi as int].files@.len(),
                    base == files_before(gs, gi as int),
                    base + n <= usize::MAX,
                    k <= n,
                    self.marked@ == old(self).marked@.difference(Set::new(|i: usize| base <= i < base + k)),
                    self.same_but_marks(*old(self)),
                decreases n - k,
            {
                self.marked.remove(&(base + k));
                k = k + 1;
                assert(self.marked@ =~= old(self).marked@.difference(Set::new(|i: usize| base <= i < base + k)));
            }
            assert(self.marked@ =~= old(self).marked@.difference(group_indices(gs, gi as int, 0)));
        }
    }

    /// Whether a marked file is the first copy of its group: deleting the
    /// marked files would then remove every listed copy of that content.
    pub fn has_primary_marked(&self) -> (b: bool)
        requires
            within_limits(self.groups@),
        ensures
            b == marks_a_first_copy(self.groups@, self.marked@),
    {
        let ghost gs = self.groups@;
        let mut base: usize = 0;
        let mut gi: usize = 0;
        while gi < self.groups.len()
            invariant
                gi <= gs.len(),
                gs == self.groups@,
                within_limits(gs),
                base == files_before(gs, gi as int),
                forall|g: int| 0 <= g < gi && gs[g].files@.len() > 0
                    ==> !self.marked@.contains(files_before(gs, g) as usize),
            decreases gs.len() - gi,
        {
            proof {
                lemma_files_before_monotonic(gs, gi as int + 1, gs.len() as int);
            }
            let n = self.groups[gi].files.len();
            if n > 0 && self.marked.contains(&base) {
                proof {
                    assert(is_position(gs, base as int, gi as int, 0));
                    lemma_locate(gs, base as int);
                    assert(self.marked@.contains(base) && locate(gs, base as int) == Some((gi as int, 0int)));
                }
                return true;
            }
            base = base + n;
            gi = gi + 1;
        }
        proof {
            assert forall|i: usize| #[trigger] self.marked@.contains(i) implies !(locate(gs, i as int) matches Some((g, f)) && f == 0) by {
                lemma_locate(gs, i as int);
            }
        }
        false
    }

    /// Removes all marks.
    pub fn clear_marks(&mut self)
        ensures
            final(self).marked@ == Set::<usize>::empty(),
            final(self).same_but_marks(*old(self)),
    {
        self.marked.clear();
    }

    /// Marks every file but the first copy of every group.
    pub fn mark_all_duplicates(&mut self)
        requires
            within_limits(old(self).groups@),
        ensures
            final(self).marked@ == old(self).marked@.union(duplicate_indices(old(self).groups@)),
            final(self).same_but_marks(*old(self)),
    {
        let ghost gs = self.groups@;
        let mut base: usize = 0;
        let mut gi: usize = 0;
        while gi < self.groups.len()
            invariant
                gi <= gs.len(),
                gs == self.groups@,
                within_limits(gs),
                base == files_before(gs, gi as int),
                self.marked@ == old(self).marked@.union(
                    Set::new(|i: usize| i < base && duplicate_indices(gs).contains(i)),
                ),
                self.same_but_marks(*old(self)),
            decreases gs.len() - gi,
        {
            proof {
                lemma_files_before_monotonic(gs, gi as int + 1, gs.len() as int);
            }
            let n = self.groups[gi].files.len();
            let mut k: usize = 1;
            while k < n
                invariant
                    gi < gs.len(),
                    gs == self.groups@,
                    n == gs[gi as int].files@.len(),
                    base == files_before(gs, gi as int),
                    base + n <= usize::MAX,
                    1 <= k,
                    k <= n || n == 0,
                    self.marked@ == old(self).marked@.union(
                        Set::new(|i: usize| i < base && duplicate_indices(gs).contains(i)),
                    ).union(Set::new(|i: usize| base + 1 <= i < base + k && k <= n)),
                    self.same_but_marks(*old(self)),
                decreases n - k,
            {
                self.marked.insert(base + k);
                k = k + 1;
                assert(self.marked@ =~= old(self).marked@.union(
                    Set::new(|i: usize| i < base && duplicate_indices(gs).contains(i)),
                ).union(Set::new(|i: usize| base + 1 <= i < base + k && k <= n)));
            }
            proof {
                let next = (base + n) as usize;
                assert forall|i: usize| i < next && duplicate_indices(gs).contains(i) <==>
                    ((i < base && duplicate_indices(gs).contains(i)) || (base + 1 <= i < base + n)) by {
                    lemma_locate(gs, i as int);
                    if base <= i < base + n {
                        assert(is_position(gs, i as int, gi as int, i - base));
                    }
                    if let Some((g, f)) = locate(gs, i as int) {
                        if g < gi {
                            lemma_files_before_monotonic(gs, g + 1, gi as int);
                        } else if g > gi {
                            lemma_files_before_monotonic(gs, gi as int + 1, g);
                        }
                    }
                }
                assert(self.marked@ =~= old(self).marked@.union(
                    Set::new(|i: usize| i < next && duplicate_indices(gs).contains(i)),
                ));
            }
            base = base + n;
            gi = gi + 1;
        }
        proof {
            assert forall|i: usize| duplicate_indices(gs).contains(i) implies i < base by {
                lemma_locate(gs, i as int);
            }
            assert(self.marked@ =~= old(self).marked@.union(duplicate_indices(gs)));
        }
    }

    // -- deletion -------------------------------------------------------------

    /// The marked files, as (flat index, path, size), by flat index. Marks
    /// that stand for no file are left out.
    pub fn deletion_targets(&self) -> (plan: Vec<(usize, String, u64)>)
        requires
            within_limits(self.groups@),
        ensures
            plan@ == deletion_plan(self.groups@, self.marked@),
    {
        crate::deletion::plan_deletion(&self.groups, &self.marked)
    }

    /// Removes the marked files from the groups, once the caller has tried to
    /// delete them from disk: `removed[k]` tells whether the `k`-th file of
    /// `deletion_targets` is gone. Every marked file leaves the groups
    /// whether or not it was removed; groups left with one file or none are
    /// dropped, the marks are cleared and the selection is kept within the
    /// list. Returns how many files were removed and how many bytes that
    /// freed.
    pub fn delete_marked(&mut self, removed: &Vec<bool>) -> (r: (usize, u64))
        requires
            old(self).wf(),
            removed@.len() == deletion_plan(old(self).groups@, old(self).marked@).len(),
        ensures
            final(self).wf(),
            r.0 == count_removed(removed@),
            r.1 == freed_bytes(deletion_plan(old(self).groups@, old(self).marked@), removed@),
            pruned(old(self).groups@, old(self).marked@, final(self).groups@),
            final(self).marked@ == Set::<usize>::empty(),
            final(self).selected_idx == if file_count(final(self).groups@) == 0 {
                0
            } else if old(self).selected_idx < file_count(final(self).groups@) {
                old(self).selected_idx
            } else {
                (file_count(final(self).groups@) - 1) as usize
            },
            final(self).selected_row_follows(),
            final(self).total_scanned == old(self).total_scanned,
            final(self).scroll_offset == old(self).scroll_offset,
            final(self).status_message == old(self).status_message,
            final(self).scanning == old(self).scanning,
            final(self).scan_progress == old(self).scan_progress,
            final(self).confirm_delete == old(self).confirm_delete,
            final(self).space_held == old(self).space_held,
            final(self).space_at == old(self).space_at,
            final(self).should_quit == old(self).should_quit,
            final(self).last_tick == old(self).last_tick,
            final(self).spinner_idx == old(self).spinner_idx,
    {
        let plan = self.deletion_targets();
        let ghost p = plan@;
        proof {
            crate::deletion::lemma_targets_bytes(self.groups@, self.marked@, self.groups@.len() as int);
        }
        let mut deleted: usize = 0;
        let mut freed: u64 = 0;
        let mut k: usize = 0;
        while k < plan.len()
            invariant
                p == plan@,
                removed@.len() == p.len(),
                k <= p.len(),
                deleted == count_removed(removed@.take(k as int)),
                freed == freed_bytes(p.take(k as int), removed@.take(k as int)),
                plan_bytes(p) <= u64::MAX,
            decreases p.len() - k,
        {
            proof {
                assert(removed@.take(k as int + 1).drop_last() =~= removed@.take(k as int));
                assert(p.take(k as int + 1).drop_last() =~= p.take(k as int));
                crate::deletion::lemma_freed_bound(p.take(k as int + 1), removed@.take(k as int + 1));
                lemma_plan_bytes_prefix(p, k as int + 1);
            }
            if removed[k] {
                deleted = deleted + 1;
                freed = freed + plan[k].2;
            }
            k = k + 1;
        }
        proof {
            assert(removed@.take(k as int) =~= removed@);
            assert(p.take(k as int) =~= p);
        }
        let groups = crate::deletion::prune_groups(&self.groups, &self.marked);
        let ghost old_marked = self.marked@;
        self.groups = groups;
        self.rebuild_flat_lookup();
        self.marked.clear();
        let total = self.flat_count();
        let last = if total == 0 { 0 } else { total - 1 };
        if self.selected_idx > last {
            self.selected_idx = last;
        }
        self.update_selected_row();
        (deleted, freed)
    }

    /// All fields but the selection agree with `other`.
    pub open spec fn same_but_selection(&self, other: App) -> bool {
        &&& self.groups == other.groups
        &&& self.total_scanned == other.total_scanned
        &&& self.scroll_offset == other.scroll_offset
        &&& self.marked == other.marked
        &&& self.status_message == other.status_message
        &&& self.scanning == other.scanning
        &&& self.scan_progress == other.scan_progress
        &&& self.confirm_delete == other.confirm_delete
        &&& self.space_held == other.space_held
        &&& self.space_at == other.space_at
        &&& self.should_quit == other.should_quit
        &&& self.last_tick == other.last_tick
        &&& self.spinner_idx == other.spinner_idx
        &&& self.flat_lookup == other.flat_lookup
    }

    /// All fields but the marks agree with `other`.
    pub open spec fn same_but_marks(&self, other: App) -> bool {
        &&& self.groups == other.groups
        &&& self.total_scanned == other.total_scanned
        &&& self.selected_idx == other.selected_idx
        &&& self.selected_row == other.selected_row
        &&& self.scroll_offset == other.scroll_offset
        &&& self.status_message == other.status_message
        &&& self.scanning == other.scanning
        &&& self.scan_progress == other.scan_progress
        &&& self.confirm_delete == other.confirm_delete
        &&& self.space_held == other.space_held
        &&& self.space_at == other.space_at
        &&& self.should_quit == other.should_quit
        &&& self.last_tick == other.last_tick
        &&& self.spinner_idx == other.spinner_idx
        &&& self.flat_lookup == other.flat_lookup
    }

    /// No file is shown on row `r` if the files of groups before `gi` lie
    /// above it and those of group `gi` onward below it.
    proof fn lemma_no_file_at(&self, r: int, gi: int)
        requires
            0 <= gi <= self.groups@.len(),
            gi < self.groups@.len() ==> r <= files_before(self.groups@, gi) + 2 * gi,
            forall|g: int, f: int| 0 <= g < gi && 0 <= f < self.groups@[g].files@.len()
                ==> row_of(self.groups@, g, f) < r,
        ensures
            file_at_row(self.groups@, r) is None,
    {
        let gs = self.groups@;
        if exists|g: int, f: int| is_position(gs, files_before(gs, g) + f, g, f) && row_of(gs, g, f) == r {
            let (g, f) = choose|g: int, f: int| is_position(gs, files_before(gs, g) + f, g, f) && row_of(gs, g, f) == r;
            if g >= gi {
                lemma_files_before_monotonic(gs, gi, g);
            }
        }
    }

    /// All fields but `selected_row` agree with `other`.
    pub open spec fn same_but_selected_row(&self, other: App) -> bool {
        &&& self.groups == other.groups
        &&& self.total_scanned == other.total_scanned
        &&& self.selected_idx == other.selected_idx
        &&& self.scroll_offset == other.scroll_offset
        &&& self.marked == other.marked
        &&& self.status_message == other.status_message
        &&& self.scanning == other.scanning
        &&& self.scan_progress == other.scan_progress
        &&& self.confirm_delete == other.confirm_delete
        &&& self.space_held == other.space_held
        &&& self.space_at == other.space_at
        &&& self.should_quit == other.should_quit
        &&& self.last_tick == other.last_tick
        &&& self.spinner_idx == other.spinner_idx
        &&& self.flat_lookup == other.flat_lookup
    }

    /// All fields but the lookup agree with `other`.
    pub open spec fn same_fields_but_lookup(&self, other: App) -> bool {
        &&& self.groups == other.groups
        &&& self.total_scanned == other.total_scanned
        &&& self.selected_idx == other.selected_idx
        &&& self.selected_row == other.selected_row
        &&& self.scroll_offset == other.scroll_offset
        &&& self.marked == other.marked
        &&& self.status_message == other.status_message
        &&& self.scanning == other.scanning
        &&& self.scan_progress == other.scan_progress
        &&& self.confirm_delete == other.confirm_delete
        &&& self.space_held == other.space_held
        &&& self.space_at == other.space_at
        &&& self.should_quit == other.should_quit
        &&& self.last_tick == other.last_tick
        &&& self.spinner_idx == other.spinner_idx
    }
}

/// A prefix of a plan takes no more bytes than the whole plan.
pub proof fn lemma_plan_bytes_prefix(p: Seq<(usize, String, u64)>, k: int)
    requires
        0 <= k <= p.len(),
    ensures
        plan_bytes(p.take(k)) <= plan_bytes(p),
    decreases p.len() - k,
{
    if k < p.len() {
        lemma_plan_bytes_prefix(p, k + 1);
        assert(p.take(k + 1).drop_last() =~= p.take(k));
    } else {
        assert(p.take(k) =~= p);
    }
}

pub proof fn lemma_wasted_before_monotonic(gs: Seq<DuplicateGroup>, a: int, b: int)
    requires
        a <= b <= gs.len(),
    ensures
        wasted_before(gs, a) <= wasted_before(gs, b),
    decreases b - a,
{
    if a < b {
        lemma_wasted_before_monotonic(gs, a, b - 1);
    }
}

/// The sizes of the first `k` files take no more than all of them.
proof fn lemma_total_size_prefix(files: Seq<FileEntry>, k: int)
    requires
        0 <= k <= files.len(),
    ensures
        total_size(files.take(k)) <= total_size(files),
    decreases files.len() - k,
{
    if k < files.len() {
        lemma_total_size_prefix(files, k + 1);
        crate::scanner::lemma_total_size_take(files, k);
    } else {
        assert(files.take(k) =~= files);
    }
}

/// Whether the groups are within the limits that a session can hold (see
/// `within_limits`).
pub fn fits_limits(groups: &Vec<DuplicateGroup>) -> (b: bool)
    ensures
        b == within_limits(groups@),
{
    let ghost gs = groups@;
    let mut files: u128 = 0;
    let mut bytes: u128 = 0;
    let mut wasted: u128 = 0;
    let mut g: usize = 0;
    while g < groups.len()
        invariant
            gs == groups@,
            g <= gs.len(),
            files == files_before(gs, g as int),
            bytes == bytes_before(gs, g as int),
            wasted == wasted_before(gs, g as int),
            files <= usize::MAX,
            bytes <= u64::MAX,
            wasted <= u64::MAX,
        decreases gs.len() - g,
    {
        proof {
            lemma_files_before_monotonic(gs, g as int + 1, gs.len() as int);
            crate::deletion::lemma_bytes_before_monotonic(gs, g as int + 1, gs.len() as int);
            lemma_wasted_before_monotonic(gs, g as int + 1, gs.len() as int);
        }
        let group = &groups[g];
        files = files + group.files.len() as u128;
        if files > usize::MAX as u128 {
            return false;
        }
        let ghost fs = group.files@;
        let mut k: usize = 0;
        let ghost start = bytes;
        assert(fs.take(0) =~= Seq::<FileEntry>::empty());
        while k < group.files.len()
            invariant
                gs == groups@,
                fs == group.files@,
                k <= fs.len(),
                bytes == start + total_size(fs.take(k as int)),
                start == bytes_before(gs, g as int),
                bytes <= u64::MAX,
                bytes_before(gs, g as int + 1) == start + total_size(fs),
                bytes_before(gs, g as int + 1) <= bytes_before(gs, gs.len() as int),
            decreases fs.len() - k,
        {
            proof {
                crate::scanner::lemma_total_size_take(fs, k as int);
                lemma_total_size_prefix(fs, k as int + 1);
            }
            bytes = bytes + group.files[k].size as u128;
            if bytes > u64::MAX as u128 {
                return false;
            }
            k = k + 1;
        }
        assert(fs.take(fs.len() as int) =~= fs);
        wasted = wasted + group.wasted_bytes as u128;
        if wasted > u64::MAX as u128 {
            return false;
        }
        g = g + 1;
    }
    files + 2 * (groups.len() as u128) + 1 <= usize::MAX as u128
}

} // verus!
