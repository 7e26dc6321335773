//! Properties of the library that span several operations: the list and its
//! rows, marking and deleting, grouping, scrolling, and reading sizes.

use vstd::prelude::*;

use crate::app::{App, duplicate_indices, file_at_row, file_count, files_before, group_indices, is_position,
    lemma_file_at_row_of, lemma_files_before_monotonic, lemma_locate, lemma_row_below_count, locate,
    marks_a_first_copy, row_count, row_of};
use crate::binary64::{lemma_round_same_ratio, times, lemma_pow2_adds, lemma_pow2_positive, lemma_round_whole, lemma_times_power_1024_exact, nonneg,
    round_to_binary64, times_power, to_u64};
use crate::deletion::{count_removed, freed_bytes, kept_files, kept_prefix, lemma_freed_bound, plan_bytes, pruned,
    survivors};
use crate::grouping::{groups_of, is_duplicate_group, text_start};
use crate::keys::{lemma_lex_total, lex_le};
use crate::paths::{ends_component, is_name, leads_component, lemma_path_keys_by_name, path_key, text_before};
use crate::input::{KeyInput, jumps_bottom, jumps_top, moved_selection, moves, toggled};
use crate::scanner::{DuplicateGroup, FileEntry, shares_hash};
use crate::session::spinner_after;
use crate::shorten::{byte_len, lemma_chars_within_bytes, lemma_fits_within_limit, lemma_front_fit_all,
    collapse_home, occurs_at, spec_truncate_mid, spec_truncate_path};
use crate::size_arg::size_of;
use crate::text::{digits_value, is_digits, two_pow};
use crate::view::{sat_sub, scrolled};

verus! {

/// Going from a file to its rendered row and back gives the same file, and
/// the row lies within the rendered rows.
pub proof fn law_row_of_file_round_trip(gs: Seq<DuplicateGroup>, i: int)
    requires
        0 <= i < file_count(gs),
    ensures
        locate(gs, i) matches Some((g, f)) && file_at_row(gs, row_of(gs, g, f)) == Some(i)
            && 0 <= row_of(gs, g, f) < row_count(gs),
{
    lemma_locate(gs, i);
    let (g, f) = locate(gs, i).unwrap();
    lemma_file_at_row_of(gs, g, f);
    lemma_row_below_count(gs, g, f);
}

/// Going from a rendered row that shows a file to the file and back gives
/// the same row.
pub proof fn law_file_at_row_round_trip(gs: Seq<DuplicateGroup>, r: int)
    requires
        file_at_row(gs, r) is Some,
    ensures
        locate(gs, file_at_row(gs, r)->0) matches Some((g, f)) && row_of(gs, g, f) == r,
{
    let (g, f) = choose|g: int, f: int| is_position(gs, files_before(gs, g) + f, g, f) && row_of(gs, g, f) == r;
    lemma_locate(gs, files_before(gs, g) + f);
}

/// Marking the duplicates of a group, or of all groups, never marks a first
/// copy: a first copy is marked afterwards exactly when it was before.
pub proof fn law_bulk_marking_spares_first_copies(gs: Seq<DuplicateGroup>, marked: Set<usize>, g: int)
    requires
        0 <= g < gs.len(),
    ensures
        marks_a_first_copy(gs, marked.union(duplicate_indices(gs))) == marks_a_first_copy(gs, marked),
        marks_a_first_copy(gs, marked.union(group_indices(gs, g, 1))) == marks_a_first_copy(gs, marked),
{
    if marks_a_first_copy(gs, marked.union(duplicate_indices(gs))) {
        let i = choose|i: usize| #[trigger] marked.union(duplicate_indices(gs)).contains(i)
            && (locate(gs, i as int) matches Some((g, f)) && f == 0);
        assert(marked.contains(i));
    }
    if marks_a_first_copy(gs, marked.union(group_indices(gs, g, 1))) {
        let i = choose|i: usize| #[trigger] marked.union(group_indices(gs, g, 1)).contains(i)
            && (locate(gs, i as int) matches Some((g, f)) && f == 0);
        lemma_locate(gs, i as int);
        let (g2, f2) = locate(gs, i as int).unwrap();
        if !marked.contains(i) {
            assert(is_position(gs, i as int, g, i - files_before(gs, g)));
        }
        assert(marked.contains(i));
    }
    if marks_a_first_copy(gs, marked) {
        let i = choose|i: usize| #[trigger] marked.contains(i) && (locate(gs, i as int) matches Some((g, f)) && f == 0);
        assert(marked.union(duplicate_indices(gs)).contains(i));
        assert(marked.union(group_indices(gs, g, 1)).contains(i));
    }
}

/// Of a group whose files from position 1 on are all marked, only the first
/// copy is kept.
proof fn lemma_kept_only_first(gs: Seq<DuplicateGroup>, g: int, k: int)
    requires
        0 <= g < gs.len(),
        1 <= k <= gs[g].files@.len(),
        files_before(gs, g) + gs[g].files@.len() <= usize::MAX,
    ensures
        kept_prefix(gs[g].files@, files_before(gs, g) as int, duplicate_indices(gs), k).len() == 1,
    decreases k,
{
    let base = files_before(gs, g) as int;
    let m = duplicate_indices(gs);
    if k == 1 {
        lemma_locate(gs, base);
        assert(is_position(gs, base, g, 0));
        assert(!m.contains(base as usize));
        assert(kept_prefix(gs[g].files@, base, m, 0).len() == 0);
        assert(kept_prefix(gs[g].files@, base, m, 1) == kept_prefix(gs[g].files@, base, m, 0).push(gs[g].files@[0]));
    } else {
        lemma_kept_only_first(gs, g, k - 1);
        lemma_locate(gs, base + k - 1);
        assert(is_position(gs, base + k - 1, g, k - 1));
        assert(m.contains((base + k - 1) as usize));
        assert(kept_prefix(gs[g].files@, base, m, k) == kept_prefix(gs[g].files@, base, m, k - 1));
    }
}

/// Deleting exactly the files that bulk marking marks leaves no duplicate
/// group: every group keeps only its first copy, and a lone copy is no
/// group.
pub proof fn law_deleting_all_duplicates_clears_the_list(gs: Seq<DuplicateGroup>, new: Seq<DuplicateGroup>)
    requires
        file_count(gs) <= usize::MAX,
        pruned(gs, duplicate_indices(gs), new),
    ensures
        new.len() == 0,
{
    assert forall|n: int| 0 <= n <= gs.len() implies survivors(gs, duplicate_indices(gs), n).len() == 0 by {
        lemma_no_survivors(gs, n);
    }
}

proof fn lemma_no_survivors(gs: Seq<DuplicateGroup>, n: int)
    requires
        0 <= n <= gs.len(),
        file_count(gs) <= usize::MAX,
    ensures
        survivors(gs, duplicate_indices(gs), n).len() == 0,
    decreases n,
{
    if n > 0 {
        lemma_no_survivors(gs, n - 1);
        let g = n - 1;
        lemma_files_before_monotonic(gs, g + 1, gs.len() as int);
        if gs[g].files@.len() >= 1 {
            lemma_kept_only_first(gs, g, gs[g].files@.len() as int);
        }
    }
}

/// Toggling a mark twice restores the marks.
pub proof fn law_toggle_twice_restores(marked: Set<usize>, x: usize)
    ensures
        toggled(toggled(marked, x), x) == marked,
{
    assert(toggled(toggled(marked, x), x) =~= marked);
}

/// A group that survives a deletion keeps at least two files.
pub proof fn law_surviving_groups_are_duplicates(
    gs: Seq<DuplicateGroup>,
    marked: Set<usize>,
    new: Seq<DuplicateGroup>,
    j: int,
)
    requires
        pruned(gs, marked, new),
        0 <= j < new.len(),
    ensures
        new[j].files@.len() >= 2,
{
    lemma_survivors_keep_two(gs, marked, gs.len() as int, j);
}

proof fn lemma_survivors_keep_two(gs: Seq<DuplicateGroup>, marked: Set<usize>, n: int, j: int)
    requires
        0 <= j < survivors(gs, marked, n).len(),
    ensures
        0 <= survivors(gs, marked, n)[j] < n,
        kept_files(gs[survivors(gs, marked, n)[j]].files@, files_before(gs, survivors(gs, marked, n)[j]) as int,
            marked).len() > 1,
    decreases n,
{
    if n > 0 {
        let prev = survivors(gs, marked, n - 1);
        if j < prev.len() {
            lemma_survivors_keep_two(gs, marked, n - 1, j);
        }
    }
}

/// Unmarking a group after marking it leaves every file of the group
/// unmarked and every other mark as it was before the marking.
pub proof fn law_unmark_undoes_group_mark(gs: Seq<DuplicateGroup>, marked: Set<usize>, g: int)
    requires
        0 <= g < gs.len(),
    ensures
        marked.union(group_indices(gs, g, 1)).difference(group_indices(gs, g, 0))
            == marked.difference(group_indices(gs, g, 0)),
{
    assert(marked.union(group_indices(gs, g, 1)).difference(group_indices(gs, g, 0))
        =~= marked.difference(group_indices(gs, g, 0)));
}

/// No file belongs to two duplicate groups, and all files of a group have
/// the same content hash.
pub proof fn law_groups_are_disjoint(
    hashed: Seq<(String, FileEntry)>,
    out: Seq<DuplicateGroup>,
    members: Seq<Seq<usize>>,
    j1: int,
    j2: int,
    x: usize,
)
    requires
        groups_of(hashed, out, members),
        0 <= j1 < out.len(),
        0 <= j2 < out.len(),
        members[j1].contains(x),
        members[j2].contains(x),
    ensures
        j1 == j2,
        hashed[x as int].0@ == hashed[members[j1][0] as int].0@,
{
    assert(crate::grouping::is_duplicate_group(hashed, out[j1], members[j1]));
    assert(crate::grouping::is_duplicate_group(hashed, out[j2], members[j2]));
}

/// After scrolling, the selected row (taken within the lines of the list) is
/// among the rows shown, when there is room for any.
pub proof fn law_scroll_keeps_selection_visible(scroll: int, selected_row: int, line_count: int, height: int)
    requires
        0 <= scroll,
        0 <= selected_row,
        height > 4,
    ensures
        ({
            let first = scrolled(scroll, selected_row, line_count, height);
            let last = sat_sub(line_count, 1);
            let sel = if selected_row < last { selected_row } else { last };
            first <= sel < first + (height - 4)
        }),
{
}

/// A plain integer names that many bytes.
pub proof fn law_plain_integer_is_bytes(t: Seq<char>)
    requires
        is_digits(t),
        digits_value(t) <= u64::MAX,
    ensures
        size_of(t) == Some(digits_value(t)),
{
    assert(t[0] != '+');
}

/// A deletion frees no more bytes than the marked files hold, and removes no
/// more files than were marked.
pub proof fn law_deletion_frees_at_most_the_marked_size(plan: Seq<(usize, String, u64)>, removed: Seq<bool>)
    requires
        plan.len() == removed.len(),
    ensures
        freed_bytes(plan, removed) <= plan_bytes(plan),
        count_removed(removed) <= plan.len(),
{
    lemma_freed_bound(plan, removed);
}

/// A whole number below `2^53` with a binary unit is read exactly: scaling
/// a binary64 value by 1024 never rounds, so the size is the number times
/// `1024^p`, or `u64::MAX` when that does not fit.
pub proof fn law_binary_units_are_exact(n: nat, p: nat)
    requires
        1 <= n < two_pow(53),
        p <= 4,
    ensures
        to_u64(times_power(round_to_binary64(n, 1), 1024, p)) == if n * two_pow(10 * p) > u64::MAX {
            u64::MAX as nat
        } else {
            n * two_pow(10 * p)
        },
{
    let j = lemma_round_whole(n);
    let m = n * two_pow(j);
    lemma_times_power_1024_exact(m, -(j as int), p);
    let e = -(j as int) + 10 * p;
    let a = nonneg(e);
    let b = nonneg(-e);
    assert(j + a == 10 * p + b);
    lemma_pow2_adds(j, a);
    lemma_pow2_adds(10 * p, b);
    lemma_pow2_positive(b);
    let x = n * two_pow(10 * p);
    assert(m * two_pow(a) == x * two_pow(b)) by (nonlinear_arith)
        requires
            m == n * two_pow(j),
            x == n * two_pow(10 * p),
            two_pow(j + a) == two_pow(j) * two_pow(a),
            two_pow(10 * p + b) == two_pow(10 * p) * two_pow(b),
            j + a == 10 * p + b;
    vstd::arithmetic::div_mod::lemma_fundamental_div_mod_converse((x * two_pow(b)) as int, two_pow(b) as int, x as int, 0);
}

/// Moving keys keep the selection within a non-empty list, and a key that
/// selects one end of the list selects it.
pub proof fn law_moves_stay_in_the_list(app: App, i: KeyInput)
    requires
        file_count(app.groups@) > 0,
        moves(i),
        file_count(app.groups@) <= usize::MAX,
    ensures
        moved_selection(app, i) < file_count(app.groups@),
        jumps_top(i) ==> moved_selection(app, i) == 0,
        jumps_bottom(i) ==> moved_selection(app, i) == file_count(app.groups@) - 1,
{
}

/// The spinner of a session is on one of its ten frames, and ten frames
/// bring it back to where it was.
pub proof fn law_spinner_cycles(app: App)
    requires
        app.wf(),
    ensures
        app.spinner_idx@ < 10,
        spinner_after(app.spinner_idx@, 10) == app.spinner_idx@,
{
    app.spinner_idx.lemma_below_ten();
    lemma_spinner_after(app.spinner_idx@, 10);
}

/// `n` frames from position `i` (below 10) lead to `(i + n) % 10`.
proof fn lemma_spinner_after(i: nat, n: nat)
    requires
        i < 10,
    ensures
        spinner_after(i, n) == (i + n) % 10,
    decreases n,
{
    if n > 0 {
        lemma_spinner_after(i, (n - 1) as nat);
        vstd::arithmetic::div_mod::lemma_add_mod_noop((i + n - 1) as int, 1, 10);
        assert(1int % 10 == 1);
    } else {
        assert(i % 10 == i);
    }
}

/// Two files with the same non-empty digest end up in the same duplicate
/// group: grouping never separates or drops a duplicate pair.
pub proof fn law_equal_digests_share_a_group(
    hashed: Seq<(String, FileEntry)>,
    out: Seq<DuplicateGroup>,
    members: Seq<Seq<usize>>,
    x: int,
    y: int,
)
    requires
        groups_of(hashed, out, members),
        hashed.len() <= usize::MAX,
        0 <= x < hashed.len(),
        0 <= y < hashed.len(),
        x != y,
        hashed[x].0@ == hashed[y].0@,
        hashed[x].0@.len() > 0,
    ensures
        exists|j: int| 0 <= j < out.len() && #[trigger] members[j].contains(x as usize) && members[j].contains(y as usize),
{
    assert(shares_hash(hashed, x));
    let j = choose|j: int| 0 <= j < out.len() && #[trigger] members[j].contains(x as usize);
    assert(is_duplicate_group(hashed, out[j], members[j]));
    assert((x as usize) as int == x && (y as usize) as int == y);
    assert(hashed[(x as usize) as int].0@ == hashed[members[j][0] as int].0@);
    assert(members[j].contains(y as usize));
}

/// Paths are in component order: two paths that share a head and then go on
/// with different names sort as those names do in character order (the first
/// differing character has the smaller code point, or the name is a proper
/// prefix of the other), whatever follows the names; so `/a/Archive/x` sorts
/// before `/a/Docs/x`, and not the other way round.
pub proof fn law_paths_in_component_order(x: Seq<char>, a: Seq<char>, s: Seq<char>, b: Seq<char>, t: Seq<char>)
    requires
        leads_component(x),
        is_name(a),
        is_name(b),
        text_before(a, b),
        ends_component(s),
        ends_component(t),
    ensures
        lex_le(path_key(x + a + s), path_key(x + b + t)),
        !lex_le(path_key(x + b + t), path_key(x + a + s)),
{
    lemma_path_keys_by_name(x, a, s, b, t);
}

/// Within a duplicate group, of two files whose paths share a head and then
/// go on with different names, the one whose name comes first in character
/// order is listed first, and so is the copy that bulk marking keeps.
pub proof fn law_group_files_in_path_order(
    hashed: Seq<(String, FileEntry)>,
    out: Seq<DuplicateGroup>,
    members: Seq<Seq<usize>>,
    j: int,
    t1: int,
    t2: int,
    x: Seq<char>,
    a: Seq<char>,
    s: Seq<char>,
    b: Seq<char>,
    t: Seq<char>,
)
    requires
        groups_of(hashed, out, members),
        0 <= j < out.len(),
        0 <= t1 < out[j].files@.len(),
        0 <= t2 < out[j].files@.len(),
        out[j].files@[t1].path@ == x + a + s,
        out[j].files@[t2].path@ == x + b + t,
        leads_component(x),
        is_name(a),
        is_name(b),
        text_before(a, b),
        ends_component(s),
        ends_component(t),
    ensures
        t1 < t2,
{
    assert(is_duplicate_group(hashed, out[j], members[j]));
    let files = out[j].files@;
    lemma_path_keys_by_name(x, a, s, b, t);
    if t1 == t2 {
        lemma_lex_total(path_key(x + a + s), path_key(x + a + s));
    } else if t2 < t1 {
        assert(lex_le(path_key(files[t2].path@), path_key(files[t1].path@)));
    }
}

/// `b` raised to `p`.
pub open spec fn unit_factor(b: nat, p: nat) -> nat
    decreases p,
{
    if p == 0 {
        1
    } else {
        unit_factor(b, (p - 1) as nat) * b
    }
}

/// A whole number below `2^53` times a whole factor below `2^53` rounds to
/// the exact product.
proof fn lemma_times_whole(v: nat, b: nat)
    requires
        1 <= v,
        1 <= b,
        v * b < two_pow(53),
    ensures
        times(round_to_binary64(v, 1), b) == round_to_binary64(v * b, 1),
{
    assert(v <= v * b) by (nonlinear_arith)
        requires b >= 1;
    let j = lemma_round_whole(v);
    let m = v * two_pow(j);
    let e = -(j as int);
    assert(nonneg(e) == 0 && nonneg(-e) == j);
    assert(two_pow(0) == 1);
    lemma_pow2_positive(j);
    assert((m * b * two_pow(0)) * 1 == two_pow(j) * (v * b)) by (nonlinear_arith)
        requires m == v * two_pow(j), two_pow(0) == 1;
    lemma_round_same_ratio(m * b * two_pow(0), two_pow(j), v * b, 1);
}

/// Scaling a whole number `p` times by `b` stays exact while the result is
/// below `2^53`.
proof fn lemma_times_power_whole(n: nat, b: nat, p: nat)
    requires
        1 <= n,
        1 <= b,
        n * unit_factor(b, p) < two_pow(53),
    ensures
        times_power(round_to_binary64(n, 1), b, p) == round_to_binary64(n * unit_factor(b, p), 1),
    decreases p,
{
    if p == 0 {
        assert(n * 1 == n);
    } else {
        let q = (p - 1) as nat;
        assert(unit_factor(b, q) >= 1) by {
            lemma_unit_factor_positive(b, q);
        }
        assert(n * unit_factor(b, q) <= n * unit_factor(b, q) * b) by (nonlinear_arith)
            requires b >= 1;
        assert(n * unit_factor(b, p) == n * unit_factor(b, q) * b) by (nonlinear_arith)
            requires unit_factor(b, p) == unit_factor(b, q) * b;
        lemma_times_power_whole(n, b, q);
        assert(n * unit_factor(b, q) >= 1) by (nonlinear_arith)
            requires n >= 1, unit_factor(b, q) >= 1;
        lemma_times_whole(n * unit_factor(b, q), b);
    }
}

proof fn lemma_unit_factor_positive(b: nat, p: nat)
    requires
        b >= 1,
    ensures
        unit_factor(b, p) >= 1,
    decreases p,
{
    if p > 0 {
        lemma_unit_factor_positive(b, (p - 1) as nat);
        assert(unit_factor(b, (p - 1) as nat) * b >= 1) by (nonlinear_arith)
            requires unit_factor(b, (p - 1) as nat) >= 1, b >= 1;
    }
}

/// A whole number with a unit, decimal or binary, is read exactly when the
/// size is below `2^53`: every binary64 product along the way is a whole
/// number small enough to be held exactly.
pub proof fn law_whole_sizes_below_2_53_are_exact(n: nat, b: nat, p: nat)
    requires
        1 <= n,
        b == 1000 || b == 1024,
        n * unit_factor(b, p) < two_pow(53),
    ensures
        to_u64(times_power(round_to_binary64(n, 1), b, p)) == n * unit_factor(b, p),
{
    lemma_times_power_whole(n, b, p);
    let v = n * unit_factor(b, p);
    lemma_unit_factor_positive(b, p);
    assert(v >= 1) by (nonlinear_arith)
        requires v == n * unit_factor(b, p), n >= 1, unit_factor(b, p) >= 1;
    let j = lemma_round_whole(v);
    let e = -(j as int);
    assert(nonneg(e) == 0 && nonneg(-e) == j);
    assert(two_pow(0) == 1);
    lemma_pow2_positive(j);
    assert(v * two_pow(j) * two_pow(0) == v * two_pow(j));
    vstd::arithmetic::div_mod::lemma_fundamental_div_mod_converse((v * two_pow(j)) as int, two_pow(j) as int, v as int, 0);
    assert(v * two_pow(j) <= u64::MAX) by {
        crate::binary64::lemma_pow2_64();
    }
}

/// A shortened path has at most `max_len` characters; it is the path itself
/// when its UTF-8 fits in `max_len` bytes, and its first `max_len`
/// characters when `max_len` is below 15.
pub proof fn law_shortened_paths_fit(s: Seq<char>, max_len: nat, home: Seq<char>)
    ensures
        spec_truncate_path(s, max_len, home).len() <= max_len,
        byte_len(s) <= max_len ==> spec_truncate_path(s, max_len, home) == s,
        max_len < 15 ==> spec_truncate_path(s, max_len, home) == text_start(s, max_len),
{
    lemma_chars_within_bytes(s);
    if !(byte_len(s) <= max_len || max_len < 15) {
        let c = collapse_home(s, home);
        let half = ((max_len - 3) / 2) as int;
        lemma_chars_within_bytes(c);
        lemma_fits_within_limit(c, half);
        lemma_front_fit_all(c, half);
    }
}

/// A name shortened in the middle has at most `max_len` characters, and is
/// the name itself when its UTF-8 fits in `max_len` bytes.
pub proof fn law_shortened_names_fit(s: Seq<char>, max_len: nat)
    ensures
        spec_truncate_mid(s, max_len).len() <= max_len,
        byte_len(s) <= max_len ==> spec_truncate_mid(s, max_len) == s,
{
    lemma_chars_within_bytes(s);
}

/// Only a leading, non-empty home directory becomes `~`: with no home
/// directory, or one that does not start the path, the path is shortened
/// as it is; a path too long for `max_len` whose collapsed form fits is shown
/// collapsed.
pub proof fn law_home_collapses_only_as_prefix(s: Seq<char>, max_len: nat, home: Seq<char>)
    ensures
        home.len() == 0 || !occurs_at(s, home, 0) ==> collapse_home(s, home) == s,
        home.len() > 0 && occurs_at(s, home, 0) ==> collapse_home(s, home) == seq!['~'] + s.skip(home.len() as int),
        byte_len(s) > max_len >= 15 && byte_len(collapse_home(s, home)) <= max_len
            ==> spec_truncate_path(s, max_len, home) == collapse_home(s, home),
{
}

} // verus!
