//! Removing marked files from the groups: which files go, and what the
//! groups become.

use std::collections::HashSet;
use vstd::prelude::*;

use crate::app::{files_before, file_count, within_limits, bytes_before, wasted_before,
    lemma_files_before_monotonic};
use crate::scanner::{DuplicateGroup, FileEntry, total_size, tail_size};

verus! {

broadcast use vstd::std_specs::hash::group_hash_axioms;

/// Of the first `k` files of a group whose first file has flat index `base`,
/// those that are not marked, in order.
pub open spec fn kept_prefix(files: Seq<FileEntry>, base: int, marked: Set<usize>, k: int) -> Seq<FileEntry>
    decreases k,
{
    if k <= 0 {
        Seq::empty()
    } else {
        let prev = kept_prefix(files, base, marked, k - 1);
        if marked.contains((base + k - 1) as usize) {
            prev
        } else {
            prev.push(files[k - 1])
        }
    }
}

/// The files of a group that are not marked, in order.
pub open spec fn kept_files(files: Seq<FileEntry>, base: int, marked: Set<usize>) -> Seq<FileEntry> {
    kept_prefix(files, base, marked, files.len() as int)
}

/// The groups among the first `n` that keep more than one file once the
/// marked files are gone, in order.
pub open spec fn survivors(gs: Seq<DuplicateGroup>, marked: Set<usize>, n: int) -> Seq<int>
    decreases n,
{
    if n <= 0 {
        Seq::empty()
    } else {
        let prev = survivors(gs, marked, n - 1);
        if kept_files(gs[n - 1].files@, files_before(gs, n - 1) as int, marked).len() > 1 {
            prev.push(n - 1)
        } else {
            prev
        }
    }
}

/// `new` is what the first `n` groups of `old` become when the marked files
/// are removed: each surviving group keeps its name and hash, loses its
/// marked files and has its waste recomputed; groups left with one file or
/// none are dropped.
pub open spec fn pruned_upto(old: Seq<DuplicateGroup>, marked: Set<usize>, n: int, new: Seq<DuplicateGroup>) -> bool {
    &&& new.len() == survivors(old, marked, n).len()
    &&& forall|j: int| 0 <= j < new.len() ==> {
        let g = #[trigger] survivors(old, marked, n)[j];
        &&& new[j].files@ == kept_files(old[g].files@, files_before(old, g) as int, marked)
        &&& new[j].file_name == old[g].file_name
        &&& new[j].hash == old[g].hash
        &&& new[j].wasted_bytes == tail_size(new[j].files@)
    }
}

/// `new` is `old` with the marked files removed.
pub open spec fn pruned(old: Seq<DuplicateGroup>, marked: Set<usize>, new: Seq<DuplicateGroup>) -> bool {
    pruned_upto(old, marked, old.len() as int, new)
}

/// The marked files among the first `k` of a group, as (flat index, path,
/// size).
pub open spec fn group_targets(files: Seq<FileEntry>, base: int, marked: Set<usize>, k: int) -> Seq<(usize, String, u64)>
    decreases k,
{
    if k <= 0 {
        Seq::empty()
    } else {
        let prev = group_targets(files, base, marked, k - 1);
        if marked.contains((base + k - 1) as usize) {
            prev.push(((base + k - 1) as usize, files[k - 1].path, files[k - 1].size))
        } else {
            prev
        }
    }
}

/// The marked files of the first `n` groups, by flat index.
pub open spec fn targets_upto(gs: Seq<DuplicateGroup>, marked: Set<usize>, n: int) -> Seq<(usize, String, u64)>
    decreases n,
{
    if n <= 0 {
        Seq::empty()
    } else {
        targets_upto(gs, marked, n - 1) + group_targets(
            gs[n - 1].files@,
            files_before(gs, n - 1) as int,
            marked,
            gs[n - 1].files@.len() as int,
        )
    }
}

/// The files that a deletion removes: every marked file, by flat index, as
/// (flat index, path, size).
pub open spec fn deletion_plan(gs: Seq<DuplicateGroup>, marked: Set<usize>) -> Seq<(usize, String, u64)> {
    targets_upto(gs, marked, gs.len() as int)
}

/// How many of the `removed` flags are set.
pub open spec fn count_removed(removed: Seq<bool>) -> nat
    decreases removed.len(),
{
    if removed.len() == 0 {
        0
    } else {
        count_removed(removed.drop_last()) + if removed.last() { 1nat } else { 0nat }
    }
}

/// The sizes of the planned files whose `removed` flag is set, summed.
pub open spec fn freed_bytes(plan: Seq<(usize, String, u64)>, removed: Seq<bool>) -> nat
    decreases removed.len(),
{
    if removed.len() == 0 || plan.len() == 0 {
        0
    } else {
        freed_bytes(plan.drop_last(), removed.drop_last()) + if removed.last() {
            plan.last().2 as nat
        } else {
            0nat
        }
    }
}

/// The sizes of the planned files, summed.
pub open spec fn plan_bytes(plan: Seq<(usize, String, u64)>) -> nat
    decreases plan.len(),
{
    if plan.len() == 0 {
        0
    } else {
        plan_bytes(plan.drop_last()) + plan.last().2 as nat
    }
}

// ---------------------------------------------------------------------------
// Lemmas
// ---------------------------------------------------------------------------

pub proof fn lemma_kept_bounds(files: Seq<FileEntry>, base: int, marked: Set<usize>, k: int)
    requires
        0 <= k <= files.len(),
    ensures
        kept_prefix(files, base, marked, k).len() <= k,
        total_size(kept_prefix(files, base, marked, k)) <= total_size(files.take(k)),
    decreases k,
{
    if k > 0 {
        lemma_kept_bounds(files, base, marked, k - 1);
        crate::scanner::lemma_total_size_take(files, k - 1);
        let prev = kept_prefix(files, base, marked, k - 1);
        if !marked.contains((base + k - 1) as usize) {
            assert(prev.push(files[k - 1]).drop_last() =~= prev);
        }
    } else {
        assert(files.take(0) =~= Seq::<FileEntry>::empty());
    }
}

/// Appending a group leaves the sums over the earlier groups as they were.
pub proof fn lemma_sums_push(gs: Seq<DuplicateGroup>, x: DuplicateGroup, i: int)
    requires
        0 <= i <= gs.len(),
    ensures
        files_before(gs.push(x), i) == files_before(gs, i),
        bytes_before(gs.push(x), i) == bytes_before(gs, i),
        wasted_before(gs.push(x), i) == wasted_before(gs, i),
    decreases i,
{
    if i > 0 {
        lemma_sums_push(gs, x, i - 1);
        assert(gs.push(x)[i - 1] == gs[i - 1]);
    }
}

pub proof fn lemma_bytes_before_monotonic(gs: Seq<DuplicateGroup>, a: int, b: int)
    requires
        a <= b <= gs.len(),
    ensures
        bytes_before(gs, a) <= bytes_before(gs, b),
    decreases b - a,
{
    if a < b {
        lemma_bytes_before_monotonic(gs, a, b - 1);
    }
}

pub proof fn lemma_plan_bytes_concat(a: Seq<(usize, String, u64)>, b: Seq<(usize, String, u64)>)
    ensures
        plan_bytes(a + b) == plan_bytes(a) + plan_bytes(b),
    decreases b.len(),
{
    if b.len() > 0 {
        lemma_plan_bytes_concat(a, b.drop_last());
        assert((a + b).drop_last() =~= a + b.drop_last());
    } else {
        assert(a + b =~= a);
    }
}

pub proof fn lemma_group_targets_bytes(files: Seq<FileEntry>, base: int, marked: Set<usize>, k: int)
    requires
        0 <= k <= files.len(),
    ensures
        plan_bytes(group_targets(files, base, marked, k)) <= total_size(files.take(k)),
        group_targets(files, base, marked, k).len() <= k,
    decreases k,
{
    if k > 0 {
        lemma_group_targets_bytes(files, base, marked, k - 1);
        crate::scanner::lemma_total_size_take(files, k - 1);
        let prev = group_targets(files, base, marked, k - 1);
        if marked.contains((base + k - 1) as usize) {
            let item = ((base + k - 1) as usize, files[k - 1].path, files[k - 1].size);
            assert(prev.push(item).drop_last() =~= prev);
        }
    } else {
        assert(files.take(0) =~= Seq::<FileEntry>::empty());
    }
}

pub proof fn lemma_targets_bytes(gs: Seq<DuplicateGroup>, marked: Set<usize>, n: int)
    requires
        0 <= n <= gs.len(),
    ensures
        plan_bytes(targets_upto(gs, marked, n)) <= bytes_before(gs, n),
        targets_upto(gs, marked, n).len() <= files_before(gs, n),
    decreases n,
{
    if n > 0 {
        lemma_targets_bytes(gs, marked, n - 1);
        let files = gs[n - 1].files@;
        lemma_group_targets_bytes(files, files_before(gs, n - 1) as int, marked, files.len() as int);
        assert(files.take(files.len() as int) =~= files);
        lemma_plan_bytes_concat(
            targets_upto(gs, marked, n - 1),
            group_targets(files, files_before(gs, n - 1) as int, marked, files.len() as int),
        );
    }
}

pub proof fn lemma_freed_bound(plan: Seq<(usize, String, u64)>, removed: Seq<bool>)
    requires
        plan.len() == removed.len(),
    ensures
        freed_bytes(plan, removed) <= plan_bytes(plan),
        count_removed(removed) <= removed.len(),
    decreases removed.len(),
{
    if removed.len() > 0 {
        lemma_freed_bound(plan.drop_last(), removed.drop_last());
    }
}

// ---------------------------------------------------------------------------
// Computation
// ---------------------------------------------------------------------------

/// The unmarked files of a group whose first file has flat index `base`.
fn kept_of_group(files: &Vec<FileEntry>, base: usize, marked: &HashSet<usize>) -> (kept: Vec<FileEntry>)
    requires
        base + files@.len() <= usize::MAX,
    ensures
        kept@ == kept_files(files@, base as int, marked@),
        kept@.len() <= files@.len(),
        total_size(kept@) <= total_size(files@),
{
    let mut kept: Vec<FileEntry> = Vec::new();
    let mut k: usize = 0;
    while k < files.len()
        invariant
            k <= files@.len(),
            base + files@.len() <= usize::MAX,
            kept@ == kept_prefix(files@, base as int, marked@, k as int),
        decreases files@.len() - k,
    {
        if !marked.contains(&(base + k)) {
            kept.push(files[k].duplicate());
        }
        k = k + 1;
    }
    proof {
        lemma_kept_bounds(files@, base as int, marked@, files@.len() as int);
        assert(files@.take(files@.len() as int) =~= files@);
    }
    kept
}

/// The groups with the marked files removed, and the groups left with fewer
/// than two files dropped.
pub fn prune_groups(groups: &Vec<DuplicateGroup>, marked: &HashSet<usize>) -> (out: Vec<DuplicateGroup>)
    requires
        within_limits(groups@),
    ensures
        pruned(groups@, marked@, out@),
        within_limits(out@),
        file_count(out@) <= file_count(groups@),
{
    let ghost gs = groups@;
    let mut out: Vec<DuplicateGroup> = Vec::new();
    let mut base: usize = 0;
    let mut gi: usize = 0;
    while gi < groups.len()
        invariant
            gs == groups@,
            gi <= gs.len(),
            within_limits(gs),
            base == files_before(gs, gi as int),
            pruned_upto(gs, marked@, gi as int, out@),
            out@.len() <= gi,
            files_before(out@, out@.len() as int) <= files_before(gs, gi as int),
            bytes_before(out@, out@.len() as int) <= bytes_before(gs, gi as int),
            wasted_before(out@, out@.len() as int) <= bytes_before(out@, out@.len() as int),
        decreases gs.len() - gi,
    {
        proof {
            lemma_files_before_monotonic(gs, gi as int + 1, gs.len() as int);
            lemma_bytes_before_monotonic(gs, gi as int + 1, gs.len() as int);
        }
        let group = &groups[gi];
        let kept = kept_of_group(&group.files, base, marked);
        let ghost prev_out = out@;
        if kept.len() > 1 {
            let wasted = crate::scanner::tail_bytes(&kept);
            proof {
                crate::scanner::lemma_tail_size_bound(kept@);
            }
            let ng = DuplicateGroup {
                file_name: group.file_name.clone(),
                hash: group.hash.clone(),
                files: kept,
                wasted_bytes: wasted,
            };
            out.push(ng);
            proof {
                lemma_sums_push(prev_out, ng, prev_out.len() as int);
                assert(out@ == prev_out.push(ng));
                assert forall|j: int| 0 <= j < out@.len() implies {
                    let g = #[trigger] survivors(gs, marked@, gi as int + 1)[j];
                    &&& out@[j].files@ == kept_files(gs[g].files@, files_before(gs, g) as int, marked@)
                    &&& out@[j].file_name == gs[g].file_name
                    &&& out@[j].hash == gs[g].hash
                    &&& out@[j].wasted_bytes == tail_size(out@[j].files@)
                } by {
                    if j < prev_out.len() {
                        assert(survivors(gs, marked@, gi as int + 1)[j] == survivors(gs, marked@, gi as int)[j]);
                    }
                }
            }
        } else {
            proof {
                assert(survivors(gs, marked@, gi as int + 1) == survivors(gs, marked@, gi as int));
            }
        }
        base = base + group.files.len();
        gi = gi + 1;
    }
    out
}

/// The files that a deletion removes, as (flat index, path, size).
pub fn plan_deletion(groups: &Vec<DuplicateGroup>, marked: &HashSet<usize>) -> (plan: Vec<(usize, String, u64)>)
    requires
        within_limits(groups@),
    ensures
        plan@ == deletion_plan(groups@, marked@),
{
    let ghost gs = groups@;
    let mut plan: Vec<(usize, String, u64)> = Vec::new();
    let mut base: usize = 0;
    let mut gi: usize = 0;
    while gi < groups.len()
        invariant
            gs == groups@,
            gi <= gs.len(),
            within_limits(gs),
            base == files_before(gs, gi as int),
            plan@ == targets_upto(gs, marked@, gi as int),
        decreases gs.len() - gi,
    {
        proof {
            lemma_files_before_monotonic(gs, gi as int + 1, gs.len() as int);
        }
        let files = &groups[gi].files;
        let mut k: usize = 0;
        while k < files.len()
            invariant
                gs == groups@,
                gi < gs.len(),
                files@ == gs[gi as int].files@,
                k <= files@.len(),
                base + files@.len() <= usize::MAX,
                base == files_before(gs, gi as int),
                plan@ == targets_upto(gs, marked@, gi as int) + group_targets(files@, base as int, marked@, k as int),
            decreases files@.len() - k,
        {
            if marked.contains(&(base + k)) {
                plan.push((base + k, files[k].path.clone(), files[k].size));
            }
            k = k + 1;
        }
        base = base + files.len();
        gi = gi + 1;
    }
    plan
}

} // verus!
