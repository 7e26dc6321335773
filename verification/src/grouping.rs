//! Building the duplicate groups from files and their content hashes.

use vstd::prelude::*;

use crate::keys::{Descending, Lex, lex_le, lemma_text_key_equiv, text_units};
use crate::paths::{file_name_of, path_file_name, path_key, path_sort_key, chars_of, string_of};
use crate::scanner::{DuplicateGroup, FileEntry, shares_hash, total_size, tail_size, tail_bytes};
use crate::sorting::{SortKey, has_equiv, in_some_class, is_class_of, is_range_permutation, key_classes,
    key_equiv, lemma_class_shared, sorted_by, sorted_order};

verus! {

/// Sum of the sizes of the entries of the first `k` pairs.
pub open spec fn pairs_size(hashed: Seq<(String, FileEntry)>, k: int) -> nat
    decreases k,
{
    if k <= 0 {
        0
    } else {
        pairs_size(hashed, k - 1) + hashed[k - 1].1.size as nat
    }
}

/// Sum of the sizes of the entries at the indices `idx`.
pub open spec fn size_at(hashed: Seq<(String, FileEntry)>, idx: Seq<usize>) -> nat
    decreases idx.len(),
{
    if idx.len() == 0 {
        0
    } else {
        size_at(hashed, idx.drop_last()) + hashed[idx.last() as int].1.size as nat
    }
}

/// The first `k` characters of `s`, or all of them if there are fewer.
pub open spec fn text_start(s: Seq<char>, k: nat) -> Seq<char> {
    if k < s.len() {
        s.take(k as int)
    } else {
        s
    }
}

/// `g` is the group of the pairs listed by `members`: all the pairs that
/// have the (non-empty) hash of the first of them, each once, with the files
/// ordered by path; it is named after its first file, carries the first 12
/// characters of the hash, and counts as waste all its files but the first.
pub open spec fn is_duplicate_group(hashed: Seq<(String, FileEntry)>, g: DuplicateGroup, members: Seq<usize>) -> bool {
    &&& members.len() >= 2
    &&& members.no_duplicates()
    &&& members[0] < hashed.len()
    &&& hashed[members[0] as int].0@.len() > 0
    &&& forall|x: usize| #[trigger] members.contains(x) <==> (x < hashed.len()
        && hashed[x as int].0@ == hashed[members[0] as int].0@)
    &&& g.files@.len() == members.len()
    &&& forall|t: int| 0 <= t < members.len() ==> #[trigger] g.files@[t] == hashed[members[t] as int].1
    &&& forall|t1: int, t2: int| 0 <= t1 < t2 < g.files@.len()
        ==> lex_le(path_key(#[trigger] g.files@[t1].path@), path_key(#[trigger] g.files@[t2].path@))
    &&& g.file_name@ == path_file_name(g.files@[0].path@)
    &&& g.hash@ == text_start(hashed[members[0] as int].0@, 12)
    &&& g.wasted_bytes == tail_size(g.files@)
}

/// `out` are the duplicate groups of `hashed`, `members[j]` listing the pairs
/// of group `j`: each group is a duplicate group, no two share a hash, and
/// every file whose hash another file shares is in one of them.
pub open spec fn groups_of(hashed: Seq<(String, FileEntry)>, out: Seq<DuplicateGroup>, members: Seq<Seq<usize>>) -> bool {
    &&& members.len() == out.len()
    &&& forall|j: int| 0 <= j < out.len() ==> is_duplicate_group(hashed, #[trigger] out[j], members[j])
    &&& forall|j1: int, j2: int| 0 <= j1 < out.len() && 0 <= j2 < out.len() && j1 != j2
        ==> hashed[members[j1][0] as int].0@ != hashed[members[j2][0] as int].0@
    &&& forall|x: int| 0 <= x < hashed.len() && #[trigger] shares_hash(hashed, x)
        ==> exists|j: int| 0 <= j < out.len() && #[trigger] members[j].contains(x as usize)
}

proof fn lemma_size_at_remove(hashed: Seq<(String, FileEntry)>, s: Seq<usize>, p: int)
    requires
        0 <= p < s.len(),
    ensures
        size_at(hashed, s) == size_at(hashed, s.remove(p)) + hashed[s[p] as int].1.size,
    decreases s.len(),
{
    if p == s.len() - 1 {
        assert(s.remove(p) =~= s.drop_last());
    } else {
        lemma_size_at_remove(hashed, s.drop_last(), p);
        assert(s.remove(p).drop_last() =~= s.drop_last().remove(p));
        assert(s.remove(p).last() == s.last());
    }
}

/// Distinct indices below `n` take no more than all of the first `n` pairs.
proof fn lemma_size_at_bound(hashed: Seq<(String, FileEntry)>, s: Seq<usize>, n: int)
    requires
        0 <= n <= hashed.len(),
        hashed.len() <= usize::MAX,
        s.no_duplicates(),
        forall|t: int| 0 <= t < s.len() ==> #[trigger] s[t] < n,
    ensures
        size_at(hashed, s) <= pairs_size(hashed, n),
    decreases n,
{
    if n == 0 {
        if s.len() > 0 {
            assert(s[0] < 0);
        }
    } else if s.contains((n - 1) as usize) {
        let p = choose|p: int| 0 <= p < s.len() && s[p] == (n - 1) as usize;
        lemma_size_at_remove(hashed, s, p);
        let r = s.remove(p);
        assert forall|t: int| 0 <= t < r.len() implies #[trigger] r[t] < n - 1 by {
            if t < p {
                assert(r[t] == s[t]);
            } else {
                assert(r[t] == s[t + 1]);
            }
        }
        assert(r.no_duplicates()) by {
            assert forall|a: int, b: int| 0 <= a < r.len() && 0 <= b < r.len() && a != b implies r[a] != r[b] by {
                let sa = if a < p { a } else { a + 1 };
                let sb = if b < p { b } else { b + 1 };
                assert(r[a] == s[sa]);
                assert(r[b] == s[sb]);
            }
        }
        lemma_size_at_bound(hashed, r, n - 1);
    } else {
        assert forall|t: int| 0 <= t < s.len() implies #[trigger] s[t] < n - 1 by {
            if s[t] == n - 1 {
                assert(s.contains(s[t]));
            }
        }
        lemma_size_at_bound(hashed, s, n - 1);
    }
}

proof fn lemma_total_size_members(hashed: Seq<(String, FileEntry)>, files: Seq<FileEntry>, members: Seq<usize>)
    requires
        files.len() == members.len(),
        forall|t: int| 0 <= t < members.len() ==> #[trigger] files[t] == hashed[members[t] as int].1,
    ensures
        total_size(files) == size_at(hashed, members),
    decreases files.len(),
{
    if files.len() > 0 {
        lemma_total_size_members(hashed, files.drop_last(), members.drop_last());
    }
}

/// The first `k` characters of `s` (all of them if fewer).
fn text_prefix(s: &str, k: usize) -> (r: String)
    ensures
        r@ == text_start(s@, k as nat),
{
    let v = chars_of(s);
    let end = if k < v.len() { k } else { v.len() };
    let r = string_of(&v, 0, end);
    assert(v@.subrange(0, end as int) =~= text_start(s@, k as nat));
    r
}

/// The group of the pairs of class `c` (indices with equal hashes).
fn make_group(hashed: &Vec<(String, FileEntry)>, c: &Vec<usize>) -> (r: (DuplicateGroup, Ghost<Seq<usize>>))
    requires
        c@.len() >= 2,
        c@.no_duplicates(),
        c@[0] < hashed@.len(),
        hashed@[c@[0] as int].0@.len() > 0,
        forall|x: usize| #[trigger] c@.contains(x) <==> (x < hashed@.len()
            && hashed@[x as int].0@ == hashed@[c@[0] as int].0@),
        pairs_size(hashed@, hashed@.len() as int) <= u64::MAX,
    ensures
        is_duplicate_group(hashed@, r.0, r.1@),
        forall|x: usize| r.1@.contains(x) <==> c@.contains(x),
{
    let m = c.len();
    proof {
        assert forall|t: int| 0 <= t < m implies #[trigger] c@[t] < hashed@.len() by {
            assert(c@.contains(c@[t]));
        }
    }
    let mut keys: Vec<Lex> = Vec::new();
    let mut i: usize = 0;
    while i < m
        invariant
            i <= m,
            m == c@.len(),
            forall|t: int| 0 <= t < m ==> #[trigger] c@[t] < hashed@.len(),
            keys@.len() == i,
            forall|t: int| 0 <= t < i ==> (#[trigger] keys@[t]).units@ == path_key(hashed@[c@[t] as int].1.path@),
        decreases m - i,
    {
        keys.push(path_sort_key(hashed[c[i]].1.path.as_str()));
        i = i + 1;
    }
    let p = sorted_order(&keys);
    proof {
        assert forall|t: int| 0 <= t < m implies #[trigger] p@[t] < m by {
            assert(p@.contains(p@[t]));
        }
    }
    let mut files: Vec<FileEntry> = Vec::new();
    let ghost mut members: Seq<usize> = Seq::empty();
    let mut t: usize = 0;
    while t < m
        invariant
            t <= m,
            m == c@.len(),
            m == p@.len(),
            forall|a: int| 0 <= a < m ==> #[trigger] p@[a] < m,
            forall|a: int| 0 <= a < m ==> #[trigger] c@[a] < hashed@.len(),
            files@.len() == t,
            members.len() == t,
            forall|a: int| 0 <= a < t ==> #[trigger] members[a] == c@[p@[a] as int],
            forall|a: int| 0 <= a < t ==> #[trigger] files@[a] == hashed@[members[a] as int].1,
        decreases m - t,
    {
        let x = c[p[t]];
        files.push(hashed[x].1.duplicate());
        proof {
            members = members.push(x);
        }
        t = t + 1;
    }
    proof {
        // `members` lists the class in path order
        assert(members.no_duplicates()) by {
            assert forall|a: int, b: int| 0 <= a < m && 0 <= b < m && a != b implies members[a] != members[b] by {
                if members[a] == members[b] {
                    assert(c@[p@[a] as int] == c@[p@[b] as int]);
                    assert(p@[a] == p@[b]);
                }
            }
        }
        assert forall|x: usize| members.contains(x) <==> c@.contains(x) by {
            if members.contains(x) {
                let a = choose|a: int| 0 <= a < m && members[a] == x;
                assert(c@[p@[a] as int] == x);
            }
            if c@.contains(x) {
                let b = choose|b: int| 0 <= b < m && c@[b] == x;
                assert(p@.contains(b as usize));
                let a = choose|a: int| 0 <= a < m && p@[a] == b as usize;
                assert(members[a] == x);
            }
        }
        assert(c@.contains(members[0]));
        assert(c@.contains(c@[0]));
        assert forall|t1: int, t2: int| 0 <= t1 < t2 < files@.len() implies
            lex_le(path_key(#[trigger] files@[t1].path@), path_key(#[trigger] files@[t2].path@)) by {
            assert(keys@[p@[t1] as int].key_le(&keys@[p@[t2] as int]));
        }
        lemma_total_size_members(hashed@, files@, members);
        assert forall|a: int| 0 <= a < members.len() implies #[trigger] members[a] < hashed@.len() by {}
        assert(hashed@.len() == hashed.len());
        lemma_size_at_bound(hashed@, members, hashed@.len() as int);
        crate::scanner::lemma_tail_size_bound(files@);
    }
    let wasted = tail_bytes(&files);
    let file_name = file_name_of(files[0].path.as_str());
    let hash = text_prefix(hashed[c[0]].0.as_str(), 12);
    proof {
        let h = hashed@[c@[0] as int].0@;
        assert(hashed@[members[0] as int].0@ == h);
    }
    (DuplicateGroup { file_name, hash, files, wasted_bytes: wasted }, Ghost(members))
}

/// `c` lists exactly the indices whose hash is the hash of `c[0]`.
pub open spec fn class_by_hash(hs: Seq<(String, FileEntry)>, c: Seq<usize>) -> bool {
    forall|x: usize| #[trigger] c.contains(x) <==> (x < hs.len() && hs[x as int].0@ == hs[c[0] as int].0@)
}

/// `a` and `b` hold the same indices.
pub open spec fn same_elements(a: Seq<usize>, b: Seq<usize>) -> bool {
    forall|x: usize| #[trigger] a.contains(x) <==> b.contains(x)
}

/// The lexicographic keys of the hashes.
fn hash_keys(hashed: &Vec<(String, FileEntry)>) -> (keys: Vec<Lex>)
    ensures
        keys@.len() == hashed@.len(),
        forall|x: int| 0 <= x < keys@.len() ==> (#[trigger] keys@[x]).units@ == text_units(hashed@[x].0@),
{
    let n = hashed.len();
    let mut keys: Vec<Lex> = Vec::new();
    let mut i: usize = 0;
    while i < n
        invariant
            i <= n,
            n == hashed@.len(),
            keys@.len() == i,
            forall|x: int| 0 <= x < i ==> (#[trigger] keys@[x]).units@ == text_units(hashed@[x].0@),
        decreases n - i,
    {
        keys.push(crate::keys::text_key(hashed[i].0.as_str()));
        i = i + 1;
    }
    keys
}

/// The duplicate groups of files with content hashes: files whose non-empty
/// hash another file shares are grouped by hash, each group ordered by path,
/// and the groups ordered by wasted bytes, largest first. An empty hash
/// stands for a file that could not be hashed.
pub fn build_groups(hashed: &Vec<(String, FileEntry)>) -> (out: Vec<DuplicateGroup>)
    requires
        pairs_size(hashed@, hashed@.len() as int) <= u64::MAX,
    ensures
        exists|members: Seq<Seq<usize>>| groups_of(hashed@, out@, members),
        forall|j1: int, j2: int| 0 <= j1 < j2 < out@.len()
            ==> (#[trigger] out@[j1]).wasted_bytes >= (#[trigger] out@[j2]).wasted_bytes,
{
    let ghost hs = hashed@;
    let keys = hash_keys(hashed);
    let classes = key_classes(&keys);
    proof {
        assert forall|k: int| 0 <= k < classes@.len() implies class_by_hash(hs, #[trigger] classes@[k]@) by {
            assert(is_class_of(keys@, classes@[k]@));
            assert forall|x: usize| #[trigger] classes@[k]@.contains(x)
                <==> (x < hs.len() && hs[x as int].0@ == hs[classes@[k]@[0] as int].0@) by {
                if x < hs.len() {
                    lemma_text_key_equiv(keys@[x as int], keys@[classes@[k]@[0] as int], hs[x as int].0@,
                        hs[classes@[k]@[0] as int].0@);
                }
            }
        }
    }
    let mut groups: Vec<DuplicateGroup> = Vec::new();
    let ghost mut members: Seq<Seq<usize>> = Seq::empty();
    let ghost mut origin: Seq<int> = Seq::empty();
    let mut j: usize = 0;
    while j < classes.len()
        invariant
            hs == hashed@,
            pairs_size(hs, hs.len() as int) <= u64::MAX,
            keys@.len() == hs.len(),
            forall|x: int| 0 <= x < keys@.len() ==> (#[trigger] keys@[x]).units@ == text_units(hs[x].0@),
            j <= classes@.len(),
            forall|k: int| 0 <= k < classes@.len() ==> is_class_of(keys@, #[trigger] classes@[k]@),
            forall|k: int| 0 <= k < classes@.len() ==> class_by_hash(hs, #[trigger] classes@[k]@),
            forall|j1: int, j2: int| 0 <= j1 < classes@.len() && 0 <= j2 < classes@.len() && j1 != j2
                ==> !key_equiv(keys@[classes@[j1]@[0] as int], keys@[classes@[j2]@[0] as int]),
            members.len() == groups@.len(),
            origin.len() == groups@.len(),
            forall|g: int| 0 <= g < groups@.len() ==> is_duplicate_group(hs, #[trigger] groups@[g], members[g]),
            forall|g: int| 0 <= g < groups@.len() ==> 0 <= #[trigger] origin[g] < j,
            forall|g1: int, g2: int| 0 <= g1 < groups@.len() && 0 <= g2 < groups@.len() && g1 != g2
                ==> origin[g1] != origin[g2],
            forall|g: int| 0 <= g < groups@.len() ==> same_elements(#[trigger] members[g], classes@[origin[g]]@),
            forall|k: int| 0 <= k < j && #[trigger] classes@[k]@.len() >= 2 && hs[classes@[k]@[0] as int].0@.len() > 0
                ==> exists|g: int| 0 <= g < groups@.len() && #[trigger] origin[g] == k,
        decreases classes@.len() - j,
    {
        let c = &classes[j];
        let ghost old_origin = origin;
        let ghost old_len = groups@.len();
        proof {
            assert(is_class_of(keys@, c@));
        }
        if c.len() >= 2 && !hashed[c[0]].0.as_str().is_empty() {
            let (g, Ghost(gm)) = make_group(hashed, c);
            groups.push(g);
            proof {
                members = members.push(gm);
                origin = origin.push(j as int);
                assert(origin[origin.len() - 1] == j);
            }
        }
        proof {
            assert forall|k: int| 0 <= k < j + 1 && #[trigger] classes@[k]@.len() >= 2
                && hs[classes@[k]@[0] as int].0@.len() > 0
                implies exists|g: int| 0 <= g < groups@.len() && #[trigger] origin[g] == k by {
                if k < j {
                    let g = choose|g: int| 0 <= g < old_len && #[trigger] old_origin[g] == k;
                    assert(origin[g] == k);
                } else {
                    assert(origin[old_len as int] == k);
                }
            }
        }
        j = j + 1;
    }
    // order the groups by waste, largest first
    let mut wkeys: Vec<Descending> = Vec::new();
    let mut i: usize = 0;
    while i < groups.len()
        invariant
            i <= groups@.len(),
            wkeys@.len() == i,
            forall|t: int| 0 <= t < i ==> (#[trigger] wkeys@[t]).0 == groups@[t].wasted_bytes,
        decreases groups@.len() - i,
    {
        wkeys.push(Descending(groups[i].wasted_bytes));
        i = i + 1;
    }
    let p = sorted_order(&wkeys);
    let ng = groups.len();
    proof {
        assert forall|t: int| 0 <= t < ng implies #[trigger] p@[t] < ng by {
            assert(p@.contains(p@[t]));
        }
    }
    let mut out: Vec<DuplicateGroup> = Vec::new();
    let ghost mut out_members: Seq<Seq<usize>> = Seq::empty();
    let mut t: usize = 0;
    while t < ng
        invariant
            ng == groups@.len(),
            ng == p@.len(),
            t <= ng,
            forall|a: int| 0 <= a < ng ==> #[trigger] p@[a] < ng,
            out@.len() == t,
            out_members.len() == t,
            forall|a: int| 0 <= a < t ==> (#[trigger] out@[a]).files@ == groups@[p@[a] as int].files@,
            forall|a: int| 0 <= a < t ==> (#[trigger] out@[a]).file_name == groups@[p@[a] as int].file_name,
            forall|a: int| 0 <= a < t ==> (#[trigger] out@[a]).hash == groups@[p@[a] as int].hash,
            forall|a: int| 0 <= a < t ==> (#[trigger] out@[a]).wasted_bytes == groups@[p@[a] as int].wasted_bytes,
            forall|a: int| 0 <= a < t ==> #[trigger] out_members[a] == members[p@[a] as int],
        decreases ng - t,
    {
        out.push(groups[p[t]].duplicate());
        proof {
            out_members = out_members.push(members[p@[t as int] as int]);
        }
        t = t + 1;
    }
    proof {
        assert forall|a: int| 0 <= a < out@.len() implies is_duplicate_group(hs, #[trigger] out@[a], out_members[a]) by {
            assert(is_duplicate_group(hs, groups@[p@[a] as int], members[p@[a] as int]));
        }
        assert forall|a1: int, a2: int| 0 <= a1 < out@.len() && 0 <= a2 < out@.len() && a1 != a2
            implies hs[out_members[a1][0] as int].0@ != hs[out_members[a2][0] as int].0@ by {
            let g1 = p@[a1] as int;
            let g2 = p@[a2] as int;
            assert(g1 != g2);
            let k1 = origin[g1];
            let k2 = origin[g2];
            let c1 = classes@[k1]@;
            let c2 = classes@[k2]@;
            assert(members[g1].contains(members[g1][0]));
            assert(members[g2].contains(members[g2][0]));
            assert(c1.contains(members[g1][0]));
            assert(c2.contains(members[g2][0]));
            assert(c1.contains(c1[0]));
            assert(c2.contains(c2[0]));
            if hs[out_members[a1][0] as int].0@ == hs[out_members[a2][0] as int].0@ {
                lemma_text_key_equiv(keys@[c1[0] as int], keys@[c2[0] as int], hs[c1[0] as int].0@, hs[c2[0] as int].0@);
            }
        }
        assert forall|x: int| 0 <= x < hs.len() && #[trigger] shares_hash(hs, x)
            implies exists|a: int| 0 <= a < out@.len() && #[trigger] out_members[a].contains(x as usize) by {
            let xu = x as usize;
            assert(hs.len() == hashed.len());
            assert(in_some_class(classes@, xu));
            let k = choose|k: int| 0 <= k < classes@.len() && #[trigger] classes@[k]@.contains(xu);
            let c = classes@[k]@;
            let y = choose|y: int| 0 <= y < hs.len() && y != x && #[trigger] hs[y].0@ == hs[x].0@;
            lemma_text_key_equiv(keys@[x], keys@[y], hs[x].0@, hs[y].0@);
            assert(has_equiv(keys@, x));
            assert(keys@.len() == keys.len());
            lemma_class_shared(keys@, c, xu);
            let g = choose|g: int| 0 <= g < groups@.len() && #[trigger] origin[g] == k;
            assert(members[g].contains(xu));
            assert(p@.contains(g as usize));
            let a = choose|a: int| 0 <= a < ng && p@[a] == g as usize;
            assert(out_members[a].contains(xu));
        }
        assert forall|a1: int, a2: int| 0 <= a1 < a2 < out@.len()
            implies (#[trigger] out@[a1]).wasted_bytes >= (#[trigger] out@[a2]).wasted_bytes by {
            assert(wkeys@[p@[a1] as int].key_le(&wkeys@[p@[a2] as int]));
        }
        assert(groups_of(hs, out@, out_members));
    }
    out
}

/// The sizes of the first `a` pairs take no more than those of the first `b`.
proof fn lemma_pairs_size_monotonic(hashed: Seq<(String, FileEntry)>, a: int, b: int)
    requires
        a <= b,
    ensures
        pairs_size(hashed, a) <= pairs_size(hashed, b),
    decreases b - a,
{
    if a < b {
        lemma_pairs_size_monotonic(hashed, a, b - 1);
    }
}

/// Whether the sizes of all the files sum to at most `u64::MAX`, as
/// `build_groups` needs.
pub fn sizes_fit(hashed: &Vec<(String, FileEntry)>) -> (b: bool)
    ensures
        b == (pairs_size(hashed@, hashed@.len() as int) <= u64::MAX),
{
    let mut sum: u128 = 0;
    let mut k: usize = 0;
    while k < hashed.len()
        invariant
            k <= hashed@.len(),
            sum == pairs_size(hashed@, k as int),
            sum <= u64::MAX,
        decreases hashed@.len() - k,
    {
        sum = sum + hashed[k].1.size as u128;
        if sum > u64::MAX as u128 {
            proof {
                lemma_pairs_size_monotonic(hashed@, k + 1, hashed@.len() as int);
            }
            return false;
        }
        k = k + 1;
    }
    true
}

} // verus!
