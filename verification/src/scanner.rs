//! Narrowing scanned files down to groups of duplicates.

use vstd::prelude::*;

use crate::keys::{Ascending, Lex, lemma_text_key_equiv, text_key, text_units};
use crate::sorting::{has_equiv, key_equiv, shared_flags};

verus! {

/// One scanned file: its path (as text) and its size in bytes.
#[derive(Debug, Clone)]
pub struct FileEntry {
    pub path: String,
    pub size: u64,
}

impl DuplicateGroup {
    /// A copy of this group.
    pub fn duplicate(&self) -> (r: DuplicateGroup)
        ensures
            r.file_name == self.file_name,
            r.hash == self.hash,
            r.files@ == self.files@,
            r.wasted_bytes == self.wasted_bytes,
    {
        let mut files: Vec<FileEntry> = Vec::new();
        let mut i: usize = 0;
        while i < self.files.len()
            invariant
                i <= self.files@.len(),
                files@ == self.files@.take(i as int),
            decreases self.files@.len() - i,
        {
            files.push(self.files[i].duplicate());
            i = i + 1;
            assert(files@ =~= self.files@.take(i as int));
        }
        assert(files@ =~= self.files@);
        DuplicateGroup {
            file_name: self.file_name.clone(),
            hash: self.hash.clone(),
            files,
            wasted_bytes: self.wasted_bytes,
        }
    }
}

impl FileEntry {
    /// A copy of this entry.
    pub fn duplicate(&self) -> (r: FileEntry)
        ensures
            r == *self,
    {
        FileEntry { path: self.path.clone(), size: self.size }
    }
}

/// A set of files with identical content.
#[derive(Debug, Clone)]
pub struct DuplicateGroup {
    /// The file name of the first copy.
    pub file_name: String,
    /// The first 12 hex digits of the content hash.
    pub hash: String,
    /// The copies, ordered by path; the first one is the copy that bulk
    /// marking keeps.
    pub files: Vec<FileEntry>,
    /// The bytes taken by all copies but the first.
    pub wasted_bytes: u64,
}

/// Sum of the sizes of `files`.
pub open spec fn total_size(files: Seq<FileEntry>) -> nat
    decreases files.len(),
{
    if files.len() == 0 {
        0
    } else {
        total_size(files.drop_last()) + files.last().size as nat
    }
}

/// Sum of the sizes of all files but the first: the space that duplicates
/// waste.
pub open spec fn tail_size(files: Seq<FileEntry>) -> nat {
    if files.len() == 0 {
        0
    } else {
        total_size(files.drop_first())
    }
}

} // verus!

verus! {

/// The total size of the first `k` files plus the size of file `k` is the
/// total size of the first `k + 1`.
pub proof fn lemma_total_size_take(files: Seq<FileEntry>, k: int)
    requires
        0 <= k < files.len(),
    ensures
        total_size(files.take(k + 1)) == total_size(files.take(k)) + files[k].size,
{
    assert(files.take(k + 1).drop_last() =~= files.take(k));
}

/// Summing from the front gives the same total.
pub proof fn lemma_total_size_first(files: Seq<FileEntry>)
    requires
        files.len() > 0,
    ensures
        total_size(files) == files[0].size + total_size(files.drop_first()),
    decreases files.len(),
{
    if files.len() > 1 {
        lemma_total_size_first(files.drop_last());
        assert(files.drop_last().drop_first() =~= files.drop_first().drop_last());
        assert(files.drop_first().last() == files.last());
        assert(total_size(files.drop_first()) == total_size(files.drop_first().drop_last())
            + files.drop_first().last().size);
    } else {
        assert(files.drop_first().len() == 0);
        assert(files.drop_last().len() == 0);
        assert(total_size(files) == total_size(files.drop_last()) + files.last().size);
    }
}

/// All but the first file take no more than all files.
pub proof fn lemma_tail_size_bound(files: Seq<FileEntry>)
    ensures
        tail_size(files) <= total_size(files),
{
    if files.len() > 0 {
        lemma_total_size_first(files);
    }
}

/// The total size of `files[1..k]` grows by `files[k]`.
pub proof fn lemma_total_size_from_one(files: Seq<FileEntry>, k: int)
    requires
        1 <= k < files.len(),
    ensures
        total_size(files.subrange(1, k + 1)) == total_size(files.subrange(1, k)) + files[k].size,
{
    assert(files.subrange(1, k + 1).drop_last() =~= files.subrange(1, k));
}

/// The size of the duplicates, summed.
pub fn tail_bytes(files: &Vec<FileEntry>) -> (w: u64)
    requires
        total_size(files@) <= u64::MAX,
    ensures
        w == tail_size(files@),
{
    if files.len() == 0 {
        return 0;
    }
    proof {
        lemma_tail_size_bound(files@);
    }
    let mut w: u64 = 0;
    let mut k: usize = 1;
    assert(files@.subrange(1, 1) =~= Seq::<FileEntry>::empty());
    while k < files.len()
        invariant
            1 <= k <= files@.len(),
            w == total_size(files@.subrange(1, k as int)),
            tail_size(files@) <= u64::MAX,
        decreases files@.len() - k,
    {
        proof {
            lemma_total_size_from_one(files@, k as int);
            lemma_subrange_total_bound(files@, k as int + 1);
        }
        w = w + files[k].size;
        k = k + 1;
    }
    assert(files@.subrange(1, files@.len() as int) =~= files@.drop_first());
    w
}

/// A prefix of the duplicates takes no more than all of them.
proof fn lemma_subrange_total_bound(files: Seq<FileEntry>, k: int)
    requires
        1 <= k <= files.len(),
    ensures
        total_size(files.subrange(1, k)) <= tail_size(files),
    decreases files.len() - k,
{
    if k < files.len() {
        lemma_subrange_total_bound(files, k + 1);
        lemma_total_size_from_one(files, k);
    } else {
        assert(files.subrange(1, k) =~= files.drop_first());
    }
}

} // verus!

verus! {

// ---------------------------------------------------------------------------
// Candidates
// ---------------------------------------------------------------------------

/// Of the first `k` items, those whose index `keep` holds, in order.
pub open spec fn pick<T>(items: Seq<T>, keep: spec_fn(int) -> bool, k: int) -> Seq<T>
    decreases k,
{
    if k <= 0 {
        Seq::empty()
    } else {
        let prev = pick(items, keep, k - 1);
        if keep(k - 1) {
            prev.push(items[k - 1])
        } else {
            prev
        }
    }
}

/// Another entry has the size of entry `x`.
pub open spec fn shares_size(entries: Seq<FileEntry>, x: int) -> bool {
    exists|y: int| 0 <= y < entries.len() && y != x && #[trigger] entries[y].size == entries[x].size
}

/// Entry `x` has a hash (hashing did not fail) and another entry has the
/// same hash.
pub open spec fn shares_hash(hashed: Seq<(String, FileEntry)>, x: int) -> bool {
    &&& hashed[x].0@.len() > 0
    &&& exists|y: int| 0 <= y < hashed.len() && y != x && #[trigger] hashed[y].0@ == hashed[x].0@
}

/// The entries of the hashed pairs.
pub open spec fn entries_of(pairs: Seq<(String, FileEntry)>) -> Seq<FileEntry> {
    pairs.map_values(|p: (String, FileEntry)| p.1)
}

/// The files that may have a duplicate by size: those whose size another
/// file has, in the order given.
pub fn size_candidates(entries: &Vec<FileEntry>) -> (out: Vec<FileEntry>)
    ensures
        out@ == pick(entries@, |x: int| shares_size(entries@, x), entries@.len() as int),
{
    let n = entries.len();
    let mut keys: Vec<Ascending> = Vec::new();
    let mut i: usize = 0;
    while i < n
        invariant
            i <= n,
            n == entries@.len(),
            keys@.len() == i,
            forall|x: int| 0 <= x < i ==> (#[trigger] keys@[x]).0 == entries@[x].size,
        decreases n - i,
    {
        keys.push(Ascending(entries[i].size));
        i = i + 1;
    }
    let flags = shared_flags(&keys);
    let ghost keep = |x: int| shares_size(entries@, x);
    let mut out: Vec<FileEntry> = Vec::new();
    let mut k: usize = 0;
    while k < n
        invariant
            k <= n,
            n == entries@.len(),
            n == keys@.len(),
            flags@.len() == n,
            forall|x: int| 0 <= x < n ==> (#[trigger] keys@[x]).0 == entries@[x].size,
            forall|x: int| 0 <= x < n ==> (#[trigger] flags@[x] <==> has_equiv(keys@, x)),
            keep == (|x: int| shares_size(entries@, x)),
            out@ == pick(entries@, keep, k as int),
        decreases n - k,
    {
        proof {
            let x = k as int;
            if has_equiv(keys@, x) {
                let y = choose|y: int| 0 <= y < keys@.len() && y != x && #[trigger] key_equiv(keys@[x], keys@[y]);
                assert(entries@[y].size == entries@[x].size);
            }
            if shares_size(entries@, x) {
                let y = choose|y: int| 0 <= y < entries@.len() && y != x && #[trigger] entries@[y].size == entries@[x].size;
                assert(key_equiv(keys@[x], keys@[y]));
            }
        }
        let ghost prev = pick(entries@, keep, k as int);
        proof {
            assert(keep(k as int) == shares_size(entries@, k as int));
            assert(pick(entries@, keep, k + 1) == if keep(k as int) {
                prev.push(entries@[k as int])
            } else {
                prev
            });
        }
        if flags[k] {
            out.push(entries[k].duplicate());
        }
        k = k + 1;
    }
    out
}

/// The lexicographic keys of the hashes.
fn hash_keys(hashed: &Vec<(String, FileEntry)>) -> (keys: Vec<Lex>)
    ensures
        keys@.len() == hashed@.len(),
        forall|x: int| 0 <= x < keys@.len() ==> (#[trigger] keys@[x]).units@ == text_units(hashed@[x].0@),
{
    let n = hashed.len();
    let mut keys: Vec<Lex> = Vec::new();
    let mut i: usize = 0;
    while i < n
        invariant
            i <= n,
            n == hashed@.len(),
            keys@.len() == i,
            forall|x: int| 0 <= x < i ==> (#[trigger] keys@[x]).units@ == text_units(hashed@[x].0@),
        decreases n - i,
    {
        keys.push(text_key(hashed[i].0.as_str()));
        i = i + 1;
    }
    keys
}

/// The files that may have a duplicate by quick hash: those whose quick hash
/// is not empty and is the quick hash of another file, in the order given.
pub fn quick_hash_candidates(hashed: &Vec<(String, FileEntry)>) -> (out: Vec<FileEntry>)
    ensures
        out@ == entries_of(pick(hashed@, |x: int| shares_hash(hashed@, x), hashed@.len() as int)),
{
    let n = hashed.len();
    let keys = hash_keys(hashed);
    let flags = shared_flags(&keys);
    let ghost keep = |x: int| shares_hash(hashed@, x);
    let mut out: Vec<FileEntry> = Vec::new();
    let mut k: usize = 0;
    while k < n
        invariant
            k <= n,
            n == hashed@.len(),
            n == keys@.len(),
            flags@.len() == n,
            forall|x: int| 0 <= x < keys@.len() ==> (#[trigger] keys@[x]).units@ == text_units(hashed@[x].0@),
            forall|x: int| 0 <= x < n ==> (#[trigger] flags@[x] <==> has_equiv(keys@, x)),
            keep == (|x: int| shares_hash(hashed@, x)),
            out@ == entries_of(pick(hashed@, keep, k as int)),
        decreases n - k,
    {
        proof {
            let x = k as int;
            if has_equiv(keys@, x) {
                let y = choose|y: int| 0 <= y < keys@.len() && y != x && #[trigger] key_equiv(keys@[x], keys@[y]);
                lemma_text_key_equiv(keys@[x], keys@[y], hashed@[x].0@, hashed@[y].0@);
                assert(hashed@[y].0@ == hashed@[x].0@);
            }
            if exists|y: int| 0 <= y < hashed@.len() && y != x && #[trigger] hashed@[y].0@ == hashed@[x].0@ {
                let y = choose|y: int| 0 <= y < hashed@.len() && y != x && #[trigger] hashed@[y].0@ == hashed@[x].0@;
                lemma_text_key_equiv(keys@[x], keys@[y], hashed@[x].0@, hashed@[y].0@);
                assert(key_equiv(keys@[x], keys@[y]));
            }
        }
        let ghost prev = pick(hashed@, keep, k as int);
        proof {
            assert(keep(k as int) == shares_hash(hashed@, k as int));
            assert(pick(hashed@, keep, k + 1) == if keep(k as int) {
                prev.push(hashed@[k as int])
            } else {
                prev
            });
        }
        if flags[k] && !hashed[k].0.as_str().is_empty() {
            out.push(hashed[k].1.duplicate());
            proof {
                assert(entries_of(prev.push(hashed@[k as int])) =~= entries_of(prev).push(hashed@[k as int].1));
            }
        }
        k = k + 1;
    }
    out
}

} // verus!

verus! {

// ---------------------------------------------------------------------------
// Progress of a scan
// ---------------------------------------------------------------------------

/// What a running scan reports.
pub enum ScanProgress {
    /// Walking the directory: `found` files kept so far.
    Walking { found: usize },
    /// Quick hashing: `current` of `total` candidates done.
    QuickHash { current: usize, total: usize },
    /// Full hashing: `current` of `total` candidates done.
    FullHash { current: usize, total: usize },
    /// The scan is over.
    Done { groups: Vec<DuplicateGroup>, total_files: usize },
}

/// The files kept while walking a directory: regular files of at least
/// `min_size` bytes.
pub struct WalkTally {
    pub entries: Vec<FileEntry>,
    pub min_size: u64,
}

impl WalkTally {
    /// No file kept yet.
    pub fn new(min_size: u64) -> (t: WalkTally)
        ensures
            t.entries@.len() == 0,
            t.min_size == min_size,
    {
        WalkTally { entries: Vec::new(), min_size }
    }

    /// Takes a file found by the walk: it is kept if it has at least
    /// `min_size` bytes. Every 100 kept files a progress report is due.
    pub fn take_file(&mut self, path: String, size: u64) -> (report: Option<ScanProgress>)
        ensures
            final(self).min_size == old(self).min_size,
            size < old(self).min_size ==> final(self).entries@ == old(self).entries@ && report is None,
            size >= old(self).min_size ==> {
                &&& final(self).entries@ == old(self).entries@.push(FileEntry { path, size })
                &&& match report {
                    Some(ScanProgress::Walking { found }) => found == final(self).entries@.len()
                        && found % 100 == 0,
                    Some(_) => false,
                    None => final(self).entries@.len() % 100 != 0,
                }
            },
    {
        if size < self.min_size {
            return None;
        }
        self.entries.push(FileEntry { path, size });
        let total = self.entries.len();
        if total % 100 == 0 {
            Some(ScanProgress::Walking { found: total })
        } else {
            None
        }
    }

    /// The report once the walk is over.
    pub fn finish(&self) -> (report: ScanProgress)
        ensures
            report == (ScanProgress::Walking { found: self.entries@.len() as usize }),
    {
        ScanProgress::Walking { found: self.entries.len() }
    }
}

/// The report due after quick hashing candidate `i` of `total`, if any: one
/// every 100 candidates.
pub fn quick_hash_progress(i: usize, total: usize) -> (report: Option<ScanProgress>)
    ensures
        i % 100 == 0 ==> report == Some(ScanProgress::QuickHash { current: i, total }),
        i % 100 != 0 ==> report is None,
{
    if i % 100 == 0 {
        Some(ScanProgress::QuickHash { current: i, total })
    } else {
        None
    }
}

/// The report due after fully hashing candidate `i` of `total`, if any: one
/// every 10 candidates.
pub fn full_hash_progress(i: usize, total: usize) -> (report: Option<ScanProgress>)
    ensures
        i % 10 == 0 ==> report == Some(ScanProgress::FullHash { current: i, total }),
        i % 10 != 0 ==> report is None,
{
    if i % 10 == 0 {
        Some(ScanProgress::FullHash { current: i, total })
    } else {
        None
    }
}

} // verus!
