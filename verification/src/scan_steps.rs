//! The phases of a scan and what each one decides: which files go on to
//! the next phase, which progress reports are due, and when the scan ends.
//! The caller walks the directory, reads the files and sends the reports.

use vstd::prelude::*;

use crate::grouping::{build_groups, groups_of, pairs_size};
use crate::scanner::{
    FileEntry, ScanProgress, WalkTally, entries_of, pick, quick_hash_candidates, shares_hash, shares_size,
    size_candidates,
};

verus! {

/// What the scan does after a phase.
pub enum ScanNext {
    /// Takes the quick fingerprint of these files.
    QuickHash(Vec<FileEntry>),
    /// Hashes these files whole.
    FullHash(Vec<FileEntry>),
    /// Nothing: the scan is over.
    Finished,
}

/// The bytes that the quick fingerprint of a file of `size` bytes reads:
/// its first 4 KB (all of it if smaller) and, for a file larger than 8 KB,
/// the 4 KB from the returned offset to its end.
pub fn fingerprint_spans(size: u64) -> (r: (u64, Option<u64>))
    ensures
        r.0 == if size < 4096 { size } else { 4096 },
        r.1 == if size > 8192 { Some((size - 4096) as u64) } else { None::<u64> },
{
    let head = if size < 4096 { size } else { 4096 };
    let tail = if size > 8192 { Some(size - 4096) } else { None };
    (head, tail)
}

/// The end of the walk: reports the files found, then either ends the scan
/// (no two files share a size) or starts quick hashing the files that share
/// a size.
pub fn after_walk(tally: &WalkTally) -> (r: (Vec<ScanProgress>, ScanNext))
    ensures
        ({
            let found = tally.entries@.len() as usize;
            let cands = pick(tally.entries@, |x: int| shares_size(tally.entries@, x), tally.entries@.len() as int);
            &&& r.0@.len() == 2
            &&& r.0@[0] == (ScanProgress::Walking { found })
            &&& cands.len() == 0 ==> r.1 is Finished && (r.0@[1] matches ScanProgress::Done { groups, total_files }
                && groups@.len() == 0 && total_files == found)
            &&& cands.len() > 0 ==> (r.1 matches ScanNext::QuickHash(c) && c@ == cands)
                && r.0@[1] == (ScanProgress::QuickHash { current: 0, total: cands.len() as usize })
        }),
{
    let found = tally.entries.len();
    let mut reports: Vec<ScanProgress> = Vec::new();
    reports.push(tally.finish());
    let candidates = size_candidates(&tally.entries);
    if candidates.len() == 0 {
        reports.push(ScanProgress::Done { groups: Vec::new(), total_files: found });
        (reports, ScanNext::Finished)
    } else {
        reports.push(ScanProgress::QuickHash { current: 0, total: candidates.len() });
        (reports, ScanNext::QuickHash(candidates))
    }
}

/// The end of quick hashing, `hashed` pairing each candidate with its
/// fingerprint (empty where it could not be read), of a scan that kept
/// `total_files` files: reports quick hashing done and full hashing started,
/// then either ends the scan (no two fingerprints agree) or fully hashes the
/// files whose fingerprint another file shares.
pub fn after_quick_hash(total_files: usize, hashed: &Vec<(String, FileEntry)>) -> (r: (Vec<ScanProgress>, ScanNext))
    ensures
        ({
            let n = hashed@.len() as usize;
            let cands = entries_of(pick(hashed@, |x: int| shares_hash(hashed@, x), hashed@.len() as int));
            &&& r.0@[0] == (ScanProgress::QuickHash { current: n, total: n })
            &&& r.0@[1] == (ScanProgress::FullHash { current: 0, total: cands.len() as usize })
            &&& cands.len() == 0 ==> r.0@.len() == 3 && r.1 is Finished
                && (r.0@[2] matches ScanProgress::Done { groups, total_files: t } && groups@.len() == 0
                && t == total_files)
            &&& cands.len() > 0 ==> r.0@.len() == 2 && (r.1 matches ScanNext::FullHash(c) && c@ == cands)
        }),
{
    let n = hashed.len();
    let candidates = quick_hash_candidates(hashed);
    let mut reports: Vec<ScanProgress> = Vec::new();
    reports.push(ScanProgress::QuickHash { current: n, total: n });
    reports.push(ScanProgress::FullHash { current: 0, total: candidates.len() });
    if candidates.len() == 0 {
        reports.push(ScanProgress::Done { groups: Vec::new(), total_files });
        (reports, ScanNext::Finished)
    } else {
        (reports, ScanNext::FullHash(candidates))
    }
}

/// The end of full hashing, `hashed` pairing each candidate with its digest
/// (empty where it could not be read), of a scan that kept `total_files`
/// files: reports full hashing done, then the duplicate groups.
pub fn after_full_hash(total_files: usize, hashed: &Vec<(String, FileEntry)>) -> (r: Vec<ScanProgress>)
    requires
        pairs_size(hashed@, hashed@.len() as int) <= u64::MAX,
    ensures
        r@.len() == 2,
        r@[0] == (ScanProgress::FullHash { current: hashed@.len() as usize, total: hashed@.len() as usize }),
        r@[1] matches ScanProgress::Done { groups, total_files: t } && t == total_files
            && (exists|members: Seq<Seq<usize>>| groups_of(hashed@, groups@, members))
            && (forall|j1: int, j2: int| 0 <= j1 < j2 < groups@.len()
                ==> (#[trigger] groups@[j1]).wasted_bytes >= (#[trigger] groups@[j2]).wasted_bytes),
{
    let n = hashed.len();
    let groups = build_groups(hashed);
    let ghost gv = groups@;
    let ghost members = choose|members: Seq<Seq<usize>>| groups_of(hashed@, gv, members);
    let mut reports: Vec<ScanProgress> = Vec::new();
    reports.push(ScanProgress::FullHash { current: n, total: n });
    reports.push(ScanProgress::Done { groups, total_files });
    proof {
        if let ScanProgress::Done { groups: g, total_files: t } = reports@[1] {
            assert(g@ == gv);
            assert(groups_of(hashed@, g@, members));
        }
    }
    reports
}

} // verus!
