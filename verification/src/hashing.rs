//! Content fingerprints: SHA-256 digests as lowercase hex text.

use sha2::{Digest, Sha256};
use vstd::prelude::*;

use crate::text::push_char;

verus! {

/// The SHA-256 digest of `data`.
pub uninterp spec fn sha256_digest(data: Seq<u8>) -> Seq<u8>;

/// The SHA-256 digest of `data`.
///
/// Trusted: `sha2::Sha256::digest` (the `Digest` trait of the `digest`
/// crate). The contract claims that the result is the digest of exactly the
/// given bytes, a function of them alone, and that it is 32 bytes long (the
/// output size of SHA-256).
#[verifier::external_body]
fn sha256(data: &[u8]) -> (d: Vec<u8>)
    ensures
        d@ == sha256_digest(data@),
        d@.len() == 32,
{
    Sha256::digest(data).to_vec()
}

/// The lowercase hex digit of `n` (0..=15).
pub open spec fn hex_char(n: nat) -> char {
    if n < 10 {
        (('0' as u8) + n) as char
    } else {
        (('a' as u8) + (n - 10)) as char
    }
}

/// `bytes` as lowercase hex, two digits per byte, high digit first.
pub open spec fn hex(bytes: Seq<u8>) -> Seq<char>
    decreases bytes.len(),
{
    if bytes.len() == 0 {
        Seq::empty()
    } else {
        hex(bytes.drop_last()) + seq![hex_char(bytes.last() as nat / 16), hex_char(bytes.last() as nat % 16)]
    }
}

proof fn lemma_hex_len(bytes: Seq<u8>)
    ensures
        hex(bytes).len() == 2 * bytes.len(),
    decreases bytes.len(),
{
    if bytes.len() > 0 {
        lemma_hex_len(bytes.drop_last());
    }
}

fn hex_digit(n: u8) -> (c: char)
    requires
        n < 16,
    ensures
        c == hex_char(n as nat),
{
    if n < 10 {
        (48u8 + n) as char
    } else {
        (97u8 + (n - 10)) as char
    }
}

/// `bytes[..count]` as lowercase hex text.
pub fn hex_of_prefix(bytes: &Vec<u8>, count: usize) -> (s: String)
    requires
        count <= bytes@.len(),
    ensures
        s@ == hex(bytes@.take(count as int)),
{
    let mut s = String::new();
    let mut i: usize = 0;
    while i < count
        invariant
            i <= count <= bytes@.len(),
            s@ == hex(bytes@.take(i as int)),
        decreases count - i,
    {
        let b = bytes[i];
        push_char(&mut s, hex_digit(b / 16));
        push_char(&mut s, hex_digit(b % 16));
        i = i + 1;
        assert(bytes@.take(i as int).drop_last() =~= bytes@.take(i - 1));
        assert(s@ =~= hex(bytes@.take(i as int)));
    }
    s
}

/// A quick fingerprint of a file from its first bytes (`head`) and, for a
/// large file, its last bytes (`tail`), as `fingerprint_spans` chooses them:
/// the first 8 hex digits of the SHA-256 digest of `head` followed by `tail`.
pub fn quick_hash(head: &[u8], tail: &[u8]) -> (h: String)
    ensures
        h@ == hex(sha256_digest(head@ + tail@)).take(8),
        h@.len() == 8,
{
    let mut data: Vec<u8> = Vec::new();
    let mut i: usize = 0;
    while i < head.len()
        invariant
            i <= head@.len(),
            data@ == head@.take(i as int),
        decreases head@.len() - i,
    {
        data.push(head[i]);
        i = i + 1;
        assert(data@ =~= head@.take(i as int));
    }
    let mut j: usize = 0;
    while j < tail.len()
        invariant
            j <= tail@.len(),
            data@ == head@ + tail@.take(j as int),
        decreases tail@.len() - j,
    {
        data.push(tail[j]);
        j = j + 1;
        assert(data@ =~= head@ + tail@.take(j as int));
    }
    assert(head@.take(head@.len() as int) =~= head@);
    assert(tail@.take(tail@.len() as int) =~= tail@);
    let d = sha256(data.as_slice());
    let h = hex_of_prefix(&d, 4);
    proof {
        let full = d@;
        lemma_hex_take(full, 4);
        lemma_hex_len(full.take(4));
    }
    h
}

/// The SHA-256 digest of a file's `content`, as 64 lowercase hex digits.
pub fn sha256_file(content: &[u8]) -> (h: String)
    ensures
        h@ == hex(sha256_digest(content@)),
        h@.len() == 64,
{
    let d = sha256(content);
    let h = hex_of_prefix(&d, d.len());
    assert(d@.take(d@.len() as int) =~= d@);
    proof {
        lemma_hex_len(d@);
    }
    h
}

/// The hex of the first `k` bytes is the first `2 k` hex digits.
pub proof fn lemma_hex_take(bytes: Seq<u8>, k: int)
    requires
        0 <= k <= bytes.len(),
    ensures
        hex(bytes.take(k)) == hex(bytes).take(2 * k),
    decreases bytes.len(),
{
    lemma_hex_len(bytes);
    lemma_hex_len(bytes.take(k));
    if k < bytes.len() {
        lemma_hex_take(bytes.drop_last(), k);
        assert(bytes.drop_last().take(k) =~= bytes.take(k));
        lemma_hex_len(bytes.drop_last());
        assert(hex(bytes).take(2 * k) =~= hex(bytes.drop_last()).take(2 * k));
    } else {
        assert(bytes.take(k) =~= bytes);
        assert(hex(bytes).take(2 * k) =~= hex(bytes));
    }
}

} // verus!
