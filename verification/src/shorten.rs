//! Shortening text to fit a width: keeping both ends and eliding the middle.

use vstd::prelude::*;
use vstd::utf8::{encode_scalar, encode_utf8};

use crate::grouping::text_start;
use crate::paths::{chars_of, string_of};
use crate::text::push_char;

verus! {

broadcast use vstd::utf8::char_is_scalar;

/// The number of bytes of `c` in UTF-8.
pub open spec fn utf8_width(c: char) -> nat {
    encode_scalar(c as u32).len()
}

/// The number of bytes of `s` in UTF-8.
pub open spec fn byte_len(s: Seq<char>) -> nat {
    encode_utf8(s).len()
}

/// How many characters from the front of `s` fit in `limit` bytes.
pub open spec fn front_fit(s: Seq<char>, limit: int) -> nat
    decreases s.len(),
{
    if s.len() == 0 || utf8_width(s[0]) > limit {
        0
    } else {
        1 + front_fit(s.drop_first(), limit - utf8_width(s[0]))
    }
}

/// How many characters from the back of `s` fit in `limit` bytes.
pub open spec fn back_fit(s: Seq<char>, limit: int) -> nat
    decreases s.len(),
{
    if s.len() == 0 || utf8_width(s.last()) > limit {
        0
    } else {
        1 + back_fit(s.drop_last(), limit - utf8_width(s.last()))
    }
}

/// The last `k` characters of `s`, or all of them if there are fewer.
pub open spec fn text_end(s: Seq<char>, k: nat) -> Seq<char> {
    if k < s.len() {
        s.skip(s.len() - k)
    } else {
        s
    }
}

/// `s` shortened to `max_len` bytes for display: kept whole when it fits or
/// when `max_len` is below 5 (then cut to `max_len` characters); otherwise
/// its first and last `(max_len - 3) / 2` characters around an ellipsis.
pub open spec fn spec_truncate_mid(s: Seq<char>, max_len: nat) -> Seq<char> {
    if byte_len(s) <= max_len || max_len < 5 {
        text_start(s, max_len)
    } else {
        let half = ((max_len - 3) / 2) as nat;
        text_start(s, half) + seq!['\u{2026}'] + text_end(s, half)
    }
}

/// `pat` occurs in `s` at position `i`.
pub open spec fn occurs_at(s: Seq<char>, pat: Seq<char>, i: int) -> bool {
    0 <= i <= s.len() - pat.len() && s.subrange(i, i + pat.len()) == pat
}

/// `s` with a leading `home` replaced by `~`, when `home` is not empty and
/// `s` starts with it; `s` itself otherwise.
pub open spec fn collapse_home(s: Seq<char>, home: Seq<char>) -> Seq<char> {
    if home.len() > 0 && occurs_at(s, home, 0) {
        seq!['~'] + s.skip(home.len() as int)
    } else {
        s
    }
}

/// A path shortened to `max_len` bytes for display: kept whole (cut to
/// `max_len` characters if `max_len` is below 15) when it fits; otherwise a
/// leading home directory becomes `~`, and if that is still
/// too long, the middle is elided, keeping from each end the characters that
/// fit in `(max_len - 3) / 2` bytes.
pub open spec fn spec_truncate_path(s: Seq<char>, max_len: nat, home: Seq<char>) -> Seq<char> {
    if byte_len(s) <= max_len || max_len < 15 {
        text_start(s, max_len)
    } else {
        let collapsed = collapse_home(s, home);
        let half = ((max_len - 3) / 2) as int;
        if byte_len(collapsed) <= max_len {
            collapsed
        } else if byte_len(collapsed) > half * 2 + 3 {
            collapsed.take(front_fit(collapsed, half) as int) + seq!['\u{2026}']
                + collapsed.skip(collapsed.len() - back_fit(collapsed, half))
        } else {
            collapsed
        }
    }
}

pub proof fn lemma_encode_utf8_concat(a: Seq<char>, b: Seq<char>)
    ensures
        encode_utf8(a + b) == encode_utf8(a) + encode_utf8(b),
    decreases a.len(),
{
    if a.len() > 0 {
        lemma_encode_utf8_concat(a.drop_first(), b);
        assert((a + b).drop_first() =~= a.drop_first() + b);
        assert(encode_utf8(a) + encode_utf8(b) =~= encode_scalar(a[0] as u32) + (encode_utf8(a.drop_first())
            + encode_utf8(b)));
    } else {
        assert(a + b =~= b);
        assert(encode_utf8(a) + encode_utf8(b) =~= encode_utf8(b));
    }
}

/// All of `s` fits in `limit` bytes exactly when its UTF-8 encoding is no
/// longer than `limit`.
pub proof fn lemma_front_fit_all(s: Seq<char>, limit: int)
    requires
        limit >= 0,
    ensures
        (front_fit(s, limit) == s.len()) <==> (byte_len(s) <= limit),
        front_fit(s, limit) <= s.len(),
    decreases s.len(),
{
    if s.len() > 0 {
        assert(byte_len(s) == utf8_width(s[0]) + byte_len(s.drop_first()));
        if utf8_width(s[0]) <= limit {
            lemma_front_fit_all(s.drop_first(), limit - utf8_width(s[0]));
        } else {
            lemma_front_fit_all(s.drop_first(), 0);
        }
    }
}

/// Every character takes at least one byte.
pub proof fn lemma_chars_within_bytes(s: Seq<char>)
    ensures
        s.len() <= byte_len(s),
    decreases s.len(),
{
    if s.len() > 0 {
        assert(byte_len(s) == utf8_width(s[0]) + byte_len(s.drop_first()));
        assert(utf8_width(s[0]) >= 1);
        lemma_chars_within_bytes(s.drop_first());
    }
}

/// No more characters fit in `limit` bytes than `limit`.
pub proof fn lemma_fits_within_limit(s: Seq<char>, limit: int)
    requires
        limit >= 0,
    ensures
        front_fit(s, limit) <= limit,
        back_fit(s, limit) <= limit,
        back_fit(s, limit) <= s.len(),
    decreases s.len(),
{
    if s.len() > 0 {
        assert(utf8_width(s[0]) >= 1);
        assert(utf8_width(s.last()) >= 1);
        if utf8_width(s[0]) <= limit {
            lemma_fits_within_limit(s.drop_first(), limit - utf8_width(s[0]));
        }
        if utf8_width(s.last()) <= limit {
            lemma_fits_within_limit(s.drop_last(), limit - utf8_width(s.last()));
        }
    }
}

/// Whether `v` fits in `limit` bytes of UTF-8.
fn fits_in_bytes(v: &Vec<char>, limit: usize) -> (b: bool)
    ensures
        b == (byte_len(v@) <= limit),
{
    proof {
        lemma_front_fit_all(v@, limit as int);
    }
    front_fit_count(v, limit) == v.len()
}

/// The UTF-8 width of a character.
fn char_width(c: char) -> (w: usize)
    ensures
        w == utf8_width(c),
        1 <= w <= 4,
{
    let u = c as u32;
    if u < 0x80 {
        1
    } else if u < 0x800 {
        2
    } else if u < 0x10000 {
        3
    } else {
        4
    }
}

/// The first `k` characters of `v` (all if fewer), as a string.
fn take_chars(v: &Vec<char>, k: usize) -> (s: String)
    ensures
        s@ == text_start(v@, k as nat),
{
    let end = if k < v.len() { k } else { v.len() };
    let s = string_of(v, 0, end);
    assert(v@.subrange(0, end as int) =~= text_start(v@, k as nat));
    s
}

/// How many characters from the front of `v[from..]` fit in `limit` bytes.
fn front_fit_count(v: &Vec<char>, limit: usize) -> (n: usize)
    ensures
        n == front_fit(v@, limit as int),
        n <= v@.len(),
{
    let mut i: usize = 0;
    let mut room: usize = limit;
    assert(v@.skip(0) =~= v@);
    while i < v.len() && char_width(v[i]) <= room
        invariant
            i <= v@.len(),
            room <= limit,
            front_fit(v@, limit as int) == i + front_fit(v@.skip(i as int), room as int),
        decreases v@.len() - i,
    {
        let w = char_width(v[i]);
        proof {
            assert(v@.skip(i as int).drop_first() =~= v@.skip(i + 1));
            assert(v@.skip(i as int)[0] == v@[i as int]);
        }
        room = room - w;
        i = i + 1;
    }
    proof {
        if i < v@.len() {
            assert(v@.skip(i as int)[0] == v@[i as int]);
        } else {
            assert(v@.skip(i as int).len() == 0);
        }
    }
    i
}

/// How many characters from the back of `v` fit in `limit` bytes.
fn back_fit_count(v: &Vec<char>, limit: usize) -> (n: usize)
    ensures
        n == back_fit(v@, limit as int),
        n <= v@.len(),
{
    let mut i: usize = 0;
    let mut room: usize = limit;
    assert(v@.take(v@.len() as int) =~= v@);
    while i < v.len() && char_width(v[v.len() - 1 - i]) <= room
        invariant
            i <= v@.len(),
            room <= limit,
            back_fit(v@, limit as int) == i + back_fit(v@.take(v@.len() - i), room as int),
        decreases v@.len() - i,
    {
        let w = char_width(v[v.len() - 1 - i]);
        proof {
            let t = v@.take(v@.len() - i);
            assert(t.drop_last() =~= v@.take(v@.len() - i - 1));
            assert(t.last() == v@[v@.len() - 1 - i]);
        }
        room = room - w;
        i = i + 1;
    }
    proof {
        let t = v@.take(v@.len() - i);
        if i < v@.len() {
            assert(t.last() == v@[v@.len() - 1 - i]);
        } else {
            assert(t.len() == 0);
        }
    }
    i
}

/// `s` shortened to `max_len` bytes by eliding its middle (see
/// `spec_truncate_mid`).
pub fn truncate_mid(s: &str, max_len: usize) -> (r: String)
    ensures
        r@ == spec_truncate_mid(s@, max_len as nat),
{
    let v = chars_of(s);
    if fits_in_bytes(&v, max_len) || max_len < 5 {
        return take_chars(&v, max_len);
    }
    let half = (max_len - 3) / 2;
    let mut r = take_chars(&v, half);
    push_char(&mut r, '\u{2026}');
    let n = v.len();
    let start = if half < n { n - half } else { 0 };
    let mut t: usize = start;
    while t < n
        invariant
            start <= t <= n,
            n == v@.len(),
            r@ == text_start(v@, half as nat) + seq!['\u{2026}'] + v@.subrange(start as int, t as int),
        decreases n - t,
    {
        push_char(&mut r, v[t]);
        t = t + 1;
        assert(r@ =~= text_start(v@, half as nat) + seq!['\u{2026}'] + v@.subrange(start as int, t as int));
    }
    assert(v@.subrange(start as int, n as int) =~= text_end(v@, half as nat));
    r
}

/// Whether `pat` occurs in `v` at position `i`.
fn occurs_here(v: &Vec<char>, pat: &Vec<char>, i: usize) -> (b: bool)
    requires
        i + pat@.len() <= v@.len(),
    ensures
        b == occurs_at(v@, pat@, i as int),
{
    let mut k: usize = 0;
    assert(v@.len() == v.len());
    while k < pat.len()
        invariant
            k <= pat@.len(),
            v@.len() <= usize::MAX,
            i + pat@.len() <= v@.len(),
            forall|t: int| 0 <= t < k ==> v@[i + t] == pat@[t],
        decreases pat@.len() - k,
    {
        if v[i + k] != pat[k] {
            proof {
                assert(v@.subrange(i as int, i + pat@.len())[k as int] != pat@[k as int]);
            }
            return false;
        }
        k = k + 1;
    }
    assert(v@.subrange(i as int, i + pat@.len()) =~= pat@);
    true
}

/// `v` with a leading, non-empty `home` replaced by `~`.
fn collapse_home_chars(v: &Vec<char>, home: &Vec<char>) -> (r: Vec<char>)
    ensures
        r@ == collapse_home(v@, home@),
{
    let leading = home.len() > 0 && home.len() <= v.len() && occurs_here(v, home, 0);
    let mut r: Vec<char> = Vec::new();
    let start: usize = if leading {
        r.push('~');
        home.len()
    } else {
        0
    };
    let ghost front = r@;
    let mut t: usize = start;
    while t < v.len()
        invariant
            start <= t <= v@.len(),
            r@ == front + v@.subrange(start as int, t as int),
        decreases v@.len() - t,
    {
        r.push(v[t]);
        t = t + 1;
        assert(r@ =~= front + v@.subrange(start as int, t as int));
    }
    proof {
        if leading {
            assert(front =~= seq!['~']);
            assert(v@.subrange(start as int, t as int) =~= v@.skip(home@.len() as int));
        } else {
            assert(front =~= Seq::<char>::empty());
            assert(r@ =~= v@);
        }
    }
    r
}

/// A path shortened to `max_len` bytes for display (see
/// `spec_truncate_path`); `home` is the home directory.
pub fn truncate_path_lossy(path: &str, max_len: usize, home: &str) -> (r: String)
    ensures
        r@ == spec_truncate_path(path@, max_len as nat, home@),
{
    let v = chars_of(path);
    if fits_in_bytes(&v, max_len) || max_len < 15 {
        return take_chars(&v, max_len);
    }
    let h = chars_of(home);
    let c = collapse_home_chars(&v, &h);
    if fits_in_bytes(&c, max_len) {
        let r = string_of(&c, 0, c.len());
        assert(c@.subrange(0, c@.len() as int) =~= c@);
        return r;
    }
    let half = (max_len - 3) / 2;
    if fits_in_bytes(&c, half * 2 + 3) {
        let r = string_of(&c, 0, c.len());
        assert(c@.subrange(0, c@.len() as int) =~= c@);
        return r;
    }
    let a = front_fit_count(&c, half);
    let b = back_fit_count(&c, half);
    let mut r = string_of(&c, 0, a);
    push_char(&mut r, '\u{2026}');
    let n = c.len();
    let start = n - b;
    let mut t: usize = start;
    while t < n
        invariant
            start <= t <= n,
            n == c@.len(),
            r@ == c@.subrange(0, a as int) + seq!['\u{2026}'] + c@.subrange(start as int, t as int),
        decreases n - t,
    {
        push_char(&mut r, c[t]);
        t = t + 1;
        assert(r@ =~= c@.subrange(0, a as int) + seq!['\u{2026}'] + c@.subrange(start as int, t as int));
    }
    assert(c@.subrange(0, a as int) =~= c@.take(a as int));
    assert(c@.subrange(start as int, n as int) =~= c@.skip(start as int));
    r
}

} // verus!
