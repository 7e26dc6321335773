//! The minimum-size argument of the command line: which texts name a size,
//! and how many bytes. A plain integer is read exactly; a decimal number with
//! a unit is read as a binary64 value, multiplied by the unit's base once per
//! power with binary64 rounding, and converted to `u64` toward zero.

use vstd::prelude::*;

use crate::binary64::{
    Binary64, at_least_2_64, at_least_pow2, bit_length, lemma_large_to_u64, lemma_pow2_64, lemma_pow2_adds,
    lemma_pow2_monotonic, lemma_pow2_positive, lemma_round_large, lemma_round_shift_bound, lemma_round_small,
    lemma_round_window, lemma_small_to_u64, lemma_times_window, lemma_times_large, lemma_times_power_small, lemma_times_power_split,
    nonneg, pow2_u128, round_shift, round_shift_u64, round_to_binary64, times, times_power, to_u64,
};
use crate::paths::{chars_of, string_of};
use crate::text::{char_from, digits_value, find_char, is_digits, lemma_char_from, parse_digits, two_pow};

verus! {

/// The characters that Unicode counts as white space.
pub open spec fn white_space(c: char) -> bool {
    ||| '\u{9}' <= c <= '\u{d}'
    ||| c == ' '
    ||| c == '\u{85}'
    ||| c == '\u{a0}'
    ||| c == '\u{1680}'
    ||| '\u{2000}' <= c <= '\u{200a}'
    ||| c == '\u{2028}'
    ||| c == '\u{2029}'
    ||| c == '\u{202f}'
    ||| c == '\u{205f}'
    ||| c == '\u{3000}'
}

/// `t` without its leading white space.
pub open spec fn trim_start(t: Seq<char>) -> Seq<char>
    decreases t.len(),
{
    if t.len() > 0 && white_space(t[0]) {
        trim_start(t.drop_first())
    } else {
        t
    }
}

/// `t` without its trailing white space.
pub open spec fn trim_end(t: Seq<char>) -> Seq<char>
    decreases t.len(),
{
    if t.len() > 0 && white_space(t.last()) {
        trim_end(t.drop_last())
    } else {
        t
    }
}

/// `t` without white space at either end.
pub open spec fn trimmed(t: Seq<char>) -> Seq<char> {
    trim_end(trim_start(t))
}

/// The lowercase form of a text, by Unicode's lowercase mapping, as
/// `str::to_lowercase` computes it.
pub uninterp spec fn lowercase(s: Seq<char>) -> Seq<char>;

/// The value of `t` read as an unsigned 64-bit integer: an optional `+`, then
/// decimal digits, the value within range.
pub open spec fn u64_literal(t: Seq<char>) -> Option<nat> {
    let d = if t.len() > 0 && t[0] == '+' { t.drop_first() } else { t };
    if is_digits(d) && digits_value(d) <= u64::MAX {
        Some(digits_value(d))
    } else {
        None
    }
}

/// A character that may stand in a decimal number: a digit or a point.
pub open spec fn is_numeric(c: char) -> bool {
    ('0' <= c <= '9') || c == '.'
}

/// The first position at or after `i` where `t` holds a character that is
/// not numeric, if there is one.
pub open spec fn numeric_end(t: Seq<char>, i: int) -> Option<int>
    decreases t.len() - i,
{
    if i < 0 || i >= t.len() {
        None
    } else if !is_numeric(t[i]) {
        Some(i)
    } else {
        numeric_end(t, i + 1)
    }
}

/// `t` writes a decimal number: digits and points only, at least one digit
/// and at most one point.
pub open spec fn is_decimal_number(t: Seq<char>) -> bool {
    &&& forall|i: int| 0 <= i < t.len() ==> is_numeric(#[trigger] t[i])
    &&& exists|i: int| 0 <= i < t.len() && '0' <= #[trigger] t[i] <= '9'
    &&& forall|i: int, j: int| 0 <= i < j < t.len() ==> !(#[trigger] t[i] == '.' && #[trigger] t[j] == '.')
}

/// The unit that a suffix names: its base and power.
pub open spec fn unit_of(s: Seq<char>) -> Option<(u64, u32)> {
    if s == seq!['k'] || s == seq!['k', 'b'] {
        Some((1000, 1))
    } else if s == seq!['k', 'i', 'b'] {
        Some((1024, 1))
    } else if s == seq!['m'] || s == seq!['m', 'b'] {
        Some((1000, 2))
    } else if s == seq!['m', 'i', 'b'] {
        Some((1024, 2))
    } else if s == seq!['g'] || s == seq!['g', 'b'] {
        Some((1000, 3))
    } else if s == seq!['g', 'i', 'b'] {
        Some((1024, 3))
    } else if s == seq!['t'] || s == seq!['t', 'b'] {
        Some((1000, 4))
    } else if s == seq!['t', 'i', 'b'] {
        Some((1024, 4))
    } else {
        None
    }
}

/// A number followed by a unit: the text up to the first character that is
/// neither a digit nor a point must write a decimal number, and the rest
/// must name a unit.
pub open spec fn scaled_parts(t: Seq<char>) -> Option<(Seq<char>, u64, u32)> {
    match numeric_end(t, 0) {
        Some(k) => {
            let number = t.take(k);
            match unit_of(t.skip(k)) {
                Some((base, power)) => if is_decimal_number(number) {
                    Some((number, base, power))
                } else {
                    None
                },
                None => None,
            }
        },
        None => None,
    }
}

/// `10^n`.
pub open spec fn pow10(n: nat) -> nat
    decreases n,
{
    if n == 0 {
        1
    } else {
        10 * pow10((n - 1) as nat)
    }
}

/// The digits of a decimal number before its point (all of them if it has
/// none).
pub open spec fn integer_digits(t: Seq<char>) -> Seq<char> {
    match char_from(t, '.', 0) {
        Some(p) => t.take(p),
        None => t,
    }
}

/// The digits of a decimal number after its point (none if it has none).
pub open spec fn fraction_digits(t: Seq<char>) -> Seq<char> {
    match char_from(t, '.', 0) {
        Some(p) => t.skip(p + 1),
        None => Seq::empty(),
    }
}

/// The numerator of the value of the decimal number `t`, over
/// `decimal_den(t)`.
pub open spec fn decimal_num(t: Seq<char>) -> nat {
    digits_value(integer_digits(t)) * pow10(fraction_digits(t).len()) + digits_value(fraction_digits(t))
}

/// The denominator of the value of the decimal number `t`.
pub open spec fn decimal_den(t: Seq<char>) -> nat {
    pow10(fraction_digits(t).len())
}

/// The bytes that the decimal `number` with a unit of `base` raised to
/// `power` names: the number read as a binary64 value, multiplied by `base`
/// `power` times with binary64 rounding, then converted to `u64`.
pub open spec fn scaled_size(number: Seq<char>, base: nat, power: nat) -> nat {
    to_u64(times_power(round_to_binary64(decimal_num(number), decimal_den(number)), base, power))
}

/// The number of bytes that the text `t` names: a plain integer first, else
/// a number with a unit, else none.
pub open spec fn size_of(t: Seq<char>) -> Option<nat> {
    match u64_literal(t) {
        Some(n) => Some(n),
        None => match scaled_parts(t) {
            Some((number, base, power)) => Some(scaled_size(number, base as nat, power as nat)),
            None => None,
        },
    }
}

/// The lowercase form of `s`.
///
/// Trusted: `str::to_lowercase`, whose documentation says it returns the
/// lowercase equivalent of the text, by Unicode's lowercase mapping. The
/// contract only names that result (`lowercase`); the mapping itself is not
/// written out here.
#[verifier::external_body]
fn to_lowercase(s: &str) -> (r: String)
    ensures
        r@ == lowercase(s@),
{
    s.to_lowercase()
}

/// Whether `c` is white space.
pub fn is_white_space(c: char) -> (b: bool)
    ensures
        b == white_space(c),
{
    ('\u{9}' <= c && c <= '\u{d}') || c == ' ' || c == '\u{85}' || c == '\u{a0}' || c == '\u{1680}'
        || ('\u{2000}' <= c && c <= '\u{200a}') || c == '\u{2028}' || c == '\u{2029}' || c == '\u{202f}'
        || c == '\u{205f}' || c == '\u{3000}'
}

/// Where `trimmed(v)` starts and ends in `v`.
pub fn trim_bounds(v: &Vec<char>) -> (r: (usize, usize))
    ensures
        r.0 <= r.1 <= v@.len(),
        v@.subrange(r.0 as int, r.1 as int) == trimmed(v@),
{
    let mut a: usize = 0;
    assert(v@.skip(0) =~= v@);
    while a < v.len() && is_white_space(v[a])
        invariant
            a <= v@.len(),
            trim_start(v@) == trim_start(v@.skip(a as int)),
        decreases v@.len() - a,
    {
        proof {
            assert(v@.skip(a as int).drop_first() =~= v@.skip(a + 1));
        }
        a = a + 1;
    }
    let ghost front = v@.skip(a as int);
    assert(trim_start(v@) == front);
    let mut b: usize = v.len();
    while b > a && is_white_space(v[b - 1])
        invariant
            a <= b <= v@.len(),
            front == v@.skip(a as int),
            trim_end(front) == trim_end(v@.subrange(a as int, b as int)),
        decreases b - a,
    {
        proof {
            assert(v@.subrange(a as int, b as int).drop_last() =~= v@.subrange(a as int, b - 1));
        }
        b = b - 1;
    }
    proof {
        assert(v@.skip(a as int) =~= v@.subrange(a as int, v@.len() as int));
    }
    (a, b)
}

/// The unit named by `v[k..]`.
fn unit_at(v: &Vec<char>, k: usize) -> (r: Option<(u64, u32)>)
    requires
        k <= v@.len(),
    ensures
        r == unit_of(v@.skip(k as int)),
{
    let ghost s = v@.skip(k as int);
    let n = v.len() - k;
    if n == 0 || n > 3 {
        proof {
            assert(s.len() == n);
        }
        return None;
    }
    let c0 = v[k];
    let power: u32 = if c0 == 'k' {
        1
    } else if c0 == 'm' {
        2
    } else if c0 == 'g' {
        3
    } else if c0 == 't' {
        4
    } else {
        0
    };
    assert(s[0] == c0);
    if n == 1 {
        assert(s =~= seq![c0]);
        if power > 0 { Some((1000, power)) } else { None }
    } else if n == 2 {
        let c1 = v[k + 1];
        assert(s =~= seq![c0, c1]);
        if power > 0 && c1 == 'b' { Some((1000, power)) } else { None }
    } else {
        let c1 = v[k + 1];
        let c2 = v[k + 2];
        assert(s =~= seq![c0, c1, c2]);
        if power > 0 && c1 == 'i' && c2 == 'b' { Some((1024, power)) } else { None }
    }
}

/// Whether `v[..k]` writes a decimal number, given that it holds only digits
/// and points.
fn decimal_number_before(v: &Vec<char>, k: usize) -> (b: bool)
    requires
        k <= v@.len(),
        forall|i: int| 0 <= i < k ==> is_numeric(#[trigger] v@[i]),
    ensures
        b == is_decimal_number(v@.take(k as int)),
{
    let ghost t = v@.take(k as int);
    let mut digits = false;
    let mut points: usize = 0;
    let mut i: usize = 0;
    while i < k
        invariant
            i <= k <= v@.len(),
            t == v@.take(k as int),
            forall|j: int| 0 <= j < k ==> is_numeric(#[trigger] v@[j]),
            points <= 1,
            digits == exists|j: int| 0 <= j < i && '0' <= #[trigger] v@[j] <= '9',
            points == 0 ==> forall|j: int| 0 <= j < i ==> #[trigger] v@[j] != '.',
            points == 1 ==> exists|j: int| 0 <= j < i && #[trigger] v@[j] == '.',
            points == 1 ==> forall|j: int, l: int| 0 <= j < l < i ==> !(#[trigger] v@[j] == '.' && #[trigger] v@[l] == '.'),
        decreases k - i,
    {
        if v[i] == '.' {
            if points == 1 {
                proof {
                    let j = choose|j: int| 0 <= j < i && #[trigger] v@[j] == '.';
                    assert(t[j] == '.' && t[i as int] == '.');
                }
                return false;
            }
            points = 1;
        } else {
            digits = true;
        }
        i = i + 1;
    }
    proof {
        if digits {
            let j = choose|j: int| 0 <= j < i && '0' <= #[trigger] v@[j] <= '9';
            assert('0' <= t[j] <= '9');
        } else {
            assert forall|j: int| 0 <= j < t.len() implies !('0' <= #[trigger] t[j] <= '9') by {
                assert(t[j] == v@[j]);
            }
        }
        assert forall|j: int| 0 <= j < t.len() implies is_numeric(#[trigger] t[j]) by {
            assert(t[j] == v@[j]);
        }
        assert forall|j: int, l: int| 0 <= j < l < t.len() implies !(#[trigger] t[j] == '.' && #[trigger] t[l] == '.') by {
            assert(t[j] == v@[j] && t[l] == v@[l]);
        }
    }
    digits
}

// ---------------------------------------------------------------------------
// Reading a decimal number as binary64
// ---------------------------------------------------------------------------

/// The value of decimal digits, most significant first.
pub open spec fn digits_of(ds: Seq<u8>) -> nat
    decreases ds.len(),
{
    if ds.len() == 0 {
        0
    } else {
        digits_of(ds.drop_last()) * 10 + ds.last() as nat
    }
}

/// Every entry is a decimal digit.
pub open spec fn all_digits(ds: Seq<u8>) -> bool {
    forall|i: int| 0 <= i < ds.len() ==> #[trigger] ds[i] < 10
}

proof fn lemma_digits_of_bound(ds: Seq<u8>)
    requires
        all_digits(ds),
    ensures
        digits_of(ds) < pow10(ds.len()),
    decreases ds.len(),
{
    if ds.len() > 0 {
        lemma_digits_of_bound(ds.drop_last());
        assert(ds.last() < 10);
    }
}

proof fn lemma_digits_of_prepend(d: u8, ds: Seq<u8>)
    ensures
        digits_of(seq![d] + ds) == d * pow10(ds.len()) + digits_of(ds),
    decreases ds.len(),
{
    if ds.len() == 0 {
        assert(seq![d] + ds =~= seq![d]);
        assert(seq![d].drop_last() =~= Seq::<u8>::empty());
        assert(digits_of(seq![d]) == digits_of(seq![d].drop_last()) * 10 + d as nat);
        assert(pow10(0) == 1);
    } else {
        lemma_digits_of_prepend(d, ds.drop_last());
        assert((seq![d] + ds).drop_last() =~= seq![d] + ds.drop_last());
        assert(d * pow10(ds.len()) == 10 * (d * pow10((ds.len() - 1) as nat))) by (nonlinear_arith)
            requires pow10(ds.len()) == 10 * pow10((ds.len() - 1) as nat);
    }
}

proof fn lemma_digits_of_zero(ds: Seq<u8>)
    ensures
        (digits_of(ds) == 0) == (forall|i: int| 0 <= i < ds.len() ==> #[trigger] ds[i] == 0),
    decreases ds.len(),
{
    if ds.len() > 0 {
        lemma_digits_of_zero(ds.drop_last());
        if digits_of(ds) == 0 {
            assert forall|i: int| 0 <= i < ds.len() implies #[trigger] ds[i] == 0 by {
                if i < ds.len() - 1 {
                    assert(ds[i] == ds.drop_last()[i]);
                }
            }
        } else if forall|i: int| 0 <= i < ds.len() ==> #[trigger] ds[i] == 0 {
            assert forall|i: int| 0 <= i < ds.drop_last().len() implies #[trigger] ds.drop_last()[i] == 0 by {
                assert(ds.drop_last()[i] == ds[i]);
            }
            assert(ds[ds.len() - 1] == 0);
        }
    }
}

proof fn lemma_pow10_positive(n: nat)
    ensures
        pow10(n) >= 1,
    decreases n,
{
    if n > 0 {
        lemma_pow10_positive((n - 1) as nat);
    }
}

/// Doubles the decimal digits `ds` in place; returns the carry out of the
/// most significant digit.
fn double_digits(ds: &mut Vec<u8>) -> (carry: u8)
    requires
        all_digits(old(ds)@),
    ensures
        final(ds)@.len() == old(ds)@.len(),
        all_digits(final(ds)@),
        carry <= 1,
        digits_of(final(ds)@) + carry * pow10(old(ds)@.len()) == 2 * digits_of(old(ds)@),
{
    let ghost start = ds@;
    let n = ds.len();
    let mut c: u8 = 0;
    let mut j: usize = n;
    assert(ds@.skip(n as int) =~= Seq::<u8>::empty());
    while j > 0
        invariant
            j <= n,
            n == start.len(),
            ds@.len() == n,
            all_digits(ds@),
            all_digits(start),
            c <= 1,
            forall|i: int| 0 <= i < j ==> ds@[i] == start[i],
            digits_of(ds@.skip(j as int)) + c * pow10((n - j) as nat) == 2 * digits_of(start.skip(j as int)),
        decreases j,
    {
        let ghost before = ds@;
        j = j - 1;
        let x: u8 = 2 * ds[j] + c;
        ds.set(j, x % 10);
        let ghost d_old = start[j as int];
        proof {
            assert(before[j as int] == d_old);
            assert(ds@.skip(j as int) =~= seq![(x % 10) as u8] + ds@.skip(j + 1));
            assert(ds@.skip(j + 1) =~= before.skip(j + 1));
            assert(start.skip(j as int) =~= seq![d_old] + start.skip(j + 1));
            lemma_digits_of_prepend((x % 10) as u8, ds@.skip(j + 1));
            lemma_digits_of_prepend(d_old, start.skip(j + 1));
            let k = (n - j - 1) as nat;
            assert(pow10((n - j) as nat) == 10 * pow10(k));
            let tail_new = digits_of(before.skip(j + 1));
            let tail_old = digits_of(start.skip(j + 1));
            assert(tail_new + c * pow10(k) == 2 * tail_old);
            assert((x % 10) as nat + (x / 10) as nat * 10 == 2 * d_old + c);
            assert((x % 10) as nat * pow10(k) + tail_new + (x / 10) as nat * (10 * pow10(k))
                == 2 * (d_old * pow10(k) + tail_old)) by (nonlinear_arith)
                requires
                    tail_new + c * pow10(k) == 2 * tail_old,
                    (x % 10) as nat + (x / 10) as nat * 10 == 2 * d_old + c;
        }
        c = x / 10;
    }
    assert(ds@.skip(0) =~= ds@);
    assert(start.skip(0) =~= start);
    c
}

/// Whether some digit is not zero.
fn any_nonzero(ds: &Vec<u8>) -> (b: bool)
    ensures
        b == (digits_of(ds@) > 0),
{
    proof {
        lemma_digits_of_zero(ds@);
    }
    let mut i: usize = 0;
    while i < ds.len()
        invariant
            i <= ds@.len(),
            forall|k: int| 0 <= k < i ==> #[trigger] ds@[k] == 0,
        decreases ds@.len() - i,
    {
        if ds[i] != 0 {
            proof {
                lemma_digits_of_zero(ds@);
                assert(ds@[i as int] != 0);
            }
            return true;
        }
        i = i + 1;
    }
    false
}

/// The first `k` characters of `v`.
fn prefix(v: &Vec<char>, k: usize) -> (r: Vec<char>)
    requires
        k <= v@.len(),
    ensures
        r@ == v@.take(k as int),
{
    let mut r: Vec<char> = Vec::new();
    let mut i: usize = 0;
    while i < k
        invariant
            i <= k <= v@.len(),
            r@ == v@.take(i as int),
        decreases k - i,
    {
        r.push(v[i]);
        i = i + 1;
        assert(r@ =~= v@.take(i as int));
    }
    r
}

/// The digits `v[a..]` as numbers.
fn digits_from(v: &Vec<char>, a: usize) -> (ds: Vec<u8>)
    requires
        a <= v@.len(),
        forall|i: int| a <= i < v@.len() ==> '0' <= #[trigger] v@[i] <= '9',
    ensures
        ds@.len() == v@.len() - a,
        all_digits(ds@),
        digits_of(ds@) == digits_value(v@.skip(a as int)),
{
    let mut ds: Vec<u8> = Vec::new();
    let mut i: usize = a;
    assert(v@.skip(a as int).take(0) =~= Seq::<char>::empty());
    while i < v.len()
        invariant
            a <= i <= v@.len(),
            forall|k: int| a <= k < v@.len() ==> '0' <= #[trigger] v@[k] <= '9',
            ds@.len() == i - a,
            all_digits(ds@),
            digits_of(ds@) == digits_value(v@.skip(a as int).take(i - a)),
        decreases v@.len() - i,
    {
        let c = v[i];
        let d = (c as u32 - '0' as u32) as u8;
        let ghost before = ds@;
        ds.push(d);
        proof {
            let t = v@.skip(a as int).take(i - a + 1);
            assert(t.drop_last() =~= v@.skip(a as int).take(i - a));
            assert(t.last() == c);
            assert(ds@.drop_last() =~= before);
        }
        i = i + 1;
    }
    assert(v@.skip(a as int).take(v@.len() - a) =~= v@.skip(a as int));
    ds
}

/// Moves bits of the fraction `digits` (over `10^len`) into `w`, doubling,
/// until `w` has at least 55 bits or 118 bits have moved: returns the new
/// `w` and how many bits moved, so that `(w0 + digits0 / 10^len) * 2^shift
/// == w + digits / 10^len`.
fn binary_window(w0: u64, digits: &mut Vec<u8>) -> (r: (u64, u32))
    requires
        all_digits(old(digits)@),
    ensures
        final(digits)@.len() == old(digits)@.len(),
        all_digits(final(digits)@),
        r.1 <= 118,
        (w0 as nat * pow10(old(digits)@.len()) + digits_of(old(digits)@)) * two_pow(r.1 as nat)
            == r.0 * pow10(old(digits)@.len()) + digits_of(final(digits)@),
        r.0 < 0x40_0000_0000_0000 ==> r.1 == 118,
        r.1 > 0 ==> r.0 < 0x80_0000_0000_0000,
        r.1 == 0 ==> r.0 == w0,
{
    let ghost f = digits@.len();
    let ghost den = pow10(f);
    let ghost num = w0 as nat * den + digits_of(digits@);
    let mut w: u64 = w0;
    let mut shift: u32 = 0;
    proof {
        assert(two_pow(0) == 1);
        assert(num * two_pow(0) == w * den + digits_of(digits@));
    }
    while w < 0x40_0000_0000_0000 && shift < 118
        invariant
            digits@.len() == f,
            den == pow10(f),
            all_digits(digits@),
            shift <= 118,
            num * two_pow(shift as nat) == w * den + digits_of(digits@),
            shift > 0 ==> w < 0x80_0000_0000_0000,
            shift == 0 ==> w == w0,
        decreases 118 - shift,
    {
        let ghost old_digits = digits@;
        let ghost old_w = w;
        let c = double_digits(digits);
        w = 2 * w + c as u64;
        proof {
            assert(two_pow(shift as nat + 1) == 2 * two_pow(shift as nat));
            assert(num * two_pow(shift as nat + 1) == w * den + digits_of(digits@)) by (nonlinear_arith)
                requires
                    num * two_pow(shift as nat) == old_w * den + digits_of(old_digits),
                    digits_of(digits@) + c * den == 2 * digits_of(old_digits),
                    w == 2 * old_w + c,
                    two_pow(shift as nat + 1) == 2 * two_pow(shift as nat);
        }
        shift = shift + 1;
    }
    (w, shift)
}

/// `to_u64(m * 2^e)`, computed.
fn binary64_to_u64(m: u64, e: i64) -> (r: u64)
    requires
        m <= 0x20_0000_0000_0000,
        -200 <= e <= 64,
    ensures
        r == to_u64(Binary64::Finite(m as nat, e as int)),
{
    if is_at_least_2_64(m, e) {
        proof {
            lemma_large_to_u64(Binary64::Finite(m as nat, e as int));
        }
        return u64::MAX;
    }
    proof {
        lemma_pow2_64();
        assert(two_pow(0) == 1);
    }
    if e >= 0 {
        let p = pow2_u128(e as u32);
        proof {
            assert(nonneg(e as int) == e && nonneg(-(e as int)) == 0);
        }
        ((m as u128) * p) as u64
    } else if e <= -64 {
        proof {
            let ne = (-e) as nat;
            assert(nonneg(e as int) == 0 && nonneg(-(e as int)) == ne);
            lemma_pow2_monotonic(54, ne);
            assert(m * 1 < two_pow(ne));
            vstd::arithmetic::div_mod::lemma_basic_div((m * 1) as int, two_pow(ne) as int);
        }
        0
    } else {
        let p = pow2_u128((-e) as u32);
        proof {
            assert(nonneg(e as int) == 0 && nonneg(-(e as int)) == (-e) as nat);
            lemma_pow2_positive((-e) as nat);
            lemma_pow2_monotonic((-e) as nat, 63);
            assert(two_pow(64) == 2 * two_pow(63));
        }
        m / (p as u64)
    }
}

/// The binary64 product of `m * 2^e` (a normal value below `2^64`) and
/// `base`.
fn times_binary64(m: u64, e: i64, base: u64) -> (r: (u64, i64))
    requires
        0x10_0000_0000_0000 <= m <= 0x20_0000_0000_0000,
        -118 <= e <= 11,
        base == 1000 || base == 1024,
    ensures
        times(Binary64::Finite(m as nat, e as int), base as nat) == Binary64::Finite(r.0 as nat, r.1 as int),
        0x10_0000_0000_0000 <= r.0 <= 0x20_0000_0000_0000,
        e + 9 <= r.1 <= e + 11,
{
    let p = m * base;
    let pl = bit_length(p);
    proof {
        lemma_pow2_64();
        assert(p >= 0x10_0000_0000_0000 * 1000);
        if pl <= 61 {
            lemma_pow2_monotonic(pl as nat, 61);
            assert(two_pow(61) == 0x2000_0000_0000_0000) by {
                reveal_with_fuel(two_pow, 62);
            }
        }
    }
    let m2 = round_shift_u64(p, pl - 53, false);
    proof {
        lemma_times_window(m as nat, base as nat, e as int, p as nat, pl as nat);
        lemma_round_shift_bound(p as nat, (pl - 53) as nat, false, pl as nat);
    }
    (m2, e + (pl - 53) as i64)
}

/// `to_u64(times_power(m * 2^e, base, power))`, computed.
fn scale_binary64(m: u64, e: i64, base: u64, power: u32) -> (r: u64)
    requires
        0x10_0000_0000_0000 <= m <= 0x20_0000_0000_0000,
        -118 <= e <= 11 + 11 * (4 - power),
        power <= 4,
        base == 1000 || base == 1024,
    ensures
        r == to_u64(times_power(Binary64::Finite(m as nat, e as int), base as nat, power as nat)),
    decreases power,
{
    let ghost x = Binary64::Finite(m as nat, e as int);
    if is_at_least_2_64(m, e) {
        proof {
            lemma_times_large(x, base as nat, power as nat);
            lemma_large_to_u64(times_power(x, base as nat, power as nat));
        }
        return u64::MAX;
    }
    if power == 0 {
        return binary64_to_u64(m, e);
    }
    proof {
        lemma_pow2_64();
        if e >= 12 {
            lemma_pow2_adds(52, 12);
            lemma_pow2_monotonic(12, e as nat);
            assert(m * two_pow(e as nat) >= two_pow(52) * two_pow(12)) by (nonlinear_arith)
                requires m >= two_pow(52), two_pow(e as nat) >= two_pow(12);
        }
    }
    let (m2, e2) = times_binary64(m, e, base);
    proof {
        lemma_times_power_split(x, base as nat, 1, (power - 1) as nat);
        assert(times_power(x, base as nat, 0) == x);
        assert(times_power(x, base as nat, 1) == times(x, base as nat));
    }
    scale_binary64(m2, e2, base, power - 1)
}

/// The value of the decimal `number` (digits with at most one point) with a
/// unit of `base` raised to `power`, in bytes: the number is read as a
/// binary64 value, multiplied by `base` `power` times with binary64
/// rounding, and converted to `u64` toward zero, saturating.
pub fn scaled_number(number: &Vec<char>, base: u64, power: u32) -> (r: u64)
    requires
        is_decimal_number(number@),
        base == 1000 || base == 1024,
        power <= 4,
    ensures
        r == scaled_size(number@, base as nat, power as nat),
{
    let ghost t = number@;
    let ghost num = decimal_num(t);
    let ghost den = decimal_den(t);
    let (int_end, frac_start) = split_at_point(number);
    let ghost f = fraction_digits(t).len();
    let mut digits = digits_from(number, frac_start);
    proof {
        lemma_digits_of_bound(digits@);
        lemma_pow10_positive(f);
        lemma_pow2_64();
        assert(two_pow(0) == 1);
        assert(nonneg(0) == 0);
    }
    let int_value: Option<u64> = if int_end == 0 {
        proof {
            assert(t.take(0) =~= Seq::<char>::empty());
        }
        Some(0)
    } else {
        parse_digits(number, 0, int_end)
    };
    proof {
        assert(number@.subrange(0, int_end as int) =~= t.take(int_end as int));
    }
    let i_val = match int_value {
        Some(i) => i,
        None => {
            // the integer part alone is at least 2^64
            proof {
                let iv = digits_value(integer_digits(t));
                assert(num >= iv * den) by (nonlinear_arith)
                    requires num == iv * den + digits_value(fraction_digits(t));
                assert(num * 1 >= den * two_pow(64)) by (nonlinear_arith)
                    requires num >= iv * den, iv >= two_pow(64), den >= 1;
                assert(nonneg(-64) == 0 && nonneg(64) == 64);
                assert(at_least_pow2(num, den, 64));
                lemma_round_large(num, den);
                lemma_times_large(round_to_binary64(num, den), base as nat, power as nat);
                lemma_large_to_u64(times_power(round_to_binary64(num, den), base as nat, power as nat));
            }
            return u64::MAX;
        },
    };
    let (w, shift) = binary_window(i_val, &mut digits);
    proof {
        lemma_digits_of_bound(digits@);
    }
    let ghost rest = digits_of(digits@);
    let ghost x0 = round_to_binary64(num, den);
    if w < 0x40_0000_0000_0000 {
        // the value is below 2^-64: every product stays below 1
        proof {
            lemma_pow2_adds(64, 54);
            assert(num * two_pow(64) * two_pow(54) < two_pow(54) * den) by (nonlinear_arith)
                requires
                    num * two_pow(118) == w * den + rest,
                    rest < den,
                    w + 1 <= two_pow(54),
                    two_pow(118) == two_pow(64) * two_pow(54),
            {
                assert(w * den + rest < (w + 1) * den);
                assert((w + 1) * den <= two_pow(54) * den);
            }
            assert(num * two_pow(64) <= den) by (nonlinear_arith)
                requires num * two_pow(64) * two_pow(54) < two_pow(54) * den, two_pow(54) > 0;
            assert(nonneg(64) == 64 && nonneg(-64) == 0);
            lemma_round_small(num, den, -64);
            lemma_times_power_small(x0, base as nat, -64, power as nat);
            lemma_small_to_u64(times_power(x0, base as nat, power as nat), -64 + 10 * power);
        }
        return 0;
    }
    let sticky = any_nonzero(&digits);
    let l = bit_length(w);
    proof {
        if l <= 54 {
            lemma_pow2_monotonic(l as nat, 54);
        }
    }
    let sh = l - 53;
    let m = round_shift_u64(w, sh, sticky);
    let e: i64 = sh as i64 - shift as i64;
    proof {
        assert(nonneg(shift as int) == shift && nonneg(-(shift as int)) == 0);
        assert(num * (den * two_pow(nonneg(shift as int))) == den * ((w * den + rest) * two_pow(nonneg(-(shift as int)))))
            by (nonlinear_arith)
            requires
                num * two_pow(shift as nat) == w * den + rest,
                two_pow(0) == 1,
                nonneg(shift as int) == shift,
                nonneg(-(shift as int)) == 0;
        lemma_round_window(num, den, w as nat, den, rest, shift as int, l as nat);
        lemma_round_shift_bound(w as nat, sh as nat, sticky, l as nat);
    }
    scale_binary64(m, e, base, power)
}

/// Where the integer digits of `number` end and its fraction digits start,
/// given that it is a decimal number.
fn split_at_point(number: &Vec<char>) -> (r: (usize, usize))
    requires
        is_decimal_number(number@),
    ensures
        r.0 <= r.1 <= number@.len(),
        integer_digits(number@) == number@.take(r.0 as int),
        fraction_digits(number@) == number@.skip(r.1 as int),
        forall|i: int| 0 <= i < r.0 ==> '0' <= #[trigger] number@[i] <= '9',
        forall|i: int| r.1 <= i < number@.len() ==> '0' <= #[trigger] number@[i] <= '9',
{
    let ghost t = number@;
    let point = find_char(number, '.');
    proof {
        lemma_char_from(t, '.', 0);
    }
    let r = match point {
        Some(p) => {
            assert(p < number.len());
            (p, p + 1)
        },
        None => (number.len(), number.len()),
    };
    proof {
        assert(integer_digits(t) =~= t.take(r.0 as int));
        assert(fraction_digits(t) =~= t.skip(r.1 as int));
        assert forall|i: int| 0 <= i < r.0 implies '0' <= #[trigger] t[i] <= '9' by {
            assert(is_numeric(t[i]));
        }
        assert forall|i: int| r.1 <= i < t.len() implies '0' <= #[trigger] t[i] <= '9' by {
            assert(is_numeric(t[i]));
            if t[i] == '.' {
                assert(t[r.0 as int] == '.');
            }
        }
    }
    r
}

/// Whether `m * 2^e` is at least `2^64`.
fn is_at_least_2_64(m: u64, e: i64) -> (b: bool)
    requires
        m <= 0x20_0000_0000_0000,
        e <= 64,
    ensures
        b == at_least_2_64(Binary64::Finite(m as nat, e as int)),
{
    if e < 0 {
        return false;
    }
    let p = pow2_u128(e as u32);
    proof {
        lemma_pow2_64();
        lemma_pow2_monotonic(e as nat, 64);
        assert((m as u128) * p <= 0x20_0000_0000_0000 * two_pow(64)) by (nonlinear_arith)
            requires m <= 0x20_0000_0000_0000, p <= two_pow(64);
    }
    (m as u128) * p >= 0x1_0000_0000_0000_0000
}

/// The number of bytes that the lowercase, trimmed text `t` names, if any.
pub fn parse_lowered_size(t: &str) -> (r: Option<u64>)
    ensures
        match r {
            Some(n) => size_of(t@) == Some(n as nat),
            None => size_of(t@) is None,
        },
{
    let v = chars_of(t);
    let start: usize = if v.len() > 0 && v[0] == '+' { 1 } else { 0 };
    let whole = parse_digits(&v, start, v.len());
    proof {
        let d = if v@.len() > 0 && v@[0] == '+' { v@.drop_first() } else { v@ };
        assert(v@.subrange(start as int, v@.len() as int) =~= d);
    }
    if let Some(n) = whole {
        return Some(n);
    }
    let mut k: usize = 0;
    while k < v.len() && ('0' <= v[k] && v[k] <= '9' || v[k] == '.')
        invariant
            k <= v@.len(),
            numeric_end(v@, 0) == numeric_end(v@, k as int),
            forall|i: int| 0 <= i < k ==> is_numeric(#[trigger] v@[i]),
        decreases v@.len() - k,
    {
        k = k + 1;
    }
    if k == v.len() {
        return None;
    }
    let unit = unit_at(&v, k);
    match unit {
        Some((base, power)) => {
            if decimal_number_before(&v, k) {
                let number = prefix(&v, k);
                Some(scaled_number(&number, base, power))
            } else {
                None
            }
        },
        None => None,
    }
}

/// The number of bytes that the argument `s` names, once trimmed of white
/// space and lowercased, if any.
pub fn parse_size(s: &str) -> (r: Option<u64>)
    ensures
        match r {
            Some(n) => size_of(lowercase(trimmed(s@))) == Some(n as nat),
            None => size_of(lowercase(trimmed(s@))) is None,
        },
{
    let v = chars_of(s);
    let (a, b) = trim_bounds(&v);
    let bare = string_of(&v, a, b);
    let lowered = to_lowercase(bare.as_str());
    parse_lowered_size(lowered.as_str())
}

} // verus!
