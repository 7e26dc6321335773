//! Rendering of numbers and byte counts as text.

use vstd::prelude::*;

verus! {

/// The decimal digit `d` (0..=9) as a character.
pub open spec fn digit_char(d: nat) -> char {
    (('0' as u8) + d) as char
}

/// The decimal representation of `n`, without leading zeros.
pub open spec fn decimal(n: nat) -> Seq<char>
    decreases n,
{
    if n < 10 {
        seq![digit_char(n)]
    } else {
        decimal(n / 10).push(digit_char(n % 10))
    }
}

/// Appends `c` to `s`.
///
/// Trusted: `String::push`, whose documentation says it appends the given
/// char to the end of the string.
#[verifier::external_body]
pub(crate) fn push_char(s: &mut String, c: char)
    ensures
        final(s)@ == old(s)@.push(c),
{
    s.push(c);
}

/// A new string holding `s`.
pub fn text(s: &str) -> (r: String)
    ensures
        r@ == s@,
{
    s.to_string()
}

/// The character of the decimal digit `d`.
pub fn digit_to_char(d: u64) -> (c: char)
    requires
        d < 10,
    ensures
        c == digit_char(d as nat),
{
    let b: u8 = 48u8 + (d as u8);
    b as char
}

/// Appends the decimal representation of `n` to `s`.
pub fn push_decimal(s: &mut String, n: u64)
    ensures
        final(s)@ == old(s)@ + decimal(n as nat),
    decreases n,
{
    if n >= 10 {
        push_decimal(s, n / 10);
    }
    let c = digit_to_char(n % 10);
    push_char(s, c);
    assert(final(s)@ =~= old(s)@ + decimal(n as nat));
}

/// `2` raised to `k`.
pub open spec fn two_pow(k: nat) -> nat
    decreases k,
{
    if k == 0 {
        1
    } else {
        2 * two_pow((k - 1) as nat)
    }
}

/// `num / den` rounded to the nearest integer, ties to the even one.
pub open spec fn round_half_even(num: nat, den: nat) -> nat {
    let q = num / den;
    let r = num % den;
    if 2 * r > den || (2 * r == den && q % 2 == 1) {
        q + 1
    } else {
        q
    }
}

/// How many low bits of `n` do not fit in the 53-bit significand of an `f64`.
pub open spec fn excess_bits(n: nat) -> nat
    decreases n,
{
    if n < 0x20_0000_0000_0000 {
        0
    } else {
        1 + excess_bits(n / 2)
    }
}

/// The value of `n as f64`: `n` rounded to 53 significant bits, ties to even.
pub open spec fn as_f64_value(n: nat) -> nat {
    let s = excess_bits(n);
    round_half_even(n, two_pow(s)) * two_pow(s)
}

/// The unit that `format_bytes` picks: 0 = B, 1 = KB, 2 = MB, 3 = GB, 4 = TB.
/// A unit is taken while the value is at least 1024, up to TB.
pub open spec fn byte_unit(size: nat) -> nat {
    if size < 0x400 {
        0
    } else if size < 0x10_0000 {
        1
    } else if size < 0x4000_0000 {
        2
    } else if size < 0x100_0000_0000 {
        3
    } else {
        4
    }
}

/// The name of unit `u` (1..=4).
pub open spec fn unit_name(u: nat) -> Seq<char> {
    if u == 1 {
        seq!['K', 'B']
    } else if u == 2 {
        seq!['M', 'B']
    } else if u == 3 {
        seq!['G', 'B']
    } else {
        seq!['T', 'B']
    }
}

/// `size` in unit `byte_unit(size)`, in tenths, as one-decimal formatting of
/// the `f64` quotient gives it (the exact quotient rounded, ties to even).
pub open spec fn size_tenths(size: nat) -> nat {
    round_half_even(as_f64_value(size) * 10, two_pow(10 * byte_unit(size)))
}

/// The text of `format_bytes(size)`: `"<n> B"` below 1024 bytes, otherwise the
/// size in the largest unit up to TB that keeps it at least 1, with one
/// decimal, as `"<int>.<digit> <unit>"`.
pub open spec fn spec_format_bytes(size: nat) -> Seq<char> {
    let u = byte_unit(size);
    if u == 0 {
        decimal(size) + seq![' ', 'B']
    } else {
        let t = size_tenths(size);
        decimal(t / 10) + seq!['.', digit_char(t % 10), ' '] + unit_name(u)
    }
}

proof fn lemma_half_div(n: nat, p: nat)
    requires
        p > 0,
    ensures
        n / p / 2 == n / (p * 2),
{
    vstd::arithmetic::div_mod::lemma_div_denominator(n as int, p as int, 2);
}

proof fn lemma_two_pow_positive(k: nat)
    ensures
        two_pow(k) >= 1,
    decreases k,
{
    if k > 0 {
        lemma_two_pow_positive((k - 1) as nat);
    }
}

/// `num / den` rounded half to even, computed.
fn round_half_even_u128(num: u128, den: u128) -> (r: u128)
    requires
        den > 0,
        num < 0x1_0000_0000_0000_0000_0000_0000_0000,
    ensures
        r == round_half_even(num as nat, den as nat),
        r <= num as nat / den as nat + 1,
{
    let q = num / den;
    let rem = num % den;
    assert(q <= num) by {
        vstd::arithmetic::div_mod::lemma_div_is_ordered_by_denominator(num as int, 1, den as int);
    }
    if (rem > den - rem) || (rem == den - rem && q % 2 == 1) {
        q + 1
    } else {
        q
    }
}

proof fn lemma_unit_pows()
    ensures
        two_pow(10) == 0x400,
        two_pow(20) == 0x10_0000,
        two_pow(30) == 0x4000_0000,
        two_pow(40) == 0x100_0000_0000,
{
    reveal_with_fuel(two_pow, 41);
}

/// The value of `n as f64`, computed with integers.
fn f64_value(n: u64) -> (v: u128)
    ensures
        v == as_f64_value(n as nat),
        v <= 0x1_0000_0000_0000_1000,
{
    let mut m: u64 = n;
    let mut p: u128 = 1;
    let ghost mut k: nat = 0;
    while m >= 0x20_0000_0000_0000
        invariant
            p == two_pow(k),
            p >= 1,
            m as nat == n as nat / (p as nat),
            excess_bits(n as nat) == k + excess_bits(m as nat),
            p <= 0x1000,
            m as nat * p <= n as nat,
        decreases m,
    {
        proof {
            lemma_half_div(n as nat, p as nat);
            assert(p < 0x800) by (nonlinear_arith)
                requires m as nat * p <= n as nat, m >= 0x20_0000_0000_0000,
                    n <= 0xffff_ffff_ffff_ffff;
            assert((m / 2) as nat * (p * 2) <= m as nat * p) by (nonlinear_arith)
                requires p >= 1;
        }
        m = m / 2;
        p = p * 2;
        proof {
            k = k + 1;
        }
    }
    let q = round_half_even_u128(n as u128, p);
    proof {
        assert(q * p <= (n as nat / p as nat + 1) * p) by (nonlinear_arith)
            requires q <= n as nat / p as nat + 1;
        assert((n as nat / p as nat + 1) * p <= n as nat + p) by (nonlinear_arith)
            requires p >= 1;
    }
    q * p
}

/// Formats a byte count for display: `"512 B"`, `"1.5 KB"`, `"3.2 GB"`.
///
/// Below 1024 bytes the exact count is shown; otherwise the count is divided
/// by 1024 until it drops below 1024 (at most up to TB) and shown with one
/// decimal.
pub fn format_bytes(size: u64) -> (s: String)
    ensures
        s@ == spec_format_bytes(size as nat),
{
    let mut s = String::new();
    if size < 0x400 {
        push_decimal(&mut s, size);
        push_char(&mut s, ' ');
        push_char(&mut s, 'B');
        assert(s@ =~= spec_format_bytes(size as nat));
        return s;
    }
    let (den, u): (u128, u64) = if size < 0x10_0000 {
        (0x400, 1)
    } else if size < 0x4000_0000 {
        (0x10_0000, 2)
    } else if size < 0x100_0000_0000 {
        (0x4000_0000, 3)
    } else {
        (0x100_0000_0000, 4)
    };
    proof {
        lemma_unit_pows();
    }
    assert(den == two_pow(10 * byte_unit(size as nat)));
    let v = f64_value(size);
    let t = round_half_even_u128(v * 10, den);
    assert(t < 0x1_0000_0000_0000_0000) by {
        assert((v * 10) as nat / den as nat <= (v * 10) as nat / 0x400) by {
            vstd::arithmetic::div_mod::lemma_div_is_ordered_by_denominator((v * 10) as int, 0x400, den as int);
        }
    }
    let t64 = t as u64;
    push_decimal(&mut s, t64 / 10);
    push_char(&mut s, '.');
    push_char(&mut s, digit_to_char(t64 % 10));
    push_char(&mut s, ' ');
    if u == 1 {
        push_char(&mut s, 'K');
    } else if u == 2 {
        push_char(&mut s, 'M');
    } else if u == 3 {
        push_char(&mut s, 'G');
    } else {
        push_char(&mut s, 'T');
    }
    push_char(&mut s, 'B');
    assert(s@ =~= spec_format_bytes(size as nat));
    s
}

/// `t` is a non-empty run of decimal digits.
pub open spec fn is_digits(t: Seq<char>) -> bool {
    t.len() > 0 && forall|i: int| 0 <= i < t.len() ==> '0' <= #[trigger] t[i] <= '9'
}

/// The number that the decimal digits `t` write.
pub open spec fn digits_value(t: Seq<char>) -> nat
    decreases t.len(),
{
    if t.len() == 0 {
        0
    } else {
        digits_value(t.drop_last()) * 10 + ((t.last() as u32) - ('0' as u32)) as nat
    }
}

/// The number that the digits `v[a..b]` write, if it is one and fits.
pub fn parse_digits(v: &Vec<char>, a: usize, b: usize) -> (r: Option<u64>)
    requires
        a <= b <= v@.len(),
    ensures
        match r {
            Some(n) => is_digits(v@.subrange(a as int, b as int)) && n == digits_value(v@.subrange(a as int, b as int)),
            None => !(is_digits(v@.subrange(a as int, b as int)) && digits_value(v@.subrange(a as int, b as int)) <= u64::MAX),
        },
{
    let ghost t = v@.subrange(a as int, b as int);
    if a == b {
        return None;
    }
    let mut n: u64 = 0;
    let mut i: usize = a;
    while i < b
        invariant
            a <= i <= b <= v@.len(),
            t == v@.subrange(a as int, b as int),
            forall|k: int| a <= k < i ==> '0' <= #[trigger] v@[k] <= '9',
            n == digits_value(v@.subrange(a as int, i as int)),
        decreases b - i,
    {
        let c = v[i];
        if c < '0' || c > '9' {
            proof {
                assert(t[i - a] == c);
            }
            return None;
        }
        let d = (c as u32 - '0' as u32) as u64;
        proof {
            assert(v@.subrange(a as int, i + 1).drop_last() =~= v@.subrange(a as int, i as int));
        }
        if n > (u64::MAX - d) / 10 {
            proof {
                assert(digits_value(v@.subrange(a as int, i + 1)) > u64::MAX) by (nonlinear_arith)
                    requires
                        digits_value(v@.subrange(a as int, i + 1)) == n * 10 + d,
                        n > (u64::MAX - d) / 10,
                        d <= 9;
                assert(t.take(i - a + 1) =~= v@.subrange(a as int, i + 1));
                if is_digits(t) {
                    lemma_digits_value_grows(t, i - a + 1);
                }
            }
            return None;
        }
        n = n * 10 + d;
        i = i + 1;
    }
    proof {
        assert forall|k: int| 0 <= k < t.len() implies '0' <= #[trigger] t[k] <= '9' by {
            assert(t[k] == v@[a + k]);
        }
    }
    Some(n)
}

/// A longer run of digits writes at least as large a number.
pub proof fn lemma_digits_value_grows(t: Seq<char>, k: int)
    requires
        0 <= k <= t.len(),
        forall|i: int| 0 <= i < t.len() ==> '0' <= #[trigger] t[i] <= '9',
    ensures
        digits_value(t.take(k)) <= digits_value(t),
    decreases t.len() - k,
{
    if k < t.len() {
        lemma_digits_value_grows(t, k + 1);
        assert(t.take(k + 1).drop_last() =~= t.take(k));
        assert(digits_value(t.take(k + 1)) >= digits_value(t.take(k))) by (nonlinear_arith)
            requires digits_value(t.take(k + 1)) == digits_value(t.take(k + 1).drop_last()) * 10
                + ((t.take(k + 1).last() as u32) - ('0' as u32)) as nat,
                t.take(k + 1).drop_last() == t.take(k);
    } else {
        assert(t.take(k) =~= t);
    }
}

/// Where `c` first occurs in `s` at or after `i`, if it does.
pub open spec fn char_from(s: Seq<char>, c: char, i: int) -> Option<int>
    decreases s.len() - i,
{
    if i < 0 || i >= s.len() {
        None
    } else if s[i] == c {
        Some(i)
    } else {
        char_from(s, c, i + 1)
    }
}

/// Where `c` first occurs in `v`, if it does.
pub fn find_char(v: &Vec<char>, c: char) -> (r: Option<usize>)
    ensures
        match r {
            Some(i) => char_from(v@, c, 0) == Some(i as int) && i < v@.len(),
            None => char_from(v@, c, 0) is None,
        },
{
    let mut i: usize = 0;
    while i < v.len()
        invariant
            i <= v@.len(),
            char_from(v@, c, 0) == char_from(v@, c, i as int),
        decreases v@.len() - i,
    {
        if v[i] == c {
            return Some(i);
        }
        i = i + 1;
    }
    None
}

/// Where `char_from` finds `c`, and that `c` does not occur before.
pub proof fn lemma_char_from(s: Seq<char>, c: char, i: int)
    requires
        0 <= i,
    ensures
        match char_from(s, c, i) {
            Some(p) => i <= p < s.len() && s[p] == c && forall|k: int| i <= k < p ==> s[k] != c,
            None => forall|k: int| i <= k < s.len() ==> s[k] != c,
        },
    decreases s.len() - i,
{
    if i < s.len() && s[i] != c {
        lemma_char_from(s, c, i + 1);
    }
}

} // verus!
