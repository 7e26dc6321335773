//! IEEE 754 binary64 arithmetic, as far as reading a size needs it: the
//! correctly rounded value of a decimal number, products rounded to
//! nearest, and the saturating conversion to `u64`. Values are modelled with
//! integers: a finite value is `m * 2^e`.

use vstd::prelude::*;

use crate::text::{round_half_even, two_pow};

verus! {

/// A binary64 value: finite, `m * 2^e`, or infinite.
pub enum Binary64 {
    Finite(nat, int),
    Infinity,
}

/// `x` if it is positive, else 0.
pub open spec fn nonneg(x: int) -> nat {
    if x > 0 { x as nat } else { 0 }
}

/// `num / den` is at least `2^k`: `num * 2^-k >= den` for negative `k`,
/// `num >= den * 2^k` otherwise.
pub open spec fn at_least_pow2(num: nat, den: nat, k: int) -> bool {
    num * two_pow(nonneg(-k)) >= den * two_pow(nonneg(k))
}

/// For `num >= den >= 1`: the largest `k` with `den * 2^k <= num`.
pub open spec fn log2_up(num: nat, den: nat) -> nat
    decreases num,
{
    if den == 0 || num < 2 * den {
        0
    } else {
        1 + log2_up(num / 2, den)
    }
}

/// For `0 < num < den`: the smallest `d` with `num * 2^d >= den`.
pub open spec fn log2_down(num: nat, den: nat) -> nat
    decreases den - num,
{
    if num == 0 || 2 * num >= den {
        1
    } else {
        1 + log2_down(2 * num, den)
    }
}

/// `floor(log2(num / den))`, for `num` and `den` positive.
pub open spec fn log2_floor(num: nat, den: nat) -> int {
    if num >= den {
        log2_up(num, den) as int
    } else {
        -(log2_down(num, den) as int)
    }
}

/// `num / den` divided by `2^e` and rounded to the nearest integer, ties to
/// even.
pub open spec fn round_at(num: nat, den: nat, e: int) -> nat {
    round_half_even(num * two_pow(nonneg(-e)), den * two_pow(nonneg(e)))
}

/// `num / den` rounded to the nearest binary64 value, ties to even: the
/// significand keeps 53 bits (fewer below `2^-1022`, where the last bit is
/// worth `2^-1074`), and what rounds to `2^1024` or beyond is infinite.
pub open spec fn round_to_binary64(num: nat, den: nat) -> Binary64 {
    if num == 0 {
        Binary64::Finite(0, 0)
    } else {
        let k = log2_floor(num, den);
        let e = if k - 52 >= -1074 { k - 52 } else { -1074 };
        let m = round_at(num, den, e);
        if e >= 0 && m * two_pow(e as nat) >= two_pow(1024) {
            Binary64::Infinity
        } else {
            Binary64::Finite(m, e)
        }
    }
}

/// `w / 2^s` rounded to the nearest integer, ties to even, where `sticky`
/// tells that something nonzero lies below `w`, so that an exact half is
/// more than half (for `s >= 1`).
pub open spec fn round_shift(w: nat, s: nat, sticky: bool) -> nat {
    let q = w / two_pow(s);
    let r = w % two_pow(s);
    let half = two_pow((s - 1) as nat);
    if r > half || (r == half && (sticky || q % 2 == 1)) {
        q + 1
    } else {
        q
    }
}

/// The binary64 product of `x` and the integer `b`, rounded to nearest.
pub open spec fn times(x: Binary64, b: nat) -> Binary64 {
    match x {
        Binary64::Finite(m, e) => round_to_binary64(m * b * two_pow(nonneg(e)), two_pow(nonneg(-e))),
        Binary64::Infinity => Binary64::Infinity,
    }
}

/// `x` multiplied by `b`, `p` times in a row.
pub open spec fn times_power(x: Binary64, b: nat, p: nat) -> Binary64
    decreases p,
{
    if p == 0 {
        x
    } else {
        times(times_power(x, b, (p - 1) as nat), b)
    }
}

/// `x as u64`: rounded toward zero, saturating at `u64::MAX`.
pub open spec fn to_u64(x: Binary64) -> nat {
    match x {
        Binary64::Finite(m, e) => {
            let t = m * two_pow(nonneg(e)) / two_pow(nonneg(-e));
            if t > u64::MAX { u64::MAX as nat } else { t }
        },
        Binary64::Infinity => u64::MAX as nat,
    }
}

// ---------------------------------------------------------------------------
// Powers of two
// ---------------------------------------------------------------------------

pub proof fn lemma_pow2_positive(k: nat)
    ensures
        two_pow(k) >= 1,
    decreases k,
{
    if k > 0 {
        lemma_pow2_positive((k - 1) as nat);
    }
}

pub proof fn lemma_pow2_adds(a: nat, b: nat)
    ensures
        two_pow(a + b) == two_pow(a) * two_pow(b),
    decreases b,
{
    if b > 0 {
        lemma_pow2_adds(a, (b - 1) as nat);
        let x = two_pow(a);
        let y = two_pow((b - 1) as nat);
        assert(two_pow(a + b) == 2 * two_pow((a + b - 1) as nat));
        assert((a + b - 1) as nat == a + (b - 1) as nat);
        assert(two_pow(b) == 2 * y);
        assert(2 * (x * y) == x * (2 * y)) by (nonlinear_arith);
    } else {
        assert(two_pow(0) == 1);
        assert(a + b == a);
    }
}

pub proof fn lemma_pow2_monotonic(a: nat, b: nat)
    requires
        a <= b,
    ensures
        two_pow(a) <= two_pow(b),
    decreases b - a,
{
    if a < b {
        lemma_pow2_monotonic(a, (b - 1) as nat);
        lemma_pow2_positive((b - 1) as nat);
    }
}

// ---------------------------------------------------------------------------
// The binary logarithm
// ---------------------------------------------------------------------------

proof fn lemma_log2_up(num: nat, den: nat)
    requires
        den >= 1,
        num >= den,
    ensures
        den * two_pow(log2_up(num, den)) <= num,
        num < den * two_pow(log2_up(num, den) + 1),
    decreases num,
{
    let k = log2_up(num, den);
    if num < 2 * den {
        assert(two_pow(0) == 1);
        assert(two_pow(1) == 2 * two_pow(0));
        assert(k == 0);
        assert(den * two_pow(1) == 2 * den);
    } else {
        let h = num / 2;
        assert(num <= 2 * h + 1);
        assert(h >= den);
        lemma_log2_up(h, den);
        let j = log2_up(h, den);
        assert(k == j + 1);
        assert(two_pow(j + 1) == 2 * two_pow(j));
        assert(two_pow(j + 2) == 2 * two_pow(j + 1));
        assert(den * two_pow(j + 1) == 2 * (den * two_pow(j))) by (nonlinear_arith)
            requires two_pow(j + 1) == 2 * two_pow(j);
        assert(den * two_pow(j + 2) == 2 * (den * two_pow(j + 1))) by (nonlinear_arith)
            requires two_pow(j + 2) == 2 * two_pow(j + 1);
        assert(num < den * two_pow(j + 2));
        assert(k + 1 == j + 2);
    }
}

proof fn lemma_log2_down(num: nat, den: nat)
    requires
        0 < num < den,
    ensures
        log2_down(num, den) >= 1,
        num * two_pow(log2_down(num, den)) >= den,
        num * two_pow((log2_down(num, den) - 1) as nat) < den,
    decreases den - num,
{
    let d = log2_down(num, den);
    if 2 * num >= den {
        assert(two_pow(0) == 1);
        assert(two_pow(1) == 2 * two_pow(0));
    } else {
        lemma_log2_down(2 * num, den);
        let d1 = log2_down(2 * num, den);
        assert(d == d1 + 1);
        assert(two_pow(d1 + 1) == 2 * two_pow(d1));
        assert(num * two_pow(d1 + 1) == (2 * num) * two_pow(d1)) by (nonlinear_arith)
            requires two_pow(d1 + 1) == 2 * two_pow(d1);
        if d1 >= 1 {
            assert(two_pow(d1) == 2 * two_pow((d1 - 1) as nat));
            assert(num * two_pow(d1) == (2 * num) * two_pow((d1 - 1) as nat)) by (nonlinear_arith)
                requires two_pow(d1) == 2 * two_pow((d1 - 1) as nat);
        }
    }
}

/// `log2_floor` is the binary logarithm, rounded down.
pub proof fn lemma_log2_floor(num: nat, den: nat)
    requires
        num > 0,
        den > 0,
    ensures
        at_least_pow2(num, den, log2_floor(num, den)),
        !at_least_pow2(num, den, log2_floor(num, den) + 1),
{
    assert(two_pow(0) == 1);
    if num >= den {
        lemma_log2_up(num, den);
        let k = log2_up(num, den);
        assert(log2_floor(num, den) == k);
        assert(nonneg(-(k as int)) == 0 && nonneg(k as int) == k);
        assert(num * two_pow(0) == num);
        assert(nonneg(-(k + 1)) == 0 && nonneg(k + 1 as int) == k + 1);
    } else {
        lemma_log2_down(num, den);
        let d = log2_down(num, den);
        assert(log2_floor(num, den) == -d);
        assert(nonneg(-(-(d as int))) == d && nonneg(-(d as int)) == 0);
        assert(den * two_pow(0) == den);
        assert(nonneg(-(-(d as int) + 1)) == (d - 1) as nat && nonneg(-(d as int) + 1) == 0);
    }
}

/// A value at least `2^j` is at least every smaller power of two.
pub proof fn lemma_at_least_monotonic(num: nat, den: nat, i: int, j: int)
    requires
        i <= j,
        at_least_pow2(num, den, j),
    ensures
        at_least_pow2(num, den, i),
{
    // multiply both sides of `num * 2^a >= den * 2^b` by `2^(d + j - i)`
    let a = nonneg(-j);
    let b = nonneg(j);
    let c = nonneg(-i);
    let d = nonneg(i);
    let g = (j - i) as nat;
    assert(c + b == a + d + g);
    lemma_pow2_adds(a, d + g);
    lemma_pow2_adds(b, d);
    lemma_pow2_adds(d, g);
    lemma_pow2_adds(c, b);
    lemma_pow2_adds(a + d + g, 0);
    lemma_pow2_positive(g);
    lemma_pow2_positive(b);
    let pa = two_pow(a);
    let pb = two_pow(b);
    let pc = two_pow(c);
    let pd = two_pow(d);
    let pg = two_pow(g);
    assert(pc * pb == pa * (pd * pg)) by {
        assert(two_pow(c + b) == two_pow(a + (d + g)));
    }
    // from num * pa >= den * pb: num * pa * pd * pg >= den * pb * pd * pg >= den * pd * pb
    assert(num * pc * pb >= den * pd * pb) by (nonlinear_arith)
        requires
            num * pa >= den * pb,
            pc * pb == pa * (pd * pg),
            pg >= 1,
            pb >= 1,
    {
        assert(num * pc * pb == (num * pa) * (pd * pg));
        assert((num * pa) * (pd * pg) >= (den * pb) * (pd * pg));
        assert((den * pb) * (pd * pg) >= (den * pb) * pd);
    }
    assert(num * pc >= den * pd) by (nonlinear_arith)
        requires
            num * pc * pb >= den * pd * pb,
            pb >= 1;
}

/// The binary logarithm is the one `k` with `2^k <= num / den < 2^(k+1)`.
pub proof fn lemma_log2_unique(num: nat, den: nat, k: int)
    requires
        num > 0,
        den > 0,
        at_least_pow2(num, den, k),
        !at_least_pow2(num, den, k + 1),
    ensures
        log2_floor(num, den) == k,
{
    lemma_log2_floor(num, den);
    let l = log2_floor(num, den);
    if l < k {
        lemma_at_least_monotonic(num, den, l + 1, k);
    } else if l > k {
        lemma_at_least_monotonic(num, den, k + 1, l);
    }
}

// ---------------------------------------------------------------------------
// Ratios
// ---------------------------------------------------------------------------

/// Rounding a ratio does not depend on how it is written.
pub proof fn lemma_rhe_scale(a: nat, b: nat, t: nat)
    requires
        b > 0,
        t > 0,
    ensures
        round_half_even(a * t, b * t) == round_half_even(a, b),
{
    let q = a / b;
    let r = a % b;
    vstd::arithmetic::div_mod::lemma_fundamental_div_mod(a as int, b as int);
    assert(a == q * b + r) by (nonlinear_arith)
        requires a == b * q + r;
    assert(r < b);
    assert(a * t == q * (b * t) + r * t) by (nonlinear_arith)
        requires a == q * b + r;
    assert(r * t < b * t) by (nonlinear_arith)
        requires r < b, t > 0;
    assert(b * t > 0) by (nonlinear_arith)
        requires b > 0, t > 0;
    vstd::arithmetic::div_mod::lemma_fundamental_div_mod_converse((a * t) as int, (b * t) as int, q as int, (r * t) as int);
    assert((2 * (r * t) > b * t) == (2 * r > b)) by (nonlinear_arith)
        requires t > 0;
    assert((2 * (r * t) == b * t) == (2 * r == b)) by (nonlinear_arith)
        requires t > 0;
}

/// Equal ratios round alike.
pub proof fn lemma_rhe_same_ratio(a: nat, b: nat, c: nat, d: nat)
    requires
        b > 0,
        d > 0,
        a * d == b * c,
    ensures
        round_half_even(a, b) == round_half_even(c, d),
{
    lemma_rhe_scale(a, b, d);
    lemma_rhe_scale(c, d, b);
    assert(c * b == a * d) by (nonlinear_arith)
        requires a * d == b * c;
    assert(d * b == b * d) by (nonlinear_arith);
}

/// Equal ratios compare alike with 1.
pub proof fn lemma_ge_same_ratio(a: nat, b: nat, c: nat, d: nat)
    requires
        b > 0,
        d > 0,
        a * d == b * c,
    ensures
        (a >= b) == (c >= d),
{
    assert((a >= b) == (a * d >= b * d)) by (nonlinear_arith)
        requires d > 0;
    assert((c >= d) == (b * c >= b * d)) by (nonlinear_arith)
        requires b > 0;
}

/// Scaling both terms of equal ratios by powers of two keeps them equal.
proof fn lemma_scaled_same_ratio(n1: nat, d1: nat, n2: nat, d2: nat, x: nat, y: nat)
    requires
        n1 * d2 == d1 * n2,
    ensures
        (n1 * two_pow(x)) * (d2 * two_pow(y)) == (d1 * two_pow(y)) * (n2 * two_pow(x)),
{
    let px = two_pow(x);
    let py = two_pow(y);
    assert((n1 * px) * (d2 * py) == (n1 * d2) * (px * py)) by (nonlinear_arith);
    assert((d1 * py) * (n2 * px) == (d1 * n2) * (px * py)) by (nonlinear_arith);
}

/// Whether a ratio is at least a power of two does not depend on how it is
/// written.
pub proof fn lemma_at_least_same_ratio(n1: nat, d1: nat, n2: nat, d2: nat, k: int)
    requires
        d1 > 0,
        d2 > 0,
        n1 * d2 == d1 * n2,
    ensures
        at_least_pow2(n1, d1, k) == at_least_pow2(n2, d2, k),
{
    let x = nonneg(-k);
    let y = nonneg(k);
    lemma_scaled_same_ratio(n1, d1, n2, d2, x, y);
    lemma_pow2_positive(y);
    assert(d1 * two_pow(y) > 0 && d2 * two_pow(y) > 0) by (nonlinear_arith)
        requires d1 > 0, d2 > 0, two_pow(y) >= 1;
    lemma_ge_same_ratio(n1 * two_pow(x), d1 * two_pow(y), n2 * two_pow(x), d2 * two_pow(y));
}

/// Rounding at an exponent does not depend on how the ratio is written.
pub proof fn lemma_round_at_same_ratio(n1: nat, d1: nat, n2: nat, d2: nat, e: int)
    requires
        d1 > 0,
        d2 > 0,
        n1 * d2 == d1 * n2,
    ensures
        round_at(n1, d1, e) == round_at(n2, d2, e),
{
    let x = nonneg(-e);
    let y = nonneg(e);
    lemma_scaled_same_ratio(n1, d1, n2, d2, x, y);
    lemma_pow2_positive(y);
    assert(d1 * two_pow(y) > 0 && d2 * two_pow(y) > 0) by (nonlinear_arith)
        requires d1 > 0, d2 > 0, two_pow(y) >= 1;
    lemma_rhe_same_ratio(n1 * two_pow(x), d1 * two_pow(y), n2 * two_pow(x), d2 * two_pow(y));
}

/// Rounding to binary64 does not depend on how the ratio is written.
pub proof fn lemma_round_same_ratio(n1: nat, d1: nat, n2: nat, d2: nat)
    requires
        d1 > 0,
        d2 > 0,
        n1 * d2 == d1 * n2,
    ensures
        round_to_binary64(n1, d1) == round_to_binary64(n2, d2),
{
    assert((n1 == 0) == (n2 == 0)) by (nonlinear_arith)
        requires d1 > 0, d2 > 0, n1 * d2 == d1 * n2;
    if n1 > 0 {
        let k = log2_floor(n1, d1);
        lemma_log2_floor(n1, d1);
        lemma_at_least_same_ratio(n1, d1, n2, d2, k);
        lemma_at_least_same_ratio(n1, d1, n2, d2, k + 1);
        lemma_log2_unique(n2, d2, k);
        let e = if k - 52 >= -1074 { k - 52 } else { -1074 };
        lemma_round_at_same_ratio(n1, d1, n2, d2, e);
    }
}

/// Rounding `w + R / D` (for `R < D`) divided by `2^s` is rounding `w`
/// divided by `2^s` with a sticky bit for `R`.
pub proof fn lemma_round_shift(w: nat, d: nat, r0: nat, s: nat)
    requires
        s >= 1,
        d > 0,
        r0 < d,
    ensures
        round_half_even(w * d + r0, d * two_pow(s)) == round_shift(w, s, r0 > 0),
{
    let p = two_pow(s);
    let half = two_pow((s - 1) as nat);
    assert(p == 2 * half);
    lemma_pow2_positive((s - 1) as nat);
    let q = w / p;
    let r = w % p;
    vstd::arithmetic::div_mod::lemma_fundamental_div_mod(w as int, p as int);
    assert(w == q * p + r) by (nonlinear_arith)
        requires w == p * q + r;
    let x = w * d + r0;
    let rr = r * d + r0;
    assert(x == q * (d * p) + rr) by (nonlinear_arith)
        requires w == q * p + r, x == w * d + r0, rr == r * d + r0;
    assert(rr < d * p) by (nonlinear_arith)
        requires r < p, r0 < d, rr == r * d + r0;
    assert(d * p > 0) by (nonlinear_arith)
        requires d > 0, p > 0;
    vstd::arithmetic::div_mod::lemma_fundamental_div_mod_converse(x as int, (d * p) as int, q as int, rr as int);
    assert((2 * rr > d * p) == (r > half || (r == half && r0 > 0))) by (nonlinear_arith)
        requires
            rr == r * d + r0,
            p == 2 * half,
            r0 < d,
            d > 0,
    {
        if r > half {
            assert(r >= half + 1);
            assert(r * d >= (half + 1) * d);
        } else if r == half {
        } else {
            assert(r + 1 <= half);
            assert((r + 1) * d <= half * d);
        }
    }
    assert((2 * rr == d * p) == (r == half && r0 == 0)) by (nonlinear_arith)
        requires
            rr == r * d + r0,
            p == 2 * half,
            r0 < d,
            d > 0,
    {
        if r > half {
            assert(r >= half + 1);
            assert(r * d >= (half + 1) * d);
        } else if r == half {
        } else {
            assert(r + 1 <= half);
            assert((r + 1) * d <= half * d);
        }
    }
}

/// A value `(w + r / d) / 2^t` with `2^(l-1) <= w < 2^l` (at least 54 bits)
/// rounds to `round_shift(w, l - 53, r > 0) * 2^(l - 53 - t)`, as long as the
/// result is a normal number.
pub proof fn lemma_round_window(num: nat, den: nat, w: nat, d: nat, r0: nat, t: int, l: nat)
    requires
        den > 0,
        d > 0,
        r0 < d,
        l >= 54,
        two_pow((l - 1) as nat) <= w < two_pow(l),
        num * (d * two_pow(nonneg(t))) == den * ((w * d + r0) * two_pow(nonneg(-t))),
        -1074 <= l - 53 - t <= 900,
    ensures
        round_to_binary64(num, den) == Binary64::Finite(round_shift(w, (l - 53) as nat, r0 > 0), l - 53 - t),
{
    let x = w * d + r0;
    let n2 = x * two_pow(nonneg(-t));
    let d2 = d * two_pow(nonneg(t));
    lemma_pow2_positive(nonneg(t));
    lemma_pow2_positive(nonneg(-t));
    assert(d2 > 0) by (nonlinear_arith)
        requires d > 0, two_pow(nonneg(t)) >= 1, d2 == d * two_pow(nonneg(t));
    assert(w >= 1) by {
        lemma_pow2_positive((l - 1) as nat);
    }
    assert(n2 > 0) by (nonlinear_arith)
        requires w >= 1, d > 0, x == w * d + r0, two_pow(nonneg(-t)) >= 1, n2 == x * two_pow(nonneg(-t));
    lemma_round_same_ratio(num, den, n2, d2);
    // the binary logarithm is l - 1 - t
    let k = l - 1 - t;
    // at least 2^k: x * 2^(nonneg(-t) + nonneg(-k)) >= d * 2^(nonneg(t) + nonneg(k)), exponents differ by l - 1
    let a1 = nonneg(-t) + nonneg(-k);
    let b1 = nonneg(t) + nonneg(k);
    assert(b1 == a1 + (l - 1) as nat);
    lemma_pow2_adds(a1, (l - 1) as nat);
    lemma_pow2_adds(nonneg(-t), nonneg(-k));
    lemma_pow2_adds(nonneg(t), nonneg(k));
    lemma_pow2_positive(a1);
    let pa = two_pow(a1);
    let pl = two_pow((l - 1) as nat);
    assert(n2 * two_pow(nonneg(-k)) == x * pa) by (nonlinear_arith)
        requires n2 == x * two_pow(nonneg(-t)), pa == two_pow(nonneg(-t)) * two_pow(nonneg(-k));
    assert(d2 * two_pow(nonneg(k)) == d * pl * pa) by (nonlinear_arith)
        requires
            d2 == d * two_pow(nonneg(t)),
            two_pow(b1) == two_pow(nonneg(t)) * two_pow(nonneg(k)),
            two_pow(b1) == pa * pl;
    assert(x >= d * pl) by (nonlinear_arith)
        requires x == w * d + r0, w >= pl;
    assert(x * pa >= d * pl * pa) by (nonlinear_arith)
        requires x >= d * pl, pa >= 1;
    assert(at_least_pow2(n2, d2, k));
    // not at least 2^(k + 1)
    let a2 = nonneg(-t) + nonneg(-(k + 1));
    let b2 = nonneg(t) + nonneg(k + 1);
    assert(b2 == a2 + l);
    lemma_pow2_adds(a2, l);
    lemma_pow2_adds(nonneg(-t), nonneg(-(k + 1)));
    lemma_pow2_adds(nonneg(t), nonneg(k + 1));
    lemma_pow2_positive(a2);
    let pa2 = two_pow(a2);
    let pl2 = two_pow(l);
    assert(n2 * two_pow(nonneg(-(k + 1))) == x * pa2) by (nonlinear_arith)
        requires n2 == x * two_pow(nonneg(-t)), pa2 == two_pow(nonneg(-t)) * two_pow(nonneg(-(k + 1)));
    assert(d2 * two_pow(nonneg(k + 1)) == d * pl2 * pa2) by (nonlinear_arith)
        requires
            d2 == d * two_pow(nonneg(t)),
            two_pow(b2) == two_pow(nonneg(t)) * two_pow(nonneg(k + 1)),
            two_pow(b2) == pa2 * pl2;
    assert(x < d * pl2) by (nonlinear_arith)
        requires x == w * d + r0, w + 1 <= pl2, r0 < d;
    assert(x * pa2 < d * pl2 * pa2) by (nonlinear_arith)
        requires x < d * pl2, pa2 >= 1;
    assert(!at_least_pow2(n2, d2, k + 1));
    lemma_log2_unique(n2, d2, k);
    // the significand
    let e = l - 53 - t;
    let sh = (l - 53) as nat;
    let a3 = nonneg(-t) + nonneg(-e);
    let b3 = nonneg(t) + nonneg(e);
    assert(b3 == a3 + sh);
    lemma_pow2_adds(a3, sh);
    lemma_pow2_adds(nonneg(-t), nonneg(-e));
    lemma_pow2_adds(nonneg(t), nonneg(e));
    lemma_pow2_positive(a3);
    let pa3 = two_pow(a3);
    let ps = two_pow(sh);
    assert(n2 * two_pow(nonneg(-e)) == x * pa3) by (nonlinear_arith)
        requires n2 == x * two_pow(nonneg(-t)), pa3 == two_pow(nonneg(-t)) * two_pow(nonneg(-e));
    assert(d2 * two_pow(nonneg(e)) == (d * ps) * pa3) by (nonlinear_arith)
        requires
            d2 == d * two_pow(nonneg(t)),
            two_pow(b3) == two_pow(nonneg(t)) * two_pow(nonneg(e)),
            two_pow(b3) == pa3 * ps;
    lemma_pow2_positive(sh);
    assert(d * ps > 0) by (nonlinear_arith)
        requires d > 0, ps >= 1;
    assert(x * pa3 == pa3 * x && (d * ps) * pa3 == pa3 * (d * ps)) by (nonlinear_arith);
    lemma_rhe_scale(x, d * ps, pa3);
    assert(round_at(n2, d2, e) == round_half_even(x, d * ps));
    lemma_round_shift(w, d, r0, sh);
    let m = round_shift(w, sh, r0 > 0);
    // no overflow: m <= 2^53 and e <= 900
    if e >= 0 {
        lemma_round_shift_bound(w, sh, r0 > 0, l);
        lemma_pow2_adds(53, e as nat);
        lemma_pow2_monotonic(53 + e as nat, 1024);
        assert(m * two_pow(e as nat) <= two_pow(53) * two_pow(e as nat)) by (nonlinear_arith)
            requires m <= two_pow(53);
        assert(two_pow(53 + e as nat) < two_pow(1024)) by {
            lemma_pow2_monotonic(53 + e as nat + 1, 1024);
            lemma_pow2_positive(53 + e as nat);
            assert(two_pow(53 + e as nat + 1) == 2 * two_pow(53 + e as nat));
        }
    }
}

/// The binary64 product of `m * 2^e` and `b`, where `p = m * b` has `l`
/// bits (at least 54).
pub proof fn lemma_times_window(m: nat, b: nat, e: int, p: nat, l: nat)
    requires
        p == m * b,
        l >= 54,
        two_pow((l - 1) as nat) <= p < two_pow(l),
        -1074 <= e + l - 53 <= 900,
    ensures
        times(Binary64::Finite(m, e), b) == Binary64::Finite(round_shift(p, (l - 53) as nat, false), e + l - 53),
{
    let ne = nonneg(e);
    let nne = nonneg(-e);
    lemma_pow2_positive(ne);
    lemma_pow2_positive(nne);
    assert(nonneg(-(-e)) == ne);
    let num = m * b * two_pow(ne);
    let den = two_pow(nne);
    assert(num * (1 * two_pow(nonneg(-e))) == den * ((p * 1 + 0) * two_pow(nonneg(-(-e))))) by (nonlinear_arith)
        requires p == m * b, nonneg(-(-e)) == ne, num == m * b * two_pow(ne), den == two_pow(nne), nne == nonneg(-e);
    lemma_round_window(num, den, p, 1, 0, -e, l);
}

/// Shifting out `s` zero bits does not round.
pub proof fn lemma_round_shift_exact(q: nat, s: nat)
    requires
        s >= 1,
    ensures
        round_shift(q * two_pow(s), s, false) == q,
{
    lemma_pow2_positive(s);
    lemma_pow2_positive((s - 1) as nat);
    vstd::arithmetic::div_mod::lemma_fundamental_div_mod_converse((q * two_pow(s)) as int, two_pow(s) as int, q as int, 0);
}

/// A whole number below `2^53` is a binary64 value: it rounds to itself,
/// written with a significand of 53 bits.
pub proof fn lemma_round_whole(n: nat) -> (j: nat)
    requires
        1 <= n < two_pow(53),
    ensures
        j <= 52,
        two_pow(52) <= n * two_pow(j) < two_pow(53),
        round_to_binary64(n, 1) == Binary64::Finite(n * two_pow(j), -(j as int)),
{
    lemma_log2_floor(n, 1);
    let k = log2_floor(n, 1);
    assert(two_pow(0) == 1);
    if k < 0 {
        assert(nonneg(-k) > 0 && nonneg(k) == 0);
        assert(nonneg(-(k + 1)) == (-(k + 1)) as nat && nonneg(k + 1) == 0);
        if k + 1 < 0 {
            lemma_pow2_positive((-(k + 1)) as nat);
            assert(n * two_pow((-(k + 1)) as nat) >= 1 * 1) by (nonlinear_arith)
                requires n >= 1, two_pow((-(k + 1)) as nat) >= 1;
        } else {
            assert(n * two_pow(0) >= 1);
        }
        assert(false);
    }
    assert(nonneg(k) == k && nonneg(-k) == 0);
    assert(nonneg(k + 1) == k + 1 && nonneg(-(k + 1)) == 0);
    assert(two_pow(k as nat) <= n < two_pow((k + 1) as nat));
    if k > 52 {
        lemma_pow2_monotonic(53, k as nat);
    }
    let j = (52 - k) as nat;
    let l = 64 as nat;
    let jj = (64 - (k + 1)) as nat;
    // w = n * 2^jj has 64 bits
    lemma_pow2_adds(k as nat, jj);
    lemma_pow2_adds((k + 1) as nat, jj);
    assert(k as nat + jj == 63);
    assert((k + 1) as nat + jj == 64);
    let w = n * two_pow(jj);
    lemma_pow2_positive(jj);
    lemma_pow2_positive(j);
    assert(two_pow(63) <= w < two_pow(64)) by (nonlinear_arith)
        requires
            two_pow(k as nat) <= n < two_pow((k + 1) as nat),
            two_pow(63) == two_pow(k as nat) * two_pow(jj),
            two_pow(64) == two_pow((k + 1) as nat) * two_pow(jj),
            w == n * two_pow(jj),
            two_pow(jj) >= 1,
    {
        assert(two_pow(k as nat) * two_pow(jj) <= n * two_pow(jj));
        assert(n * two_pow(jj) < two_pow((k + 1) as nat) * two_pow(jj));
    }
    assert(nonneg(jj as int) == jj && nonneg(-(jj as int)) == 0);
    assert(n * (1 * two_pow(nonneg(jj as int))) == 1 * ((w * 1 + 0) * two_pow(nonneg(-(jj as int)))));
    lemma_round_window(n, 1, w, 1, 0, jj as int, l);
    // w = (n * 2^j) * 2^11
    lemma_pow2_adds(j, 11);
    assert(jj == j + 11);
    assert(w == (n * two_pow(j)) * two_pow(11)) by (nonlinear_arith)
        requires w == n * two_pow(jj), two_pow(jj) == two_pow(j) * two_pow(11);
    lemma_round_shift_exact(n * two_pow(j), 11);
    assert(l - 53 - jj == -(j as int));
    lemma_pow2_adds(k as nat, j);
    lemma_pow2_adds((k + 1) as nat, j);
    assert(two_pow(52) <= n * two_pow(j) < two_pow(53)) by (nonlinear_arith)
        requires
            two_pow(k as nat) <= n < two_pow((k + 1) as nat),
            two_pow(52) == two_pow(k as nat) * two_pow(j),
            two_pow(53) == two_pow((k + 1) as nat) * two_pow(j),
            two_pow(j) >= 1,
    {
        assert(two_pow(k as nat) * two_pow(j) <= n * two_pow(j));
        assert(n * two_pow(j) < two_pow((k + 1) as nat) * two_pow(j));
    }
    j
}

/// Multiplying a normal binary64 value by 1024 does not round.
pub proof fn lemma_times_1024_exact(m: nat, e: int)
    requires
        two_pow(52) <= m < two_pow(53),
        -1074 <= e + 10 <= 900,
    ensures
        times(Binary64::Finite(m, e), 1024) == Binary64::Finite(m, e + 10),
{
    assert(two_pow(10) == 1024) by {
        reveal_with_fuel(two_pow, 11);
    }
    lemma_pow2_adds(52, 10);
    lemma_pow2_adds(53, 10);
    let p = m * 1024;
    assert(two_pow(62) <= p < two_pow(63)) by (nonlinear_arith)
        requires
            two_pow(52) <= m < two_pow(53),
            two_pow(62) == two_pow(52) * 1024,
            two_pow(63) == two_pow(53) * 1024,
            p == m * 1024;
    lemma_times_window(m, 1024, e, p, 63);
    lemma_round_shift_exact(m, 10);
}

/// Multiplying a normal binary64 value by 1024, `p` times, does not round.
pub proof fn lemma_times_power_1024_exact(m: nat, e: int, p: nat)
    requires
        two_pow(52) <= m < two_pow(53),
        -1074 <= e,
        e + 10 * p <= 900,
    ensures
        times_power(Binary64::Finite(m, e), 1024, p) == Binary64::Finite(m, e + 10 * p),
    decreases p,
{
    if p > 0 {
        lemma_times_power_1024_exact(m, e, (p - 1) as nat);
        lemma_times_1024_exact(m, e + 10 * (p - 1));
    }
}

/// Rounding `w` of `l` bits down to `l - s = 53` bits gives at most `2^53`.
pub proof fn lemma_round_shift_bound(w: nat, s: nat, sticky: bool, l: nat)
    requires
        s >= 1,
        l == s + 53,
        w < two_pow(l),
    ensures
        round_shift(w, s, sticky) <= two_pow(53),
        w >= two_pow((l - 1) as nat) ==> round_shift(w, s, sticky) >= two_pow(52),
{
    let p = two_pow(s);
    lemma_pow2_adds(53, s);
    lemma_pow2_positive(s);
    vstd::arithmetic::div_mod::lemma_fundamental_div_mod(w as int, p as int);
    let q = w / p;
    assert(q < two_pow(53)) by (nonlinear_arith)
        requires w == p * q + w % p, w < two_pow(53) * p, w % p >= 0, p > 0;
    if w >= two_pow((l - 1) as nat) {
        lemma_pow2_adds(52, s);
        assert((l - 1) as nat == 52 + s);
        assert(q >= two_pow(52)) by (nonlinear_arith)
            requires w == p * q + w % p, w >= two_pow(52) * p, w % p < p, p > 0;
    }
}

// ---------------------------------------------------------------------------
// Large and small values
// ---------------------------------------------------------------------------

/// `x` is infinite or at least `2^64`.
pub open spec fn at_least_2_64(x: Binary64) -> bool {
    match x {
        Binary64::Finite(m, e) => e >= 0 && m * two_pow(e as nat) >= two_pow(64),
        Binary64::Infinity => true,
    }
}

/// `x` is finite and at most `2^j`.
pub open spec fn at_most_pow2(x: Binary64, j: int) -> bool {
    match x {
        Binary64::Finite(m, e) => m * two_pow(nonneg(e)) * two_pow(nonneg(-j)) <= two_pow(nonneg(j)) * two_pow(nonneg(-e)),
        Binary64::Infinity => false,
    }
}

/// Rounding to nearest never goes below the integer part of the ratio.
proof fn lemma_rhe_at_least_floor(a: nat, b: nat, x: nat)
    requires
        b > 0,
        a >= x * b,
    ensures
        round_half_even(a, b) >= x,
{
    vstd::arithmetic::div_mod::lemma_fundamental_div_mod(a as int, b as int);
    let q = a / b;
    assert(q >= x) by (nonlinear_arith)
        requires a == b * q + a % b, a % b < b, a >= x * b, b > 0;
}

/// Rounding to nearest never goes above an integer bound of the ratio.
proof fn lemma_rhe_at_most(a: nat, b: nat, x: nat)
    requires
        b > 0,
        a <= x * b,
    ensures
        round_half_even(a, b) <= x,
{
    vstd::arithmetic::div_mod::lemma_fundamental_div_mod(a as int, b as int);
    let q = a / b;
    let r = a % b;
    assert(q <= x) by (nonlinear_arith)
        requires a == b * q + r, r >= 0, a <= x * b, b > 0;
    if q == x {
        assert(r == 0) by (nonlinear_arith)
            requires a == b * q + r, r >= 0, a <= x * b, q == x;
    }
}

/// A ratio of at least `2^64` rounds to at least `2^64`.
pub proof fn lemma_round_large(num: nat, den: nat)
    requires
        den > 0,
        at_least_pow2(num, den, 64),
    ensures
        at_least_2_64(round_to_binary64(num, den)),
{
    lemma_pow2_positive(64);
    assert(nonneg(64) == 64);
    assert(num > 0) by (nonlinear_arith)
        requires num * two_pow(nonneg(-64)) >= den * two_pow(nonneg(64)), den > 0, two_pow(nonneg(64)) >= 1;
    lemma_log2_floor(num, den);
    let k = log2_floor(num, den);
    if k < 64 {
        lemma_at_least_monotonic(num, den, k + 1, 64);
    }
    let e = k - 52;
    assert(nonneg(e) == e && nonneg(-e) == 0);
    assert(nonneg(k) == k && nonneg(-k) == 0);
    let m = round_at(num, den, e);
    lemma_pow2_adds(e as nat, 52);
    lemma_pow2_positive(e as nat);
    assert(two_pow(0) == 1);
    assert(num >= two_pow(52) * (den * two_pow(e as nat))) by (nonlinear_arith)
        requires
            num * 1 >= den * two_pow(k as nat),
            two_pow(k as nat) == two_pow(e as nat) * two_pow(52);
    assert(den * two_pow(e as nat) > 0) by (nonlinear_arith)
        requires den > 0, two_pow(e as nat) >= 1;
    lemma_rhe_at_least_floor(num * 1, den * two_pow(e as nat), two_pow(52));
    assert(m >= two_pow(52));
    lemma_pow2_monotonic(64, k as nat);
    assert(m * two_pow(e as nat) >= two_pow(64)) by (nonlinear_arith)
        requires
            m >= two_pow(52),
            two_pow(k as nat) == two_pow(e as nat) * two_pow(52),
            two_pow(k as nat) >= two_pow(64);
}

/// Multiplying a value of at least `2^64` by a positive integer keeps it so.
pub proof fn lemma_times_large(x: Binary64, b: nat, p: nat)
    requires
        at_least_2_64(x),
        b >= 1,
    ensures
        at_least_2_64(times_power(x, b, p)),
    decreases p,
{
    if p > 0 {
        lemma_times_large(x, b, (p - 1) as nat);
        let y = times_power(x, b, (p - 1) as nat);
        if let Binary64::Finite(m, e) = y {
            assert(nonneg(e) == e && nonneg(-e) == 0);
            assert(two_pow(0) == 1);
            assert(m * b * two_pow(e as nat) * 1 >= 1 * two_pow(64)) by (nonlinear_arith)
                requires m * two_pow(e as nat) >= two_pow(64), b >= 1;
            assert(at_least_pow2(m * b * two_pow(nonneg(e)), two_pow(nonneg(-e)), 64));
            lemma_round_large(m * b * two_pow(nonneg(e)), two_pow(nonneg(-e)));
        }
    }
}

/// A value of at least `2^64` converts to `u64::MAX`.
pub proof fn lemma_large_to_u64(x: Binary64)
    requires
        at_least_2_64(x),
    ensures
        to_u64(x) == u64::MAX,
{
    if let Binary64::Finite(m, e) = x {
        assert(nonneg(e) == e && nonneg(-e) == 0);
        assert(two_pow(0) == 1);
        lemma_pow2_64();
    }
}

/// `2^64` is `u64::MAX + 1`.
pub proof fn lemma_pow2_64()
    ensures
        two_pow(64) == u64::MAX + 1,
        two_pow(53) == 0x20_0000_0000_0000,
        two_pow(52) == 0x10_0000_0000_0000,
        two_pow(54) == 0x40_0000_0000_0000,
{
    reveal_with_fuel(two_pow, 65);
}

/// A ratio of at most `2^j` (for negative `j`) rounds to at most `2^j`.
pub proof fn lemma_round_small(num: nat, den: nat, j: int)
    requires
        den > 0,
        -1000 <= j <= -1,
        num * two_pow(nonneg(-j)) <= den * two_pow(nonneg(j)),
    ensures
        at_most_pow2(round_to_binary64(num, den), j),
{
    let nj = (-j) as nat;
    assert(nonneg(-j) == nj && nonneg(j) == 0);
    assert(two_pow(0) == 1);
    if num == 0 {
        assert(nonneg(0) == 0);
        assert(0 * two_pow(0) * two_pow(nj) == 0) by (nonlinear_arith);
        lemma_pow2_positive(nj);
        assert(two_pow(0) * two_pow(nonneg(-0)) >= 1) by (nonlinear_arith)
            requires two_pow(0) == 1;
    } else {
        lemma_log2_floor(num, den);
        let k = log2_floor(num, den);
        if k > j {
            lemma_at_least_monotonic(num, den, j + 1, k);
            // num * 2^(nj - 1) >= den, and num * 2^nj <= den
            assert(nonneg(-(j + 1)) == (nj - 1) as nat && nonneg(j + 1) == 0);
            assert(two_pow(nj) == 2 * two_pow((nj - 1) as nat));
            assert(false) by (nonlinear_arith)
                requires
                    num * two_pow((nj - 1) as nat) >= den * 1,
                    num * two_pow(nj) <= den * 1,
                    two_pow(nj) == 2 * two_pow((nj - 1) as nat),
                    den > 0;
        }
        let e = if k - 52 >= -1074 { k - 52 } else { -1074 };
        assert(e < 0 && e <= j);
        let ne = (-e) as nat;
        assert(nonneg(-e) == ne && nonneg(e) == 0);
        let g = (j - e) as nat;
        assert(ne == nj + g);
        lemma_pow2_adds(nj, g);
        let m = round_at(num, den, e);
        assert(m == round_half_even(num * two_pow(ne), den * 1));
        assert(num * two_pow(ne) <= two_pow(g) * (den * 1)) by (nonlinear_arith)
            requires
                num * two_pow(nj) <= den * 1,
                two_pow(ne) == two_pow(nj) * two_pow(g);
        lemma_rhe_at_most(num * two_pow(ne), den * 1, two_pow(g));
        assert(m * two_pow(0) * two_pow(nj) <= two_pow(0) * two_pow(ne)) by (nonlinear_arith)
            requires
                m <= two_pow(g),
                two_pow(0) == 1,
                two_pow(ne) == two_pow(nj) * two_pow(g);
    }
}

/// Multiplying a value of at most `2^j` by at most `2^10` gives at most
/// `2^(j + 10)`.
pub proof fn lemma_times_small(x: Binary64, b: nat, j: int)
    requires
        1 <= b <= 1024,
        -1000 <= j,
        j + 10 <= -1,
        at_most_pow2(x, j),
    ensures
        at_most_pow2(times(x, b), j + 10),
{
    if let Binary64::Finite(m, e) = x {
        let nj = (-j) as nat;
        assert(nonneg(-j) == nj && nonneg(j) == 0);
        assert(nonneg(-(j + 10)) == (nj - 10) as nat && nonneg(j + 10) == 0);
        assert(two_pow(0) == 1);
        lemma_pow2_adds((nj - 10) as nat, 10);
        assert(two_pow(10) == 1024) by {
            reveal_with_fuel(two_pow, 11);
        }
        let a = m * b * two_pow(nonneg(e));
        let d = two_pow(nonneg(-e));
        lemma_pow2_positive(nonneg(-e));
        assert(a * two_pow((nj - 10) as nat) <= d * 1) by (nonlinear_arith)
            requires
                m * two_pow(nonneg(e)) * two_pow(nj) <= 1 * d,
                two_pow(nj) == two_pow((nj - 10) as nat) * 1024,
                a == m * b * two_pow(nonneg(e)),
                b <= 1024,
        {
            assert(a * two_pow((nj - 10) as nat) <= m * two_pow(nonneg(e)) * 1024 * two_pow((nj - 10) as nat));
        }
        lemma_round_small(a, d, j + 10);
    }
}

/// Multiplying a value of at most `2^j` by at most `2^10`, `p` times.
pub proof fn lemma_times_power_small(x: Binary64, b: nat, j: int, p: nat)
    requires
        1 <= b <= 1024,
        -1000 <= j,
        j + 10 * p <= -1,
        at_most_pow2(x, j),
    ensures
        at_most_pow2(times_power(x, b, p), j + 10 * p),
    decreases p,
{
    if p > 0 {
        lemma_times_power_small(x, b, j, (p - 1) as nat);
        lemma_times_small(times_power(x, b, (p - 1) as nat), b, j + 10 * (p - 1));
    }
}

/// A value of at most `2^j` (for negative `j`) converts to 0.
pub proof fn lemma_small_to_u64(x: Binary64, j: int)
    requires
        j <= -1,
        at_most_pow2(x, j),
    ensures
        to_u64(x) == 0,
{
    if let Binary64::Finite(m, e) = x {
        let nj = (-j) as nat;
        assert(nonneg(-j) == nj && nonneg(j) == 0);
        assert(two_pow(0) == 1);
        assert(two_pow(nj) == 2 * two_pow((nj - 1) as nat));
        lemma_pow2_positive((nj - 1) as nat);
        lemma_pow2_positive(nonneg(-e));
        let a = m * two_pow(nonneg(e));
        assert(a < two_pow(nonneg(-e))) by (nonlinear_arith)
            requires
                a * two_pow(nj) <= 1 * two_pow(nonneg(-e)),
                two_pow(nj) >= 2,
                two_pow(nonneg(-e)) >= 1;
        vstd::arithmetic::div_mod::lemma_basic_div(a as int, two_pow(nonneg(-e)) as int);
    }
}

/// Multiplying `p + q` times is multiplying `p` times, then `q` times.
pub proof fn lemma_times_power_split(x: Binary64, b: nat, p: nat, q: nat)
    ensures
        times_power(x, b, p + q) == times_power(times_power(x, b, p), b, q),
    decreases q,
{
    if q > 0 {
        lemma_times_power_split(x, b, p, (q - 1) as nat);
        assert((p + q - 1) as nat == p + (q - 1) as nat);
    }
}

// ---------------------------------------------------------------------------
// Computation
// ---------------------------------------------------------------------------

/// `2^k`.
pub fn pow2_u128(k: u32) -> (p: u128)
    requires
        k <= 64,
    ensures
        p == two_pow(k as nat),
{
    let mut p: u128 = 1;
    let mut i: u32 = 0;
    proof {
        lemma_pow2_64();
    }
    while i < k
        invariant
            i <= k <= 64,
            p == two_pow(i as nat),
            two_pow(64) == u64::MAX + 1,
        decreases k - i,
    {
        proof {
            lemma_pow2_monotonic(i as nat, 63);
            assert(two_pow(64) == 2 * two_pow(63));
        }
        p = p * 2;
        i = i + 1;
    }
    p
}

/// The number of bits of `w`: `2^(l-1) <= w < 2^l` (0 for 0).
pub fn bit_length(w: u64) -> (l: u32)
    ensures
        l <= 64,
        w < two_pow(l as nat),
        w >= 1 ==> l >= 1 && two_pow((l - 1) as nat) <= w,
{
    let mut p: u128 = 1;
    let mut l: u32 = 0;
    proof {
        lemma_pow2_64();
    }
    while p <= w as u128
        invariant
            l <= 64,
            p == two_pow(l as nat),
            l >= 1 ==> two_pow((l - 1) as nat) <= w,
            two_pow(64) == u64::MAX + 1,
        decreases 64 - l,
    {
        if l >= 64 {
            proof {
                lemma_pow2_monotonic(64, l as nat);
            }
            assert(false);
        }
        p = p * 2;
        l = l + 1;
    }
    l
}

/// `round_shift(w, s, sticky)`, computed.
pub fn round_shift_u64(w: u64, s: u32, sticky: bool) -> (m: u64)
    requires
        1 <= s <= 63,
    ensures
        m == round_shift(w as nat, s as nat, sticky),
{
    let p = pow2_u128(s);
    proof {
        lemma_pow2_monotonic(s as nat, 63);
        lemma_pow2_64();
        assert(two_pow(64) == 2 * two_pow(63));
        assert(two_pow(s as nat) == 2 * two_pow((s - 1) as nat));
        lemma_pow2_positive((s - 1) as nat);
    }
    let p64 = p as u64;
    let q = w / p64;
    let r = w % p64;
    let half = p64 / 2;
    assert(q <= w) by {
        vstd::arithmetic::div_mod::lemma_div_is_ordered_by_denominator(w as int, 1, p64 as int);
    }
    assert(q < u64::MAX) by {
        vstd::arithmetic::div_mod::lemma_div_is_ordered_by_denominator(w as int, 2, p64 as int);
    }
    if r > half || (r == half && (sticky || q % 2 == 1)) {
        q + 1
    } else {
        q
    }
}

} // verus!
