//! Fixed-point arithmetic shared by the whole crate.
//!
//! A price or a rate fraction is stored as an integer number of units of
//! `1 / SCALE`, so `10000` stands for a price of `1.0` or a rate of `100%`.
//! All divisions round toward zero (both operands are made non-negative
//! before dividing), and every bound needed to keep intermediate products
//! inside 128-bit integers is stated here once.

use vstd::prelude::*;

verus! {

/// Number of fixed-point units in one whole: prices and rate fractions are
/// integer multiples of `1 / SCALE`.
pub const SCALE: u64 = 10000;

/// Largest price the crate accepts, in fixed-point units
/// (`100_000.0000` in whole units).
pub const MAX_PRICE: u64 = 1_000_000_000;

/// Largest magnitude of a per-trade return fraction, reached when a trade
/// bought at one grid step exits at `MAX_PRICE`: `MAX_PRICE * SCALE`.
pub const MAX_RETURN: i64 = 10_000_000_000_000;

/// Largest number of per-trade returns one statistics pass accepts; keeps a
/// sum of squared deviations within `u128`.
pub const MAX_SAMPLES: usize = 1_000_000_000;

/// Largest holding horizon, in days; keeps scaled hold-day averages within
/// `u64`.
pub const MAX_HORIZON: usize = 1_000_000;

/// Saturation cap of the capital chain in the drawdown computation, in
/// fixed-point units; keeps its products within `u128`.
pub const CUM_CAP: u128 = 1_000_000_000_000_000_000_000_000;

/// Floor on the loss denominator of the profit factor: one thousandth,
/// in fixed-point units.
pub const PF_EPS: u64 = 10;

/// The return fraction of a trade bought at `buy` and exited at `price`,
/// in units of `1 / SCALE`, rounded toward zero.
pub open spec fn ret_frac(buy: int, price: int) -> int
    recommends
        buy > 0,
{
    if price >= buy {
        ((price - buy) * SCALE) / buy
    } else {
        -(((buy - price) * SCALE) / buy)
    }
}

/// Bounds of `ret_frac` on admissible prices: never below a total loss of
/// `-SCALE`, never above `MAX_RETURN`.
pub proof fn lemma_ret_frac_bounds(buy: int, price: int)
    requires
        1 <= buy,
        0 <= price <= MAX_PRICE,
    ensures
        -(SCALE as int) <= ret_frac(buy, price) <= MAX_RETURN,
{
    if price >= buy {
        let num = (price - buy) * SCALE;
        assert(num <= MAX_PRICE as int * SCALE as int) by (nonlinear_arith)
            requires
                0 <= price - buy <= MAX_PRICE,
                num == (price - buy) * SCALE,
        ;
        vstd::arithmetic::div_mod::lemma_div_nonincreasing(num, buy);
        vstd::arithmetic::div_mod::lemma_div_pos_is_pos(num, buy);
    } else {
        let num = (buy - price) * SCALE;
        assert(num <= buy * SCALE) by (nonlinear_arith)
            requires
                0 <= buy - price <= buy,
                num == (buy - price) * SCALE,
        ;
        vstd::arithmetic::div_mod::lemma_div_is_ordered(num, buy * SCALE, buy);
        vstd::arithmetic::div_mod::lemma_div_multiples_vanish(SCALE as int, buy);
        vstd::arithmetic::div_mod::lemma_div_pos_is_pos(num, buy);
    }
}

/// Multiplies two 64-bit values exactly, in 128 bits.
pub fn mul_u64(a: u64, b: u64) -> (r: u128)
    ensures
        r == a as int * b as int,
{
    proof {
        assert(a as int * b as int <= u128::MAX) by (nonlinear_arith)
            requires
                a <= u64::MAX,
                b <= u64::MAX,
        ;
        assert(a as int * b as int >= 0) by (nonlinear_arith)
            requires
                a >= 0,
                b >= 0,
        ;
    }
    (a as u128) * (b as u128)
}

/// Multiplies the difference of two prices `a - b` by a fraction `c`
/// exactly, in 128 bits.
pub fn mul_diff_u64(a: u64, b: u64, c: u64) -> (r: i128)
    requires
        a <= MAX_PRICE,
        b <= MAX_PRICE,
        c <= SCALE,
    ensures
        r == (a as int - b as int) * c as int,
{
    proof {
        assert(i128::MIN <= (a as int - b as int) * c as int <= i128::MAX) by (nonlinear_arith)
            requires
                0 <= a <= MAX_PRICE,
                0 <= b <= MAX_PRICE,
                0 <= c <= SCALE,
        ;
    }
    (a as i128 - b as i128) * (c as i128)
}

/// Multiplies a signed and an unsigned 64-bit value exactly, in 128 bits.
pub fn mul_i64_u64(a: i64, b: u64) -> (r: i128)
    ensures
        r == a as int * b as int,
{
    proof {
        assert(i128::MIN <= a as int * b as int <= i128::MAX) by (nonlinear_arith)
            requires
                i64::MIN <= a <= i64::MAX,
                0 <= b <= u64::MAX,
        ;
    }
    (a as i128) * (b as i128)
}

/// Division rounding toward zero, for a positive divisor.
pub open spec fn div_trunc(a: int, b: int) -> int
    recommends
        b > 0,
{
    if a >= 0 {
        a / b
    } else {
        -((-a) / b)
    }
}

/// Magnitude of a quotient never exceeds the magnitude of the dividend.
pub proof fn lemma_div_trunc_bound(a: int, b: int)
    requires
        b >= 1,
    ensures
        a >= 0 ==> 0 <= div_trunc(a, b) <= a,
        a < 0 ==> a <= div_trunc(a, b) <= 0,
{
    if a >= 0 {
        vstd::arithmetic::div_mod::lemma_div_nonincreasing(a, b);
        vstd::arithmetic::div_mod::lemma_div_pos_is_pos(a, b);
    } else {
        vstd::arithmetic::div_mod::lemma_div_nonincreasing(-a, b);
        vstd::arithmetic::div_mod::lemma_div_pos_is_pos(-a, b);
    }
}

/// A quotient of values with the same positive bound keeps that bound:
/// `|a| <= n * c` gives `|a / n| <= c`.
pub proof fn lemma_div_trunc_mean_bound(a: int, n: int, c: int)
    requires
        n >= 1,
        c >= 0,
        -(n * c) <= a <= n * c,
    ensures
        -c <= div_trunc(a, n) <= c,
{
    if a >= 0 {
        vstd::arithmetic::div_mod::lemma_div_is_ordered(a, n * c, n);
        vstd::arithmetic::div_mod::lemma_div_multiples_vanish(c, n);
        vstd::arithmetic::div_mod::lemma_div_pos_is_pos(a, n);
    } else {
        vstd::arithmetic::div_mod::lemma_div_is_ordered(-a, n * c, n);
        vstd::arithmetic::div_mod::lemma_div_multiples_vanish(c, n);
        vstd::arithmetic::div_mod::lemma_div_pos_is_pos(-a, n);
    }
}

/// A quotient of values between a non-positive and a non-negative bound
/// keeps both: `n * lo <= a <= n * hi` gives `lo <= a / n <= hi`.
pub proof fn lemma_div_trunc_asym_bound(a: int, n: int, lo: int, hi: int)
    requires
        n >= 1,
        lo <= 0 <= hi,
        n * lo <= a <= n * hi,
    ensures
        lo <= div_trunc(a, n) <= hi,
{
    if a >= 0 {
        vstd::arithmetic::div_mod::lemma_div_is_ordered(a, n * hi, n);
        vstd::arithmetic::div_mod::lemma_div_multiples_vanish(hi, n);
        vstd::arithmetic::div_mod::lemma_div_pos_is_pos(a, n);
    } else {
        assert(-a <= n * -lo) by (nonlinear_arith)
            requires
                n * lo <= a,
        ;
        vstd::arithmetic::div_mod::lemma_div_is_ordered(-a, n * -lo, n);
        vstd::arithmetic::div_mod::lemma_div_multiples_vanish(-lo, n);
        vstd::arithmetic::div_mod::lemma_div_pos_is_pos(-a, n);
    }
}

/// Computes `div_trunc` on a signed dividend and positive divisor.
pub fn div_trunc_exec(a: i128, b: u128) -> (q: i128)
    requires
        1 <= b,
        i128::MIN < a,
    ensures
        q == div_trunc(a as int, b as int),
{
    proof {
        lemma_div_trunc_bound(a as int, b as int);
    }
    if a >= 0 {
        ((a as u128) / b) as i128
    } else {
        let m: u128 = (-a) as u128;
        -((m / b) as i128)
    }
}

/// Division distributes sub-additively over addition: quotients of parts
/// never exceed the quotient of the whole.
pub proof fn lemma_div_sum_le(a: int, b: int, d: int)
    requires
        a >= 0,
        b >= 0,
        d >= 1,
    ensures
        a / d + b / d <= (a + b) / d,
{
    vstd::arithmetic::div_mod::lemma_fundamental_div_mod(a, d);
    vstd::arithmetic::div_mod::lemma_fundamental_div_mod(b, d);
    vstd::arithmetic::div_mod::lemma_mod_bound(a, d);
    vstd::arithmetic::div_mod::lemma_mod_bound(b, d);
    vstd::arithmetic::div_mod::lemma_div_pos_is_pos(a, d);
    vstd::arithmetic::div_mod::lemma_div_pos_is_pos(b, d);
    let q = a / d + b / d;
    assert(a + b >= d * q) by (nonlinear_arith)
        requires
            a >= d * (a / d),
            b >= d * (b / d),
            q == a / d + b / d,
    ;
    vstd::arithmetic::div_mod::lemma_div_is_ordered(d * q, a + b, d);
    vstd::arithmetic::div_mod::lemma_div_multiples_vanish(q, d);
}

/// The share `part / total` as a fixed-point fraction of `SCALE`,
/// rounded toward zero; `0` when `total` is zero.
pub open spec fn spec_rate(part: int, total: int) -> int {
    if total == 0 {
        0
    } else {
        (part * SCALE) / total
    }
}

/// A rate of a part over its total stays between `0` and `SCALE`.
pub proof fn lemma_rate_bounds(part: int, total: int)
    requires
        0 <= part <= total,
    ensures
        0 <= spec_rate(part, total) <= SCALE,
{
    if total != 0 {
        assert(part * SCALE <= total * SCALE) by (nonlinear_arith)
            requires
                0 <= part <= total,
        ;
        vstd::arithmetic::div_mod::lemma_div_is_ordered(part * SCALE, total * SCALE, total);
        vstd::arithmetic::div_mod::lemma_div_multiples_vanish(SCALE as int, total);
        vstd::arithmetic::div_mod::lemma_div_pos_is_pos(part * SCALE, total);
    }
}

/// Computes `spec_rate` on counts.
pub fn rate_exec(part: usize, total: usize) -> (r: u64)
    requires
        part <= total,
    ensures
        r == spec_rate(part as int, total as int),
        r <= SCALE,
{
    proof {
        lemma_rate_bounds(part as int, total as int);
    }
    if total == 0 {
        0
    } else {
        ((part as u128 * SCALE as u128) / (total as u128)) as u64
    }
}

/// The greatest integer whose square does not exceed `x`.
pub open spec fn sqrt_floor(x: nat) -> nat
    decreases x,
{
    if x == 0 {
        0
    } else {
        let r = sqrt_floor((x - 1) as nat);
        if (r + 1) * (r + 1) <= x {
            r + 1
        } else {
            r
        }
    }
}

/// `sqrt_floor(x)` squares to at most `x`, and the next integer squares
/// beyond it.
pub proof fn lemma_sqrt_floor_props(x: nat)
    ensures
        sqrt_floor(x) * sqrt_floor(x) <= x,
        x < (sqrt_floor(x) + 1) * (sqrt_floor(x) + 1),
    decreases x,
{
    if x == 0 {
        let s = sqrt_floor(x);
        assert(s == 0);
        assert(x < (s + 1) * (s + 1)) by (nonlinear_arith)
            requires
                s == 0,
                x == 0,
        ;
    } else {
        lemma_sqrt_floor_props((x - 1) as nat);
        let r = sqrt_floor((x - 1) as nat);
        if (r + 1) * (r + 1) <= x {
            assert(sqrt_floor(x) == r + 1);
            assert(x < (r + 2) * (r + 2)) by (nonlinear_arith)
                requires
                    x - 1 < (r + 1) * (r + 1),
                    (r + 1) * (r + 1) <= x,
                    r >= 0,
            ;
            assert(sqrt_floor(x) * sqrt_floor(x) <= x);
            assert(x < (sqrt_floor(x) + 1) * (sqrt_floor(x) + 1));
        } else {
            assert(sqrt_floor(x) == r);
            assert(sqrt_floor(x) * sqrt_floor(x) <= x);
            assert(x < (sqrt_floor(x) + 1) * (sqrt_floor(x) + 1));
        }
    }
}

/// Any integer bracketed the same way as `sqrt_floor(x)` equals it.
pub proof fn lemma_sqrt_floor_unique(x: nat, r: nat)
    requires
        r * r <= x,
        x < (r + 1) * (r + 1),
    ensures
        r == sqrt_floor(x),
{
    lemma_sqrt_floor_props(x);
    let s = sqrt_floor(x);
    assert(r == s) by (nonlinear_arith)
        requires
            r * r <= x,
            x < (r + 1) * (r + 1),
            s * s <= x,
            x < (s + 1) * (s + 1),
            r >= 0,
            s >= 0,
    ;
}

/// Computes `sqrt_floor` by binary search.
pub fn isqrt(x: u128) -> (r: u128)
    ensures
        r == sqrt_floor(x as nat),
{
    let mut lo: u128 = 0;
    let mut hi: u128 = 0xffff_ffff_ffff_ffff;
    if x < hi {
        hi = x;
    }
    proof {
        assert((hi + 1) * (hi + 1) > x) by (nonlinear_arith)
            requires
                hi == if x < 0xffff_ffff_ffff_ffff {
                    x as int
                } else {
                    0xffff_ffff_ffff_ffff
                },
                x < 0x1_0000_0000_0000_0000_0000_0000_0000_0000,
        ;
    }
    while lo < hi
        invariant
            lo <= hi <= 0xffff_ffff_ffff_ffff,
            lo * lo <= x,
            x < (hi + 1) * (hi + 1),
        decreases hi - lo,
    {
        let mid: u128 = lo + (hi - lo + 1) / 2;
        proof {
            assert(lo < mid <= hi);
            assert(mid * mid < 0x1_0000_0000_0000_0000_0000_0000_0000_0000) by (nonlinear_arith)
                requires
                    0 < mid <= 0xffff_ffff_ffff_ffff,
            ;
        }
        if mid * mid <= x {
            lo = mid;
        } else {
            hi = mid - 1;
        }
    }
    proof {
        lemma_sqrt_floor_unique(x as nat, lo as nat);
    }
    lo
}

/// Computes `ret_frac` on fixed-point prices.
pub fn ret_frac_exec(buy: u64, price: u64) -> (r: i64)
    requires
        1 <= buy <= MAX_PRICE,
        price <= MAX_PRICE,
    ensures
        r == ret_frac(buy as int, price as int),
        -(SCALE as int) <= r <= MAX_RETURN,
{
    proof {
        lemma_ret_frac_bounds(buy as int, price as int);
    }
    if price >= buy {
        let num: u128 = (price - buy) as u128 * SCALE as u128;
        let q: u128 = num / (buy as u128);
        q as i64
    } else {
        let num: u128 = (buy - price) as u128 * SCALE as u128;
        let q: u128 = num / (buy as u128);
        -(q as i64)
    }
}

} // verus!
