//! Statistics over per-trade return lists, with exact fixed-point
//! definitions.
//!
//! Every statistic is defined as a spec function over the sequence of
//! returns and computed by a verified function equal to it.  The Sharpe
//! ratio divides the truncated mean by the integer square root of the
//! truncated population variance; the maximum drawdown walks the return
//! list in its given order as a chain of capital multipliers, saturated at
//! `CUM_CAP` to stay within 128 bits.

use vstd::prelude::*;

use vstd::math::{abs, max, min};

use crate::fixed::{
    div_trunc, div_trunc_exec, isqrt, lemma_div_trunc_mean_bound, spec_rate, sqrt_floor,
    CUM_CAP, MAX_RETURN, MAX_SAMPLES, SCALE,
};

verus! {

/// Sum of a list of returns.
pub open spec fn sum_of(rs: Seq<i64>) -> int
    decreases rs.len(),
{
    if rs.len() == 0 {
        0
    } else {
        sum_of(rs.drop_last()) + rs.last()
    }
}

/// A sum of bounded items is bounded by the count times the bounds.
pub proof fn lemma_sum_bounds(rs: Seq<i64>, lo: int, hi: int)
    requires
        forall|k: int| 0 <= k < rs.len() ==> lo <= #[trigger] rs[k] <= hi,
    ensures
        rs.len() * lo <= sum_of(rs) <= rs.len() * hi,
    decreases rs.len(),
{
    if rs.len() == 0 {
        assert(rs.len() * lo == 0) by (nonlinear_arith)
            requires
                rs.len() == 0,
        ;
        assert(rs.len() * hi == 0) by (nonlinear_arith)
            requires
                rs.len() == 0,
        ;
    } else {
        let n = rs.len() as int;
        lemma_sum_bounds(rs.drop_last(), lo, hi);
        assert((n - 1) * lo + lo == n * lo) by (nonlinear_arith);
        assert((n - 1) * hi + hi == n * hi) by (nonlinear_arith);
    }
}

/// Appending one item adds it to the sum.
pub proof fn lemma_sum_push(rs: Seq<i64>, i: int)
    requires
        0 <= i < rs.len(),
    ensures
        sum_of(rs.subrange(0, i + 1)) == sum_of(rs.subrange(0, i)) + rs[i],
{
    assert(rs.subrange(0, i + 1).drop_last() =~= rs.subrange(0, i));
    assert(rs.subrange(0, i + 1).last() == rs[i]);
}

/// The truncated mean of a list of returns; `0` when the list is empty.
pub open spec fn spec_mean(rs: Seq<i64>) -> int {
    if rs.len() == 0 {
        0
    } else {
        div_trunc(sum_of(rs), rs.len() as int)
    }
}

/// The mean of returns within a bound keeps that bound.
pub proof fn lemma_mean_bounds(rs: Seq<i64>, c: int)
    requires
        c >= 0,
        forall|k: int| 0 <= k < rs.len() ==> -c <= #[trigger] rs[k] <= c,
    ensures
        -c <= spec_mean(rs) <= c,
{
    if rs.len() > 0 {
        lemma_sum_bounds(rs, -c, c);
        assert(rs.len() * -c == -(rs.len() * c)) by (nonlinear_arith);
        lemma_div_trunc_mean_bound(sum_of(rs), rs.len() as int, c);
    }
}

/// Sum of squared deviations from `mean`.
pub open spec fn sum_sq_dev(rs: Seq<i64>, mean: int) -> int
    decreases rs.len(),
{
    if rs.len() == 0 {
        0
    } else {
        sum_sq_dev(rs.drop_last(), mean) + (rs.last() - mean) * (rs.last() - mean)
    }
}

/// Squared deviations of bounded items from a bounded mean are bounded.
pub proof fn lemma_sum_sq_dev_bounds(rs: Seq<i64>, mean: int, c: int)
    requires
        c >= 0,
        -c <= mean <= c,
        forall|k: int| 0 <= k < rs.len() ==> -c <= #[trigger] rs[k] <= c,
    ensures
        0 <= sum_sq_dev(rs, mean) <= rs.len() * (4 * c * c),
    decreases rs.len(),
{
    if rs.len() == 0 {
        assert(rs.len() * (4 * c * c) == 0) by (nonlinear_arith)
            requires
                rs.len() == 0,
        ;
    } else {
        let n = rs.len() as int;
        lemma_sum_sq_dev_bounds(rs.drop_last(), mean, c);
        let d = rs.last() - mean;
        assert(0 <= d * d <= 4 * c * c) by (nonlinear_arith)
            requires
                -(2 * c) <= d <= 2 * c,
        ;
        assert((n - 1) * (4 * c * c) + 4 * c * c == n * (4 * c * c)) by (nonlinear_arith);
    }
}

/// Appending one item adds its squared deviation.
pub proof fn lemma_sum_sq_dev_push(rs: Seq<i64>, mean: int, i: int)
    requires
        0 <= i < rs.len(),
    ensures
        sum_sq_dev(rs.subrange(0, i + 1), mean) == sum_sq_dev(rs.subrange(0, i), mean) + (rs[i]
            - mean) * (rs[i] - mean),
{
    assert(rs.subrange(0, i + 1).drop_last() =~= rs.subrange(0, i));
    assert(rs.subrange(0, i + 1).last() == rs[i]);
}

/// The largest return of the list, folded against a floor of `0`.
pub open spec fn max_fold(rs: Seq<i64>) -> int
    decreases rs.len(),
{
    if rs.len() == 0 {
        0
    } else {
        max(max_fold(rs.drop_last()), rs.last() as int)
    }
}

/// The smallest return of the list, folded against a ceiling of `0`.
pub open spec fn min_fold(rs: Seq<i64>) -> int
    decreases rs.len(),
{
    if rs.len() == 0 {
        0
    } else {
        min(min_fold(rs.drop_last()), rs.last() as int)
    }
}


/// The Sharpe ratio over an excess rate `risk_free`: the truncated excess
/// mean divided by the integer square root of the truncated population
/// variance, scaled by `SCALE`; `0` on an empty list or zero deviation.
pub open spec fn spec_sharpe_excess(rs: Seq<i64>, risk_free: int) -> int {
    if rs.len() == 0 {
        0
    } else {
        let mean = spec_mean(rs);
        let variance = sum_sq_dev(rs, mean) / (rs.len() as int);
        let sd = sqrt_floor(variance as nat) as int;
        if sd == 0 {
            0
        } else {
            div_trunc((mean - risk_free) * SCALE, sd)
        }
    }
}

/// The Sharpe ratio at a zero risk-free rate.
pub open spec fn spec_sharpe(rs: Seq<i64>) -> int {
    spec_sharpe_excess(rs, 0)
}

/// Computes `spec_sharpe_excess`.
pub fn sharpe_excess_of(rets: &Vec<i64>, risk_free: i64) -> (r: i64)
    requires
        rets@.len() <= MAX_SAMPLES,
        forall|k: int| 0 <= k < rets@.len() ==> -(SCALE as int) <= #[trigger] rets@[k]
            <= MAX_RETURN,
        -(SCALE as int) <= risk_free <= MAX_RETURN,
    ensures
        r == spec_sharpe_excess(rets@, risk_free as int),
{
    let n: usize = rets.len();
    if n == 0 {
        return 0;
    }
    proof {
        lemma_sum_bounds(rets@, -(MAX_RETURN as int), MAX_RETURN as int);
        assert(rets@.len() * -(MAX_RETURN as int) == -(rets@.len() * MAX_RETURN as int))
            by (nonlinear_arith);
    }

    // Sum, then truncated mean.
    let mut sum: i128 = 0;
    let mut i: usize = 0;
    while i < n
        invariant
            n == rets@.len(),
            n <= MAX_SAMPLES,
            i <= n,
            forall|k: int| 0 <= k < rets@.len() ==> -(MAX_RETURN as int) <= #[trigger] rets@[k]
                <= MAX_RETURN,
            sum == sum_of(rets@.subrange(0, i as int)),
            -(i as int * MAX_RETURN as int) <= sum <= i as int * MAX_RETURN as int,
        decreases n - i,
    {
        proof {
            lemma_sum_push(rets@, i as int);
            assert((i + 1) * MAX_RETURN as int == i * MAX_RETURN as int + MAX_RETURN as int)
                by (nonlinear_arith);
        }
        sum = sum + rets[i] as i128;
        i += 1;
    }
    proof {
        assert(rets@.subrange(0, n as int) =~= rets@);
    }
    let mean: i128 = div_trunc_exec(sum, n as u128);
    proof {
        lemma_mean_bounds(rets@, MAX_RETURN as int);
    }

    // Sum of squared deviations, then truncated variance.
    let ghost cbound: int = 4 * MAX_RETURN as int * MAX_RETURN as int;
    let mut sq: u128 = 0;
    let mut j: usize = 0;
    while j < n
        invariant
            n == rets@.len(),
            n <= MAX_SAMPLES,
            j <= n,
            forall|k: int| 0 <= k < rets@.len() ==> -(MAX_RETURN as int) <= #[trigger] rets@[k]
                <= MAX_RETURN,
            -(MAX_RETURN as int) <= mean <= MAX_RETURN,
            cbound == 4 * MAX_RETURN as int * MAX_RETURN as int,
            sq == sum_sq_dev(rets@.subrange(0, j as int), mean as int),
            sq <= j as int * cbound,
        decreases n - j,
    {
        proof {
            lemma_sum_sq_dev_push(rets@, mean as int, j as int);
            lemma_sum_sq_dev_bounds(rets@.subrange(0, j as int), mean as int, MAX_RETURN as int);
            assert((j + 1) * cbound == j * cbound + cbound) by (nonlinear_arith);
        }
        let d: i128 = rets[j] as i128 - mean;
        proof {
            assert(0 <= d * d <= cbound) by (nonlinear_arith)
                requires
                    -(2 * MAX_RETURN as int) <= d <= 2 * MAX_RETURN as int,
                    cbound == 4 * MAX_RETURN as int * MAX_RETURN as int,
            ;
            assert(j as int * cbound <= MAX_SAMPLES as int * cbound) by (nonlinear_arith)
                requires
                    0 <= j as int <= MAX_SAMPLES as int,
                    cbound >= 0,
            ;
        }
        let dd: u128 = (d * d) as u128;
        sq = sq + dd;
        j += 1;
    }
    proof {
        assert(rets@.subrange(0, n as int) =~= rets@);
        assert(n as int * cbound <= MAX_SAMPLES as int * cbound) by (nonlinear_arith)
            requires
                0 <= n as int <= MAX_SAMPLES as int,
                cbound >= 0,
        ;
    }
    let variance: u128 = sq / (n as u128);
    let sd: u128 = isqrt(variance);
    proof {
        crate::fixed::lemma_sqrt_floor_props(variance as nat);
        assert(sd * sd <= variance);
        assert(sd <= variance) by (nonlinear_arith)
            requires
                sd * sd <= variance,
                sd >= 0,
        ;
    }
    if sd == 0 {
        return 0;
    }
    let excess: i128 = mean - risk_free as i128;
    proof {
        assert(-(2 * MAX_RETURN as int) <= mean - risk_free <= 2 * MAX_RETURN as int);
        assert(-(2 * MAX_RETURN as int * SCALE as int) <= (mean - risk_free as int) * SCALE <= 2
            * MAX_RETURN as int * SCALE as int) by (nonlinear_arith)
            requires
                -(2 * MAX_RETURN as int) <= mean - risk_free as int <= 2 * MAX_RETURN as int,
        ;
    }
    let scaled: i128 = excess * (SCALE as i128);
    let q: i128 = div_trunc_exec(scaled, sd);
    proof {
        assert(sd as int * abs(scaled as int) >= abs(scaled as int)) by (nonlinear_arith)
            requires
                sd >= 1,
                abs(scaled as int) >= 0,
        ;
        lemma_div_trunc_mean_bound(scaled as int, sd as int, abs(scaled as int) as int);
    }
    q as i64
}

/// Computes `spec_sharpe`.
pub fn sharpe_of(rets: &Vec<i64>) -> (r: i64)
    requires
        rets@.len() <= MAX_SAMPLES,
        forall|k: int| 0 <= k < rets@.len() ==> -(SCALE as int) <= #[trigger] rets@[k]
            <= MAX_RETURN,
    ensures
        r == spec_sharpe(rets@),
{
    sharpe_excess_of(rets, 0)
}

/// One step of the capital chain: multiply by `1 + r`, truncate to the
/// grid, and saturate at `CUM_CAP`.
pub open spec fn cum_step(prev: int, r: int) -> int {
    min((prev * (SCALE + r)) / (SCALE as int), CUM_CAP as int)
}

/// The capital multiplier after trades `0 ..= k`, starting from one whole
/// (`SCALE`).
pub open spec fn cum_after(rs: Seq<i64>, k: int) -> int
    recommends
        -1 <= k < rs.len(),
    decreases k + 1,
{
    if k < 0 {
        SCALE as int
    } else {
        cum_step(cum_after(rs, k - 1), rs[k] as int)
    }
}

/// The running peak of the capital chain over trades `0 ..= k`.
pub open spec fn peak_after(rs: Seq<i64>, k: int) -> int
    recommends
        0 <= k < rs.len(),
    decreases k + 1,
{
    if k <= 0 {
        cum_after(rs, 0)
    } else {
        max(peak_after(rs, k - 1), cum_after(rs, k))
    }
}

/// The drawdown at step `k`: the fall from the running peak as a fraction
/// of it, `0` on a zero peak.
pub open spec fn drawdown_at(rs: Seq<i64>, k: int) -> int {
    spec_rate(peak_after(rs, k) - cum_after(rs, k), peak_after(rs, k))
}

/// The maximum drawdown over trades `0 ..= k`.
pub open spec fn mdd_upto(rs: Seq<i64>, k: int) -> int
    recommends
        0 <= k < rs.len(),
    decreases k + 1,
{
    if k <= 0 {
        drawdown_at(rs, 0)
    } else {
        max(mdd_upto(rs, k - 1), drawdown_at(rs, k))
    }
}

/// The maximum drawdown of a return list taken in its given order; `0` on
/// an empty list.
pub open spec fn spec_max_drawdown(rs: Seq<i64>) -> int {
    if rs.len() == 0 {
        0
    } else {
        mdd_upto(rs, rs.len() - 1)
    }
}

/// The capital chain stays within `0 ..= CUM_CAP`.
pub proof fn lemma_cum_bounds(rs: Seq<i64>, k: int)
    requires
        forall|t: int| 0 <= t < rs.len() ==> -(SCALE as int) <= #[trigger] rs[t],
        -1 <= k < rs.len(),
    ensures
        0 <= cum_after(rs, k) <= CUM_CAP,
    decreases k + 1,
{
    if k >= 0 {
        lemma_cum_bounds(rs, k - 1);
        let prev = cum_after(rs, k - 1);
        let f = SCALE + rs[k];
        assert(prev * f >= 0) by (nonlinear_arith)
            requires
                prev >= 0,
                f >= 0,
        ;
        vstd::arithmetic::div_mod::lemma_div_pos_is_pos(prev * f, SCALE as int);
    }
}

/// The running peak is at least the current capital and stays within the
/// same bounds.
pub proof fn lemma_peak_bounds(rs: Seq<i64>, k: int)
    requires
        forall|t: int| 0 <= t < rs.len() ==> -(SCALE as int) <= #[trigger] rs[t],
        0 <= k < rs.len(),
    ensures
        cum_after(rs, k) <= peak_after(rs, k) <= CUM_CAP,
        peak_after(rs, k) >= 0,
    decreases k,
{
    lemma_cum_bounds(rs, k);
    if k > 0 {
        lemma_peak_bounds(rs, k - 1);
        lemma_cum_bounds(rs, k - 1);
    } else {
        lemma_cum_bounds(rs, 0);
    }
}


/// Computes `spec_max_drawdown`.
pub fn max_drawdown_of(rets: &Vec<i64>) -> (r: u64)
    requires
        forall|k: int| 0 <= k < rets@.len() ==> -(SCALE as int) <= #[trigger] rets@[k]
            <= MAX_RETURN,
    ensures
        r == spec_max_drawdown(rets@),
        r <= SCALE,
{
    let n: usize = rets.len();
    if n == 0 {
        return 0;
    }
    let mut cum: u128 = SCALE as u128;
    let mut peak: u128 = 0;
    let mut maxdd: u64 = 0;
    let mut k: usize = 0;
    proof {
        assert(cum_after(rets@, -1) == SCALE as int);
    }
    while k < n
        invariant
            n == rets@.len(),
            k <= n,
            forall|t: int| 0 <= t < rets@.len() ==> -(SCALE as int) <= #[trigger] rets@[t]
                <= MAX_RETURN,
            cum == cum_after(rets@, k - 1),
            cum <= CUM_CAP,
            k == 0 ==> peak == 0 && maxdd == 0,
            k > 0 ==> peak == peak_after(rets@, k - 1) && maxdd == mdd_upto(rets@, k - 1),
            peak <= CUM_CAP,
            maxdd <= SCALE,
        decreases n - k,
    {
        proof {
            lemma_cum_bounds(rets@, k as int);
            if k > 0 {
                lemma_peak_bounds(rets@, k as int - 1);
            }
        }
        let r_k: i64 = rets[k];
        let factor: u64 = (SCALE as i64 + r_k) as u64;
        proof {
            assert(cum * factor <= CUM_CAP * (SCALE as int + MAX_RETURN as int))
                by (nonlinear_arith)
                requires
                    0 <= cum <= CUM_CAP,
                    0 <= factor <= SCALE as int + MAX_RETURN as int,
            ;
        }
        let grown: u128 = (cum * (factor as u128)) / (SCALE as u128);
        cum = if grown > CUM_CAP {
            CUM_CAP
        } else {
            grown
        };
        proof {
            assert(cum == cum_after(rets@, k as int));
        }
        if cum > peak {
            peak = cum;
        }
        proof {
            if k == 0 {
                assert(peak == cum_after(rets@, 0));
                assert(peak == peak_after(rets@, 0));
            } else {
                assert(peak == peak_after(rets@, k as int));
            }
        }
        // The drawdown from the running peak, zero on a zero peak.
        let dd: u64 = if peak == 0 {
            0
        } else {
            proof {
                crate::fixed::lemma_rate_bounds(
                    peak as int - cum as int,
                    peak as int,
                );
            }
            (((peak - cum) * (SCALE as u128)) / peak) as u64
        };
        proof {
            assert(dd == drawdown_at(rets@, k as int));
        }
        if dd > maxdd {
            maxdd = dd;
        }
        proof {
            if k == 0 {
                assert(maxdd == mdd_upto(rets@, 0));
            } else {
                assert(maxdd == mdd_upto(rets@, k as int));
            }
        }
        k += 1;
    }
    maxdd
}


/// The Sharpe ratio of a return list over a risk-free rate.
pub fn sharpe_ratio(rets: &Vec<i64>, risk_free: i64) -> (r: i64)
    requires
        rets@.len() <= MAX_SAMPLES,
        forall|k: int| 0 <= k < rets@.len() ==> -(SCALE as int) <= #[trigger] rets@[k]
            <= MAX_RETURN,
        -(SCALE as int) <= risk_free <= MAX_RETURN,
    ensures
        r == spec_sharpe_excess(rets@, risk_free as int),
{
    sharpe_excess_of(rets, risk_free)
}

/// How many returns of the list are strictly positive.
pub open spec fn count_pos(rs: Seq<i64>) -> int
    decreases rs.len(),
{
    if rs.len() == 0 {
        0
    } else {
        count_pos(rs.drop_last()) + if rs.last() > 0 {
            1int
        } else {
            0int
        }
    }
}

/// The share of winning trades in a return list.
pub open spec fn spec_win_rate(rs: Seq<i64>) -> int {
    spec_rate(count_pos(rs), rs.len() as int)
}

/// The count of positive returns never exceeds the length.
pub proof fn lemma_count_pos_le(rs: Seq<i64>)
    ensures
        0 <= count_pos(rs) <= rs.len(),
    decreases rs.len(),
{
    if rs.len() > 0 {
        lemma_count_pos_le(rs.drop_last());
    }
}

/// Computes `spec_win_rate`.
pub fn win_rate(rets: &Vec<i64>) -> (r: u64)
    ensures
        r == spec_win_rate(rets@),
        r <= SCALE,
{
    let n: usize = rets.len();
    let mut cnt: usize = 0;
    let mut i: usize = 0;
    while i < n
        invariant
            n == rets@.len(),
            i <= n,
            cnt == count_pos(rets@.subrange(0, i as int)),
            cnt <= i,
        decreases n - i,
    {
        proof {
            assert(rets@.subrange(0, i + 1 as int).drop_last() =~= rets@.subrange(0, i as int));
            assert(rets@.subrange(0, i + 1 as int).last() == rets@[i as int]);
        }
        if rets[i] > 0 {
            cnt += 1;
        }
        i += 1;
    }
    proof {
        assert(rets@.subrange(0, n as int) =~= rets@);
        lemma_count_pos_le(rets@);
        crate::fixed::lemma_rate_bounds(count_pos(rets@), rets@.len() as int);
    }
    crate::fixed::rate_exec(cnt, n)
}

/// The summed gains of the strictly positive returns.
pub open spec fn sum_pos(rs: Seq<i64>) -> int
    decreases rs.len(),
{
    if rs.len() == 0 {
        0
    } else {
        sum_pos(rs.drop_last()) + if rs.last() > 0 {
            rs.last() as int
        } else {
            0int
        }
    }
}

/// The summed magnitudes of the strictly negative returns.
pub open spec fn sum_neg(rs: Seq<i64>) -> int
    decreases rs.len(),
{
    if rs.len() == 0 {
        0
    } else {
        sum_neg(rs.drop_last()) + if rs.last() < 0 {
            -(rs.last() as int)
        } else {
            0int
        }
    }
}


/// One-sided sums stay within their own counts times the one-sided bounds.
pub proof fn lemma_sided_sum_count_bounds(rs: Seq<i64>, cl: int, ch: int)
    requires
        cl >= 0,
        ch >= 0,
        forall|k: int| 0 <= k < rs.len() ==> -cl <= #[trigger] rs[k] <= ch,
    ensures
        0 <= sum_pos(rs) <= count_pos(rs) * ch,
        0 <= sum_neg(rs) <= (rs.len() - count_pos(rs)) * cl,
        0 <= count_pos(rs) <= rs.len(),
    decreases rs.len(),
{
    if rs.len() == 0 {
        assert(count_pos(rs) * ch == 0) by (nonlinear_arith)
            requires
                count_pos(rs) == 0,
        ;
        assert((rs.len() - count_pos(rs)) * cl == 0) by (nonlinear_arith)
            requires
                rs.len() - count_pos(rs) == 0,
        ;
    } else {
        let pre = rs.drop_last();
        lemma_sided_sum_count_bounds(pre, cl, ch);
        let p = count_pos(pre);
        let q = pre.len() - p;
        if rs.last() > 0 {
            assert((p + 1) * ch == p * ch + ch) by (nonlinear_arith);
        } else {
            assert((q + 1) * cl == q * cl + cl) by (nonlinear_arith);
        }
    }
}

/// The conventional profit factor: gross gains over gross losses, as a
/// fraction of `SCALE`; `None` stands for the infinite factor of a list
/// without losses.
pub open spec fn spec_profit_factor_sums(rs: Seq<i64>) -> Option<u128> {
    if sum_neg(rs) == 0 {
        None
    } else {
        Some(((sum_pos(rs) * SCALE) / sum_neg(rs)) as u128)
    }
}

/// Computes `spec_profit_factor_sums`.
pub fn profit_factor(rets: &Vec<i64>) -> (r: Option<u128>)
    requires
        rets@.len() <= MAX_SAMPLES,
        forall|k: int| 0 <= k < rets@.len() ==> -(MAX_RETURN as int) <= #[trigger] rets@[k]
            <= MAX_RETURN,
    ensures
        r == spec_profit_factor_sums(rets@),
{
    let n: usize = rets.len();
    let mut gains: u128 = 0;
    let mut losses: u128 = 0;
    let mut i: usize = 0;
    while i < n
        invariant
            n == rets@.len(),
            n <= MAX_SAMPLES,
            forall|k: int| 0 <= k < rets@.len() ==> -(MAX_RETURN as int) <= #[trigger] rets@[k]
                <= MAX_RETURN,
            i <= n,
            gains == sum_pos(rets@.subrange(0, i as int)),
            losses == sum_neg(rets@.subrange(0, i as int)),
            gains <= i as int * MAX_RETURN as int,
            losses <= i as int * MAX_RETURN as int,
        decreases n - i,
    {
        proof {
            assert(rets@.subrange(0, i + 1 as int).drop_last() =~= rets@.subrange(0, i as int));
            assert(rets@.subrange(0, i + 1 as int).last() == rets@[i as int]);
            assert((i + 1) * MAX_RETURN as int == i * MAX_RETURN as int + MAX_RETURN as int)
                by (nonlinear_arith);
        }
        let v = rets[i];
        if v > 0 {
            gains = gains + (v as u128);
        } else if v < 0 {
            losses = losses + ((-v) as u128);
        }
        i += 1;
    }
    proof {
        assert(rets@.subrange(0, n as int) =~= rets@);
    }
    if losses == 0 {
        None
    } else {
        proof {
            assert(gains * SCALE <= u128::MAX) by (nonlinear_arith)
                requires
                    0 <= gains <= MAX_SAMPLES as int * MAX_RETURN as int,
            ;
        }
        Some((gains * (SCALE as u128)) / losses)
    }
}

/// The running peak of a value series over positions `0 ..= k`.
pub open spec fn vpeak(vs: Seq<u64>, k: int) -> int
    recommends
        0 <= k < vs.len(),
    decreases k + 1,
{
    if k <= 0 {
        vs[0] as int
    } else {
        max(vpeak(vs, k - 1), vs[k] as int)
    }
}

/// The drawdown a value shows against the peak before it: zero when it sets
/// a new peak, else its fall from that peak as a fraction of it.
pub open spec fn vdd_at(vs: Seq<u64>, k: int) -> int {
    if vs[k] > vpeak(vs, k - 1) {
        0
    } else {
        spec_rate(vpeak(vs, k - 1) - vs[k], vpeak(vs, k - 1))
    }
}

/// The maximum drawdown over positions `1 ..= k`.
pub open spec fn vmdd_upto(vs: Seq<u64>, k: int) -> int
    recommends
        1 <= k < vs.len(),
    decreases k,
{
    if k <= 1 {
        vdd_at(vs, 1)
    } else {
        max(vmdd_upto(vs, k - 1), vdd_at(vs, k))
    }
}

/// The maximum drawdown of a value series; `0` on fewer than two values.
pub open spec fn spec_value_drawdown(vs: Seq<u64>) -> int {
    if vs.len() <= 1 {
        0
    } else {
        vmdd_upto(vs, vs.len() - 1)
    }
}

/// The peak is an actual value of the series prefix and at least the first.
pub proof fn lemma_vpeak_bounds(vs: Seq<u64>, k: int)
    requires
        0 <= k < vs.len(),
    ensures
        vpeak(vs, k) >= vs[k],
        vpeak(vs, k) >= 0,
    decreases k,
{
    if k > 0 {
        lemma_vpeak_bounds(vs, k - 1);
    }
}


/// Computes `spec_value_drawdown` over an asset-value series.
pub fn max_drawdown(values: &Vec<u64>) -> (r: u64)
    ensures
        r == spec_value_drawdown(values@),
        r <= SCALE,
{
    let n: usize = values.len();
    if n <= 1 {
        return 0;
    }
    let mut peak: u64 = values[0];
    let mut maxdd: u64 = 0;
    let mut k: usize = 1;
    while k < n
        invariant
            n == values@.len(),
            1 <= k <= n,
            peak == vpeak(values@, k - 1),
            k == 1 ==> maxdd == 0,
            k > 1 ==> maxdd == vmdd_upto(values@, k - 1),
            maxdd <= SCALE,
        decreases n - k,
    {
        proof {
            lemma_vpeak_bounds(values@, k - 1);
            if vdd_at(values@, k as int) != 0 {
                crate::fixed::lemma_rate_bounds(
                    vpeak(values@, k - 1) - values@[k as int],
                    vpeak(values@, k - 1),
                );
            }
        }
        let v = values[k];
        if v > peak {
            peak = v;
        } else {
            let dd: u64 = if peak == 0 {
                0
            } else {
                proof {
                    crate::fixed::lemma_rate_bounds(peak as int - v as int, peak as int);
                }
                ((crate::fixed::mul_u64(peak - v, SCALE)) / (peak as u128)) as u64
            };
            if dd > maxdd {
                maxdd = dd;
            }
        }
        proof {
            if k == 1 {
                assert(maxdd == vmdd_upto(values@, 1));
            } else {
                assert(maxdd == vmdd_upto(values@, k as int));
            }
        }
        k += 1;
    }
    maxdd
}

/// The Calmar ratio: the excess mean return over the maximum drawdown of
/// the value series, scaled by `SCALE`; `None` stands for the infinite
/// ratio of a series without drawdown, `Some(0)` for degenerate inputs.
pub open spec fn spec_calmar(rs: Seq<i64>, vs: Seq<u64>, risk_free: int) -> Option<i64> {
    if rs.len() == 0 || vs.len() <= 1 {
        Some(0)
    } else if spec_value_drawdown(vs) == 0 {
        None
    } else {
        Some(div_trunc((spec_mean(rs) - risk_free) * SCALE, spec_value_drawdown(vs)) as i64)
    }
}

/// Computes `spec_calmar`.
pub fn calmar_ratio(rets: &Vec<i64>, values: &Vec<u64>, risk_free: i64) -> (r: Option<i64>)
    requires
        rets@.len() <= MAX_SAMPLES,
        forall|k: int| 0 <= k < rets@.len() ==> -(SCALE as int) <= #[trigger] rets@[k]
            <= MAX_RETURN,
        -(SCALE as int) <= risk_free <= MAX_RETURN,
    ensures
        r == spec_calmar(rets@, values@, risk_free as int),
{
    let nr: usize = rets.len();
    let nv: usize = values.len();
    if nr == 0 || nv <= 1 {
        return Some(0);
    }
    let mdd: u64 = max_drawdown(values);
    if mdd == 0 {
        return None;
    }
    let mean: i64 = mean_of(rets);
    proof {
        lemma_mean_bounds(rets@, MAX_RETURN as int);
        let scaled = (mean - risk_free as int) * SCALE;
        assert(-(2 * MAX_RETURN as int * SCALE as int) <= scaled <= 2 * MAX_RETURN as int
            * SCALE as int) by (nonlinear_arith)
            requires
                scaled == (mean - risk_free as int) * SCALE,
                -(2 * MAX_RETURN as int) <= mean - risk_free as int <= 2 * MAX_RETURN as int,
        ;
        assert(mdd as int * (2 * MAX_RETURN as int * SCALE as int) >= 2 * MAX_RETURN as int
            * SCALE as int) by (nonlinear_arith)
            requires
                mdd >= 1,
        ;
        assert(mdd as int * -(2 * MAX_RETURN as int * SCALE as int) == -(mdd as int * (2
            * MAX_RETURN as int * SCALE as int))) by (nonlinear_arith);
        crate::fixed::lemma_div_trunc_asym_bound(
            scaled,
            mdd as int,
            -(2 * MAX_RETURN as int * SCALE as int),
            2 * MAX_RETURN as int * SCALE as int,
        );
    }
    let excess: i128 = (mean as i128 - risk_free as i128) * (SCALE as i128);
    Some(div_trunc_exec(excess, mdd as u128) as i64)
}

/// Computes `spec_mean`.
pub fn mean_of(rets: &Vec<i64>) -> (r: i64)
    requires
        rets@.len() <= MAX_SAMPLES,
        forall|k: int| 0 <= k < rets@.len() ==> -(SCALE as int) <= #[trigger] rets@[k]
            <= MAX_RETURN,
    ensures
        r == spec_mean(rets@),
        -(MAX_RETURN as int) <= r <= MAX_RETURN,
{
    let n: usize = rets.len();
    if n == 0 {
        return 0;
    }
    let mut sum: i128 = 0;
    let mut i: usize = 0;
    while i < n
        invariant
            n == rets@.len(),
            n <= MAX_SAMPLES,
            i <= n,
            forall|k: int| 0 <= k < rets@.len() ==> -(MAX_RETURN as int) <= #[trigger] rets@[k]
                <= MAX_RETURN,
            sum == sum_of(rets@.subrange(0, i as int)),
            -(i as int * MAX_RETURN as int) <= sum <= i as int * MAX_RETURN as int,
        decreases n - i,
    {
        proof {
            lemma_sum_push(rets@, i as int);
            assert((i + 1) * MAX_RETURN as int == i * MAX_RETURN as int + MAX_RETURN as int)
                by (nonlinear_arith);
        }
        sum = sum + rets[i] as i128;
        i += 1;
    }
    proof {
        assert(rets@.subrange(0, n as int) =~= rets@);
        lemma_mean_bounds(rets@, MAX_RETURN as int);
    }
    div_trunc_exec(sum, n as u128) as i64
}

/// The expected return of a return list: the win rate times the average
/// gain plus the loss share times the average (negative) loss, everything
/// truncated on the fixed-point grid.
pub open spec fn spec_expected_return(rs: Seq<i64>) -> int {
    if rs.len() == 0 {
        0
    } else {
        let wr = spec_win_rate(rs);
        let np = max(count_pos(rs), 1);
        let nn = max(rs.len() as int - count_pos(rs), 1);
        let avg_win = sum_pos(rs) / np;
        let avg_loss = -(sum_neg(rs) / nn);
        div_trunc(wr * avg_win + (SCALE - wr) * avg_loss, SCALE as int)
    }
}

/// Computes `spec_expected_return`.
pub fn expected_return(rets: &Vec<i64>) -> (r: i64)
    requires
        rets@.len() <= MAX_SAMPLES,
        forall|k: int| 0 <= k < rets@.len() ==> -(SCALE as int) <= #[trigger] rets@[k]
            <= MAX_RETURN,
    ensures
        r == spec_expected_return(rets@),
{
    let n: usize = rets.len();
    if n == 0 {
        return 0;
    }
    let mut gains: u128 = 0;
    let mut losses: u128 = 0;
    let mut pos: usize = 0;
    let mut i: usize = 0;
    while i < n
        invariant
            n == rets@.len(),
            n <= MAX_SAMPLES,
            forall|k: int| 0 <= k < rets@.len() ==> -(SCALE as int) <= #[trigger] rets@[k]
                <= MAX_RETURN,
            i <= n,
            gains == sum_pos(rets@.subrange(0, i as int)),
            losses == sum_neg(rets@.subrange(0, i as int)),
            pos == count_pos(rets@.subrange(0, i as int)),
            pos <= i,
            gains <= i as int * MAX_RETURN as int,
            losses <= i as int * SCALE as int,
        decreases n - i,
    {
        proof {
            assert(rets@.subrange(0, i + 1 as int).drop_last() =~= rets@.subrange(0, i as int));
            assert(rets@.subrange(0, i + 1 as int).last() == rets@[i as int]);
            assert((i + 1) * MAX_RETURN as int == i * MAX_RETURN as int + MAX_RETURN as int)
                by (nonlinear_arith);
            assert((i + 1) * SCALE as int == i * SCALE as int + SCALE as int) by (nonlinear_arith);
        }
        let v = rets[i];
        if v > 0 {
            gains = gains + (v as u128);
            pos += 1;
        } else if v < 0 {
            losses = losses + ((-v) as u128);
        }
        i += 1;
    }
    proof {
        assert(rets@.subrange(0, n as int) =~= rets@);
        lemma_count_pos_le(rets@);
        crate::fixed::lemma_rate_bounds(count_pos(rets@), rets@.len() as int);
    }
    let wr: u64 = crate::fixed::rate_exec(pos, n);
    let np: u128 = if pos == 0 {
        1
    } else {
        pos as u128
    };
    let nn_raw: usize = n - pos;
    let nn: u128 = if nn_raw == 0 {
        1
    } else {
        nn_raw as u128
    };
    proof {
        vstd::arithmetic::div_mod::lemma_div_is_ordered(
            gains as int,
            MAX_SAMPLES as int * MAX_RETURN as int,
            np as int,
        );
        vstd::arithmetic::div_mod::lemma_div_nonincreasing(gains as int, np as int);
        vstd::arithmetic::div_mod::lemma_div_pos_is_pos(gains as int, np as int);
        vstd::arithmetic::div_mod::lemma_div_nonincreasing(losses as int, nn as int);
        vstd::arithmetic::div_mod::lemma_div_pos_is_pos(losses as int, nn as int);
        assert(n as int * MAX_RETURN as int <= MAX_SAMPLES as int * MAX_RETURN as int)
            by (nonlinear_arith)
            requires
                0 <= n as int <= MAX_SAMPLES as int,
        ;
        assert(n as int * SCALE as int <= MAX_SAMPLES as int * SCALE as int) by (nonlinear_arith)
            requires
                0 <= n as int <= MAX_SAMPLES as int,
        ;
    }
    let avg_win: u128 = gains / np;
    let avg_loss_mag: u128 = losses / nn;
    proof {
        lemma_sided_sum_count_bounds(rets@, SCALE as int, MAX_RETURN as int);
        if pos == 0 {
            assert(count_pos(rets@) * MAX_RETURN as int == 0) by (nonlinear_arith)
                requires
                    count_pos(rets@) == 0,
            ;
        } else {
            assert(gains <= np as int * MAX_RETURN as int) by (nonlinear_arith)
                requires
                    gains <= count_pos(rets@) * MAX_RETURN as int,
                    np == count_pos(rets@),
            ;
            vstd::arithmetic::div_mod::lemma_div_is_ordered(
                gains as int,
                np as int * MAX_RETURN as int,
                np as int,
            );
            vstd::arithmetic::div_mod::lemma_div_multiples_vanish(MAX_RETURN as int, np as int);
        }
        vstd::arithmetic::div_mod::lemma_div_pos_is_pos(gains as int, np as int);
        if nn_raw == 0 {
            assert((rets@.len() - count_pos(rets@)) * SCALE as int == 0) by (nonlinear_arith)
                requires
                    rets@.len() - count_pos(rets@) == 0,
            ;
        } else {
            assert(losses <= nn as int * SCALE as int) by (nonlinear_arith)
                requires
                    losses <= (rets@.len() - count_pos(rets@)) * SCALE as int,
                    nn == rets@.len() - count_pos(rets@),
            ;
            vstd::arithmetic::div_mod::lemma_div_is_ordered(
                losses as int,
                nn as int * SCALE as int,
                nn as int,
            );
            vstd::arithmetic::div_mod::lemma_div_multiples_vanish(SCALE as int, nn as int);
        }
        vstd::arithmetic::div_mod::lemma_div_pos_is_pos(losses as int, nn as int);
        assert(0 <= wr as int * avg_win as int <= SCALE as int * MAX_RETURN as int)
            by (nonlinear_arith)
            requires
                0 <= wr <= SCALE,
                0 <= avg_win as int <= MAX_RETURN as int,
        ;
        assert(0 <= (SCALE - wr) as int * avg_loss_mag as int <= SCALE as int * SCALE as int)
            by (nonlinear_arith)
            requires
                0 <= SCALE - wr <= SCALE,
                0 <= avg_loss_mag as int <= SCALE as int,
        ;
    }
    let num: i128 = (wr as i128) * (avg_win as i128) - ((SCALE - wr) as i128) * (avg_loss_mag
        as i128);
    proof {
        let avg_loss = -(sum_neg(rets@) / max(rets@.len() as int - count_pos(rets@), 1));
        assert((SCALE as int - wr) * avg_loss == -((SCALE as int - wr) * (sum_neg(rets@) / max(
            rets@.len() as int - count_pos(rets@),
            1,
        )))) by (nonlinear_arith)
            requires
                avg_loss == -(sum_neg(rets@) / max(rets@.len() as int - count_pos(rets@), 1)),
        ;
        assert(num == wr as int * (sum_pos(rets@) / max(count_pos(rets@), 1)) + (SCALE as int
            - wr) * avg_loss);
        assert(SCALE as int * -(SCALE as int) == -(SCALE as int * SCALE as int))
            by (nonlinear_arith);
        crate::fixed::lemma_div_trunc_asym_bound(
            num as int,
            SCALE as int,
            -(SCALE as int),
            MAX_RETURN as int,
        );
    }
    div_trunc_exec(num, SCALE as u128) as i64
}


/// How many returns of the list are strictly negative.
pub open spec fn count_neg(rs: Seq<i64>) -> int
    decreases rs.len(),
{
    if rs.len() == 0 {
        0
    } else {
        count_neg(rs.drop_last()) + if rs.last() < 0 {
            1int
        } else {
            0int
        }
    }
}

/// The summed squares of the strictly negative returns.
pub open spec fn sum_sq_neg(rs: Seq<i64>) -> int
    decreases rs.len(),
{
    if rs.len() == 0 {
        0
    } else {
        sum_sq_neg(rs.drop_last()) + if rs.last() < 0 {
            rs.last() * rs.last()
        } else {
            0int
        }
    }
}

/// The downside squares stay within the count times the squared loss bound.
pub proof fn lemma_neg_sq_bounds(rs: Seq<i64>, cl: int)
    requires
        cl >= 0,
        forall|k: int| 0 <= k < rs.len() ==> -cl <= #[trigger] rs[k],
    ensures
        0 <= count_neg(rs) <= rs.len(),
        0 <= sum_sq_neg(rs) <= rs.len() * (cl * cl),
    decreases rs.len(),
{
    if rs.len() == 0 {
        assert(rs.len() * (cl * cl) == 0) by (nonlinear_arith)
            requires
                rs.len() == 0,
        ;
    } else {
        let n = rs.len() as int;
        lemma_neg_sq_bounds(rs.drop_last(), cl);
        if rs.last() < 0 {
            assert(0 <= rs.last() * rs.last() <= cl * cl) by (nonlinear_arith)
                requires
                    -cl <= rs.last() < 0,
            ;
        }
        assert((n - 1) * (cl * cl) + cl * cl == n * (cl * cl)) by (nonlinear_arith);
    }
}

/// The Sortino ratio: the excess mean over the downside deviation — the
/// root of the mean squared negative return — scaled by `SCALE`.  `None`
/// stands for the infinite ratio of a list without negative returns;
/// degenerate inputs fall back to zero.
pub open spec fn spec_sortino(rs: Seq<i64>, risk_free: int) -> Option<i64> {
    if rs.len() == 0 {
        Some(0)
    } else if count_neg(rs) == 0 {
        None
    } else {
        let dvar = sum_sq_neg(rs) / count_neg(rs);
        let dd = sqrt_floor(dvar as nat) as int;
        if dd == 0 {
            Some(0)
        } else {
            Some(div_trunc((spec_mean(rs) - risk_free) * SCALE, dd) as i64)
        }
    }
}

/// Computes `spec_sortino`.
pub fn sortino_ratio(rets: &Vec<i64>, risk_free: i64) -> (r: Option<i64>)
    requires
        rets@.len() <= MAX_SAMPLES,
        forall|k: int| 0 <= k < rets@.len() ==> -(SCALE as int) <= #[trigger] rets@[k]
            <= MAX_RETURN,
        -(SCALE as int) <= risk_free <= MAX_RETURN,
    ensures
        r == spec_sortino(rets@, risk_free as int),
{
    let n: usize = rets.len();
    if n == 0 {
        return Some(0);
    }
    let mut neg: usize = 0;
    let mut sq: u128 = 0;
    let mut i: usize = 0;
    while i < n
        invariant
            n == rets@.len(),
            n <= MAX_SAMPLES,
            forall|k: int| 0 <= k < rets@.len() ==> -(SCALE as int) <= #[trigger] rets@[k]
                <= MAX_RETURN,
            i <= n,
            neg == count_neg(rets@.subrange(0, i as int)),
            neg <= i,
            sq == sum_sq_neg(rets@.subrange(0, i as int)),
            sq <= i as int * (SCALE as int * SCALE as int),
        decreases n - i,
    {
        proof {
            assert(rets@.subrange(0, i + 1 as int).drop_last() =~= rets@.subrange(0, i as int));
            assert(rets@.subrange(0, i + 1 as int).last() == rets@[i as int]);
            assert((i + 1) * (SCALE as int * SCALE as int) == i * (SCALE as int * SCALE as int)
                + SCALE as int * SCALE as int) by (nonlinear_arith);
        }
        let v = rets[i];
        if v < 0 {
            proof {
                assert(0 <= v as int * v as int <= SCALE as int * SCALE as int)
                    by (nonlinear_arith)
                    requires
                        -(SCALE as int) <= v < 0,
                ;
            }
            neg += 1;
            sq = sq + ((v as i128) * (v as i128)) as u128;
        }
        i += 1;
    }
    proof {
        assert(rets@.subrange(0, n as int) =~= rets@);
    }
    if neg == 0 {
        return None;
    }
    let dvar: u128 = sq / (neg as u128);
    let dd: u128 = isqrt(dvar);
    if dd == 0 {
        return Some(0);
    }
    let mean: i64 = mean_of(rets);
    proof {
        crate::fixed::lemma_sqrt_floor_props(dvar as nat);
        let scaled = (mean - risk_free as int) * SCALE;
        assert(-(2 * MAX_RETURN as int * SCALE as int) <= scaled <= 2 * MAX_RETURN as int
            * SCALE as int) by (nonlinear_arith)
            requires
                scaled == (mean - risk_free as int) * SCALE,
                -(2 * MAX_RETURN as int) <= mean - risk_free as int <= 2 * MAX_RETURN as int,
        ;
        assert(dd as int * (2 * MAX_RETURN as int * SCALE as int) >= 2 * MAX_RETURN as int
            * SCALE as int) by (nonlinear_arith)
            requires
                dd >= 1,
        ;
        assert(dd as int * -(2 * MAX_RETURN as int * SCALE as int) == -(dd as int * (2
            * MAX_RETURN as int * SCALE as int))) by (nonlinear_arith);
        crate::fixed::lemma_div_trunc_asym_bound(
            scaled,
            dd as int,
            -(2 * MAX_RETURN as int * SCALE as int),
            2 * MAX_RETURN as int * SCALE as int,
        );
    }
    let excess: i128 = (mean as i128 - risk_free as i128) * (SCALE as i128);
    Some(div_trunc_exec(excess, dd) as i64)
}

} // verus!
