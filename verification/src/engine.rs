//! The backtest engine's core: the exit-policy state machine that decides,
//! day by day, how a simulated trade ends.
//!
//! The scan runs over days `offset + 1 ..= offset + in_days`, each day
//! checked exactly once in increasing order, the earliest qualifying day
//! winning.  On the first tradable day a gap-down pre-empts everything;
//! on every scanned day the target is checked before the stop conditions.

use vstd::prelude::*;

use crate::bar::{cand_views, series_wf, sig_views, Bar, Candidate, CandidateV, Signal, SignalV};
use crate::fixed::{
    div_trunc, div_trunc_exec, mul_diff_u64, mul_i64_u64, mul_u64, rate_exec, ret_frac,
    ret_frac_exec, spec_rate, MAX_HORIZON, MAX_PRICE, MAX_RETURN, MAX_SAMPLES, SCALE,
};
use crate::metrics::{
    max_fold, min_fold, spec_max_drawdown, spec_sharpe, sum_of,
};
use crate::result::{
    detail_views, m_total, res_views, spec_profit_factor, sum_by, BacktestResult, BacktestResultV,
    ExitReason, TradeDetail, TradeDetailV,
};
use crate::signals::{lemma_gen_signals_len, signals_for, spec_gen_signals, EntryRule};
use crate::targets::ReturnTarget;

verus! {

/// The outcome of simulating one trade: how, when, and at what price it
/// ended, and the realized return as a fixed-point fraction of `SCALE`.
#[derive(Clone, Copy, Debug, PartialEq, Eq, Structural)]
pub struct TradeOutcome {
    pub exit_reason: ExitReason,
    /// Days held: `1` is the first tradable day after the decision day.
    pub exit_day: usize,
    pub exit_price: u64,
    pub return_pct: i64,
}

/// The stop price scaled by `SCALE`: comparisons against the stop price
/// `buy * (SCALE - stop_loss) / SCALE` are made exactly by scaling both
/// sides.
pub open spec fn stop_num(buy: int, stop_loss: int) -> int {
    buy * (SCALE - stop_loss)
}

/// Day `bar` closes at or above the target return over `buy`
/// (exact rational comparison of `(close - buy) / buy` with
/// `target / SCALE`).
pub open spec fn hits_target(bar: Bar, buy: int, target: int) -> bool {
    (bar.close - buy) * SCALE >= target * buy
}

/// Day `bar` opens strictly below the stop price: a gap-down.
pub open spec fn gaps_below_stop(bar: Bar, buy: int, stop_loss: int) -> bool {
    bar.open * SCALE < stop_num(buy, stop_loss)
}

/// Day `bar` touches the stop price intraday while opening at or above it:
/// a clean stop, filled exactly at the stop price.
pub open spec fn touches_stop(bar: Bar, buy: int, stop_loss: int) -> bool {
    bar.low * SCALE <= stop_num(buy, stop_loss) && bar.open * SCALE >= stop_num(buy, stop_loss)
}

/// The recorded fill price of a clean stop: the stop price rounded down to
/// the price grid.
pub open spec fn stop_fill_price(buy: int, stop_loss: int) -> int {
    stop_num(buy, stop_loss) / (SCALE as int)
}

/// Whether scanning day `i` ends the trade.
pub open spec fn day_triggers(data: Seq<Bar>, buy: int, pol: ReturnTarget, offset: int, i: int) -> bool {
    ||| hits_target(data[i], buy, pol.target_return as int)
    ||| (i > offset + 1 && gaps_below_stop(data[i], buy, pol.stop_loss as int))
    ||| touches_stop(data[i], buy, pol.stop_loss as int)
}

/// The outcome of the day-by-day scan, starting at day `i`, with days
/// before `i` already found not to trigger.  Past the horizon the trade
/// expires at the last day's close.
pub open spec fn scan_from(data: Seq<Bar>, buy: int, pol: ReturnTarget, offset: int, i: int) -> TradeOutcome
    recommends
        pol.wf(),
        buy > 0,
        offset + 1 <= i,
    decreases offset + pol.in_days + 1 - i,
{
    if i > offset + pol.in_days {
        let last = data[offset + pol.in_days];
        TradeOutcome {
            exit_reason: ExitReason::TimeExpired,
            exit_day: pol.in_days,
            exit_price: last.close,
            return_pct: ret_frac(buy, last.close as int) as i64,
        }
    } else {
        let bar = data[i];
        if hits_target(bar, buy, pol.target_return as int) {
            TradeOutcome {
                exit_reason: ExitReason::TargetReached,
                exit_day: (i - offset) as usize,
                exit_price: bar.close,
                return_pct: ret_frac(buy, bar.close as int) as i64,
            }
        } else if i > offset + 1 && gaps_below_stop(bar, buy, pol.stop_loss as int) {
            TradeOutcome {
                exit_reason: ExitReason::StopLossFailed,
                exit_day: (i - offset) as usize,
                exit_price: bar.open,
                return_pct: ret_frac(buy, bar.open as int) as i64,
            }
        } else if touches_stop(bar, buy, pol.stop_loss as int) {
            TradeOutcome {
                exit_reason: ExitReason::StopLoss,
                exit_day: (i - offset) as usize,
                exit_price: stop_fill_price(buy, pol.stop_loss as int) as u64,
                return_pct: (-(pol.stop_loss as int)) as i64,
            }
        } else {
            scan_from(data, buy, pol, offset, i + 1)
        }
    }
}

/// The exit-policy state machine for one trade bought at `buy` on decision
/// day `offset`: a gap-down on the first tradable day fails the stop
/// outright; otherwise the scan runs day by day.
pub open spec fn spec_simulate(data: Seq<Bar>, buy: int, pol: ReturnTarget, offset: int) -> TradeOutcome
    recommends
        pol.wf(),
        buy > 0,
        offset + pol.in_days < data.len(),
{
    if gaps_below_stop(data[offset + 1], buy, pol.stop_loss as int) {
        TradeOutcome {
            exit_reason: ExitReason::StopLossFailed,
            exit_day: 1,
            exit_price: data[offset + 1].open,
            return_pct: ret_frac(buy, data[offset + 1].open as int) as i64,
        }
    } else {
        scan_from(data, buy, pol, offset, offset + 1)
    }
}

/// A day that does not trigger is skipped by the scan.
pub proof fn lemma_scan_skip(data: Seq<Bar>, buy: int, pol: ReturnTarget, offset: int, i: int)
    requires
        offset + 1 <= i <= offset + pol.in_days,
        !day_triggers(data, buy, pol, offset, i),
    ensures
        scan_from(data, buy, pol, offset, i) == scan_from(data, buy, pol, offset, i + 1),
{
}

/// Simulates one trade: the executable exit policy, equal to
/// `spec_simulate` on every admissible input.
pub fn simulate(data: &Vec<Bar>, buy_price: u64, pol: &ReturnTarget, offset: usize) -> (out: TradeOutcome)
    requires
        pol.wf(),
        1 <= buy_price <= MAX_PRICE,
        series_wf(data@),
        offset + pol.in_days < data@.len(),
    ensures
        out == spec_simulate(data@, buy_price as int, *pol, offset as int),
        1 <= out.exit_day <= pol.in_days,
        out.exit_price <= MAX_PRICE,
        -(SCALE as int) <= out.return_pct <= MAX_RETURN,
{
    let ghost b = buy_price as int;
    let ghost sl = pol.stop_loss as int;
    let n: usize = data.len();
    let sn: u128 = mul_u64(buy_price, SCALE - pol.stop_loss);
    proof {
        assert(sn == stop_num(b, sl));
    }

    // First-day gap check: an open below the stop price fails the stop at
    // once, and no further day is scanned.
    let first = data[offset + 1];
    if mul_u64(first.open, SCALE) < sn {
        let rp = ret_frac_exec(buy_price, first.open);
        return TradeOutcome {
            exit_reason: ExitReason::StopLossFailed,
            exit_day: 1,
            exit_price: first.open,
            return_pct: rp,
        };
    }

    let mut i: usize = offset + 1;
    while i <= offset + pol.in_days
        invariant
            pol.wf(),
            1 <= buy_price <= MAX_PRICE,
            series_wf(data@),
            offset + pol.in_days < data@.len(),
            b == buy_price as int,
            sl == pol.stop_loss as int,
            sn == stop_num(b, sl),
            offset + 1 <= i <= offset + pol.in_days + 1,
            n == data@.len(),
            !gaps_below_stop(data@[offset + 1], b, sl),
            forall|j: int| offset + 1 <= j < i ==> !day_triggers(data@, b, *pol, offset as int, j),
            scan_from(data@, b, *pol, offset as int, (offset + 1) as int) == scan_from(
                data@,
                b,
                *pol,
                offset as int,
                i as int,
            ),
        decreases offset + pol.in_days + 1 - i,
    {
        let bar = data[i];

        // Target first: it takes priority over both stop checks on the
        // same day.
        let gain: i128 = mul_diff_u64(bar.close, buy_price, SCALE);
        let need: i128 = mul_i64_u64(pol.target_return, buy_price);
        if gain >= need {
            let rp = ret_frac_exec(buy_price, bar.close);
            return TradeOutcome {
                exit_reason: ExitReason::TargetReached,
                exit_day: i - offset,
                exit_price: bar.close,
                return_pct: rp,
            };
        }

        // A gap-down on a later day fails the stop at the open.
        if i > offset + 1 && mul_u64(bar.open, SCALE) < sn {
            let rp = ret_frac_exec(buy_price, bar.open);
            return TradeOutcome {
                exit_reason: ExitReason::StopLossFailed,
                exit_day: i - offset,
                exit_price: bar.open,
                return_pct: rp,
            };
        }

        // A clean intraday touch fills exactly at the stop price.
        let low_n = mul_u64(bar.low, SCALE);
        let open_n = mul_u64(bar.open, SCALE);
        if low_n <= sn && open_n >= sn {
            proof {
                assert(stop_num(b, sl) <= b * SCALE) by (nonlinear_arith)
                    requires
                        b >= 1,
                        0 <= sl <= SCALE,
                ;
                vstd::arithmetic::div_mod::lemma_div_is_ordered(
                    stop_num(b, sl),
                    b * SCALE,
                    SCALE as int,
                );
                vstd::arithmetic::div_mod::lemma_div_multiples_vanish(b, SCALE as int);
                vstd::arithmetic::div_mod::lemma_div_pos_is_pos(stop_num(b, sl), SCALE as int);
            }
            let fill: u64 = (sn / (SCALE as u128)) as u64;
            return TradeOutcome {
                exit_reason: ExitReason::StopLoss,
                exit_day: i - offset,
                exit_price: fill,
                return_pct: -(pol.stop_loss as i64),
            };
        }

        proof {
            lemma_scan_skip(data@, b, *pol, offset as int, i as int);
        }
        i += 1;
    }

    // No day triggered: the trade expires at the horizon's close.
    let last = data[offset + pol.in_days];
    let rp = ret_frac_exec(buy_price, last.close);
    let mut out = TradeOutcome {
        exit_reason: ExitReason::TimeExpired,
        exit_day: pol.in_days,
        exit_price: last.close,
        return_pct: rp,
    };

    // Single-day horizons re-check the stop price after the expiry path, as
    // the policy prescribes; the day-one gap and touch checks above already
    // cover both cases, so the verifier confirms this branch never fires.
    if pol.in_days == 1 {
        let day = data[offset + 1];
        if mul_u64(day.low, SCALE) <= sn {
            if mul_u64(day.open, SCALE) < sn {
                let rp2 = ret_frac_exec(buy_price, day.open);
                out = TradeOutcome {
                    exit_reason: ExitReason::StopLossFailed,
                    exit_day: 1,
                    exit_price: day.open,
                    return_pct: rp2,
                };
            } else {
                out = TradeOutcome {
                    exit_reason: ExitReason::StopLoss,
                    exit_day: 1,
                    exit_price: (sn / (SCALE as u128)) as u64,
                    return_pct: -(pol.stop_loss as i64),
                };
            }
        }
    }
    out
}

/// A signal takes part in the statistics only when its buy price is
/// positive and its series reaches past the horizon; anything else is
/// excluded from the counts, never treated as a loss.
pub open spec fn spec_eligible(sig: SignalV, pol: ReturnTarget, offset: int) -> bool {
    sig.buy_price > 0 && sig.data.len() > offset + pol.in_days
}

/// The simulated outcome of one signal.
pub open spec fn spec_outcome(sig: SignalV, pol: ReturnTarget, offset: int) -> TradeOutcome {
    spec_simulate(sig.data, sig.buy_price as int, pol, offset)
}

/// How many signals take part in the statistics.
pub open spec fn count_eligible(sigs: Seq<SignalV>, pol: ReturnTarget, offset: int) -> int
    decreases sigs.len(),
{
    if sigs.len() == 0 {
        0
    } else {
        count_eligible(sigs.drop_last(), pol, offset) + if spec_eligible(sigs.last(), pol, offset) {
            1int
        } else {
            0int
        }
    }
}

/// How many eligible signals end for the given reason.
pub open spec fn count_reason(sigs: Seq<SignalV>, pol: ReturnTarget, offset: int, reason: ExitReason) -> int
    decreases sigs.len(),
{
    if sigs.len() == 0 {
        0
    } else {
        count_reason(sigs.drop_last(), pol, offset, reason) + if spec_eligible(
            sigs.last(),
            pol,
            offset,
        ) && spec_outcome(sigs.last(), pol, offset).exit_reason == reason {
            1int
        } else {
            0int
        }
    }
}

/// The realized returns of the eligible signals, in their given order.
pub open spec fn returns_of(sigs: Seq<SignalV>, pol: ReturnTarget, offset: int) -> Seq<i64>
    decreases sigs.len(),
{
    if sigs.len() == 0 {
        Seq::empty()
    } else {
        let pre = returns_of(sigs.drop_last(), pol, offset);
        if spec_eligible(sigs.last(), pol, offset) {
            pre.push(spec_outcome(sigs.last(), pol, offset).return_pct)
        } else {
            pre
        }
    }
}

/// The total days held over the eligible signals.
pub open spec fn hold_days_sum(sigs: Seq<SignalV>, pol: ReturnTarget, offset: int) -> int
    decreases sigs.len(),
{
    if sigs.len() == 0 {
        0
    } else {
        hold_days_sum(sigs.drop_last(), pol, offset) + if spec_eligible(sigs.last(), pol, offset) {
            spec_outcome(sigs.last(), pol, offset).exit_day as int
        } else {
            0int
        }
    }
}

/// The per-trade record of one eligible signal.
pub open spec fn spec_detail(sig: SignalV, pol: ReturnTarget, offset: int) -> TradeDetailV {
    let out = spec_outcome(sig, pol, offset);
    TradeDetailV {
        symbol: sig.symbol,
        entry_date: sig.data[offset].date,
        entry_price: sig.buy_price as u64,
        exit_date: sig.data[offset + out.exit_day].date,
        exit_price: out.exit_price,
        return_pct: out.return_pct,
        hold_days: out.exit_day,
        exit_reason: out.exit_reason,
    }
}

/// The per-trade records of the eligible signals, in their given order.
pub open spec fn details_of(sigs: Seq<SignalV>, pol: ReturnTarget, offset: int) -> Seq<TradeDetailV>
    decreases sigs.len(),
{
    if sigs.len() == 0 {
        Seq::empty()
    } else {
        let pre = details_of(sigs.drop_last(), pol, offset);
        if spec_eligible(sigs.last(), pol, offset) {
            pre.push(spec_detail(sigs.last(), pol, offset))
        } else {
            pre
        }
    }
}

/// Extending the signal prefix by one updates every aggregate by that
/// signal's contribution.
pub proof fn lemma_aggregates_push(sigs: Seq<SignalV>, pol: ReturnTarget, offset: int, k: int)
    requires
        0 <= k < sigs.len(),
    ensures
        count_eligible(sigs.subrange(0, k + 1), pol, offset) == count_eligible(
            sigs.subrange(0, k),
            pol,
            offset,
        ) + if spec_eligible(sigs[k], pol, offset) {
            1int
        } else {
            0int
        },
        forall|reason: ExitReason|
            count_reason(sigs.subrange(0, k + 1), pol, offset, reason) == count_reason(
                sigs.subrange(0, k),
                pol,
                offset,
                reason,
            ) + if spec_eligible(sigs[k], pol, offset) && spec_outcome(sigs[k], pol, offset).exit_reason
                == reason {
                1int
            } else {
                0int
            },
        returns_of(sigs.subrange(0, k + 1), pol, offset) == if spec_eligible(sigs[k], pol, offset) {
            returns_of(sigs.subrange(0, k), pol, offset).push(
                spec_outcome(sigs[k], pol, offset).return_pct,
            )
        } else {
            returns_of(sigs.subrange(0, k), pol, offset)
        },
        hold_days_sum(sigs.subrange(0, k + 1), pol, offset) == hold_days_sum(
            sigs.subrange(0, k),
            pol,
            offset,
        ) + if spec_eligible(sigs[k], pol, offset) {
            spec_outcome(sigs[k], pol, offset).exit_day as int
        } else {
            0int
        },
        details_of(sigs.subrange(0, k + 1), pol, offset) == if spec_eligible(sigs[k], pol, offset) {
            details_of(sigs.subrange(0, k), pol, offset).push(spec_detail(sigs[k], pol, offset))
        } else {
            details_of(sigs.subrange(0, k), pol, offset)
        },
{
    assert(sigs.subrange(0, k + 1).drop_last() =~= sigs.subrange(0, k));
    assert(sigs.subrange(0, k + 1).last() == sigs[k]);
}

/// The four outcome counts partition the eligible trades: exactly one exit
/// reason is assigned to each, so the counts sum to the total.
pub proof fn lemma_reason_counts_sum(sigs: Seq<SignalV>, pol: ReturnTarget, offset: int)
    ensures
        count_eligible(sigs, pol, offset) == count_reason(sigs, pol, offset, ExitReason::TargetReached)
            + count_reason(sigs, pol, offset, ExitReason::StopLoss) + count_reason(
            sigs,
            pol,
            offset,
            ExitReason::StopLossFailed,
        ) + count_reason(sigs, pol, offset, ExitReason::TimeExpired),
    decreases sigs.len(),
{
    if sigs.len() > 0 {
        lemma_reason_counts_sum(sigs.drop_last(), pol, offset);
    }
}

/// Every count of a single reason stays within the eligible total.
pub proof fn lemma_count_reason_le(sigs: Seq<SignalV>, pol: ReturnTarget, offset: int, reason: ExitReason)
    ensures
        0 <= count_reason(sigs, pol, offset, reason) <= count_eligible(sigs, pol, offset),
        count_eligible(sigs, pol, offset) <= sigs.len(),
    decreases sigs.len(),
{
    if sigs.len() > 0 {
        lemma_count_reason_le(sigs.drop_last(), pol, offset, reason);
    }
}

/// Gap-down precedence: when the first tradable day opens below the stop
/// price, the outcome is a failed stop at that open, on day one, whatever
/// later days hold.
pub proof fn lemma_gap_down_precedence(data: Seq<Bar>, buy: int, pol: ReturnTarget, offset: int)
    requires
        gaps_below_stop(data[offset + 1], buy, pol.stop_loss as int),
    ensures
        spec_simulate(data, buy, pol, offset).exit_reason == ExitReason::StopLossFailed,
        spec_simulate(data, buy, pol, offset).exit_day == 1,
        spec_simulate(data, buy, pol, offset).exit_price == data[offset + 1].open,
{
}

/// Gap-down precedence, sharpened: after a first-day gap the outcome
/// depends on the first tradable day alone — later days are never scanned.
pub proof fn lemma_gap_down_ignores_later_days(
    d1: Seq<Bar>,
    d2: Seq<Bar>,
    buy: int,
    pol: ReturnTarget,
    offset: int,
)
    requires
        gaps_below_stop(d1[offset + 1], buy, pol.stop_loss as int),
        d1[offset + 1] == d2[offset + 1],
    ensures
        spec_simulate(d1, buy, pol, offset) == spec_simulate(d2, buy, pol, offset),
{
}

/// Target precedence: on the first scanned day that ends the trade, the
/// target check wins over both stop conditions.  If no earlier day
/// triggered and day `i` hits the target, the outcome is `TargetReached`
/// on day `i`, even when a stop condition holds on the same day.
pub proof fn lemma_target_precedence(data: Seq<Bar>, buy: int, pol: ReturnTarget, offset: int, i: int)
    requires
        !gaps_below_stop(data[offset + 1], buy, pol.stop_loss as int),
        offset + 1 <= i <= offset + pol.in_days,
        forall|j: int| offset + 1 <= j < i ==> !day_triggers(data, buy, pol, offset, j),
        hits_target(data[i], buy, pol.target_return as int),
    ensures
        spec_simulate(data, buy, pol, offset).exit_reason == ExitReason::TargetReached,
        spec_simulate(data, buy, pol, offset).exit_day == i - offset,
        spec_simulate(data, buy, pol, offset).exit_price == data[i].close,
    decreases i - offset,
{
    if i == offset + 1 {
    } else {
        assert(!day_triggers(data, buy, pol, offset, i - 1));
        lemma_scan_rejoin(data, buy, pol, offset, i);
    }
}

/// The scan from the first day equals the scan from day `i` when no day
/// before `i` triggers.
pub proof fn lemma_scan_rejoin(data: Seq<Bar>, buy: int, pol: ReturnTarget, offset: int, i: int)
    requires
        offset + 1 <= i <= offset + pol.in_days + 1,
        forall|j: int| offset + 1 <= j < i ==> !day_triggers(data, buy, pol, offset, j),
    ensures
        scan_from(data, buy, pol, offset, offset + 1) == scan_from(data, buy, pol, offset, i),
    decreases i - offset,
{
    if i > offset + 1 {
        lemma_scan_rejoin(data, buy, pol, offset, i - 1);
        lemma_scan_skip(data, buy, pol, offset, i - 1);
    }
}


/// The statistics of one evaluation pass over a list of signals at one
/// offset: each eligible signal is simulated once, and the outcomes are
/// folded into counts, rates, return statistics, and — when asked for —
/// per-trade records.
pub open spec fn spec_evaluate(sigs: Seq<SignalV>, pol: ReturnTarget, offset: int, collect: bool) -> BacktestResultV {
    let total = count_eligible(sigs, pol, offset);
    let winning = count_reason(sigs, pol, offset, ExitReason::TargetReached);
    let stop = count_reason(sigs, pol, offset, ExitReason::StopLoss);
    let fail = count_reason(sigs, pol, offset, ExitReason::StopLossFailed);
    let rets = returns_of(sigs, pol, offset);
    let avg = if total == 0 {
        0int
    } else {
        div_trunc(sum_of(rets), total)
    };
    let hold_avg = if total == 0 {
        0int
    } else {
        (hold_days_sum(sigs, pol, offset) * SCALE) / total
    };
    BacktestResultV {
        total_trades: total as usize,
        winning_trades: winning as usize,
        losing_trades: (total - winning) as usize,
        stop_loss_trades: stop as usize,
        stop_loss_fail_trades: fail as usize,
        win_rate: spec_rate(winning, total) as u64,
        stop_loss_rate: spec_rate(stop, total) as u64,
        stop_loss_fail_rate: spec_rate(fail, total) as u64,
        avg_return: avg as i64,
        max_return: max_fold(rets) as i64,
        max_loss: min_fold(rets) as i64,
        avg_hold_days: hold_avg as u64,
        sharpe_ratio: spec_sharpe(rets) as i64,
        max_drawdown: spec_max_drawdown(rets) as u64,
        profit_factor: spec_profit_factor(winning, total - winning, avg, min_fold(rets)),
        trade_details: if collect {
            Some(details_of(sigs, pol, offset))
        } else {
            None
        },
    }
}

/// Evaluates a list of signals against a return target at one offset: the
/// executable aggregation pass, equal to `spec_evaluate` on every
/// admissible input.  Turning detail collection off changes no numeric
/// field, only drops the per-trade record list.
pub fn evaluate_signals(
    signals: &Vec<Signal>,
    pol: &ReturnTarget,
    forecast_idx: usize,
    collect_details: bool,
) -> (r: BacktestResult)
    requires
        pol.wf(),
        signals@.len() <= MAX_SAMPLES,
        forecast_idx + pol.in_days <= usize::MAX,
        forall|t: int|
            0 <= t < signals@.len() ==> series_wf((#[trigger] signals@[t])@.data) && signals@[t]@.buy_price
                <= MAX_PRICE,
    ensures
        r@ == spec_evaluate(sig_views(signals@), *pol, forecast_idx as int, collect_details),
        r@.wf(),
{
    let ghost sv = sig_views(signals@);
    let ghost off = forecast_idx as int;
    let n: usize = signals.len();
    let mut total: usize = 0;
    let mut winning: usize = 0;
    let mut losing: usize = 0;
    let mut stop_cnt: usize = 0;
    let mut fail_cnt: usize = 0;
    let mut rets: Vec<i64> = Vec::new();
    let mut sum_ret: i128 = 0;
    let mut max_ret: i64 = 0;
    let mut min_ret: i64 = 0;
    let mut hold_sum: u128 = 0;
    let mut details: Vec<TradeDetail> = Vec::new();
    let mut k: usize = 0;
    while k < n
        invariant
            pol.wf(),
            n == signals@.len(),
            n <= MAX_SAMPLES,
            forecast_idx + pol.in_days <= usize::MAX,
            off == forecast_idx as int,
            sv == sig_views(signals@),
            sv.len() == n,
            forall|t: int|
                0 <= t < signals@.len() ==> series_wf((#[trigger] signals@[t])@.data)
                    && signals@[t]@.buy_price <= MAX_PRICE,
            k <= n,
            total == count_eligible(sv.subrange(0, k as int), *pol, off),
            winning == count_reason(sv.subrange(0, k as int), *pol, off, ExitReason::TargetReached),
            stop_cnt == count_reason(sv.subrange(0, k as int), *pol, off, ExitReason::StopLoss),
            fail_cnt == count_reason(sv.subrange(0, k as int), *pol, off, ExitReason::StopLossFailed),
            winning + losing == total,
            stop_cnt + fail_cnt <= losing,
            total <= k,
            rets@ == returns_of(sv.subrange(0, k as int), *pol, off),
            rets@.len() == total,
            forall|t: int|
                0 <= t < rets@.len() ==> -(SCALE as int) <= #[trigger] rets@[t] <= MAX_RETURN,
            sum_ret == sum_of(rets@),
            -(total as int * MAX_RETURN as int) <= sum_ret <= total as int * MAX_RETURN as int,
            max_ret == max_fold(rets@),
            min_ret == min_fold(rets@),
            0 <= max_ret <= MAX_RETURN,
            -(SCALE as int) <= min_ret <= 0,
            hold_sum == hold_days_sum(sv.subrange(0, k as int), *pol, off),
            hold_sum <= total as int * MAX_HORIZON as int,
            collect_details ==> detail_views(details@) == details_of(sv.subrange(0, k as int), *pol, off)
                && details@.len() == total,
            !collect_details ==> details@.len() == 0,
            forall|t: int|
                0 <= t < details@.len() ==> -(SCALE as int) <= (#[trigger] details@[t]).return_pct
                    <= MAX_RETURN,
        decreases n - k,
    {
        proof {
            lemma_aggregates_push(sv, *pol, off, k as int);
            assert(sv[k as int] == signals@[k as int]@);
            assert(sv.subrange(0, k as int).len() == k as int);
        }
        let sig = &signals[k];
        let elig: bool = sig.buy_price > 0 && sig.data.len() > forecast_idx + pol.in_days;
        proof {
            assert(elig == spec_eligible(sv[k as int], *pol, off));
        }
        if elig {
            let buy: u64 = sig.buy_price as u64;
            let out = simulate(&sig.data, buy, pol, forecast_idx);
            proof {
                assert(out == spec_outcome(sv[k as int], *pol, off));
                assert((total + 1) * MAX_RETURN as int == total * MAX_RETURN as int
                    + MAX_RETURN as int) by (nonlinear_arith);
                assert((total + 1) * MAX_HORIZON as int == total * MAX_HORIZON as int
                    + MAX_HORIZON as int) by (nonlinear_arith);
                assert(total as int * MAX_HORIZON as int <= MAX_SAMPLES as int * MAX_HORIZON as int)
                    by (nonlinear_arith)
                    requires
                        0 <= total as int <= MAX_SAMPLES as int,
                ;
            }
            total += 1;
            match out.exit_reason {
                ExitReason::TargetReached => {
                    winning += 1;
                },
                ExitReason::StopLoss => {
                    losing += 1;
                    stop_cnt += 1;
                },
                ExitReason::StopLossFailed => {
                    losing += 1;
                    fail_cnt += 1;
                },
                ExitReason::TimeExpired => {
                    losing += 1;
                },
            }
            proof {
                assert(rets@.push(out.return_pct).drop_last() =~= rets@);
            }
            rets.push(out.return_pct);
            sum_ret = sum_ret + out.return_pct as i128;
            if out.return_pct > max_ret {
                max_ret = out.return_pct;
            }
            if out.return_pct < min_ret {
                min_ret = out.return_pct;
            }
            hold_sum = hold_sum + out.exit_day as u128;
            if collect_details {
                let d = TradeDetail {
                    symbol: sig.symbol.clone(),
                    entry_date: sig.data[forecast_idx].date,
                    entry_price: buy,
                    exit_date: sig.data[forecast_idx + out.exit_day].date,
                    exit_price: out.exit_price,
                    return_pct: out.return_pct,
                    hold_days: out.exit_day,
                    exit_reason: out.exit_reason,
                };
                proof {
                    assert(d@ == spec_detail(sv[k as int], *pol, off));
                    assert(detail_views(details@.push(d)) =~= detail_views(details@).push(d@));
                }
                details.push(d);
            }
        }
        k += 1;
    }
    proof {
        assert(sv.subrange(0, n as int) =~= sv);
        lemma_count_reason_le(sv, *pol, off, ExitReason::StopLoss);
        lemma_count_reason_le(sv, *pol, off, ExitReason::StopLossFailed);
        lemma_count_reason_le(sv, *pol, off, ExitReason::TargetReached);
        lemma_count_reason_le(sv, *pol, off, ExitReason::TimeExpired);
        lemma_reason_counts_sum(sv, *pol, off);
    }
    let win_rate = rate_exec(winning, total);
    let stop_loss_rate = rate_exec(stop_cnt, total);
    let stop_loss_fail_rate = rate_exec(fail_cnt, total);
    let avg_return: i64 = if total == 0 {
        0
    } else {
        proof {
            crate::metrics::lemma_sum_bounds(rets@, -(SCALE as int), MAX_RETURN as int);
            assert(total as int * -(SCALE as int) == -(total as int * SCALE as int))
                by (nonlinear_arith);
            crate::fixed::lemma_div_trunc_asym_bound(
                sum_ret as int,
                total as int,
                -(SCALE as int),
                MAX_RETURN as int,
            );
        }
        div_trunc_exec(sum_ret, total as u128) as i64
    };
    let avg_hold_days: u64 = if total == 0 {
        0
    } else {
        proof {
            assert(hold_sum * SCALE <= (total as int * MAX_HORIZON as int) * SCALE)
                by (nonlinear_arith)
                requires
                    0 <= hold_sum <= total as int * MAX_HORIZON as int,
            ;
            assert((total as int * MAX_HORIZON as int) * SCALE == total as int * (MAX_HORIZON as int
                * SCALE as int)) by (nonlinear_arith);
            vstd::arithmetic::div_mod::lemma_div_is_ordered(
                hold_sum as int * SCALE as int,
                total as int * (MAX_HORIZON as int * SCALE as int),
                total as int,
            );
            vstd::arithmetic::div_mod::lemma_div_multiples_vanish(
                MAX_HORIZON as int * SCALE as int,
                total as int,
            );
            vstd::arithmetic::div_mod::lemma_div_pos_is_pos(
                hold_sum as int * SCALE as int,
                total as int,
            );
        }
        ((hold_sum * (SCALE as u128)) / (total as u128)) as u64
    };
    let mut result = BacktestResult {
        total_trades: total,
        winning_trades: winning,
        losing_trades: losing,
        stop_loss_trades: stop_cnt,
        stop_loss_fail_trades: fail_cnt,
        win_rate,
        stop_loss_rate,
        stop_loss_fail_rate,
        avg_return,
        max_return: max_ret,
        max_loss: min_ret,
        avg_hold_days,
        sharpe_ratio: 0,
        max_drawdown: 0,
        profit_factor: Some(0),
        trade_details: if collect_details {
            Some(details)
        } else {
            None
        },
    };
    proof {
        assert forall|t: int|
            0 <= t < detail_views(details@).len() implies -(SCALE as int) <= (#[trigger] detail_views(
            details@,
        )[t]).return_pct <= MAX_RETURN by {
            assert(detail_views(details@)[t] == details@[t]@);
        }
    }
    result.calculate_advanced_metrics(&rets);
    result
}


/// The success rate of one signal list: the share of eligible trades that
/// reached the target.
pub open spec fn spec_success_rate(sigs: Seq<SignalV>, pol: ReturnTarget, offset: int) -> int {
    spec_rate(
        count_reason(sigs, pol, offset, ExitReason::TargetReached),
        count_eligible(sigs, pol, offset),
    )
}

/// Runs one walk-forward step: prices the candidates of one offset and
/// returns the success rate of the resulting trades.
pub fn run_single_test(
    candidates: &Vec<Candidate>,
    rule: EntryRule,
    pol: &ReturnTarget,
    forecast_idx: usize,
) -> (rate: u64)
    requires
        pol.wf(),
        rule.wf(),
        candidates@.len() <= MAX_SAMPLES,
        forecast_idx + pol.in_days < usize::MAX,
        forall|i: int| 0 <= i < candidates@.len() ==> series_wf((#[trigger] candidates@[i])@.data),
    ensures
        rate == spec_success_rate(
            spec_gen_signals(cand_views(candidates@), rule, forecast_idx as int),
            *pol,
            forecast_idx as int,
        ),
        rate <= SCALE,
{
    let ghost sgv = spec_gen_signals(cand_views(candidates@), rule, forecast_idx as int);
    let sigs = signals_for(rule, candidates, forecast_idx);
    proof {
        lemma_gen_signals_len(cand_views(candidates@), rule, forecast_idx as int);
        lemma_count_reason_le(sgv, *pol, forecast_idx as int, ExitReason::TargetReached);
        crate::fixed::lemma_rate_bounds(
            count_reason(sgv, *pol, forecast_idx as int, ExitReason::TargetReached),
            count_eligible(sgv, *pol, forecast_idx as int),
        );
    }
    let res = evaluate_signals(&sigs, pol, forecast_idx, false);
    res.win_rate
}

/// Runs one walk-forward step and returns the full statistics.
pub fn run_detailed_test(
    candidates: &Vec<Candidate>,
    rule: EntryRule,
    pol: &ReturnTarget,
    forecast_idx: usize,
    collect_details: bool,
) -> (r: BacktestResult)
    requires
        pol.wf(),
        rule.wf(),
        candidates@.len() <= MAX_SAMPLES,
        forecast_idx + pol.in_days < usize::MAX,
        forall|i: int| 0 <= i < candidates@.len() ==> series_wf((#[trigger] candidates@[i])@.data),
    ensures
        r@ == spec_evaluate(
            spec_gen_signals(cand_views(candidates@), rule, forecast_idx as int),
            *pol,
            forecast_idx as int,
            collect_details,
        ),
        r@.wf(),
{
    let sigs = signals_for(rule, candidates, forecast_idx);
    proof {
        lemma_gen_signals_len(cand_views(candidates@), rule, forecast_idx as int);
    }
    evaluate_signals(&sigs, pol, forecast_idx, collect_details)
}

/// The views of a candidate panel: one candidate list per offset, the list
/// at position `i` belonging to offset `i + 1`.
pub open spec fn panel_views(panel: Seq<Vec<Candidate>>) -> Seq<Seq<CandidateV>> {
    panel.map_values(|v: Vec<Candidate>| cand_views(v@))
}

/// The summed success rates of a walk-forward run over a panel.
pub open spec fn sum_rates(panel: Seq<Seq<CandidateV>>, rule: EntryRule, pol: ReturnTarget) -> int
    decreases panel.len(),
{
    if panel.len() == 0 {
        0
    } else {
        sum_rates(panel.drop_last(), rule, pol) + spec_success_rate(
            spec_gen_signals(panel.last(), rule, panel.len() as int),
            pol,
            panel.len() as int,
        )
    }
}

/// The walk-forward score: the mean of the per-offset success rates — not a
/// pooled rate — so every offset weighs the same however many candidates it
/// produced; `0` over an empty panel.
pub open spec fn spec_run_backtest(panel: Seq<Seq<CandidateV>>, rule: EntryRule, pol: ReturnTarget) -> int {
    if panel.len() == 0 {
        0
    } else {
        sum_rates(panel, rule, pol) / (panel.len() as int)
    }
}

/// Every prefix of summed rates stays within `SCALE` per offset.
proof fn lemma_sum_rates_bound(panel: Seq<Seq<CandidateV>>, rule: EntryRule, pol: ReturnTarget)
    ensures
        0 <= sum_rates(panel, rule, pol) <= panel.len() * SCALE,
    decreases panel.len(),
{
    if panel.len() > 0 {
        let n = panel.len() as int;
        lemma_sum_rates_bound(panel.drop_last(), rule, pol);
        let sigs = spec_gen_signals(panel.last(), rule, n);
        lemma_count_reason_le(sigs, pol, n, ExitReason::TargetReached);
        crate::fixed::lemma_rate_bounds(
            count_reason(sigs, pol, n, ExitReason::TargetReached),
            count_eligible(sigs, pol, n),
        );
        assert((n - 1) * SCALE + SCALE == n * SCALE) by (nonlinear_arith);
    }
}

/// Runs the walk-forward backtest: one evaluation per offset in
/// `1 ..= panel.len()`, averaged.
pub fn run_backtest(panel: &Vec<Vec<Candidate>>, rule: EntryRule, pol: &ReturnTarget) -> (score: u64)
    requires
        pol.wf(),
        rule.wf(),
        panel@.len() + pol.in_days < usize::MAX,
        forall|i: int| 0 <= i < panel@.len() ==> (#[trigger] panel@[i])@.len() <= MAX_SAMPLES,
        forall|i: int, j: int|
            0 <= i < panel@.len() && 0 <= j < panel@[i]@.len() ==> series_wf(
                (#[trigger] panel@[i]@[j])@.data,
            ),
    ensures
        score == spec_run_backtest(panel_views(panel@), rule, *pol),
        score <= SCALE,
{
    let ghost pv = panel_views(panel@);
    let n: usize = panel.len();
    if n == 0 {
        return 0;
    }
    let mut sum: u128 = 0;
    let mut i: usize = 0;
    while i < n
        invariant
            pol.wf(),
            rule.wf(),
            n == panel@.len(),
            n + pol.in_days < usize::MAX,
            pv == panel_views(panel@),
            pv.len() == n,
            forall|t: int| 0 <= t < panel@.len() ==> (#[trigger] panel@[t])@.len() <= MAX_SAMPLES,
            forall|t: int, j: int|
                0 <= t < panel@.len() && 0 <= j < panel@[t]@.len() ==> series_wf(
                    (#[trigger] panel@[t]@[j])@.data,
                ),
            i <= n,
            sum == sum_rates(pv.subrange(0, i as int), rule, *pol),
            sum <= i as int * SCALE as int,
        decreases n - i,
    {
        proof {
            assert(pv.subrange(0, i + 1 as int).drop_last() =~= pv.subrange(0, i as int));
            assert(pv.subrange(0, i + 1 as int).last() == pv[i as int]);
            assert(pv[i as int] == cand_views(panel@[i as int]@));
            assert forall|j: int|
                0 <= j < panel@[i as int]@.len() implies series_wf(
                (#[trigger] panel@[i as int]@[j])@.data,
            ) by {}
            assert((i + 1) * SCALE as int == i * SCALE as int + SCALE as int) by (nonlinear_arith);
        }
        let rate = run_single_test(&panel[i], rule, pol, i + 1);
        sum = sum + rate as u128;
        i += 1;
    }
    proof {
        assert(pv.subrange(0, n as int) =~= pv);
        vstd::arithmetic::div_mod::lemma_div_is_ordered(
            sum as int,
            n as int * SCALE as int,
            n as int,
        );
        vstd::arithmetic::div_mod::lemma_div_multiples_vanish(SCALE as int, n as int);
        vstd::arithmetic::div_mod::lemma_div_pos_is_pos(sum as int, n as int);
    }
    (sum / (n as u128)) as u64
}

/// The per-offset results of a detailed walk-forward run.
pub open spec fn spec_detailed_results(
    panel: Seq<Seq<CandidateV>>,
    rule: EntryRule,
    pol: ReturnTarget,
    collect: bool,
) -> Seq<BacktestResultV>
    decreases panel.len(),
{
    if panel.len() == 0 {
        Seq::empty()
    } else {
        spec_detailed_results(panel.drop_last(), rule, pol, collect).push(
            spec_evaluate(
                spec_gen_signals(panel.last(), rule, panel.len() as int),
                pol,
                panel.len() as int,
                collect,
            ),
        )
    }
}

/// The candidates a panel holds in all, across its offsets.
pub open spec fn panel_len_sum(panel: Seq<Seq<CandidateV>>) -> int
    decreases panel.len(),
{
    if panel.len() == 0 {
        0
    } else {
        panel_len_sum(panel.drop_last()) + panel.last().len()
    }
}

/// Runs the detailed walk-forward backtest: the per-offset results pooled
/// by the result aggregator's merge, weighted by trade count.
pub fn run_detailed_backtest(
    panel: &Vec<Vec<Candidate>>,
    rule: EntryRule,
    pol: &ReturnTarget,
    collect_details: bool,
) -> (r: BacktestResult)
    requires
        pol.wf(),
        rule.wf(),
        panel@.len() + pol.in_days < usize::MAX,
        panel_len_sum(panel_views(panel@)) <= MAX_SAMPLES,
        forall|i: int| 0 <= i < panel@.len() ==> (#[trigger] panel@[i])@.len() <= MAX_SAMPLES,
        forall|i: int, j: int|
            0 <= i < panel@.len() && 0 <= j < panel@[i]@.len() ==> series_wf(
                (#[trigger] panel@[i]@[j])@.data,
            ),
    ensures
        r@ == crate::result::spec_merge(
            spec_detailed_results(panel_views(panel@), rule, *pol, collect_details),
        ),
        r@.wf(),
{
    let ghost pv = panel_views(panel@);
    let n: usize = panel.len();
    let mut parts: Vec<BacktestResult> = Vec::new();
    let mut i: usize = 0;
    while i < n
        invariant
            pol.wf(),
            rule.wf(),
            n == panel@.len(),
            n + pol.in_days < usize::MAX,
            pv == panel_views(panel@),
            pv.len() == n,
            panel_len_sum(pv) <= MAX_SAMPLES,
            forall|t: int| 0 <= t < panel@.len() ==> (#[trigger] panel@[t])@.len() <= MAX_SAMPLES,
            forall|t: int, j: int|
                0 <= t < panel@.len() && 0 <= j < panel@[t]@.len() ==> series_wf(
                    (#[trigger] panel@[t]@[j])@.data,
                ),
            i <= n,
            res_views(parts@) == spec_detailed_results(pv.subrange(0, i as int), rule, *pol, collect_details),
            parts@.len() == i,
            forall|t: int| 0 <= t < parts@.len() ==> (#[trigger] parts@[t])@.wf(),
            sum_by(res_views(parts@), m_total()) <= panel_len_sum(pv.subrange(0, i as int)),
        decreases n - i,
    {
        proof {
            assert(pv.subrange(0, i + 1 as int).drop_last() =~= pv.subrange(0, i as int));
            assert(pv.subrange(0, i + 1 as int).last() == pv[i as int]);
            assert(pv[i as int] == cand_views(panel@[i as int]@));
            lemma_gen_signals_len(pv[i as int], rule, i + 1 as int);
            lemma_count_reason_le(
                spec_gen_signals(pv[i as int], rule, i + 1 as int),
                *pol,
                i + 1 as int,
                ExitReason::TargetReached,
            );
        }
        let part = run_detailed_test(&panel[i], rule, pol, i + 1, collect_details);
        proof {
            assert(res_views(parts@.push(part)) =~= res_views(parts@).push(part@));
            assert(res_views(parts@).push(part@).drop_last() =~= res_views(parts@));
        }
        parts.push(part);
        i += 1;
    }
    proof {
        assert(pv.subrange(0, n as int) =~= pv);
    }
    BacktestResult::merge(parts)
}

} // verus!
