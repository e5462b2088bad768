//! Backtest results: per-trade records, aggregate statistics, and their
//! exact fixed-point definitions.

use vstd::prelude::*;

use vstd::math::{abs, max};

use crate::fixed::{
    div_trunc, div_trunc_exec, lemma_div_trunc_asym_bound, mul_u64, rate_exec, spec_rate,
    MAX_HORIZON, MAX_RETURN, MAX_SAMPLES, PF_EPS, SCALE,
};
use crate::metrics::{max_drawdown_of, sharpe_of, spec_max_drawdown, spec_sharpe};

verus! {

/// The profit factor over merged statistics: winning trades times the
/// non-negative part of the average return, against losing trades times the
/// magnitude of the worst loss (floored at `PF_EPS`), as a fraction of
/// `SCALE`.  `None` stands for the infinite factor of a run without losing
/// trades.
pub open spec fn spec_profit_factor(winning: int, losing: int, avg_return: int, max_loss: int) -> Option<u128> {
    if losing == 0 {
        None
    } else {
        Some(
            (((winning * max(avg_return, 0)) * SCALE) / (losing * max(
                abs(max_loss) as int,
                PF_EPS as int,
            ))) as u128,
        )
    }
}

/// Why a simulated trade ended.  The four reasons are mutually exclusive and
/// exhaustive over every trade that was simulated at all.
#[derive(Clone, Copy, Debug, PartialEq, Eq, Structural)]
pub enum ExitReason {
    /// The close reached the target return.
    TargetReached,
    /// The low touched the stop price while the open stayed at or above it:
    /// the order fills exactly at the stop price.
    StopLoss,
    /// The open was already below the stop price: a gap-down, realized at
    /// the open.
    StopLossFailed,
    /// The horizon ran out; the trade exits at the last day's close.
    TimeExpired,
}

/// One closed simulated trade.
#[derive(Debug, Clone)]
pub struct TradeDetail {
    pub symbol: String,
    /// Decision day, as a YYYYMMDD integer.
    pub entry_date: u64,
    pub entry_price: u64,
    /// Exit day, as a YYYYMMDD integer.
    pub exit_date: u64,
    pub exit_price: u64,
    /// Realized return, a fixed-point fraction of `SCALE`.
    pub return_pct: i64,
    pub hold_days: usize,
    pub exit_reason: ExitReason,
}

/// The mathematical content of a `TradeDetail`.
pub struct TradeDetailV {
    pub symbol: Seq<char>,
    pub entry_date: u64,
    pub entry_price: u64,
    pub exit_date: u64,
    pub exit_price: u64,
    pub return_pct: i64,
    pub hold_days: usize,
    pub exit_reason: ExitReason,
}

impl View for TradeDetail {
    type V = TradeDetailV;

    open spec fn view(&self) -> TradeDetailV {
        TradeDetailV {
            symbol: self.symbol@,
            entry_date: self.entry_date,
            entry_price: self.entry_price,
            exit_date: self.exit_date,
            exit_price: self.exit_price,
            return_pct: self.return_pct,
            hold_days: self.hold_days,
            exit_reason: self.exit_reason,
        }
    }
}

/// The views of a sequence of trade details.
pub open spec fn detail_views(s: Seq<TradeDetail>) -> Seq<TradeDetailV> {
    s.map_values(|d: TradeDetail| d@)
}

/// Aggregate statistics of a set of simulated trades.
///
/// Counts are plain; every rate and return field is a fixed-point fraction
/// of `SCALE`; `avg_hold_days` is in days scaled by `SCALE`.  A
/// `profit_factor` of `None` records the infinite factor of a run without
/// losing trades.
#[derive(Debug, Clone)]
pub struct BacktestResult {
    pub total_trades: usize,
    pub winning_trades: usize,
    pub losing_trades: usize,
    pub stop_loss_trades: usize,
    pub stop_loss_fail_trades: usize,
    pub win_rate: u64,
    pub stop_loss_rate: u64,
    pub stop_loss_fail_rate: u64,
    pub avg_return: i64,
    pub max_return: i64,
    pub max_loss: i64,
    pub avg_hold_days: u64,
    pub sharpe_ratio: i64,
    pub max_drawdown: u64,
    pub profit_factor: Option<u128>,
    /// Per-trade records, kept only when detail collection is on.
    pub trade_details: Option<Vec<TradeDetail>>,
}

/// The mathematical content of a `BacktestResult`.
pub struct BacktestResultV {
    pub total_trades: usize,
    pub winning_trades: usize,
    pub losing_trades: usize,
    pub stop_loss_trades: usize,
    pub stop_loss_fail_trades: usize,
    pub win_rate: u64,
    pub stop_loss_rate: u64,
    pub stop_loss_fail_rate: u64,
    pub avg_return: i64,
    pub max_return: i64,
    pub max_loss: i64,
    pub avg_hold_days: u64,
    pub sharpe_ratio: i64,
    pub max_drawdown: u64,
    pub profit_factor: Option<u128>,
    pub trade_details: Option<Seq<TradeDetailV>>,
}

impl View for BacktestResult {
    type V = BacktestResultV;

    open spec fn view(&self) -> BacktestResultV {
        BacktestResultV {
            total_trades: self.total_trades,
            winning_trades: self.winning_trades,
            losing_trades: self.losing_trades,
            stop_loss_trades: self.stop_loss_trades,
            stop_loss_fail_trades: self.stop_loss_fail_trades,
            win_rate: self.win_rate,
            stop_loss_rate: self.stop_loss_rate,
            stop_loss_fail_rate: self.stop_loss_fail_rate,
            avg_return: self.avg_return,
            max_return: self.max_return,
            max_loss: self.max_loss,
            avg_hold_days: self.avg_hold_days,
            sharpe_ratio: self.sharpe_ratio,
            max_drawdown: self.max_drawdown,
            profit_factor: self.profit_factor,
            trade_details: match self.trade_details {
                Some(ds) => Some(detail_views(ds@)),
                None => None,
            },
        }
    }
}

impl BacktestResultV {
    /// The result of a run with no trades at all.
    pub open spec fn empty() -> BacktestResultV {
        BacktestResultV {
            total_trades: 0,
            winning_trades: 0,
            losing_trades: 0,
            stop_loss_trades: 0,
            stop_loss_fail_trades: 0,
            win_rate: 0,
            stop_loss_rate: 0,
            stop_loss_fail_rate: 0,
            avg_return: 0,
            max_return: 0,
            max_loss: 0,
            avg_hold_days: 0,
            sharpe_ratio: 0,
            max_drawdown: 0,
            profit_factor: Some(0),
            trade_details: None,
        }
    }

    /// Internal consistency: the counts decompose, every stored fraction is
    /// within its range, and a present detail list has one record per
    /// counted trade.
    pub open spec fn wf(self) -> bool {
        &&& self.winning_trades + self.losing_trades == self.total_trades
        &&& self.stop_loss_trades + self.stop_loss_fail_trades <= self.losing_trades
        &&& self.win_rate <= SCALE
        &&& self.stop_loss_rate <= SCALE
        &&& self.stop_loss_fail_rate <= SCALE
        &&& -(SCALE as int) <= self.avg_return <= MAX_RETURN
        &&& -(SCALE as int) <= self.max_return <= MAX_RETURN
        &&& -(SCALE as int) <= self.max_loss <= 0
        &&& self.avg_hold_days <= MAX_HORIZON as int * SCALE as int
        &&& match self.trade_details {
            Some(ds) => {
                &&& ds.len() <= self.total_trades
                &&& forall|k: int|
                    0 <= k < ds.len() ==> -(SCALE as int) <= (#[trigger] ds[k]).return_pct
                        <= MAX_RETURN
            },
            None => true,
        }
    }
}


/// The views of a sequence of results.
pub open spec fn res_views(s: Seq<BacktestResult>) -> Seq<BacktestResultV> {
    s.map_values(|r: BacktestResult| r@)
}

/// Sum of an integer measure over a sequence of results.
pub open spec fn sum_by(rs: Seq<BacktestResultV>, f: spec_fn(BacktestResultV) -> int) -> int
    decreases rs.len(),
{
    if rs.len() == 0 {
        0
    } else {
        sum_by(rs.drop_last(), f) + f(rs.last())
    }
}

/// Extending the prefix by one result adds its measure.
pub proof fn lemma_sum_by_push(rs: Seq<BacktestResultV>, f: spec_fn(BacktestResultV) -> int, k: int)
    requires
        0 <= k < rs.len(),
    ensures
        sum_by(rs.subrange(0, k + 1), f) == sum_by(rs.subrange(0, k), f) + f(rs[k]),
{
    assert(rs.subrange(0, k + 1).drop_last() =~= rs.subrange(0, k));
    assert(rs.subrange(0, k + 1).last() == rs[k]);
}

/// A prefix sum of a non-negative measure never exceeds the full sum.
pub proof fn lemma_sum_by_prefix_le(rs: Seq<BacktestResultV>, f: spec_fn(BacktestResultV) -> int, k: int)
    requires
        0 <= k <= rs.len(),
        forall|i: int| 0 <= i < rs.len() ==> f(#[trigger] rs[i]) >= 0,
    ensures
        sum_by(rs.subrange(0, k), f) <= sum_by(rs, f),
    decreases rs.len() - k,
{
    if k == rs.len() {
        assert(rs.subrange(0, k) =~= rs);
    } else {
        lemma_sum_by_push(rs, f, k);
        lemma_sum_by_prefix_le(rs, f, k + 1);
    }
}

/// One item's non-negative measure never exceeds the whole sum.
pub proof fn lemma_sum_by_item_le(rs: Seq<BacktestResultV>, f: spec_fn(BacktestResultV) -> int, k: int)
    requires
        0 <= k < rs.len(),
        forall|i: int| 0 <= i < rs.len() ==> f(#[trigger] rs[i]) >= 0,
    ensures
        0 <= f(rs[k]) <= sum_by(rs, f),
    decreases rs.len(),
{
    if k == rs.len() - 1 {
        lemma_sum_by_prefix_le(rs, f, k);
        assert(rs.subrange(0, k as int).len() == k);
        lemma_nonneg_sum(rs.subrange(0, k as int), f);
        assert(rs.drop_last() =~= rs.subrange(0, rs.len() - 1));
    } else {
        lemma_sum_by_item_le(rs.drop_last(), f, k);
        assert(rs.drop_last()[k] == rs[k]);
        assert(f(rs.last()) >= 0);
    }
}

/// A sum of a non-negative measure is non-negative.
pub proof fn lemma_nonneg_sum(rs: Seq<BacktestResultV>, f: spec_fn(BacktestResultV) -> int)
    requires
        forall|i: int| 0 <= i < rs.len() ==> f(#[trigger] rs[i]) >= 0,
    ensures
        sum_by(rs, f) >= 0,
    decreases rs.len(),
{
    if rs.len() > 0 {
        lemma_nonneg_sum(rs.drop_last(), f);
    }
}


/// The largest `max_return` of the results, folded against a floor of a
/// full loss (`-SCALE`).
pub open spec fn fold_max_return(rs: Seq<BacktestResultV>) -> int
    decreases rs.len(),
{
    if rs.len() == 0 {
        -(SCALE as int)
    } else {
        max(fold_max_return(rs.drop_last()), rs.last().max_return as int)
    }
}

/// The smallest `max_loss` of the results, folded against a ceiling of `0`.
pub open spec fn fold_min_loss(rs: Seq<BacktestResultV>) -> int
    decreases rs.len(),
{
    if rs.len() == 0 {
        0
    } else {
        vstd::math::min(fold_min_loss(rs.drop_last()), rs.last().max_loss as int)
    }
}

/// The returns recorded in a detail list.
pub open spec fn detail_rets(ds: Seq<TradeDetailV>) -> Seq<i64> {
    ds.map_values(|d: TradeDetailV| d.return_pct)
}

/// The detail records a result carries, empty when it carries none.
pub open spec fn result_details(r: BacktestResultV) -> Seq<TradeDetailV> {
    match r.trade_details {
        Some(ds) => ds,
        None => Seq::empty(),
    }
}

/// All detail records of the results, concatenated in their given order.
pub open spec fn concat_details(rs: Seq<BacktestResultV>) -> Seq<TradeDetailV>
    decreases rs.len(),
{
    if rs.len() == 0 {
        Seq::empty()
    } else {
        concat_details(rs.drop_last()) + result_details(rs.last())
    }
}

/// Extending the prefix by one result appends its details.
pub proof fn lemma_concat_details_push(rs: Seq<BacktestResultV>, k: int)
    requires
        0 <= k < rs.len(),
    ensures
        concat_details(rs.subrange(0, k + 1)) == concat_details(rs.subrange(0, k))
            + result_details(rs[k]),
{
    assert(rs.subrange(0, k + 1).drop_last() =~= rs.subrange(0, k));
    assert(rs.subrange(0, k + 1).last() == rs[k]);
}


/// The trade count of a result, as a measure for `sum_by`.
pub open spec fn m_total() -> spec_fn(BacktestResultV) -> int {
    |r: BacktestResultV| r.total_trades as int
}

/// The winning-trade count of a result.
pub open spec fn m_winning() -> spec_fn(BacktestResultV) -> int {
    |r: BacktestResultV| r.winning_trades as int
}

/// The losing-trade count of a result.
pub open spec fn m_losing() -> spec_fn(BacktestResultV) -> int {
    |r: BacktestResultV| r.losing_trades as int
}

/// The stop-loss count of a result.
pub open spec fn m_stop() -> spec_fn(BacktestResultV) -> int {
    |r: BacktestResultV| r.stop_loss_trades as int
}

/// The failed-stop count of a result.
pub open spec fn m_fail() -> spec_fn(BacktestResultV) -> int {
    |r: BacktestResultV| r.stop_loss_fail_trades as int
}

/// The trade-count-weighted average return of a result.
pub open spec fn m_wret() -> spec_fn(BacktestResultV) -> int {
    |r: BacktestResultV| r.avg_return * r.total_trades
}

/// The trade-count-weighted average hold time of a result.
pub open spec fn m_whold() -> spec_fn(BacktestResultV) -> int {
    |r: BacktestResultV| r.avg_hold_days * r.total_trades
}

/// Extending the prefix by one result folds in its extrema.
pub proof fn lemma_folds_push(rs: Seq<BacktestResultV>, k: int)
    requires
        0 <= k < rs.len(),
    ensures
        fold_max_return(rs.subrange(0, k + 1)) == max(
            fold_max_return(rs.subrange(0, k)),
            rs[k].max_return as int,
        ),
        fold_min_loss(rs.subrange(0, k + 1)) == vstd::math::min(
            fold_min_loss(rs.subrange(0, k)),
            rs[k].max_loss as int,
        ),
{
    assert(rs.subrange(0, k + 1).drop_last() =~= rs.subrange(0, k));
    assert(rs.subrange(0, k + 1).last() == rs[k]);
}

/// The merge of many results: counts are summed, averages are re-derived
/// from trade-count-weighted sums, extrema are folded, and the advanced
/// metrics are recomputed from the concatenated per-trade returns rather
/// than from the already-averaged statistics.
pub open spec fn spec_merge(rs: Seq<BacktestResultV>) -> BacktestResultV {
    if rs.len() == 0 {
        BacktestResultV::empty()
    } else {
        let total = sum_by(rs, m_total());
        let winning = sum_by(rs, m_winning());
        let losing = sum_by(rs, m_losing());
        let stop = sum_by(rs, m_stop());
        let fail = sum_by(rs, m_fail());
        let wret = sum_by(rs, m_wret());
        let whold = sum_by(rs, m_whold());
        let all_details = concat_details(rs);
        let all_rets = detail_rets(all_details);
        let avg = if total == 0 {
            0int
        } else {
            div_trunc(wret, total)
        };
        let avg_hold = if total == 0 {
            0int
        } else {
            whold / total
        };
        BacktestResultV {
            total_trades: total as usize,
            winning_trades: winning as usize,
            losing_trades: losing as usize,
            stop_loss_trades: stop as usize,
            stop_loss_fail_trades: fail as usize,
            win_rate: spec_rate(winning, total) as u64,
            stop_loss_rate: spec_rate(stop, total) as u64,
            stop_loss_fail_rate: spec_rate(fail, total) as u64,
            avg_return: avg as i64,
            max_return: fold_max_return(rs) as i64,
            max_loss: fold_min_loss(rs) as i64,
            avg_hold_days: avg_hold as u64,
            sharpe_ratio: spec_sharpe(all_rets) as i64,
            max_drawdown: spec_max_drawdown(all_rets) as u64,
            profit_factor: spec_profit_factor(winning, losing, avg, fold_min_loss(rs)),
            trade_details: if all_details.len() == 0 {
                None
            } else {
                Some(all_details)
            },
        }
    }
}

impl BacktestResult {
    /// Creates an empty result.
    pub fn new() -> (r: BacktestResult)
        ensures
            r@ == BacktestResultV::empty(),
            r@.wf(),
    {
        BacktestResult {
            total_trades: 0,
            winning_trades: 0,
            losing_trades: 0,
            stop_loss_trades: 0,
            stop_loss_fail_trades: 0,
            win_rate: 0,
            stop_loss_rate: 0,
            stop_loss_fail_rate: 0,
            avg_return: 0,
            max_return: 0,
            max_loss: 0,
            avg_hold_days: 0,
            sharpe_ratio: 0,
            max_drawdown: 0,
            profit_factor: Some(0),
            trade_details: None,
        }
    }

    /// Fills in the advanced metrics — Sharpe ratio and maximum drawdown
    /// from the per-trade return list, profit factor from the counts and
    /// averages already stored — and leaves every other field as it is.
    pub fn calculate_advanced_metrics(&mut self, rets: &Vec<i64>)
        requires
            rets@.len() <= MAX_SAMPLES,
            forall|k: int|
                0 <= k < rets@.len() ==> -(SCALE as int) <= #[trigger] rets@[k] <= MAX_RETURN,
            -(SCALE as int) <= old(self).avg_return <= MAX_RETURN,
            -(SCALE as int) <= old(self).max_loss <= 0,
        ensures
            final(self).sharpe_ratio == spec_sharpe(rets@),
            final(self).max_drawdown == spec_max_drawdown(rets@),
            final(self)@.profit_factor == spec_profit_factor(
                old(self).winning_trades as int,
                old(self).losing_trades as int,
                old(self).avg_return as int,
                old(self).max_loss as int,
            ),
            final(self)@ == (BacktestResultV {
                sharpe_ratio: final(self).sharpe_ratio,
                max_drawdown: final(self).max_drawdown,
                profit_factor: final(self)@.profit_factor,
                ..old(self)@
            }),
    {
        self.sharpe_ratio = sharpe_of(rets);
        self.max_drawdown = max_drawdown_of(rets);
        self.profit_factor = if self.losing_trades == 0 {
            None
        } else {
            let gain: u64 = if self.avg_return > 0 {
                self.avg_return as u64
            } else {
                0
            };
            let loss_mag: u64 = if self.max_loss < 0 {
                (-self.max_loss) as u64
            } else {
                0
            };
            let floor_loss: u64 = if loss_mag > PF_EPS {
                loss_mag
            } else {
                PF_EPS
            };
            let num: u128 = mul_u64(self.winning_trades as u64, gain);
            let den: u128 = mul_u64(self.losing_trades as u64, floor_loss);
            proof {
                assert(num <= u64::MAX as int * MAX_RETURN as int) by (nonlinear_arith)
                    requires
                        num == self.winning_trades as int * gain as int,
                        0 <= self.winning_trades as int <= u64::MAX,
                        0 <= gain <= MAX_RETURN,
                ;
                assert(num * SCALE <= u128::MAX) by (nonlinear_arith)
                    requires
                        0 <= num <= u64::MAX as int * MAX_RETURN as int,
                ;
                assert(den >= 1) by (nonlinear_arith)
                    requires
                        den == self.losing_trades as int * floor_loss as int,
                        self.losing_trades >= 1,
                        floor_loss >= 1,
                ;
            }
            Some((num * (SCALE as u128)) / den)
        };
    }

    /// Merges many results into one: counts are summed, averages combined
    /// by trade-count-weighted mean, extrema folded, detail lists
    /// concatenated, and the advanced metrics recomputed from the
    /// concatenated per-trade returns.
    pub fn merge(results: Vec<BacktestResult>) -> (r: BacktestResult)
        requires
            forall|i: int| 0 <= i < results@.len() ==> (#[trigger] results@[i])@.wf(),
            sum_by(res_views(results@), m_total()) <= MAX_SAMPLES,
        ensures
            r@ == spec_merge(res_views(results@)),
            r@.wf(),
    {
        let ghost rv = res_views(results@);
        if results.is_empty() {
            return BacktestResult::new();
        }
        let n: usize = results.len();
        let ghost hold_cap: int = MAX_HORIZON as int * SCALE as int;
        let mut total_acc: usize = 0;
        let mut win_acc: usize = 0;
        let mut lose_acc: usize = 0;
        let mut stop_acc: usize = 0;
        let mut fail_acc: usize = 0;
        let mut wret: i128 = 0;
        let mut whold: u128 = 0;
        let mut maxr: i64 = -(SCALE as i64);
        let mut minl: i64 = 0;
        let mut all_details: Vec<TradeDetail> = Vec::new();
        let mut k: usize = 0;
        while k < n
            invariant
                n == results@.len(),
                rv == res_views(results@),
                rv.len() == n,
                forall|i: int| 0 <= i < results@.len() ==> (#[trigger] results@[i])@.wf(),
                sum_by(rv, m_total()) <= MAX_SAMPLES,
                hold_cap == MAX_HORIZON as int * SCALE as int,
                k <= n,
                total_acc == sum_by(rv.subrange(0, k as int), m_total()),
                win_acc == sum_by(rv.subrange(0, k as int), m_winning()),
                lose_acc == sum_by(rv.subrange(0, k as int), m_losing()),
                stop_acc == sum_by(rv.subrange(0, k as int), m_stop()),
                fail_acc == sum_by(rv.subrange(0, k as int), m_fail()),
                wret == sum_by(rv.subrange(0, k as int), m_wret()),
                whold == sum_by(rv.subrange(0, k as int), m_whold()),
                win_acc + lose_acc == total_acc,
                stop_acc + fail_acc <= lose_acc,
                total_acc <= MAX_SAMPLES,
                -(total_acc as int * SCALE as int) <= wret <= total_acc as int * MAX_RETURN as int,
                whold <= total_acc as int * hold_cap,
                maxr == fold_max_return(rv.subrange(0, k as int)),
                minl == fold_min_loss(rv.subrange(0, k as int)),
                -(SCALE as int) <= maxr <= MAX_RETURN,
                -(SCALE as int) <= minl <= 0,
                detail_views(all_details@) == concat_details(rv.subrange(0, k as int)),
                all_details@.len() <= total_acc,
                forall|t: int|
                    0 <= t < all_details@.len() ==> -(SCALE as int) <= (#[trigger] all_details@[t]).return_pct
                        <= MAX_RETURN,
            decreases n - k,
        {
            proof {
                lemma_sum_by_push(rv, m_total(), k as int);
                lemma_sum_by_push(rv, m_winning(), k as int);
                lemma_sum_by_push(rv, m_losing(), k as int);
                lemma_sum_by_push(rv, m_stop(), k as int);
                lemma_sum_by_push(rv, m_fail(), k as int);
                lemma_sum_by_push(rv, m_wret(), k as int);
                lemma_sum_by_push(rv, m_whold(), k as int);
                lemma_folds_push(rv, k as int);
                lemma_concat_details_push(rv, k as int);
                lemma_sum_by_prefix_le(rv, m_total(), k + 1 as int);
                assert(rv[k as int] == results@[k as int]@);
                assert(results@[k as int]@.wf());
            }
            let rk = &results[k];
            let ghost rkv = rv[k as int];
            proof {
                // Contributions stay within the per-result bounds.
                assert(-(rkv.total_trades as int * SCALE as int) <= rkv.avg_return
                    * rkv.total_trades <= rkv.total_trades as int * MAX_RETURN as int)
                    by (nonlinear_arith)
                    requires
                        -(SCALE as int) <= rkv.avg_return <= MAX_RETURN,
                        rkv.total_trades >= 0,
                ;
                assert(0 <= rkv.avg_hold_days * rkv.total_trades <= rkv.total_trades as int
                    * hold_cap) by (nonlinear_arith)
                    requires
                        0 <= rkv.avg_hold_days <= hold_cap,
                        rkv.total_trades >= 0,
                ;
                assert((total_acc + rkv.total_trades) as int * SCALE as int == total_acc as int
                    * SCALE as int + rkv.total_trades as int * SCALE as int) by (nonlinear_arith);
                assert((total_acc + rkv.total_trades) as int * MAX_RETURN as int == total_acc as int
                    * MAX_RETURN as int + rkv.total_trades as int * MAX_RETURN as int)
                    by (nonlinear_arith);
                assert((total_acc + rkv.total_trades) as int * hold_cap == total_acc as int
                    * hold_cap + rkv.total_trades as int * hold_cap) by (nonlinear_arith);
                assert(total_acc as int * MAX_RETURN as int <= MAX_SAMPLES as int
                    * MAX_RETURN as int) by (nonlinear_arith)
                    requires
                        0 <= total_acc as int <= MAX_SAMPLES as int,
                ;
                assert(total_acc as int * SCALE as int <= MAX_SAMPLES as int * SCALE as int)
                    by (nonlinear_arith)
                    requires
                        0 <= total_acc as int <= MAX_SAMPLES as int,
                ;
                assert(total_acc as int * hold_cap <= MAX_SAMPLES as int * hold_cap)
                    by (nonlinear_arith)
                    requires
                        0 <= total_acc as int <= MAX_SAMPLES as int,
                        hold_cap >= 0,
                ;
                lemma_sum_by_item_le(rv, m_total(), k as int);
                assert(rkv.avg_return as int * rkv.total_trades as int
                    <= MAX_SAMPLES as int * MAX_RETURN as int && -(MAX_SAMPLES as int
                    * MAX_RETURN as int) <= rkv.avg_return as int * rkv.total_trades as int)
                    by (nonlinear_arith)
                    requires
                        -(MAX_RETURN as int) <= rkv.avg_return as int <= MAX_RETURN,
                        0 <= rkv.total_trades as int <= MAX_SAMPLES as int,
                ;
                assert(rkv.avg_hold_days as int * rkv.total_trades as int <= hold_cap
                    * MAX_SAMPLES as int) by (nonlinear_arith)
                    requires
                        0 <= rkv.avg_hold_days as int <= hold_cap,
                        0 <= rkv.total_trades as int <= MAX_SAMPLES as int,
                        hold_cap >= 0,
                ;
            }
            total_acc += rk.total_trades;
            win_acc += rk.winning_trades;
            lose_acc += rk.losing_trades;
            stop_acc += rk.stop_loss_trades;
            fail_acc += rk.stop_loss_fail_trades;
            wret = wret + (rk.avg_return as i128) * (rk.total_trades as i128);
            whold = whold + (rk.avg_hold_days as u128) * (rk.total_trades as u128);
            if rk.max_return > maxr {
                maxr = rk.max_return;
            }
            if rk.max_loss < minl {
                minl = rk.max_loss;
            }
            match &rk.trade_details {
                Some(ds) => {
                    proof {
                        assert(result_details(rkv) == detail_views(ds@));
                    }
                    let m: usize = ds.len();
                    let ghost base = concat_details(rv.subrange(0, k as int));
                    proof {
                        assert(base + detail_views(ds@).subrange(0, 0) =~= base);
                        assert(rkv.trade_details == Some(detail_views(ds@)));
                        assert forall|t: int|
                            0 <= t < ds@.len() implies -(SCALE as int) <= (#[trigger] ds@[t]).return_pct
                            <= MAX_RETURN by {
                            assert(detail_views(ds@)[t] == ds@[t]@);
                        }
                    }
                    let mut j: usize = 0;
                    while j < m
                        invariant
                            m == ds@.len(),
                            j <= m,
                            base == concat_details(rv.subrange(0, k as int)),
                            detail_views(all_details@) == base + detail_views(ds@).subrange(
                                0,
                                j as int,
                            ),
                            all_details@.len() == base.len() + j,
                            forall|t: int|
                                0 <= t < ds@.len() ==> -(SCALE as int) <= (#[trigger] ds@[t]).return_pct
                                    <= MAX_RETURN,
                            forall|t: int|
                                0 <= t < all_details@.len() ==> -(SCALE as int)
                                    <= (#[trigger] all_details@[t]).return_pct <= MAX_RETURN,
                        decreases m - j,
                    {
                        let d = &ds[j];
                        let dc = TradeDetail {
                            symbol: d.symbol.clone(),
                            entry_date: d.entry_date,
                            entry_price: d.entry_price,
                            exit_date: d.exit_date,
                            exit_price: d.exit_price,
                            return_pct: d.return_pct,
                            hold_days: d.hold_days,
                            exit_reason: d.exit_reason,
                        };
                        proof {
                            assert(dc@ == ds@[j as int]@);
                            assert(detail_views(all_details@.push(dc)) =~= detail_views(
                                all_details@,
                            ).push(dc@));
                            assert(detail_views(ds@)[j as int] == ds@[j as int]@);
                            assert(base + detail_views(ds@).subrange(0, j + 1 as int) =~= (base
                                + detail_views(ds@).subrange(0, j as int)).push(
                                detail_views(ds@)[j as int],
                            ));
                        }
                        all_details.push(dc);
                        j += 1;
                    }
                    proof {
                        assert(detail_views(ds@).subrange(0, m as int) =~= detail_views(ds@));
                        assert(detail_views(ds@).len() <= rkv.total_trades);
                    }
                },
                None => {
                    proof {
                        assert(result_details(rkv) =~= Seq::<TradeDetailV>::empty());
                        assert(detail_views(all_details@) =~= concat_details(
                            rv.subrange(0, k as int),
                        ) + result_details(rkv));
                    }
                },
            }
            k += 1;
        }
        proof {
            assert(rv.subrange(0, n as int) =~= rv);
        }

        // Gather the concatenated per-trade returns for the metric pass.
        let mut rets: Vec<i64> = Vec::new();
        let mut t: usize = 0;
        while t < all_details.len()
            invariant
                t <= all_details@.len(),
                rets@.len() == t,
                forall|u: int| 0 <= u < t ==> rets@[u] == (#[trigger] all_details@[u]).return_pct,
                forall|u: int|
                    0 <= u < all_details@.len() ==> -(SCALE as int) <= (#[trigger] all_details@[u]).return_pct
                        <= MAX_RETURN,
            decreases all_details@.len() - t,
        {
            rets.push(all_details[t].return_pct);
            t += 1;
        }
        proof {
            assert(rets@ =~= detail_rets(detail_views(all_details@)));
        }

        let win_rate = rate_exec(win_acc, total_acc);
        let stop_loss_rate = rate_exec(stop_acc, total_acc);
        let stop_loss_fail_rate = rate_exec(fail_acc, total_acc);
        let avg_return: i64 = if total_acc == 0 {
            0
        } else {
            proof {
                assert(total_acc as int * -(SCALE as int) == -(total_acc as int * SCALE as int))
                    by (nonlinear_arith);
                lemma_div_trunc_asym_bound(
                    wret as int,
                    total_acc as int,
                    -(SCALE as int),
                    MAX_RETURN as int,
                );
            }
            div_trunc_exec(wret, total_acc as u128) as i64
        };
        let avg_hold_days: u64 = if total_acc == 0 {
            0
        } else {
            proof {
                vstd::arithmetic::div_mod::lemma_div_is_ordered(
                    whold as int,
                    total_acc as int * hold_cap,
                    total_acc as int,
                );
                vstd::arithmetic::div_mod::lemma_div_multiples_vanish(hold_cap, total_acc as int);
                vstd::arithmetic::div_mod::lemma_div_pos_is_pos(whold as int, total_acc as int);
            }
            (whold / (total_acc as u128)) as u64
        };
        let mut merged = BacktestResult {
            total_trades: total_acc,
            winning_trades: win_acc,
            losing_trades: lose_acc,
            stop_loss_trades: stop_acc,
            stop_loss_fail_trades: fail_acc,
            win_rate,
            stop_loss_rate,
            stop_loss_fail_rate,
            avg_return,
            max_return: maxr,
            max_loss: minl,
            avg_hold_days,
            sharpe_ratio: 0,
            max_drawdown: 0,
            profit_factor: Some(0),
            trade_details: if all_details.is_empty() {
                None
            } else {
                Some(all_details)
            },
        };
        merged.calculate_advanced_metrics(&rets);
        merged
    }
}


/// Merging two results adds their trade counts, field by field.
pub proof fn lemma_merge_pair_counts(a: BacktestResultV, b: BacktestResultV)
    requires
        a.total_trades + b.total_trades <= usize::MAX,
        a.wf(),
        b.wf(),
    ensures
        spec_merge(seq![a, b]).total_trades == a.total_trades + b.total_trades,
        spec_merge(seq![a, b]).winning_trades == a.winning_trades + b.winning_trades,
        spec_merge(seq![a, b]).losing_trades == a.losing_trades + b.losing_trades,
        spec_merge(seq![a, b]).stop_loss_trades == a.stop_loss_trades + b.stop_loss_trades,
        spec_merge(seq![a, b]).stop_loss_fail_trades == a.stop_loss_fail_trades
            + b.stop_loss_fail_trades,
{
    lemma_merge_pair_sums(a, b);
}

/// The sums behind a two-way merge, shared by the count laws.
proof fn lemma_merge_pair_sums(a: BacktestResultV, b: BacktestResultV)
    ensures
        sum_by(seq![a, b], m_total()) == a.total_trades + b.total_trades,
        sum_by(seq![a, b], m_winning()) == a.winning_trades + b.winning_trades,
        sum_by(seq![a, b], m_losing()) == a.losing_trades + b.losing_trades,
        sum_by(seq![a, b], m_stop()) == a.stop_loss_trades + b.stop_loss_trades,
        sum_by(seq![a, b], m_fail()) == a.stop_loss_fail_trades + b.stop_loss_fail_trades,
{
    reveal_with_fuel(sum_by, 3);
    assert(seq![a, b].drop_last() =~= seq![a]);
    assert(seq![a].drop_last() =~= Seq::<BacktestResultV>::empty());
    assert(seq![a, b].last() == b);
    assert(seq![a].last() == a);
}

/// Merging is commutative on the count fields.
pub proof fn lemma_merge_counts_commutative(a: BacktestResultV, b: BacktestResultV)
    requires
        a.total_trades + b.total_trades <= usize::MAX,
        a.wf(),
        b.wf(),
    ensures
        spec_merge(seq![a, b]).total_trades == spec_merge(seq![b, a]).total_trades,
        spec_merge(seq![a, b]).winning_trades == spec_merge(seq![b, a]).winning_trades,
        spec_merge(seq![a, b]).losing_trades == spec_merge(seq![b, a]).losing_trades,
        spec_merge(seq![a, b]).stop_loss_trades == spec_merge(seq![b, a]).stop_loss_trades,
        spec_merge(seq![a, b]).stop_loss_fail_trades == spec_merge(
            seq![b, a],
        ).stop_loss_fail_trades,
{
    lemma_merge_pair_counts(a, b);
    lemma_merge_pair_counts(b, a);
}

/// Merging is associative on the count fields: folding a pair first and
/// merging the third gives the same counts either way around.
pub proof fn lemma_merge_counts_associative(a: BacktestResultV, b: BacktestResultV, c: BacktestResultV)
    requires
        a.total_trades + b.total_trades + c.total_trades <= usize::MAX,
        a.wf(),
        b.wf(),
        c.wf(),
    ensures
        spec_merge(seq![spec_merge(seq![a, b]), c]).total_trades == spec_merge(
            seq![a, spec_merge(seq![b, c])],
        ).total_trades,
        spec_merge(seq![spec_merge(seq![a, b]), c]).winning_trades == spec_merge(
            seq![a, spec_merge(seq![b, c])],
        ).winning_trades,
        spec_merge(seq![spec_merge(seq![a, b]), c]).losing_trades == spec_merge(
            seq![a, spec_merge(seq![b, c])],
        ).losing_trades,
        spec_merge(seq![spec_merge(seq![a, b]), c]).stop_loss_trades == spec_merge(
            seq![a, spec_merge(seq![b, c])],
        ).stop_loss_trades,
        spec_merge(seq![spec_merge(seq![a, b]), c]).stop_loss_fail_trades == spec_merge(
            seq![a, spec_merge(seq![b, c])],
        ).stop_loss_fail_trades,
{
    lemma_merge_pair_sums(a, b);
    lemma_merge_pair_sums(b, c);
    lemma_merge_pair_sums(spec_merge(seq![a, b]), c);
    lemma_merge_pair_sums(a, spec_merge(seq![b, c]));
}

/// Merging a result with itself doubles the trade count but leaves every
/// derived rate unchanged.
pub proof fn lemma_merge_self_rates(a: BacktestResultV)
    requires
        a.wf(),
        2 * a.total_trades <= usize::MAX,
        a.win_rate == spec_rate(a.winning_trades as int, a.total_trades as int),
        a.stop_loss_rate == spec_rate(a.stop_loss_trades as int, a.total_trades as int),
        a.stop_loss_fail_rate == spec_rate(a.stop_loss_fail_trades as int, a.total_trades as int),
    ensures
        spec_merge(seq![a, a]).total_trades == 2 * a.total_trades,
        spec_merge(seq![a, a]).win_rate == a.win_rate,
        spec_merge(seq![a, a]).stop_loss_rate == a.stop_loss_rate,
        spec_merge(seq![a, a]).stop_loss_fail_rate == a.stop_loss_fail_rate,
{
    lemma_merge_pair_sums(a, a);
    lemma_rate_double(a.winning_trades as int, a.total_trades as int);
    lemma_rate_double(a.stop_loss_trades as int, a.total_trades as int);
    lemma_rate_double(a.stop_loss_fail_trades as int, a.total_trades as int);
    crate::fixed::lemma_rate_bounds(a.winning_trades as int, a.total_trades as int);
    crate::fixed::lemma_rate_bounds(a.stop_loss_trades as int, a.total_trades as int);
    crate::fixed::lemma_rate_bounds(a.stop_loss_fail_trades as int, a.total_trades as int);
}

/// Doubling part and total leaves their rate unchanged.
proof fn lemma_rate_double(part: int, total: int)
    requires
        0 <= part,
        0 <= total,
    ensures
        spec_rate(2 * part, 2 * total) == spec_rate(part, total),
{
    if total != 0 {
        vstd::arithmetic::div_mod::lemma_div_multiples_vanish_quotient(2, part * SCALE, total);
        assert((2 * part) * SCALE == 2 * (part * SCALE)) by (nonlinear_arith);
    }
}

} // verus!
