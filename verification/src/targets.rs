//! Exit-policy targets: the configurations a holding period is simulated
//! against.

use vstd::prelude::*;

use crate::bar::{series_wf, sig_views, Bar, Signal};
use crate::fixed::{
    div_trunc, div_trunc_exec, lemma_div_sum_le, lemma_div_trunc_asym_bound, mul_i64_u64, mul_u64,
    MAX_HORIZON, MAX_PRICE, MAX_SAMPLES, SCALE,
};

verus! {

/// A return target: take profit at `target_return`, cut losses at
/// `stop_loss`, give up after `in_days` days.
///
/// `target_return` and `stop_loss` are fixed-point fractions of `SCALE`;
/// the stop is a percentage of the buy price, so it never exceeds `SCALE`.
#[derive(Clone, Copy, Debug, PartialEq, Eq, Structural)]
pub struct ReturnTarget {
    pub target_return: i64,
    pub stop_loss: u64,
    pub in_days: usize,
}

impl ReturnTarget {
    /// The stop fraction is a percentage and the horizon is at least one
    /// day and within the machine cap.
    pub open spec fn wf(self) -> bool {
        self.stop_loss <= SCALE && 1 <= self.in_days <= MAX_HORIZON
    }

    /// Creates a return target.
    pub fn new(target_return: i64, stop_loss: u64, in_days: usize) -> (t: ReturnTarget)
        requires
            stop_loss <= SCALE,
            1 <= in_days <= MAX_HORIZON,
        ensures
            t == (ReturnTarget { target_return, stop_loss, in_days }),
            t.wf(),
    {
        ReturnTarget { target_return, stop_loss, in_days }
    }

    /// Evaluates a signal list at one offset and returns the success rate:
    /// the share of eligible trades that reached the target.
    pub fn run(&self, signals: &Vec<Signal>, forecast_idx: usize) -> (rate: u64)
        requires
            self.wf(),
            signals@.len() <= MAX_SAMPLES,
            forecast_idx + self.in_days <= usize::MAX,
            forall|t: int|
                0 <= t < signals@.len() ==> series_wf((#[trigger] signals@[t])@.data)
                    && signals@[t]@.buy_price <= MAX_PRICE,
        ensures
            rate == crate::engine::spec_success_rate(
                sig_views(signals@),
                *self,
                forecast_idx as int,
            ),
            rate <= SCALE,
    {
        proof {
            crate::engine::lemma_count_reason_le(
                sig_views(signals@),
                *self,
                forecast_idx as int,
                crate::result::ExitReason::TargetReached,
            );
            crate::fixed::lemma_rate_bounds(
                crate::engine::count_reason(
                    sig_views(signals@),
                    *self,
                    forecast_idx as int,
                    crate::result::ExitReason::TargetReached,
                ),
                crate::engine::count_eligible(sig_views(signals@), *self, forecast_idx as int),
            );
        }
        let res = crate::engine::evaluate_signals(signals, self, forecast_idx, false);
        res.win_rate
    }
}

/// A guard target: holds if the stop fraction is never breached intraday
/// over the horizon.
#[derive(Clone, Copy, Debug, PartialEq, Eq, Structural)]
pub struct GuardTarget {
    pub stop_loss: u64,
    pub in_days: usize,
}

/// Day `bar` keeps the guard: its low stays strictly above the stop price
/// `buy * (SCALE - stop_loss) / SCALE` (an exact rational comparison).
pub open spec fn guard_holds_on(bar: Bar, buy: int, stop_loss: int) -> bool {
    bar.low * SCALE > buy * (SCALE - stop_loss)
}

/// The guard target holds of a series: the trade is valid and no day of the
/// horizon breaches the stop.
pub open spec fn spec_guard_ok(data: Seq<Bar>, buy: int, stop_loss: int, in_days: int, offset: int) -> bool {
    &&& buy > 0
    &&& data.len() > offset + in_days
    &&& forall|i: int|
        offset + 1 <= i <= offset + in_days ==> guard_holds_on(#[trigger] data[i], buy, stop_loss)
}

impl GuardTarget {
    /// The stop fraction is a percentage and the horizon is at least one
    /// day and within the machine cap.
    pub open spec fn wf(self) -> bool {
        self.stop_loss <= SCALE && 1 <= self.in_days <= MAX_HORIZON
    }

    /// Creates a guard target.
    pub fn new(stop_loss: u64, in_days: usize) -> (t: GuardTarget)
        requires
            stop_loss <= SCALE,
            1 <= in_days <= MAX_HORIZON,
        ensures
            t == (GuardTarget { stop_loss, in_days }),
            t.wf(),
    {
        GuardTarget { stop_loss, in_days }
    }

    /// Decides whether a trade bought at `buy_price` on decision day
    /// `offset` survives the horizon without ever touching the stop price.
    /// An invalid price or too short a series counts as a failure.
    pub fn evaluate(&self, data: &Vec<Bar>, buy_price: i64, offset: usize) -> (ok: bool)
        requires
            self.wf(),
            series_wf(data@),
            buy_price <= MAX_PRICE,
            offset + self.in_days < usize::MAX,
        ensures
            ok == spec_guard_ok(
                data@,
                buy_price as int,
                self.stop_loss as int,
                self.in_days as int,
                offset as int,
            ),
    {
        if buy_price <= 0 {
            return false;
        }
        let n: usize = data.len();
        if n <= offset + self.in_days {
            return false;
        }
        let buy: u64 = buy_price as u64;
        let sn: u128 = mul_u64(buy, SCALE - self.stop_loss);
        let mut i: usize = offset + 1;
        while i <= offset + self.in_days
            invariant
                self.wf(),
                buy == buy_price,
                0 < buy <= MAX_PRICE,
                sn == buy as int * (SCALE - self.stop_loss),
                offset + 1 <= i <= offset + self.in_days + 1,
                offset + self.in_days < data@.len(),
                data@.len() <= usize::MAX,
                forall|j: int|
                    offset + 1 <= j < i ==> guard_holds_on(
                        #[trigger] data@[j],
                        buy as int,
                        self.stop_loss as int,
                    ),
            decreases offset + self.in_days + 1 - i,
        {
            let bar = data[i];
            if mul_u64(bar.low, SCALE) <= sn {
                assert(!guard_holds_on(data@[i as int], buy as int, self.stop_loss as int));
                return false;
            }
            i += 1;
        }
        true
    }
}


/// Sum of a weight list.
pub open spec fn weights_sum(ws: Seq<u64>) -> int
    decreases ws.len(),
{
    if ws.len() == 0 {
        0
    } else {
        weights_sum(ws.drop_last()) + ws.last()
    }
}

/// Every weight stays within the sum, and the sum is non-negative.
pub proof fn lemma_weight_le_sum(ws: Seq<u64>, k: int)
    requires
        0 <= k < ws.len(),
    ensures
        0 <= ws[k] <= weights_sum(ws),
    decreases ws.len(),
{
    if k == ws.len() - 1 {
        lemma_weights_sum_nonneg(ws.drop_last());
    } else {
        lemma_weight_le_sum(ws.drop_last(), k);
        assert(ws.drop_last()[k] == ws[k]);
    }
}

/// A sum of weights is non-negative.
pub proof fn lemma_weights_sum_nonneg(ws: Seq<u64>)
    ensures
        weights_sum(ws) >= 0,
    decreases ws.len(),
{
    if ws.len() > 0 {
        lemma_weights_sum_nonneg(ws.drop_last());
    }
}

/// The weighted sum of the component target returns.
pub open spec fn weighted_target_sum(ts: Seq<ReturnTarget>, ws: Seq<u64>) -> int
    recommends
        ts.len() == ws.len(),
    decreases ts.len(),
{
    if ts.len() == 0 {
        0
    } else {
        weighted_target_sum(ts.drop_last(), ws.drop_last()) + ts.last().target_return * ws.last()
    }
}

/// A weighted sum of bounded values is bounded by the weight total times
/// the value bounds.
pub proof fn lemma_weighted_target_sum_bounds(ts: Seq<ReturnTarget>, ws: Seq<u64>, lo: int, hi: int)
    requires
        ts.len() == ws.len(),
        lo <= 0 <= hi,
        forall|i: int| 0 <= i < ts.len() ==> lo <= (#[trigger] ts[i]).target_return <= hi,
    ensures
        weights_sum(ws) * lo <= weighted_target_sum(ts, ws) <= weights_sum(ws) * hi,
    decreases ts.len(),
{
    if ts.len() == 0 {
        assert(weights_sum(ws) * lo == 0 && weights_sum(ws) * hi == 0) by (nonlinear_arith)
            requires
                weights_sum(ws) == 0,
        ;
    } else {
        let pw = weights_sum(ws.drop_last());
        lemma_weighted_target_sum_bounds(ts.drop_last(), ws.drop_last(), lo, hi);
        assert(ws.last() as int * lo <= ts.last().target_return * ws.last() <= ws.last() as int
            * hi) by (nonlinear_arith)
            requires
                lo <= ts.last().target_return <= hi,
                ws.last() >= 0,
        ;
        assert((pw + ws.last()) * lo == pw * lo + ws.last() as int * lo && (pw + ws.last()) * hi
            == pw * hi + ws.last() as int * hi) by (nonlinear_arith);
    }
}

/// The weighted sum of per-target success rates over one signal list.
pub open spec fn weighted_rate_sum(
    ts: Seq<ReturnTarget>,
    ws: Seq<u64>,
    sigs: Seq<crate::bar::SignalV>,
    offset: int,
) -> int
    recommends
        ts.len() == ws.len(),
    decreases ts.len(),
{
    if ts.len() == 0 {
        0
    } else {
        weighted_rate_sum(ts.drop_last(), ws.drop_last(), sigs, offset) + crate::engine::spec_success_rate(
            sigs,
            ts.last(),
            offset,
        ) * ws.last()
    }
}

/// A combined target: several return targets blended by fixed-point
/// weights that total at most one whole.
pub struct CombinedTarget {
    pub targets: Vec<ReturnTarget>,
    pub weights: Vec<u64>,
}

impl CombinedTarget {
    /// One weight per target, every component well formed, each weight a
    /// fraction, and the weights totalling at most `SCALE`.
    pub open spec fn wf(self) -> bool {
        &&& 1 <= self.targets@.len() <= MAX_SAMPLES
        &&& self.weights@.len() == self.targets@.len()
        &&& forall|i: int| 0 <= i < self.targets@.len() ==> (#[trigger] self.targets@[i]).wf()
        &&& forall|i: int| 0 <= i < self.weights@.len() ==> (#[trigger] self.weights@[i]) <= SCALE
        &&& weights_sum(self.weights@) <= SCALE
    }

    /// Combines targets with equal weights.
    pub fn new(targets: Vec<ReturnTarget>) -> (t: CombinedTarget)
        requires
            1 <= targets@.len() <= MAX_SAMPLES,
            forall|i: int| 0 <= i < targets@.len() ==> (#[trigger] targets@[i]).wf(),
        ensures
            t.targets@ == targets@,
            t.weights@.len() == targets@.len(),
            forall|i: int|
                0 <= i < t.weights@.len() ==> (#[trigger] t.weights@[i]) == SCALE as int
                    / targets@.len() as int,
            t.wf(),
    {
        let count: usize = targets.len();
        let share: u64 = SCALE / (count as u64);
        proof {
            vstd::arithmetic::div_mod::lemma_div_nonincreasing(SCALE as int, count as int);
            vstd::arithmetic::div_mod::lemma_div_pos_is_pos(SCALE as int, count as int);
        }
        let mut weights: Vec<u64> = Vec::new();
        let mut i: usize = 0;
        while i < count
            invariant
                1 <= count <= MAX_SAMPLES,
                share == SCALE as int / count as int,
                0 <= share <= SCALE,
                i <= count,
                weights@.len() == i,
                forall|t: int| 0 <= t < i ==> (#[trigger] weights@[t]) == share,
                weights_sum(weights@) == i as int * share,
            decreases count - i,
        {
            proof {
                assert(weights@.push(share).drop_last() =~= weights@);
                assert((i + 1) * share == i * share + share) by (nonlinear_arith);
            }
            weights.push(share);
            i += 1;
        }
        proof {
            vstd::arithmetic::div_mod::lemma_fundamental_div_mod(SCALE as int, count as int);
            vstd::arithmetic::div_mod::lemma_mod_bound(SCALE as int, count as int);
            assert(count as int * share <= SCALE) by (nonlinear_arith)
                requires
                    SCALE as int == count as int * share + SCALE as int % count as int,
                    SCALE as int % count as int >= 0,
            ;
        }
        CombinedTarget { targets, weights }
    }

    /// Combines targets with the given weights, normalized so that they
    /// total at most one whole.
    pub fn with_weights(targets: Vec<ReturnTarget>, weights: Vec<u64>) -> (t: CombinedTarget)
        requires
            1 <= targets@.len() <= MAX_SAMPLES,
            targets@.len() == weights@.len(),
            forall|i: int| 0 <= i < targets@.len() ==> (#[trigger] targets@[i]).wf(),
            weights_sum(weights@) >= 1,
        ensures
            t.targets@ == targets@,
            t.weights@.len() == weights@.len(),
            forall|i: int|
                0 <= i < weights@.len() ==> (#[trigger] t.weights@[i]) == (weights@[i] * SCALE)
                    / weights_sum(weights@),
            t.wf(),
    {
        let n: usize = weights.len();
        let ghost wv = weights@;
        let mut total: u128 = 0;
        let mut i: usize = 0;
        while i < n
            invariant
                n == weights@.len(),
                wv == weights@,
                i <= n,
                total == weights_sum(wv.subrange(0, i as int)),
                total <= i as int * u64::MAX as int,
            decreases n - i,
        {
            proof {
                assert(wv.subrange(0, i + 1 as int).drop_last() =~= wv.subrange(0, i as int));
                assert(wv.subrange(0, i + 1 as int).last() == wv[i as int]);
                assert((i + 1) * u64::MAX as int == i * u64::MAX as int + u64::MAX as int)
                    by (nonlinear_arith);
            }
            total = total + weights[i] as u128;
            i += 1;
        }
        proof {
            assert(wv.subrange(0, n as int) =~= wv);
        }
        let mut norm: Vec<u64> = Vec::new();
        let mut j: usize = 0;
        while j < n
            invariant
                n == weights@.len(),
                wv == weights@,
                total == weights_sum(wv),
                total >= 1,
                j <= n,
                norm@.len() == j,
                forall|t: int|
                    0 <= t < j ==> (#[trigger] norm@[t]) == (wv[t] * SCALE) / weights_sum(wv),
                forall|t: int| 0 <= t < j ==> (#[trigger] norm@[t]) <= SCALE,
                weights_sum(norm@) <= (weights_sum(wv.subrange(0, j as int)) * SCALE) / weights_sum(
                    wv,
                ),
            decreases n - j,
        {
            proof {
                lemma_weight_le_sum(wv, j as int);
                assert(wv[j as int] * SCALE <= weights_sum(wv) * SCALE) by (nonlinear_arith)
                    requires
                        0 <= wv[j as int] <= weights_sum(wv),
                ;
                vstd::arithmetic::div_mod::lemma_div_is_ordered(
                    wv[j as int] * SCALE,
                    weights_sum(wv) * SCALE,
                    weights_sum(wv),
                );
                vstd::arithmetic::div_mod::lemma_div_multiples_vanish(
                    SCALE as int,
                    weights_sum(wv),
                );
                vstd::arithmetic::div_mod::lemma_div_pos_is_pos(
                    wv[j as int] * SCALE,
                    weights_sum(wv),
                );
            }
            let w: u64 = (mul_u64(weights[j], SCALE) / total) as u64;
            proof {
                assert(norm@.push(w).drop_last() =~= norm@);
                assert(wv.subrange(0, j + 1 as int).drop_last() =~= wv.subrange(0, j as int));
                assert(wv.subrange(0, j + 1 as int).last() == wv[j as int]);
                lemma_weights_sum_nonneg(wv.subrange(0, j as int));
                lemma_div_sum_le(
                    weights_sum(wv.subrange(0, j as int)) * SCALE,
                    wv[j as int] * SCALE,
                    weights_sum(wv),
                );
                assert((weights_sum(wv.subrange(0, j as int)) + wv[j as int]) * SCALE
                    == weights_sum(wv.subrange(0, j as int)) * SCALE + wv[j as int] * SCALE)
                    by (nonlinear_arith);
                assert(weights_sum(wv.subrange(0, j as int)) * SCALE >= 0) by (nonlinear_arith)
                    requires
                        weights_sum(wv.subrange(0, j as int)) >= 0,
                ;
            }
            norm.push(w);
            j += 1;
        }
        proof {
            assert(wv.subrange(0, n as int) =~= wv);
            vstd::arithmetic::div_mod::lemma_div_multiples_vanish(SCALE as int, weights_sum(wv));
            assert(weights_sum(wv) * SCALE == SCALE as int * weights_sum(wv)) by (nonlinear_arith);
        }
        CombinedTarget { targets, weights: norm }
    }

    /// The combined horizon: the longest of the components'.
    pub fn in_days(&self) -> (d: usize)
        requires
            self.wf(),
        ensures
            forall|i: int| 0 <= i < self.targets@.len() ==> (#[trigger] self.targets@[i]).in_days
                <= d,
            exists|i: int| 0 <= i < self.targets@.len() && (#[trigger] self.targets@[i]).in_days
                == d,
    {
        let mut d: usize = self.targets[0].in_days;
        let mut i: usize = 1;
        while i < self.targets.len()
            invariant
                1 <= i <= self.targets@.len(),
                forall|t: int| 0 <= t < i ==> (#[trigger] self.targets@[t]).in_days <= d,
                exists|t: int| 0 <= t < i && (#[trigger] self.targets@[t]).in_days == d,
            decreases self.targets@.len() - i,
        {
            if self.targets[i].in_days > d {
                d = self.targets[i].in_days;
            }
            i += 1;
        }
        d
    }

    /// The combined stop: the tightest of the components'.
    pub fn stop_loss(&self) -> (sl: u64)
        requires
            self.wf(),
        ensures
            forall|i: int| 0 <= i < self.targets@.len() ==> sl <= (#[trigger] self.targets@[i]).stop_loss,
            exists|i: int| 0 <= i < self.targets@.len() && (#[trigger] self.targets@[i]).stop_loss
                == sl,
    {
        let mut sl: u64 = self.targets[0].stop_loss;
        let mut i: usize = 1;
        while i < self.targets.len()
            invariant
                1 <= i <= self.targets@.len(),
                forall|t: int| 0 <= t < i ==> sl <= (#[trigger] self.targets@[t]).stop_loss,
                exists|t: int| 0 <= t < i && (#[trigger] self.targets@[t]).stop_loss == sl,
            decreases self.targets@.len() - i,
        {
            if self.targets[i].stop_loss < sl {
                sl = self.targets[i].stop_loss;
            }
            i += 1;
        }
        sl
    }

    /// The combined target return: the components' blended by the weights.
    pub fn target_return(&self) -> (tr: i64)
        requires
            self.wf(),
        ensures
            tr == div_trunc(weighted_target_sum(self.targets@, self.weights@), SCALE as int),
    {
        let ghost ts = self.targets@;
        let ghost ws = self.weights@;
        let n: usize = self.targets.len();
        let mut acc: i128 = 0;
        let mut i: usize = 0;
        while i < n
            invariant
                self.wf(),
                ts == self.targets@,
                ws == self.weights@,
                n == ts.len(),
                i <= n,
                acc == weighted_target_sum(ts.subrange(0, i as int), ws.subrange(0, i as int)),
                -(i as int * ((i64::MAX as int + 1) * SCALE as int)) <= acc <= i as int * ((
                i64::MAX as int + 1) * SCALE as int),
            decreases n - i,
        {
            proof {
                assert(ts.subrange(0, i + 1 as int).drop_last() =~= ts.subrange(0, i as int));
                assert(ws.subrange(0, i + 1 as int).drop_last() =~= ws.subrange(0, i as int));
                assert(ts.subrange(0, i + 1 as int).last() == ts[i as int]);
                assert(ws.subrange(0, i + 1 as int).last() == ws[i as int]);
                assert(-((i64::MAX as int + 1) * SCALE as int) <= ts[i as int].target_return * ws[
                    i as int] <= (i64::MAX as int + 1) * SCALE as int) by (nonlinear_arith)
                    requires
                        -(i64::MAX as int + 1) <= ts[i as int].target_return <= i64::MAX,
                        0 <= ws[i as int] <= SCALE,
                ;
                assert((i + 1) * ((i64::MAX as int + 1) * SCALE as int) == i * ((i64::MAX as int
                    + 1) * SCALE as int) + (i64::MAX as int + 1) * SCALE as int)
                    by (nonlinear_arith);
            }
            acc = acc + mul_i64_u64(self.targets[i].target_return, self.weights[i]);
            i += 1;
        }
        proof {
            assert(ts.subrange(0, n as int) =~= ts);
            assert(ws.subrange(0, n as int) =~= ws);
            lemma_weights_sum_nonneg(ws);
            lemma_weighted_target_sum_bounds(ts, ws, -(i64::MAX as int + 1), i64::MAX as int);
            assert(weights_sum(ws) * i64::MAX as int <= SCALE as int * i64::MAX as int
                && weights_sum(ws) * -(i64::MAX as int + 1) >= SCALE as int * -(i64::MAX as int
                + 1)) by (nonlinear_arith)
                requires
                    0 <= weights_sum(ws) <= SCALE,
            ;
            lemma_div_trunc_asym_bound(
                acc as int,
                SCALE as int,
                -(i64::MAX as int + 1),
                i64::MAX as int,
            );
        }
        div_trunc_exec(acc, SCALE as u128) as i64
    }

    /// Evaluates every component on the same signal list and blends the
    /// success rates by the weights; with weights totalling one whole this
    /// is their weighted mean.
    pub fn run(&self, signals: &Vec<Signal>, forecast_idx: usize) -> (score: u64)
        requires
            self.wf(),
            signals@.len() <= MAX_SAMPLES,
            forecast_idx + MAX_HORIZON <= usize::MAX,
            forall|t: int|
                0 <= t < signals@.len() ==> series_wf((#[trigger] signals@[t])@.data)
                    && signals@[t]@.buy_price <= MAX_PRICE,
        ensures
            score == weighted_rate_sum(
                self.targets@,
                self.weights@,
                sig_views(signals@),
                forecast_idx as int,
            ) / (SCALE as int),
            score <= SCALE,
    {
        let ghost ts = self.targets@;
        let ghost ws = self.weights@;
        let ghost sv = sig_views(signals@);
        let n: usize = self.targets.len();
        let mut acc: u128 = 0;
        let mut i: usize = 0;
        while i < n
            invariant
                self.wf(),
                ts == self.targets@,
                ws == self.weights@,
                sv == sig_views(signals@),
                n == ts.len(),
                signals@.len() <= MAX_SAMPLES,
                forecast_idx + MAX_HORIZON <= usize::MAX,
                forall|t: int|
                    0 <= t < signals@.len() ==> series_wf((#[trigger] signals@[t])@.data)
                        && signals@[t]@.buy_price <= MAX_PRICE,
                i <= n,
                acc == weighted_rate_sum(
                    ts.subrange(0, i as int),
                    ws.subrange(0, i as int),
                    sv,
                    forecast_idx as int,
                ),
                acc <= weights_sum(ws.subrange(0, i as int)) * SCALE as int,
                weights_sum(ws.subrange(0, i as int)) <= i as int * SCALE as int,
            decreases n - i,
        {
            proof {
                assert(ts.subrange(0, i + 1 as int).drop_last() =~= ts.subrange(0, i as int));
                assert(ws.subrange(0, i + 1 as int).drop_last() =~= ws.subrange(0, i as int));
                assert(ts.subrange(0, i + 1 as int).last() == ts[i as int]);
                assert(ws.subrange(0, i + 1 as int).last() == ws[i as int]);
                assert((i + 1) * SCALE as int == i * SCALE as int + SCALE as int)
                    by (nonlinear_arith);
            }
            let rate = self.targets[i].run(signals, forecast_idx);
            proof {
                assert(0 <= crate::engine::spec_success_rate(sv, ts[i as int], forecast_idx as int)
                    * ws[i as int] <= ws[i as int] * SCALE as int) by (nonlinear_arith)
                    requires
                        0 <= crate::engine::spec_success_rate(
                            sv,
                            ts[i as int],
                            forecast_idx as int,
                        ) <= SCALE,
                        ws[i as int] >= 0,
                ;
                assert((weights_sum(ws.subrange(0, i as int)) + ws[i as int]) * SCALE as int
                    == weights_sum(ws.subrange(0, i as int)) * SCALE as int + ws[i as int]
                    * SCALE as int) by (nonlinear_arith);
                crate::engine::lemma_count_reason_le(
                    sv,
                    ts[i as int],
                    forecast_idx as int,
                    crate::result::ExitReason::TargetReached,
                );
                crate::fixed::lemma_rate_bounds(
                    crate::engine::count_reason(
                        sv,
                        ts[i as int],
                        forecast_idx as int,
                        crate::result::ExitReason::TargetReached,
                    ),
                    crate::engine::count_eligible(sv, ts[i as int], forecast_idx as int),
                );
            }
            acc = acc + mul_u64(rate, self.weights[i]);
            i += 1;
        }
        proof {
            assert(ts.subrange(0, n as int) =~= ts);
            assert(ws.subrange(0, n as int) =~= ws);
            assert(weights_sum(ws) * SCALE as int <= SCALE as int * SCALE as int)
                by (nonlinear_arith)
                requires
                    0 <= weights_sum(ws) <= SCALE,
            ;
            vstd::arithmetic::div_mod::lemma_div_is_ordered(
                acc as int,
                SCALE as int * SCALE as int,
                SCALE as int,
            );
            vstd::arithmetic::div_mod::lemma_div_multiples_vanish(SCALE as int, SCALE as int);
            vstd::arithmetic::div_mod::lemma_div_pos_is_pos(acc as int, SCALE as int);
        }
        (acc / (SCALE as u128)) as u64
    }
}

} // verus!
