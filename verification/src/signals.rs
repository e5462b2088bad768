//! Buy-signal generators: entry-price rules that turn a ranked candidate
//! list into signals with a computed buy price.
//!
//! Under T+1 settlement a decision made on day `forecast_idx` can first be
//! filled on day `forecast_idx + 1`, so the next-day rules price at that
//! day's close or open.  A price of zero means "no entry", and such
//! candidates are dropped from the signal list.

use vstd::prelude::*;

use crate::bar::{cand_views, series_wf, sig_views, Candidate, CandidateV, Signal, SignalV};
use crate::fixed::{mul_u64, MAX_PRICE, SCALE};

verus! {

/// An entry-price rule.
#[derive(Clone, Copy, Debug, PartialEq, Eq, Structural)]
pub enum EntryRule {
    /// Buy at the first tradable day's close.
    NextClose,
    /// Buy at the first tradable day's open.
    NextOpen,
    /// Buy at a limit below the decision day's close; the ratio is a
    /// fixed-point fraction of `SCALE`.
    Limit(u64),
}

impl EntryRule {
    /// A limit ratio never places the order above the reference close.
    pub open spec fn wf(self) -> bool {
        match self {
            EntryRule::Limit(ratio) => ratio <= SCALE,
            _ => true,
        }
    }
}

/// The buy price a rule assigns on a series at a decision day, `0` when the
/// series is too short for the rule.
pub open spec fn spec_buy_price(rule: EntryRule, data: Seq<Bar>, idx: int) -> i64 {
    match rule {
        EntryRule::NextClose => if data.len() > idx + 1 {
            data[idx + 1].close as i64
        } else {
            0
        },
        EntryRule::NextOpen => if data.len() > idx + 1 {
            data[idx + 1].open as i64
        } else {
            0
        },
        EntryRule::Limit(ratio) => if data.len() > idx {
            ((data[idx].close * ratio) / (SCALE as int)) as i64
        } else {
            0
        },
    }
}

use crate::bar::Bar;

/// Computes the buy price of a rule on a series.
pub fn buy_price_for(rule: EntryRule, data: &Vec<Bar>, forecast_idx: usize) -> (p: i64)
    requires
        rule.wf(),
        series_wf(data@),
        forecast_idx < usize::MAX,
    ensures
        p == spec_buy_price(rule, data@, forecast_idx as int),
        0 <= p <= MAX_PRICE,
{
    match rule {
        EntryRule::NextClose => {
            if data.len() > forecast_idx + 1 {
                data[forecast_idx + 1].close as i64
            } else {
                0
            }
        },
        EntryRule::NextOpen => {
            if data.len() > forecast_idx + 1 {
                data[forecast_idx + 1].open as i64
            } else {
                0
            }
        },
        EntryRule::Limit(ratio) => {
            if data.len() > forecast_idx {
                let c: u64 = data[forecast_idx].close;
                proof {
                    assert(c * ratio <= c * SCALE) by (nonlinear_arith)
                        requires
                            0 <= ratio <= SCALE,
                            c >= 0,
                    ;
                    vstd::arithmetic::div_mod::lemma_div_is_ordered(
                        c as int * ratio as int,
                        c as int * SCALE as int,
                        SCALE as int,
                    );
                    vstd::arithmetic::div_mod::lemma_div_multiples_vanish(c as int, SCALE as int);
                    vstd::arithmetic::div_mod::lemma_div_pos_is_pos(
                        c as int * ratio as int,
                        SCALE as int,
                    );
                }
                (mul_u64(c, ratio) / (SCALE as u128)) as i64
            } else {
                0
            }
        },
    }
}

/// The signals a rule generates over a candidate list: one per candidate
/// with a positive buy price, in the candidates' order.
pub open spec fn spec_gen_signals(cands: Seq<CandidateV>, rule: EntryRule, idx: int) -> Seq<SignalV>
    decreases cands.len(),
{
    if cands.len() == 0 {
        Seq::empty()
    } else {
        let pre = spec_gen_signals(cands.drop_last(), rule, idx);
        let p = spec_buy_price(rule, cands.last().data, idx);
        if p > 0 {
            pre.push(SignalV { symbol: cands.last().symbol, data: cands.last().data, buy_price: p })
        } else {
            pre
        }
    }
}

/// No rule generates more signals than it saw candidates.
pub proof fn lemma_gen_signals_len(cands: Seq<CandidateV>, rule: EntryRule, idx: int)
    ensures
        spec_gen_signals(cands, rule, idx).len() <= cands.len(),
    decreases cands.len(),
{
    if cands.len() > 0 {
        lemma_gen_signals_len(cands.drop_last(), rule, idx);
    }
}

/// Generates the signals of a rule over a candidate list.
pub fn signals_for(rule: EntryRule, candidates: &Vec<Candidate>, forecast_idx: usize) -> (sigs: Vec<Signal>)
    requires
        rule.wf(),
        forecast_idx < usize::MAX,
        forall|i: int| 0 <= i < candidates@.len() ==> series_wf((#[trigger] candidates@[i])@.data),
    ensures
        sig_views(sigs@) == spec_gen_signals(cand_views(candidates@), rule, forecast_idx as int),
        sigs@.len() <= candidates@.len(),
        forall|i: int|
            0 <= i < sigs@.len() ==> series_wf((#[trigger] sigs@[i])@.data) && 0 < sigs@[i]@.buy_price
                <= MAX_PRICE,
{
    let ghost cv = cand_views(candidates@);
    let mut sigs: Vec<Signal> = Vec::new();
    let mut i: usize = 0;
    while i < candidates.len()
        invariant
            rule.wf(),
            forecast_idx < usize::MAX,
            cv == cand_views(candidates@),
            cv.len() == candidates@.len(),
            forall|t: int| 0 <= t < candidates@.len() ==> series_wf((#[trigger] candidates@[t])@.data),
            i <= candidates@.len(),
            sig_views(sigs@) == spec_gen_signals(cv.subrange(0, i as int), rule, forecast_idx as int),
            sigs@.len() <= i,
            forall|t: int|
                0 <= t < sigs@.len() ==> series_wf((#[trigger] sigs@[t])@.data) && 0 < sigs@[t]@.buy_price
                    <= MAX_PRICE,
        decreases candidates@.len() - i,
    {
        proof {
            assert(cv.subrange(0, i + 1 as int).drop_last() =~= cv.subrange(0, i as int));
            assert(cv.subrange(0, i + 1 as int).last() == cv[i as int]);
            assert(cv[i as int] == candidates@[i as int]@);
        }
        let c = &candidates[i];
        let p = buy_price_for(rule, &c.data, forecast_idx);
        if p > 0 {
            let sig = Signal {
                symbol: c.symbol.clone(),
                data: crate::bar::clone_bars(&c.data),
                buy_price: p,
            };
            proof {
                assert(sig@ == (SignalV {
                    symbol: cv[i as int].symbol,
                    data: cv[i as int].data,
                    buy_price: p,
                }));
                assert(sig_views(sigs@.push(sig)) =~= sig_views(sigs@).push(sig@));
            }
            sigs.push(sig);
        }
        i += 1;
    }
    proof {
        assert(cv.subrange(0, candidates@.len() as int) =~= cv);
    }
    sigs
}

/// The next-day close rule.
#[derive(Debug, Clone)]
pub struct ClosePriceSignal;

impl ClosePriceSignal {
    /// The buy price: the first tradable day's close.
    pub fn calculate_buy_price(&self, data: &Vec<Bar>, forecast_idx: usize) -> (p: i64)
        requires
            series_wf(data@),
            forecast_idx < usize::MAX,
        ensures
            p == spec_buy_price(EntryRule::NextClose, data@, forecast_idx as int),
            0 <= p <= MAX_PRICE,
    {
        buy_price_for(EntryRule::NextClose, data, forecast_idx)
    }

    /// Signals for a candidate list, candidates without an entry dropped.
    pub fn generate_signals(&self, candidates: Vec<Candidate>, forecast_idx: usize) -> (sigs: Vec<Signal>)
        requires
            forecast_idx < usize::MAX,
            forall|i: int| 0 <= i < candidates@.len() ==> series_wf((#[trigger] candidates@[i])@.data),
        ensures
            sig_views(sigs@) == spec_gen_signals(
                cand_views(candidates@),
                EntryRule::NextClose,
                forecast_idx as int,
            ),
    {
        signals_for(EntryRule::NextClose, &candidates, forecast_idx)
    }
}

/// The next-day open rule.
#[derive(Debug, Clone)]
pub struct OpenPriceSignal;

impl OpenPriceSignal {
    /// The buy price: the first tradable day's open.
    pub fn calculate_buy_price(&self, data: &Vec<Bar>, forecast_idx: usize) -> (p: i64)
        requires
            series_wf(data@),
            forecast_idx < usize::MAX,
        ensures
            p == spec_buy_price(EntryRule::NextOpen, data@, forecast_idx as int),
            0 <= p <= MAX_PRICE,
    {
        buy_price_for(EntryRule::NextOpen, data, forecast_idx)
    }

    /// Signals for a candidate list, candidates without an entry dropped.
    pub fn generate_signals(&self, candidates: Vec<Candidate>, forecast_idx: usize) -> (sigs: Vec<Signal>)
        requires
            forecast_idx < usize::MAX,
            forall|i: int| 0 <= i < candidates@.len() ==> series_wf((#[trigger] candidates@[i])@.data),
        ensures
            sig_views(sigs@) == spec_gen_signals(
                cand_views(candidates@),
                EntryRule::NextOpen,
                forecast_idx as int,
            ),
    {
        signals_for(EntryRule::NextOpen, &candidates, forecast_idx)
    }
}

/// The limit rule: an order placed at a fraction of the decision day's
/// close.
#[derive(Debug, Clone)]
pub struct LimitPriceSignal {
    /// Fixed-point fraction of the previous close the order is placed at.
    pub price_ratio: u64,
}

impl Default for LimitPriceSignal {
    /// The customary limit: 98% of the previous close.
    fn default() -> (s: LimitPriceSignal)
        ensures
            s.price_ratio == 9800,
    {
        LimitPriceSignal { price_ratio: 9800 }
    }
}

impl LimitPriceSignal {
    /// The buy price: the decision day's close scaled by the ratio.
    pub fn calculate_buy_price(&self, data: &Vec<Bar>, forecast_idx: usize) -> (p: i64)
        requires
            self.price_ratio <= SCALE,
            series_wf(data@),
            forecast_idx < usize::MAX,
        ensures
            p == spec_buy_price(EntryRule::Limit(self.price_ratio), data@, forecast_idx as int),
            0 <= p <= MAX_PRICE,
    {
        buy_price_for(EntryRule::Limit(self.price_ratio), data, forecast_idx)
    }

    /// Signals for a candidate list, candidates without an entry dropped.
    pub fn generate_signals(&self, candidates: Vec<Candidate>, forecast_idx: usize) -> (sigs: Vec<Signal>)
        requires
            self.price_ratio <= SCALE,
            forecast_idx < usize::MAX,
            forall|i: int| 0 <= i < candidates@.len() ==> series_wf((#[trigger] candidates@[i])@.data),
        ensures
            sig_views(sigs@) == spec_gen_signals(
                cand_views(candidates@),
                EntryRule::Limit(self.price_ratio),
                forecast_idx as int,
            ),
    {
        signals_for(EntryRule::Limit(self.price_ratio), &candidates, forecast_idx)
    }
}

} // verus!
