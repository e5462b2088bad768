//! Daily price bars, candidate instruments, and buy signals.
//!
//! A series is ordered most-recent-first: index `0` is the latest known day,
//! and an offset `f` names the day `f` positions older than it.  Day `f` is
//! the decision day; day `f + 1` is the first tradable future day.

use vstd::prelude::*;

use crate::fixed::MAX_PRICE;

verus! {

/// One daily bar of an instrument, prices in fixed-point units.
#[derive(Clone, Copy, Debug, PartialEq, Eq, Structural)]
pub struct Bar {
    /// Trading day as a YYYYMMDD integer.
    pub date: u64,
    pub open: u64,
    pub high: u64,
    pub low: u64,
    pub close: u64,
    pub volume: u64,
    pub amount: u64,
}

impl Bar {
    /// All prices of the bar lie on the admissible grid.
    pub open spec fn wf(self) -> bool {
        self.open <= MAX_PRICE && self.high <= MAX_PRICE && self.low <= MAX_PRICE
            && self.close <= MAX_PRICE
    }
}

/// Every bar of the series is well formed.
pub open spec fn series_wf(s: Seq<Bar>) -> bool {
    forall|i: int| 0 <= i < s.len() ==> (#[trigger] s[i]).wf()
}

/// The series is ordered most-recent-first: dates strictly decrease with
/// the index.
pub open spec fn dates_most_recent_first(s: Seq<Bar>) -> bool {
    forall|i: int, j: int|
        0 <= i < j < s.len() ==> (#[trigger] s[i]).date > (#[trigger] s[j]).date
}

/// A candidate instrument handed over by a selector: a symbol and its series.
#[derive(Debug, Clone)]
pub struct Candidate {
    pub symbol: String,
    pub data: Vec<Bar>,
}

/// The mathematical content of a `Candidate`.
pub struct CandidateV {
    pub symbol: Seq<char>,
    pub data: Seq<Bar>,
}

impl View for Candidate {
    type V = CandidateV;

    open spec fn view(&self) -> CandidateV {
        CandidateV { symbol: self.symbol@, data: self.data@ }
    }
}

/// A buy signal: a candidate together with a computed buy price.
/// A `buy_price` of zero or below means "no trade".
#[derive(Debug, Clone)]
pub struct Signal {
    pub symbol: String,
    pub data: Vec<Bar>,
    pub buy_price: i64,
}

/// The mathematical content of a `Signal`.
pub struct SignalV {
    pub symbol: Seq<char>,
    pub data: Seq<Bar>,
    pub buy_price: i64,
}

impl View for Signal {
    type V = SignalV;

    open spec fn view(&self) -> SignalV {
        SignalV { symbol: self.symbol@, data: self.data@, buy_price: self.buy_price }
    }
}

/// The views of a sequence of candidates.
pub open spec fn cand_views(s: Seq<Candidate>) -> Seq<CandidateV> {
    s.map_values(|c: Candidate| c@)
}

/// The views of a sequence of signals.
pub open spec fn sig_views(s: Seq<Signal>) -> Seq<SignalV> {
    s.map_values(|x: Signal| x@)
}

/// Copies a series bar by bar.
pub fn clone_bars(v: &Vec<Bar>) -> (r: Vec<Bar>)
    ensures
        r@ == v@,
{
    let mut r: Vec<Bar> = Vec::new();
    let mut i: usize = 0;
    while i < v.len()
        invariant
            i <= v.len(),
            r@ == v@.subrange(0, i as int),
        decreases v.len() - i,
    {
        r.push(v[i]);
        proof {
            assert(r@ == v@.subrange(0, i + 1 as int));
        }
        i += 1;
    }
    proof {
        assert(v@.subrange(0, v@.len() as int) == v@);
    }
    r
}

/// The bar a mock series holds at position `i`: a slow linear climb on a
/// repeating month of dates.
pub open spec fn mock_bar(i: int) -> Bar {
    Bar {
        date: (20230101 + i % 30) as u64,
        open: (100000 + i * 1000) as u64,
        high: (105000 + i * 1000) as u64,
        low: (95000 + i * 1000) as u64,
        close: (102000 + i * 1000) as u64,
        volume: (10000 + i * 100) as u64,
        amount: (100000 + i * 1000) as u64,
    }
}

/// Builds a mock daily series for exercising the engine without market data.
pub fn create_mock_daily_bars(count: usize) -> (bars: Vec<Bar>)
    requires
        count <= 100_000,
    ensures
        bars@.len() == count,
        forall|i: int| 0 <= i < count ==> bars@[i] == mock_bar(i),
        series_wf(bars@),
{
    let mut bars: Vec<Bar> = Vec::new();
    let mut i: usize = 0;
    while i < count
        invariant
            i <= count,
            count <= 100_000,
            bars@.len() == i,
            forall|j: int| 0 <= j < i ==> bars@[j] == mock_bar(j),
        decreases count - i,
    {
        let bar = Bar {
            date: 20230101 + (i as u64) % 30,
            open: 100000 + (i as u64) * 1000,
            high: 105000 + (i as u64) * 1000,
            low: 95000 + (i as u64) * 1000,
            close: 102000 + (i as u64) * 1000,
            volume: 10000 + (i as u64) * 100,
            amount: 100000 + (i as u64) * 1000,
        };
        bars.push(bar);
        i += 1;
    }
    proof {
        assert forall|k: int| 0 <= k < bars@.len() implies (#[trigger] bars@[k]).wf() by {
            assert(bars@[k] == mock_bar(k));
        }
    }
    bars
}

} // verus!
