use strategy_lab::bar::{create_mock_daily_bars, Bar, Candidate, Signal};
use strategy_lab::fixed::{rate_exec, ret_frac_exec, SCALE};
use strategy_lab::metrics::{
    calmar_ratio, expected_return, max_drawdown, max_drawdown_of, mean_of, profit_factor,
    sharpe_of, sharpe_ratio, sortino_ratio, win_rate,
};
use strategy_lab::result::{BacktestResult, ExitReason, TradeDetail};
use strategy_lab::scorecard::{generate_recommendations, scatter_scores, Scorecard};
use strategy_lab::signals::{ClosePriceSignal, EntryRule, LimitPriceSignal, OpenPriceSignal};
use strategy_lab::strategies::MacdSelector;
use strategy_lab::targets::ReturnTarget;

fn detail(symbol: &str, return_pct: i64) -> TradeDetail {
    TradeDetail {
        symbol: symbol.to_string(),
        entry_date: 20230101,
        entry_price: 100000,
        exit_date: 20230102,
        exit_price: 100000,
        return_pct,
        hold_days: 1,
        exit_reason: ExitReason::TimeExpired,
    }
}

fn result_with(total: usize, winning: usize, rets: &[i64]) -> BacktestResult {
    let mut r = BacktestResult::new();
    r.total_trades = total;
    r.winning_trades = winning;
    r.losing_trades = total - winning;
    r.win_rate = rate_exec(winning, total);
    r.avg_return = mean_of(&rets.to_vec());
    r.trade_details = Some(rets.iter().map(|&x| detail("T", x)).collect());
    r
}

#[test]
fn merge_adds_counts() {
    let a = result_with(3, 2, &[100, 200, -100]);
    let b = result_with(2, 1, &[50, -50]);
    let merged = BacktestResult::merge(vec![a, b]);
    assert_eq!(merged.total_trades, 5);
    assert_eq!(merged.winning_trades, 3);
    assert_eq!(merged.losing_trades, 2);
    assert_eq!(merged.trade_details.as_ref().map(|d| d.len()), Some(5));
}

#[test]
fn merge_counts_commute_and_associate() {
    let a = result_with(3, 2, &[100, 200, -100]);
    let b = result_with(2, 1, &[50, -50]);
    let c = result_with(1, 0, &[-20]);
    let ab_c = BacktestResult::merge(vec![
        BacktestResult::merge(vec![a.clone(), b.clone()]),
        c.clone(),
    ]);
    let a_bc = BacktestResult::merge(vec![a.clone(), BacktestResult::merge(vec![b.clone(), c.clone()])]);
    assert_eq!(ab_c.total_trades, a_bc.total_trades);
    assert_eq!(ab_c.winning_trades, a_bc.winning_trades);
    assert_eq!(ab_c.losing_trades, a_bc.losing_trades);
    assert_eq!(ab_c.stop_loss_trades, a_bc.stop_loss_trades);
    assert_eq!(ab_c.stop_loss_fail_trades, a_bc.stop_loss_fail_trades);
    let ab = BacktestResult::merge(vec![a.clone(), b.clone()]);
    let ba = BacktestResult::merge(vec![b, a]);
    assert_eq!(ab.total_trades, ba.total_trades);
    assert_eq!(ab.winning_trades, ba.winning_trades);
}

#[test]
fn merge_with_self_doubles_counts_but_keeps_rates() {
    let a = result_with(4, 1, &[100, -100, 0, 50]);
    let merged = BacktestResult::merge(vec![a.clone(), a.clone()]);
    assert_eq!(merged.total_trades, 2 * a.total_trades);
    assert_eq!(merged.win_rate, a.win_rate);
    assert_eq!(merged.stop_loss_rate, a.stop_loss_rate);
    assert_eq!(merged.stop_loss_fail_rate, a.stop_loss_fail_rate);
}

#[test]
fn merge_of_nothing_is_empty() {
    let merged = BacktestResult::merge(vec![]);
    assert_eq!(merged.total_trades, 0);
    assert_eq!(merged.win_rate, 0);
    assert_eq!(merged.profit_factor, Some(0));
    assert!(merged.trade_details.is_none());
}

#[test]
fn merge_without_losses_has_infinite_profit_factor() {
    let a = result_with(2, 2, &[100, 200]);
    let merged = BacktestResult::merge(vec![a]);
    assert_eq!(merged.profit_factor, None);
}

#[test]
fn sharpe_of_known_list() {
    // returns 1% and 3%: mean 200, deviations +-100, variance 10000,
    // standard deviation 100, Sharpe 200 * SCALE / 100 = 20000.
    assert_eq!(sharpe_of(&vec![100, 300]), 20000);
    // no spread, no Sharpe
    assert_eq!(sharpe_of(&vec![200, 200]), 0);
    assert_eq!(sharpe_of(&vec![]), 0);
    // a risk-free rate shifts only the numerator
    assert_eq!(sharpe_ratio(&vec![100, 300], 100), 10000);
}

#[test]
fn drawdown_of_returns_in_given_order() {
    // +10% then -20%: capital 1.1 peaks, then falls to 0.88;
    // drawdown (1.1 - 0.88) / 1.1 = 20%.
    assert_eq!(max_drawdown_of(&vec![1000, -2000]), 2000);
    // order matters: the loss first never falls below the starting peak
    assert_eq!(max_drawdown_of(&vec![-2000, 1000]), 0);
    assert_eq!(max_drawdown_of(&vec![]), 0);
    assert_eq!(max_drawdown_of(&vec![500, 500]), 0);
}

#[test]
fn value_drawdown_of_asset_series() {
    // peak 120, trough 90: 25% drawdown.
    assert_eq!(max_drawdown(&vec![100, 120, 90]), 2500);
    assert_eq!(max_drawdown(&vec![100]), 0);
    assert_eq!(max_drawdown(&vec![100, 110, 120]), 0);
}

#[test]
fn win_rate_counts_strict_gains() {
    assert_eq!(win_rate(&vec![100, -50, 0]), 3333);
    assert_eq!(win_rate(&vec![]), 0);
    assert_eq!(win_rate(&vec![1, 2, 3]), 10000);
}

#[test]
fn profit_factor_over_sums() {
    // gains 100, losses 50: factor 2.0.
    assert_eq!(profit_factor(&vec![100, -50]), Some(20000));
    // no losses: infinite
    assert_eq!(profit_factor(&vec![100, 0]), None);
}

#[test]
fn expected_return_weighs_both_sides() {
    // win rate 50%, average win 100, average loss -50:
    // (5000 * 100 - 5000 * 50) / 10000 = 25.
    assert_eq!(expected_return(&vec![100, -50]), 25);
    assert_eq!(expected_return(&vec![]), 0);
}

#[test]
fn calmar_ratio_over_value_drawdown() {
    // mean return 100, drawdown 25%: 100 * SCALE / 2500 = 400.
    assert_eq!(calmar_ratio(&vec![100], &vec![100, 120, 90], 0), Some(400));
    // no drawdown: infinite
    assert_eq!(calmar_ratio(&vec![100], &vec![100, 120, 130], 0), None);
    // degenerate inputs fall back to zero
    assert_eq!(calmar_ratio(&vec![], &vec![100, 90], 0), Some(0));
}

#[test]
fn return_fraction_rounds_toward_zero() {
    assert_eq!(ret_frac_exec(100000, 106000), 600);
    assert_eq!(ret_frac_exec(100000, 90000), -1000);
    assert_eq!(ret_frac_exec(30000, 30001), 0);
    assert_eq!(ret_frac_exec(30000, 29999), 0);
}

fn flat_series(len: usize, close: u64) -> Vec<Bar> {
    (0..len)
        .map(|i| Bar {
            date: 20230101 + i as u64,
            open: close,
            high: close + 1000,
            low: close - 1000,
            close,
            volume: 1000,
            amount: 1000,
        })
        .collect()
}

#[test]
fn entry_rules_price_where_the_policy_says() {
    let mut data = flat_series(4, 100000);
    data[1].close = 105000;
    data[1].open = 104000;
    let close_rule = ClosePriceSignal;
    let open_rule = OpenPriceSignal;
    let limit_rule = LimitPriceSignal::default();
    assert_eq!(close_rule.calculate_buy_price(&data, 0), 105000);
    assert_eq!(open_rule.calculate_buy_price(&data, 0), 104000);
    // the limit sits at 98% of the decision day's close
    assert_eq!(limit_rule.calculate_buy_price(&data, 1), 102900);
    // too short a series yields no entry
    assert_eq!(close_rule.calculate_buy_price(&data, 3), 0);
    let cands = vec![
        Candidate { symbol: "A".to_string(), data: data.clone() },
        Candidate { symbol: "B".to_string(), data: flat_series(1, 100000) },
    ];
    let sigs = close_rule.generate_signals(cands, 0);
    assert_eq!(sigs.len(), 1);
    assert_eq!(sigs[0].symbol, "A");
    assert_eq!(sigs[0].buy_price, 105000);
}

#[test]
fn scorecard_runs_the_cross_product() {
    // one selector panel with one offset whose single candidate wins under
    // a 5% target and loses under a 30% target.
    let mut data = flat_series(6, 100000);
    data[3].close = 106000;
    data[3].open = 106000;
    data[3].low = 105000;
    data[3].high = 107000;
    let cand = Candidate { symbol: "S".to_string(), data };
    let panels = vec![vec![vec![cand]]];
    let targets = vec![ReturnTarget::new(500, 9000, 3), ReturnTarget::new(3000, 9000, 3)];
    let rules = vec![EntryRule::NextClose];
    let sc = Scorecard::new(1, targets, rules);
    let m = sc.run(&panels);
    assert_eq!(m.len(), 2);
    assert_eq!(m[0][0][0], 10000);
    assert_eq!(m[1][0][0], 0);
    let best = sc.find_best_combination(&m);
    assert_eq!(best, (0, 0, 0, 10000));
}

#[test]
fn find_best_prefers_first_seen_on_ties() {
    let sc = Scorecard::new(1, vec![], vec![]);
    let m = vec![
        vec![vec![100, 700], vec![700, 0]],
        vec![vec![700, 1], vec![0, 0]],
    ];
    let best = sc.find_best_combination(&m);
    assert_eq!(best, (0, 0, 1, 700));
    let zeros = vec![vec![vec![0, 0], vec![0, 0]]];
    assert_eq!(sc.find_best_combination(&zeros), (0, 0, 0, 0));
}

#[test]
fn scatter_is_order_independent() {
    let empty = || vec![vec![vec![0u64; 2]; 2]; 2];
    let scores = vec![
        (0usize, 0usize, 0usize, 10u64),
        (0, 1, 1, 20),
        (1, 0, 1, 30),
        (1, 1, 0, 40),
    ];
    let mut shuffled = scores.clone();
    shuffled.reverse();
    shuffled.swap(0, 2);
    let mut m1 = empty();
    let mut m2 = empty();
    scatter_scores(&mut m1, &scores);
    scatter_scores(&mut m2, &shuffled);
    assert_eq!(m1, m2);
    assert_eq!(m1[0][0][0], 10);
    assert_eq!(m1[1][1][0], 40);
    assert_eq!(m1[0][0][1], 0);
}

#[test]
fn recommendations_carry_derived_prices() {
    let data = flat_series(4, 100000);
    let sig = Signal { symbol: "S".to_string(), data, buy_price: 100000 };
    let pol = ReturnTarget::new(500, 300, 3);
    let recs = generate_recommendations(&vec![sig], &pol);
    assert_eq!(recs.len(), 1);
    assert_eq!(recs[0].buy_price, 100000);
    assert_eq!(recs[0].target_price, 105000);
    assert_eq!(recs[0].stop_loss_price, 97000);
    assert_eq!(recs[0].prev_close, Some(100000));
    // at most five entries leave the list
    let many: Vec<Signal> = (0..7)
        .map(|i| Signal {
            symbol: format!("S{}", i),
            data: flat_series(4, 100000),
            buy_price: 100000,
        })
        .collect();
    assert_eq!(generate_recommendations(&many, &pol).len(), 5);
}

#[test]
fn mock_bars_climb_on_schedule() {
    let bars = create_mock_daily_bars(3);
    assert_eq!(bars.len(), 3);
    assert_eq!(bars[0].open, 100000);
    assert_eq!(bars[2].open, 102000);
    assert_eq!(bars[1].date, 20230102);
}

#[test]
fn macd_selector_keeps_its_bound() {
    let sel = MacdSelector::new(10);
    assert_eq!(sel.top_n(), 10);
}

#[test]
fn rate_is_zero_on_empty_totals() {
    assert_eq!(rate_exec(0, 0), 0);
    assert_eq!(rate_exec(1, 4), 2500);
    assert_eq!(rate_exec(4, 4), SCALE);
}

#[test]
fn sortino_penalizes_only_the_downside() {
    // mean 25, one negative return of -1%: downside deviation 100,
    // Sortino 25 * SCALE / 100 = 2500.
    assert_eq!(sortino_ratio(&vec![100, -100, 50, 50], 0), Some(2500));
    // no losses: infinite
    assert_eq!(sortino_ratio(&vec![100, 200], 0), None);
    assert_eq!(sortino_ratio(&vec![], 0), Some(0));
}
