use strategy_lab::bar::{create_mock_daily_bars, Bar, Candidate, Signal};
use strategy_lab::engine::{evaluate_signals, run_backtest, run_detailed_test, simulate, TradeOutcome};
use strategy_lab::result::ExitReason;
use strategy_lab::signals::EntryRule;
use strategy_lab::targets::{CombinedTarget, GuardTarget, ReturnTarget};

fn bar(date: u64, open: u64, high: u64, low: u64, close: u64) -> Bar {
    Bar { date, open, high, low, close, volume: 1000, amount: 1000 }
}

/// Decision day at index 0, then three future days. Prices are fixed-point
/// with four decimals: 100000 stands for 10.0.
fn series(days: [(u64, u64, u64, u64); 3]) -> Vec<Bar> {
    let mut v = vec![bar(20230101, 100000, 100000, 100000, 100000)];
    let mut d = 20230102;
    for (open, high, low, close) in days {
        v.push(bar(d, open, high, low, close));
        d += 1;
    }
    v
}

#[test]
fn clean_stop_scenario() {
    // buy 10.0, stop 5% (stop price 9.5), horizon 3;
    // day1 open 10.1 low 9.6 close 9.8; day2 open 9.7 low 9.2 close 9.4.
    let data = series([
        (101000, 101000, 96000, 98000),
        (97000, 97000, 92000, 94000),
        (95000, 95000, 93000, 94000),
    ]);
    let pol = ReturnTarget::new(2000, 500, 3);
    let out = simulate(&data, 100000, &pol, 0);
    assert_eq!(out.exit_reason, ExitReason::StopLoss);
    assert_eq!(out.exit_day, 2);
    assert_eq!(out.exit_price, 95000);
    assert_eq!(out.return_pct, -500);
}

#[test]
fn gap_failure_scenario() {
    // day1 opens at 9.0, below the 9.5 stop: StopLossFailed at the open,
    // later days irrelevant even though present.
    let data = series([
        (90000, 95000, 88000, 94000),
        (200000, 200000, 200000, 200000),
        (200000, 200000, 200000, 200000),
    ]);
    let pol = ReturnTarget::new(500, 500, 3);
    let out = simulate(&data, 100000, &pol, 0);
    assert_eq!(out.exit_reason, ExitReason::StopLossFailed);
    assert_eq!(out.exit_day, 1);
    assert_eq!(out.exit_price, 90000);
    assert_eq!(out.return_pct, -1000);
}

#[test]
fn target_reached_scenario() {
    // target 5%: day1 closes at 10.6, a 6% gain.
    let data = series([
        (100000, 106000, 99000, 106000),
        (90000, 90000, 90000, 90000),
        (90000, 90000, 90000, 90000),
    ]);
    let pol = ReturnTarget::new(500, 500, 3);
    let out = simulate(&data, 100000, &pol, 0);
    assert_eq!(out.exit_reason, ExitReason::TargetReached);
    assert_eq!(out.exit_day, 1);
    assert_eq!(out.exit_price, 106000);
    assert_eq!(out.return_pct, 600);
}

#[test]
fn time_expired_scenario() {
    // nothing triggers over horizon 3; exit at day-3 close 10.2.
    let data = series([
        (100000, 101000, 99000, 100000),
        (100000, 101000, 99000, 101000),
        (101000, 102000, 100000, 102000),
    ]);
    let pol = ReturnTarget::new(2000, 500, 3);
    let out = simulate(&data, 100000, &pol, 0);
    assert_eq!(out.exit_reason, ExitReason::TimeExpired);
    assert_eq!(out.exit_day, 3);
    assert_eq!(out.exit_price, 102000);
    assert_eq!(out.return_pct, 200);
}

#[test]
fn target_beats_stop_on_same_day() {
    // day1 both touches the stop intraday and closes above the target:
    // the target wins.
    let data = series([
        (100000, 107000, 94000, 106000),
        (90000, 90000, 90000, 90000),
        (90000, 90000, 90000, 90000),
    ]);
    let pol = ReturnTarget::new(500, 500, 3);
    let out = simulate(&data, 100000, &pol, 0);
    assert_eq!(out.exit_reason, ExitReason::TargetReached);
    assert_eq!(out.exit_day, 1);
}

#[test]
fn gap_beats_target_on_first_day() {
    // day1 gaps below the stop at the open; even a target-reaching close
    // cannot save it.
    let data = series([
        (90000, 110000, 88000, 110000),
        (90000, 90000, 90000, 90000),
        (90000, 90000, 90000, 90000),
    ]);
    let pol = ReturnTarget::new(500, 500, 3);
    let out = simulate(&data, 100000, &pol, 0);
    assert_eq!(out.exit_reason, ExitReason::StopLossFailed);
    assert_eq!(out.exit_day, 1);
}

#[test]
fn later_day_gap_down_fails_stop() {
    // day2 opens below the stop: failed stop at that open.
    let data = series([
        (100000, 101000, 99000, 100000),
        (90000, 91000, 89000, 90500),
        (90000, 90000, 90000, 90000),
    ]);
    let pol = ReturnTarget::new(2000, 500, 3);
    let out = simulate(&data, 100000, &pol, 0);
    assert_eq!(out.exit_reason, ExitReason::StopLossFailed);
    assert_eq!(out.exit_day, 2);
    assert_eq!(out.exit_price, 90000);
    assert_eq!(out.return_pct, -1000);
}

#[test]
fn single_day_horizon_expires_cleanly() {
    let data = series([
        (100000, 101000, 99000, 100500),
        (90000, 90000, 90000, 90000),
        (90000, 90000, 90000, 90000),
    ]);
    let pol = ReturnTarget::new(2000, 500, 1);
    let out = simulate(&data, 100000, &pol, 0);
    assert_eq!(out.exit_reason, ExitReason::TimeExpired);
    assert_eq!(out.exit_day, 1);
    assert_eq!(out.return_pct, 50);
}

fn signal(symbol: &str, data: Vec<Bar>, buy_price: i64) -> Signal {
    Signal { symbol: symbol.to_string(), data, buy_price }
}

#[test]
fn outcome_counts_sum_to_total() {
    // one winner, one clean stop, one gap failure, one expiry, plus two
    // excluded signals (no price / too short a series).
    let win = series([(100000, 106000, 99000, 106000), (1, 1, 1, 1), (1, 1, 1, 1)]);
    let stop = series([
        (101000, 101000, 96000, 98000),
        (97000, 97000, 92000, 94000),
        (95000, 95000, 93000, 94000),
    ]);
    let gap = series([(90000, 95000, 88000, 94000), (1, 1, 1, 1), (1, 1, 1, 1)]);
    let expire = series([
        (100000, 101000, 99000, 100000),
        (100000, 101000, 99000, 100000),
        (100000, 101000, 99000, 100000),
    ]);
    let signals = vec![
        signal("WIN", win, 100000),
        signal("STOP", stop, 100000),
        signal("GAP", gap, 100000),
        signal("EXPIRE", expire, 100000),
        signal("NOPRICE", create_mock_daily_bars(10), 0),
        signal("SHORT", create_mock_daily_bars(2), 100000),
    ];
    let pol = ReturnTarget::new(500, 500, 3);
    let r = evaluate_signals(&signals, &pol, 0, true);
    assert_eq!(r.total_trades, 4);
    assert_eq!(r.winning_trades, 1);
    assert_eq!(r.losing_trades, 3);
    assert_eq!(r.stop_loss_trades, 1);
    assert_eq!(r.stop_loss_fail_trades, 1);
    // the four outcome counts partition the total: time-expired losers are
    // the losing trades not booked to either stop bucket
    let time_expired = r.losing_trades - r.stop_loss_trades - r.stop_loss_fail_trades;
    assert_eq!(
        r.winning_trades + r.stop_loss_trades + r.stop_loss_fail_trades + time_expired,
        r.total_trades
    );
    // win rate is winning/total on the fixed-point grid
    assert_eq!(r.win_rate, 2500);
    assert!(r.win_rate <= 10000);
    let details = r.trade_details.expect("details were requested");
    assert_eq!(details.len(), 4);
    assert_eq!(details[0].symbol, "WIN");
    assert_eq!(details[0].exit_reason, ExitReason::TargetReached);
    assert_eq!(details[0].entry_date, 20230101);
    assert_eq!(details[0].exit_date, 20230102);
    assert_eq!(details[0].hold_days, 1);
}

#[test]
fn disabling_details_changes_no_numbers() {
    let stop = series([
        (101000, 101000, 96000, 98000),
        (97000, 97000, 92000, 94000),
        (95000, 95000, 93000, 94000),
    ]);
    let win = series([(100000, 106000, 99000, 106000), (1, 1, 1, 1), (1, 1, 1, 1)]);
    let signals = vec![signal("A", stop, 100000), signal("B", win, 100000)];
    let pol = ReturnTarget::new(500, 500, 3);
    let with = evaluate_signals(&signals, &pol, 0, true);
    let without = evaluate_signals(&signals, &pol, 0, false);
    assert!(without.trade_details.is_none());
    assert_eq!(with.total_trades, without.total_trades);
    assert_eq!(with.win_rate, without.win_rate);
    assert_eq!(with.avg_return, without.avg_return);
    assert_eq!(with.max_return, without.max_return);
    assert_eq!(with.max_loss, without.max_loss);
    assert_eq!(with.sharpe_ratio, without.sharpe_ratio);
    assert_eq!(with.max_drawdown, without.max_drawdown);
    assert_eq!(with.profit_factor, without.profit_factor);
}

#[test]
fn empty_and_ineligible_signals_are_excluded() {
    let pol = ReturnTarget::new(500, 500, 3);
    let r = evaluate_signals(&vec![], &pol, 0, false);
    assert_eq!(r.total_trades, 0);
    assert_eq!(r.win_rate, 0);
    let r2 = evaluate_signals(&vec![signal("X", create_mock_daily_bars(10), -5)], &pol, 0, false);
    assert_eq!(r2.total_trades, 0);
}

#[test]
fn walk_forward_mean_weighs_offsets_equally() {
    // offset 1 buys at 10.0 and reaches the 5% target; offset 2 buys at
    // 10.6 and expires flat.  The score is the mean of the per-offset
    // rates: (10000 + 0) / 2.
    let closes: [u64; 6] = [100000, 100000, 100000, 106000, 106000, 106000];
    let mut data = Vec::new();
    for (i, c) in closes.iter().enumerate() {
        data.push(bar(20230110 + i as u64, *c, *c + 1000, *c - 1000, *c));
    }
    let cand1 = Candidate { symbol: "S".to_string(), data: data.clone() };
    let cand2 = Candidate { symbol: "S".to_string(), data };
    let panel = vec![vec![cand1], vec![cand2]];
    let pol = ReturnTarget::new(500, 9000, 3);
    let score = run_backtest(&panel, EntryRule::NextClose, &pol);
    assert_eq!(score, 5000);
}

#[test]
fn detailed_test_pools_through_entry_rule() {
    let data = series([
        (100000, 106000, 99000, 106000),
        (106000, 113000, 105000, 113000),
        (113000, 113000, 112000, 113000),
    ]);
    let cand = Candidate { symbol: "S".to_string(), data };
    let pol = ReturnTarget::new(500, 500, 2);
    // next-open rule buys at day-1's open (10.0); day 2 reaches the target
    let r = run_detailed_test(&vec![cand], EntryRule::NextOpen, &pol, 0, false);
    assert_eq!(r.total_trades, 1);
    assert_eq!(r.winning_trades, 1);
    assert_eq!(r.win_rate, 10000);
}

#[test]
fn guard_target_detects_breach() {
    let ok = series([
        (100000, 101000, 96000, 100000),
        (100000, 101000, 97000, 100000),
        (100000, 101000, 98000, 100000),
    ]);
    let bad = series([
        (100000, 101000, 96000, 100000),
        (100000, 101000, 94000, 100000),
        (100000, 101000, 98000, 100000),
    ]);
    let guard = GuardTarget::new(500, 3);
    assert!(guard.evaluate(&ok, 100000, 0));
    assert!(!guard.evaluate(&bad, 100000, 0));
    assert!(!guard.evaluate(&ok, 0, 0));
    assert!(!guard.evaluate(&ok, 100000, 5));
}

#[test]
fn outcome_type_is_plain_data() {
    let a = TradeOutcome {
        exit_reason: ExitReason::StopLoss,
        exit_day: 2,
        exit_price: 95000,
        return_pct: -500,
    };
    let b = a;
    assert_eq!(a, b);
}

#[test]
fn single_day_horizon_books_a_clean_stop() {
    // horizon 1: the one scanned day touches the stop intraday while
    // opening above it.
    let data = series([
        (100000, 101000, 94000, 96000),
        (90000, 90000, 90000, 90000),
        (90000, 90000, 90000, 90000),
    ]);
    let pol = ReturnTarget::new(2000, 500, 1);
    let out = simulate(&data, 100000, &pol, 0);
    assert_eq!(out.exit_reason, ExitReason::StopLoss);
    assert_eq!(out.exit_day, 1);
    assert_eq!(out.exit_price, 95000);
    assert_eq!(out.return_pct, -500);
}

#[test]
fn stop_fill_price_rounds_down_to_the_grid() {
    // buy 3.3333, stop 5%: the exact stop price 3.166635 is off the grid
    // and fills at 3.1666; the booked return is the stop fraction exactly.
    let data = series([
        (33000, 33500, 31000, 32000),
        (32000, 32000, 32000, 32000),
        (32000, 32000, 32000, 32000),
    ]);
    let pol = ReturnTarget::new(2000, 500, 3);
    let out = simulate(&data, 33333, &pol, 0);
    assert_eq!(out.exit_reason, ExitReason::StopLoss);
    assert_eq!(out.exit_price, 31666);
    assert_eq!(out.return_pct, -500);
}

#[test]
fn simulate_respects_a_nonzero_offset() {
    // the same bars shifted: decision day at index 2, scan 3..=5.
    let mut data = vec![
        bar(20230101, 100000, 100000, 100000, 100000),
        bar(20230102, 100000, 100000, 100000, 100000),
        bar(20230103, 100000, 100000, 100000, 100000),
    ];
    data.push(bar(20230104, 100000, 106000, 99000, 106000));
    data.push(bar(20230105, 90000, 90000, 90000, 90000));
    data.push(bar(20230106, 90000, 90000, 90000, 90000));
    let pol = ReturnTarget::new(500, 500, 3);
    let out = simulate(&data, 100000, &pol, 2);
    assert_eq!(out.exit_reason, ExitReason::TargetReached);
    assert_eq!(out.exit_day, 1);
}

#[test]
fn combined_target_blends_component_scores() {
    // the winning component scores 10000, the strict one 0; equal weights
    // (5000 each) blend to 5000.
    let win = series([(100000, 106000, 99000, 106000), (1, 1, 1, 1), (1, 1, 1, 1)]);
    let signals = vec![signal("S", win, 100000)];
    let combined = CombinedTarget::new(vec![
        ReturnTarget::new(500, 9000, 3),
        ReturnTarget::new(3000, 9000, 3),
    ]);
    assert_eq!(combined.weights, vec![5000, 5000]);
    assert_eq!(combined.run(&signals, 0), 5000);
    assert_eq!(combined.in_days(), 3);
    assert_eq!(combined.stop_loss(), 9000);
    // the blended target return is the weighted mean of the components'
    assert_eq!(combined.target_return(), 1750);
}

#[test]
fn combined_target_normalizes_weights() {
    let combined = CombinedTarget::with_weights(
        vec![ReturnTarget::new(500, 9000, 3), ReturnTarget::new(3000, 9000, 5)],
        vec![3, 1],
    );
    assert_eq!(combined.weights, vec![7500, 2500]);
    assert_eq!(combined.in_days(), 5);
}
