use bktrader::analyzer::Analyzer;
use bktrader::broker::EtfBroker;
use bktrader::position::{Position, PositionStatus};
use bktrader::quote::Bar;
use bktrader::ratio::Ratio;

fn bar(dt: i32, close: i64) -> Bar {
    Bar::new(510050, dt, close, close, close, close, close, 0, 1000, 1000 * close, 10, 0)
}

#[test]
fn entry_charges_fixed_fee_when_larger() {
    let mut broker = EtfBroker::new(10_000, 5, 1500);
    let id = broker.entry(&bar(1, 10), 10, 100, None, None);
    assert_eq!(id, 1);
    assert_eq!(broker.cash(), 8995);
    assert_eq!(broker.total_fees(), 5);
    let p = broker.position_first().unwrap();
    assert_eq!(p.fees, 5);
    assert_eq!(p.status, PositionStatus::Opened);
    assert_eq!(p.entry_price, 10);
    assert_eq!(p.volume, 100);
}

#[test]
fn exit_realizes_pnl() {
    let mut broker = EtfBroker::new(10_000, 5, 1500);
    let id = broker.entry(&bar(1, 10), 10, 100, None, None);
    broker.exit(&bar(2, 12), vec![id], 12);
    let p = broker.position_last().unwrap();
    assert_eq!(p.pnl, 200);
    assert_eq!(p.status, PositionStatus::Closed);
    assert_eq!(p.exit_price, Some(12));
    assert_eq!(p.exit_dt, Some(2));
    assert_eq!(p.fees, 10);
    assert_eq!(broker.cash(), 8995 + 1200 - 5);
    assert_eq!(broker.total_fees(), 10);
}

#[test]
fn proportional_fee_when_larger() {
    let mut broker = EtfBroker::new(1_000_000, 5, 1500);
    broker.entry(&bar(1, 100), 100, 1000, None, None);
    // 100 * 1000 * 1500 / 1_000_000 = 150
    assert_eq!(broker.total_fees(), 150);
    assert_eq!(broker.cash(), 1_000_000 - 100_000 - 150);
}

#[test]
fn ids_increase_from_one() {
    let mut broker = EtfBroker::new(100_000, 5, 1500);
    let a = broker.entry(&bar(1, 10), 10, 100, Some(9), Some(12));
    let b = broker.entry(&bar(1, 10), 10, 200, None, None);
    let c = broker.entry(&bar(2, 11), 11, 100, None, None);
    assert_eq!((a, b, c), (1, 2, 3));
    let first = broker.position_first().unwrap();
    assert_eq!(first.stop_loss, Some(9));
    assert_eq!(first.take_profit, Some(12));
}

#[test]
fn exit_skips_unknown_and_closed_ids() {
    let mut broker = EtfBroker::new(10_000, 5, 1500);
    let id = broker.entry(&bar(1, 10), 10, 100, None, None);
    broker.exit(&bar(2, 12), vec![7, 0], 12);
    assert_eq!(broker.cash(), 8995);
    assert_eq!(broker.total_fees(), 5);
    assert_eq!(broker.active_position_len(), 1);
    broker.exit(&bar(2, 12), vec![id, id], 12);
    assert_eq!(broker.cash(), 8995 + 1200 - 5);
    broker.exit(&bar(3, 13), vec![id], 13);
    assert_eq!(broker.cash(), 8995 + 1200 - 5);
    assert_eq!(broker.total_fees(), 10);
}

#[test]
fn exit_fee_is_charged_once_and_split() {
    let mut broker = EtfBroker::new(10_000, 5, 1500);
    let a = broker.entry(&bar(1, 10), 10, 100, None, None);
    let b = broker.entry(&bar(1, 10), 10, 100, None, None);
    assert_eq!(broker.cash(), 7990);
    broker.exit(&bar(2, 12), vec![a, b], 12);
    assert_eq!(broker.cash(), 7990 + 2400 - 5);
    assert_eq!(broker.total_fees(), 15);
    let closed = broker.closed_positions();
    assert_eq!(closed.len(), 2);
    // 5 split over two lots: 2 each, and the remainder 1 on the first.
    assert_eq!(closed[0].fees, 8);
    assert_eq!(closed[1].fees, 7);
    let recorded: i128 = broker.positions().iter().map(|p| p.fees).sum();
    assert_eq!(recorded, broker.total_fees() as i128);
    assert_eq!(closed[0].pnl, 200);
}

#[test]
fn valuation_marks_to_market_and_ages() {
    let mut broker = EtfBroker::new(10_000, 5, 1500);
    broker.entry(&bar(1, 10), 10, 100, None, None);
    broker.update_portfolio_value(&bar(1, 10));
    assert_eq!(broker.portfolio_value(), 9995);
    assert_eq!(broker.position_first().unwrap().holding_days, 0);
    broker.update_portfolio_value(&bar(2, 11));
    assert_eq!(broker.portfolio_value(), 10095);
    let p = broker.position_first().unwrap();
    assert_eq!(p.pnl, 100);
    assert_eq!(p.holding_days, 1);
    assert_eq!(broker.analyzer().equity_curve(), vec![9995, 10095]);
}

#[test]
fn update_active_pnl_only_touches_open_positions() {
    let mut broker = EtfBroker::new(10_000, 5, 1500);
    let a = broker.entry(&bar(1, 10), 10, 100, None, None);
    broker.entry(&bar(1, 10), 20, 10, None, None);
    broker.exit(&bar(2, 12), vec![a], 12);
    broker.update_active_pnl(&bar(3, 15));
    let ps = broker.positions();
    assert_eq!(ps[0].pnl, 200);
    assert_eq!(ps[1].pnl, -50);
}

#[test]
fn position_queries() {
    let mut broker = EtfBroker::new(100_000, 5, 1500);
    assert!(broker.position_first().is_none());
    assert!(broker.active_position_first().is_none());
    let a = broker.entry(&bar(1, 10), 10, 100, None, None);
    broker.entry(&bar(1, 10), 11, 200, None, None);
    broker.entry(&bar(2, 10), 12, 300, None, None);
    broker.exit(&bar(2, 12), vec![a], 12);
    assert_eq!(broker.active_position_len(), 2);
    assert_eq!(broker.active_positions_sum(), 500);
    assert_eq!(broker.active_position_first().unwrap().id, 2);
    assert_eq!(broker.active_position_last().unwrap().id, 3);
    assert_eq!(broker.position_first().unwrap().id, 1);
    assert_eq!(broker.position_last().unwrap().id, 3);
    let open: Vec<u32> = broker.active_positions().iter().map(|p| p.id).collect();
    assert_eq!(open, vec![2, 3]);
    let closed: Vec<u32> = broker.closed_positions().iter().map(|p| p.id).collect();
    assert_eq!(closed, vec![1]);
}

#[test]
fn profit_ratios() {
    let mut broker = EtfBroker::new(10_000, 5, 1500);
    broker.entry(&bar(1, 10), 10, 100, None, None);
    broker.update_portfolio_value(&bar(1, 10));
    broker.update_portfolio_value(&bar(2, 11));
    assert_eq!(broker.profit_net(), Some(Ratio::new(95, 10_000)));
    assert_eq!(broker.loss_fees(), Some(Ratio::new(5, 10_000)));
    assert_eq!(broker.profit_gross(), Some(Ratio::new(100, 10_000)));
    assert_eq!(broker.securities_cost(), 1005);
    assert_eq!(broker.profit_float(), Some(100));
    assert_eq!(broker.profit_active(), Some(100));
    assert_eq!(broker.profit_taken(), Some(0));
    assert_eq!(broker.profit_position(), Some(Ratio::new(100, 1005)));
    assert_eq!(broker.avg_hold_days(), Some(Ratio::new(1, 1)));
    assert_eq!(broker.loss_gross(), Ratio::new(0, 1));
    assert_eq!(broker.loss_net(), Some(Ratio::new(5, 10_000)));
}

#[test]
fn empty_ledger_ratios() {
    let broker = EtfBroker::new(0, 5, 1500);
    assert_eq!(broker.profit_net(), None);
    assert_eq!(broker.avg_hold_days(), None);
    assert_eq!(broker.profit_position(), None);
    assert_eq!(broker.init_cash(), 0);
}

#[test]
fn position_new_is_open() {
    let p = Position::new(4, 20240101, 35, 1000);
    assert_eq!(p.id, 4);
    assert_eq!(p.status, PositionStatus::Opened);
    assert_eq!(p.exit_dt, None);
    assert_eq!(p.pnl, 0);
    assert_eq!(p.fees, 0);
}

fn next(seed: &mut u64) -> u64 {
    *seed = seed.wrapping_mul(6364136223846793005).wrapping_add(1442695040888963407);
    *seed >> 33
}

fn replay(seed0: u64) -> (Vec<i64>, Vec<String>) {
    let mut seed = seed0;
    let mut broker = EtfBroker::new(1_000_000, 5, 150);
    let mut open: Vec<u32> = Vec::new();
    let mut price: i64 = 1000;
    for dt in 0..200 {
        price += (next(&mut seed) % 21) as i64 - 10;
        let b = bar(dt, price);
        if next(&mut seed) % 3 == 0 {
            open.push(broker.entry(&b, price, 100, None, None));
        } else if next(&mut seed) % 4 == 0 && !open.is_empty() {
            let ids = std::mem::take(&mut open);
            broker.exit(&b, ids, price);
        }
        broker.update_portfolio_value(&b);
    }
    let trades = broker.positions().iter().map(|p| format!("{:?}", p)).collect();
    (broker.analyzer().equity_curve(), trades)
}

#[test]
fn exit_fee_remainder_stays_on_lots() {
    let mut broker = EtfBroker::new(100_000, 7, 0);
    let ids: Vec<u32> = (0..3).map(|_| broker.entry(&bar(1, 10), 10, 10, None, None)).collect();
    broker.exit(&bar(2, 11), ids, 11);
    let fees: Vec<i128> = broker.positions().iter().map(|p| p.fees).collect();
    assert_eq!(fees, vec![7 + 2 + 1, 7 + 2, 7 + 2]);
    assert_eq!(fees.iter().sum::<i128>(), broker.total_fees() as i128);
    assert_eq!(broker.total_fees(), 28);
}

#[test]
fn replay_is_deterministic() {
    let first = replay(42);
    let second = replay(42);
    assert_eq!(first, second);
    assert_eq!(first.0.len(), 200);
}

#[test]
fn analyzer_statistics() {
    let mut a = Analyzer::new();
    for v in [100, 110, 90, 120] {
        a.update(v);
    }
    assert_eq!(a.total_return(), Some(Ratio::new(20, 100)));
    assert_eq!(a.max_drawdown(), Ratio::new(20, 110));
    assert_eq!(a.max_drawup(), Ratio::new(30, 90));
    assert_eq!(a.equity_curve(), vec![100, 110, 90, 120]);
}

#[test]
fn analyzer_empty_and_flat() {
    let mut a = Analyzer::new();
    assert_eq!(a.total_return(), Some(Ratio::new(0, 1)));
    assert_eq!(a.max_drawdown(), Ratio::new(0, 1));
    a.update(0);
    a.update(5);
    assert_eq!(a.total_return(), None);
    let mut b = Analyzer::new();
    b.update(-50);
    b.update(-25);
    assert_eq!(b.total_return(), Some(Ratio::new(-25, 50)));
}

#[test]
fn analyzer_drawdown_keeps_largest() {
    let mut a = Analyzer::new();
    for v in [100, 80, 120, 60, 200, 190] {
        a.update(v);
    }
    assert_eq!(a.max_drawdown(), Ratio::new(60, 120));
    assert_eq!(a.max_drawup(), Ratio::new(140, 60));
}
