use state_engine::executor::{Executor, Trade};
use state_engine::features::FeatureCollector;
use state_engine::risk::RiskManager;
use state_engine::state::OrderBook;

fn trade(id: &str, side: char, active: bool) -> Trade<f64> {
    Trade {
        id: id.to_string(),
        entry_price: 1.08345,
        side,
        features_at_entry: vec![0.2, 0.0, 0.1, 0.0, 0.0, 0.0],
        is_active: active,
    }
}

#[test]
fn collector_keeps_its_window() {
    assert_eq!(FeatureCollector::new(100).window_size, 100);
}

#[test]
fn hypothesis_follows_the_order_flow_imbalance() {
    let c = FeatureCollector::new(100);
    let mut book = OrderBook::new();
    assert!(c.is_hypothesis_valid(&book, '1'));
    assert!(c.is_hypothesis_valid(&book, '2'));
    // bids 45, asks 55: ofi = -0.1 exactly.
    book.update_from_fix('0', '0', 100, 45);
    book.update_from_fix('0', '1', 101, 55);
    assert!(!c.is_hypothesis_valid(&book, '1'));
    assert!(c.is_hypothesis_valid(&book, '2'));
    // bids 46, asks 55: ofi > -0.1.
    book.update_from_fix('0', '0', 100, 46);
    assert!(c.is_hypothesis_valid(&book, '1'));
    // bids 70, asks 30: ofi = 0.4.
    book.update_from_fix('0', '0', 100, 70);
    book.update_from_fix('0', '1', 101, 30);
    assert!(c.is_hypothesis_valid(&book, '1'));
    assert!(!c.is_hypothesis_valid(&book, '2'));
}

#[test]
fn risk_limits_per_side() {
    let r = RiskManager { max_buys: 2, max_sells: 1, magic_number: 777999 };
    assert!(r.can_open_more(1, 5, '1'));
    assert!(!r.can_open_more(2, 0, '1'));
    assert!(r.can_open_more(9, 0, '2'));
    assert!(!r.can_open_more(0, 1, '2'));
    assert!(!r.can_open_more(0, 0, '0'));
}

#[test]
fn risk_settings_are_read_from_text() {
    let r = RiskManager::from_settings("2", "3", "777999").unwrap();
    assert_eq!((r.max_buys, r.max_sells, r.magic_number), (2, 3, 777999));
    assert!(RiskManager::from_settings("two", "2", "1").is_none());
    assert!(RiskManager::from_settings("2", "2", "-1").is_none());
}

#[test]
fn positions_are_counted_per_side() {
    let mut ex: Executor<f64> = Executor::new(777999);
    assert_eq!(ex.count_positions(), (0, 0));
    ex.trades.push(trade("a", '1', true));
    ex.trades.push(trade("b", '2', true));
    ex.trades.push(trade("c", '1', false));
    ex.trades.push(trade("d", '0', true));
    assert_eq!(ex.count_positions(), (2, 1));
}

#[test]
fn hypotheses_that_fail_deactivate_their_trades_only() {
    let mut ex: Executor<f64> = Executor::new(1);
    ex.trades.push(trade("a", '1', true));
    ex.trades.push(trade("b", '2', true));
    ex.trades.push(trade("c", '2', false));
    let mut book = OrderBook::new();
    book.update_from_fix('0', '0', 100, 90);
    book.update_from_fix('0', '1', 101, 10);
    ex.manage_hypotheses(&book, &FeatureCollector::new(100));
    let active: Vec<bool> = ex.trades.iter().map(|t| t.is_active).collect();
    assert_eq!(active, vec![true, false, false]);
    let ids: Vec<&str> = ex.trades.iter().map(|t| t.id.as_str()).collect();
    assert_eq!(ids, vec!["a", "b", "c"]);
}

#[test]
fn managing_hypotheses_keeps_position_counts() {
    let mut ex: Executor<f64> = Executor::new(1);
    ex.trades.push(trade("a", '1', true));
    ex.trades.push(trade("b", '2', true));
    let before = ex.count_positions();
    let mut book = OrderBook::new();
    book.update_from_fix('0', '0', 100, 10);
    book.update_from_fix('0', '1', 101, 90);
    ex.manage_hypotheses(&book, &FeatureCollector::new(100));
    assert!(!ex.trades[0].is_active);
    assert_eq!(ex.count_positions(), before);
}

#[test]
fn volumes_are_rounded_down_to_lots() {
    assert_eq!(RiskManager::normalize_qty(1500), 1000);
    assert_eq!(RiskManager::normalize_qty(2000), 2000);
    assert_eq!(RiskManager::normalize_qty(999), 0);
    assert_eq!(RiskManager::normalize_qty(0), 0);
    assert_eq!(RiskManager::normalize_qty(u64::MAX), 18_446_744_073_709_551_000);
}
