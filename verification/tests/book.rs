use state_engine::state::{BookSide, Fraction, OrderBook};

fn levels(side: &BookSide) -> Vec<(i64, i64)> {
    (0..5).map(|i| (side.prices[i], side.volumes[i])).collect()
}

#[test]
fn new_side_is_empty() {
    let side = BookSide::new();
    assert_eq!(levels(&side), vec![(0, 0); 5]);
}

#[test]
fn bids_are_kept_highest_first() {
    let mut side = BookSide::new();
    side.update(108340, 10, 0);
    side.update(108350, 20, 0);
    side.update(108330, 30, 0);
    assert_eq!(
        levels(&side),
        vec![(108350, 20), (108340, 10), (108330, 30), (0, 0), (0, 0)]
    );
}

#[test]
fn asks_are_kept_lowest_first() {
    let mut side = BookSide::new();
    side.update(108360, 10, 1);
    side.update(108350, 20, 1);
    side.update(108370, 30, 1);
    assert_eq!(
        levels(&side),
        vec![(108350, 20), (108360, 10), (108370, 30), (0, 0), (0, 0)]
    );
}

#[test]
fn update_of_existing_price_changes_only_its_volume() {
    let mut side = BookSide::new();
    side.update(108340, 10, 0);
    side.update(108350, 20, 0);
    side.update(108340, 99, 0);
    assert_eq!(
        levels(&side),
        vec![(108350, 20), (108340, 99), (0, 0), (0, 0), (0, 0)]
    );
}

#[test]
fn sixth_level_worse_than_all_is_dropped() {
    let mut side = BookSide::new();
    for (i, p) in [100, 99, 98, 97, 96].iter().enumerate() {
        side.update(*p, i as i64 + 1, 0);
    }
    side.update(95, 50, 0);
    assert_eq!(levels(&side), vec![(100, 1), (99, 2), (98, 3), (97, 4), (96, 5)]);
    side.update(101, 7, 0);
    assert_eq!(levels(&side), vec![(101, 7), (100, 1), (99, 2), (98, 3), (97, 4)]);
}

#[test]
fn zero_volume_removes_the_price() {
    let mut side = BookSide::new();
    side.update(100, 5, 0);
    side.update(99, 6, 0);
    side.update(100, 0, 0);
    assert_eq!(levels(&side), vec![(0, 0), (99, 6), (0, 0), (0, 0), (0, 0)]);
    side.update(99, -3, 0);
    assert_eq!(levels(&side), vec![(0, 0); 5]);
}

#[test]
fn removal_leaves_a_hole_until_the_next_new_price() {
    let mut side = BookSide::new();
    side.update(100, 5, 0);
    side.update(99, 6, 0);
    side.remove(100);
    assert_eq!(side.prices[0], 0);
    side.update(98, 7, 0);
    assert_eq!(levels(&side), vec![(99, 6), (98, 7), (0, 0), (0, 0), (0, 0)]);
}

#[test]
fn update_from_fix_routes_by_side_and_action() {
    let mut book = OrderBook::new();
    book.update_from_fix('0', '0', 108340, 1_000_000);
    book.update_from_fix('0', '1', 108350, 2_000_000);
    assert_eq!(book.bids.prices[0], 108340);
    assert_eq!(book.asks.prices[0], 108350);
    book.update_from_fix('2', '0', 108340, 0);
    assert_eq!(book.bids.prices[0], 0);
    assert_eq!(book.asks.volumes[0], 2_000_000);
}

#[test]
fn update_from_fix_stamps_the_book() {
    let mut book = OrderBook::new();
    assert_eq!(book.last_update, 0);
    book.update_from_fix('0', '0', 100, 1);
    assert!(book.last_update > 0);
}

#[test]
fn mid_price_is_half_the_sum_of_the_best_levels() {
    let mut book = OrderBook::new();
    assert_eq!(book.get_mid_price(), None);
    book.update_from_fix('0', '0', 108340, 10);
    assert_eq!(book.get_mid_price(), None);
    book.update_from_fix('0', '1', 108350, 30);
    assert_eq!(
        book.get_mid_price(),
        Some(Fraction { numerator: 216690, denominator: 2 })
    );
}

#[test]
fn micro_price_weights_each_side_by_the_other_volume() {
    let mut book = OrderBook::new();
    assert_eq!(book.get_micro_price(), None);
    book.update_from_fix('0', '0', 100, 1);
    book.update_from_fix('0', '1', 104, 3);
    assert_eq!(
        book.get_micro_price(),
        Some(Fraction { numerator: 100 * 3 + 104 * 1, denominator: 4 })
    );
}

#[test]
fn total_liquidity_sums_each_side() {
    let mut book = OrderBook::new();
    book.update_from_fix('0', '0', 100, 1);
    book.update_from_fix('0', '0', 99, 2);
    book.update_from_fix('0', '1', 101, 5);
    assert_eq!(book.get_total_liquidity(), (3, 5));
}

#[test]
fn levels_stay_ranked_after_many_updates() {
    let mut side = BookSide::new();
    let script: [(i64, i64); 9] = [
        (105, 1), (103, 2), (107, 3), (101, 4), (103, 0), (109, 5), (102, 6), (104, 7), (100, 8),
    ];
    for (p, v) in script.iter() {
        side.update(*p, *v, 0);
        let present: Vec<i64> = side.prices.iter().copied().filter(|p| *p > 0).collect();
        for w in present.windows(2) {
            assert!(w[0] > w[1]);
        }
    }
}

#[test]
fn read_after_write_when_there_is_room() {
    let mut side = BookSide::new();
    side.update(100, 5, 1);
    side.update(102, 6, 1);
    side.update(101, 9, 1);
    let at = side.prices.iter().position(|p| *p == 101).unwrap();
    assert_eq!(side.volumes[at], 9);
}

#[test]
fn removing_a_fresh_level_gives_back_the_side() {
    let mut side = BookSide::new();
    side.update(108350, 20, 0);
    side.update(108330, 30, 0);
    side.update(108320, 40, 0);
    side.remove(108330);
    let positive = |s: &BookSide| -> Vec<(i64, i64)> {
        levels(s).into_iter().filter(|l| l.0 > 0).collect()
    };
    let before = positive(&side);
    side.update(108340, 10, 0);
    assert_eq!(
        levels(&side),
        vec![(108350, 20), (108340, 10), (108320, 40), (0, 0), (0, 0)]
    );
    side.remove(108340);
    assert_eq!(positive(&side), before);
    assert_eq!(levels(&side), vec![(108350, 20), (0, 0), (108320, 40), (0, 0), (0, 0)]);
}

#[test]
fn an_entry_stamps_the_book_with_the_reading() {
    let mut book = OrderBook::new();
    book.apply_entry_at('0', '0', 110000, 5, Some(42));
    assert_eq!(book.last_update, 42);
    assert_eq!(book.bids.prices[0], 110000);
    book.apply_entry_at('2', '0', 110000, 0, None);
    assert_eq!(book.last_update, 42);
    assert_eq!(book.bids.prices[0], 0);
    book.update_from_fix('0', '1', 120000, 7);
    assert!(book.last_update > 42);
    assert_eq!(book.asks.prices[0], 120000);
}

#[test]
fn removing_a_fresh_level_gives_back_any_side() {
    let mut side = BookSide {
        prices: [0, 108320, 0, 108350, 108330],
        volumes: [0, 40, 0, 20, 30],
    };
    let mut before: Vec<(i64, i64)> = levels(&side).into_iter().filter(|l| l.0 > 0).collect();
    side.update(108340, 10, 0);
    side.remove(108340);
    let mut after: Vec<(i64, i64)> = levels(&side).into_iter().filter(|l| l.0 > 0).collect();
    before.sort();
    after.sort();
    assert_eq!(after, before);
}
