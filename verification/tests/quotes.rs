use state_engine::lob::{extract_tag_fast, process_lob_fast, process_quote_data};
use state_engine::state::OrderBook;

fn levels(prices: &[i64; 5], volumes: &[i64; 5]) -> Vec<(i64, i64)> {
    (0..5).map(|i| (prices[i], volumes[i])).collect()
}

#[test]
fn extract_reads_the_first_occurrence() {
    let frag = "269=0\u{1}270=1.08345\u{1}271=1000000\u{1}";
    assert_eq!(extract_tag_fast(frag, "270"), Some(108345));
    assert_eq!(extract_tag_fast(frag, "269"), Some(0));
    assert_eq!(extract_tag_fast(frag, "271"), Some(100_000_000_000));
    assert_eq!(extract_tag_fast(frag, "279"), None);
}

#[test]
fn extract_stops_at_pipe_and_nul() {
    assert_eq!(extract_tag_fast("270=1.5|271=2", "270"), Some(150000));
    assert_eq!(extract_tag_fast("270=1.5\u{0}x", "270"), Some(150000));
    assert_eq!(extract_tag_fast("270=1.5", "270"), Some(150000));
    assert_eq!(extract_tag_fast("270=abc\u{1}", "270"), None);
}

#[test]
fn extract_matches_the_tag_text_anywhere() {
    assert_eq!(extract_tag_fast("1270=3\u{1}270=4\u{1}", "270"), Some(300000));
}

#[test]
fn snapshot_fills_both_sides() {
    let msg = "9=120\u{1}35=W\u{1}49=cServer\u{1}55=1\u{1}268=2\u{1}269=0\u{1}270=1.08345\u{1}271=1000000\u{1}269=1\u{1}270=1.0835\u{1}271=2000000\u{1}10=000\u{1}";
    let mut book = OrderBook::new();
    process_lob_fast(msg, &mut book, "1");
    assert_eq!(book.bids.prices[0], 108345);
    assert_eq!(book.bids.volumes[0], 100_000_000_000);
    assert_eq!(book.asks.prices[0], 108350);
    assert_eq!(book.asks.volumes[0], 200_000_000_000);
}

#[test]
fn incremental_refresh_updates_and_deletes() {
    let mut book = OrderBook::new();
    let snap = "35=W\u{1}55=1\u{1}269=0\u{1}270=1.1\u{1}271=5\u{1}269=0\u{1}270=1.09\u{1}271=6\u{1}";
    process_lob_fast(snap, &mut book, "1");
    assert_eq!(
        levels(&book.bids.prices, &book.bids.volumes),
        vec![(110000, 500000), (109000, 600000), (0, 0), (0, 0), (0, 0)]
    );
    let inc = "35=X\u{1}55=1\u{1}268=2\u{1}279=2\u{1}269=0\u{1}270=1.1\u{1}279=1\u{1}269=0\u{1}270=1.09\u{1}271=9\u{1}";
    process_lob_fast(inc, &mut book, "1");
    assert_eq!(
        levels(&book.bids.prices, &book.bids.volumes),
        vec![(0, 0), (109000, 900000), (0, 0), (0, 0), (0, 0)]
    );
}

#[test]
fn other_symbols_are_ignored() {
    let mut book = OrderBook::new();
    let msg = "35=W\u{1}55=2\u{1}269=0\u{1}270=1.1\u{1}271=5\u{1}";
    process_lob_fast(msg, &mut book, "1");
    assert_eq!(book.bids.prices, [0; 5]);
}

#[test]
fn entries_without_price_or_with_other_types_are_skipped() {
    let mut book = OrderBook::new();
    let msg = "35=W\u{1}55=1\u{1}269=2\u{1}270=1.1\u{1}271=5\u{1}269=0\u{1}271=5\u{1}269=1\u{1}270=0\u{1}";
    process_lob_fast(msg, &mut book, "1");
    assert_eq!(book.bids.prices, [0; 5]);
    assert_eq!(book.asks.prices, [0; 5]);
}

#[test]
fn missing_size_counts_as_zero_and_removes() {
    let mut book = OrderBook::new();
    process_lob_fast("35=W\u{1}55=1\u{1}269=1\u{1}270=1.2\u{1}271=3\u{1}", &mut book, "1");
    assert_eq!(book.asks.prices[0], 120000);
    process_lob_fast("35=X\u{1}55=1\u{1}279=1\u{1}269=1\u{1}270=1.2\u{1}", &mut book, "1");
    assert_eq!(book.asks.prices[0], 0);
}

#[test]
fn a_burst_of_messages_is_read_message_by_message() {
    let mut book = OrderBook::new();
    let data = "8=FIX.4.4\u{1}9=50\u{1}35=W\u{1}55=1\u{1}269=0\u{1}270=1.1\u{1}271=5\u{1}10=000\u{1}8=FIX.4.4\u{1}9=50\u{1}35=W\u{1}55=1\u{1}269=1\u{1}270=1.2\u{1}271=7\u{1}10=000\u{1}";
    process_quote_data(data, &mut book, "1");
    assert_eq!(book.bids.prices[0], 110000);
    assert_eq!(book.asks.prices[0], 120000);
    assert_eq!(book.asks.volumes[0], 700000);
}

#[test]
fn symbol_must_be_the_whole_field_value() {
    let mut book = OrderBook::new();
    let msg = "35=W|55=12|279=0|269=0|270=1.1|271=5|";
    process_lob_fast(msg, &mut book, "1");
    assert_eq!(book.bids.prices, [0; 5]);
    assert_eq!(book.last_update, 0);
    let msg = "35=W|155=1|269=0|270=1.1|271=5|";
    process_lob_fast(msg, &mut book, "1");
    assert_eq!(book.bids.prices, [0; 5]);
    assert_eq!(book.last_update, 0);
}

#[test]
fn symbol_field_may_end_the_message_or_use_pipes() {
    let mut book = OrderBook::new();
    process_lob_fast("35=W|269=0|270=1.1|271=5|55=1", &mut book, "1");
    assert_eq!(book.bids.prices[0], 110000);
    assert!(book.last_update > 0);
    let mut book = OrderBook::new();
    process_lob_fast("55=1\u{1}35=W\u{1}269=1\u{1}270=1.2\u{1}271=3\u{1}", &mut book, "1");
    assert_eq!(book.asks.prices[0], 120000);
}

#[test]
fn a_burst_for_another_symbol_leaves_the_book_unstamped() {
    let mut book = OrderBook::new();
    let data = "8=FIX.4.4\u{1}35=W\u{1}55=12\u{1}269=0\u{1}270=1.1\u{1}271=5\u{1}8=FIX.4.4\u{1}35=W\u{1}55=2\u{1}269=1\u{1}270=1.2\u{1}271=7\u{1}";
    process_quote_data(data, &mut book, "1");
    assert_eq!(book.bids.prices, [0; 5]);
    assert_eq!(book.asks.prices, [0; 5]);
    assert_eq!(book.last_update, 0);
}

#[test]
fn extract_reads_exponent_notation() {
    assert_eq!(extract_tag_fast("270=1e5\u{1}", "270"), Some(10_000_000_000));
    assert_eq!(extract_tag_fast("270=1.5E-2|", "270"), Some(1500));
    assert_eq!(extract_tag_fast("270=1.e5", "270"), Some(10_000_000_000));
    assert_eq!(extract_tag_fast("270=1e+2", "270"), Some(10_000_000));
    assert_eq!(extract_tag_fast("270=-2.5e-1", "270"), Some(-25000));
    assert_eq!(extract_tag_fast("270=.5", "270"), Some(50000));
    assert_eq!(extract_tag_fast("270=123456789e-13", "270"), Some(1));
    assert_eq!(extract_tag_fast("270=1e-9", "270"), Some(0));
    assert_eq!(extract_tag_fast("270=0e99999999999999999999999", "270"), Some(0));
    assert_eq!(extract_tag_fast("270=1e99999999999999999999999", "270"), None);
    assert_eq!(extract_tag_fast("270=1e-99999999999999999999999", "270"), Some(0));
    assert_eq!(extract_tag_fast("270=92233720368547.75807", "270"), Some(i64::MAX));
    assert_eq!(extract_tag_fast("270=-92233720368547.75808", "270"), Some(i64::MIN));
    assert_eq!(extract_tag_fast("270=92233720368547.75808", "270"), None);
}

#[test]
fn extract_refuses_malformed_numbers() {
    assert_eq!(extract_tag_fast("270=1e", "270"), None);
    assert_eq!(extract_tag_fast("270=e5", "270"), None);
    assert_eq!(extract_tag_fast("270=1e5x", "270"), None);
    assert_eq!(extract_tag_fast("270=.", "270"), None);
    assert_eq!(extract_tag_fast("270=-", "270"), None);
    assert_eq!(extract_tag_fast("270=1.2.3", "270"), None);
    assert_eq!(extract_tag_fast("270=1e+-2", "270"), None);
}

#[test]
fn entries_written_with_exponents_reach_the_book() {
    let mut book = OrderBook::new();
    let msg = "35=W\u{1}55=1\u{1}269=0\u{1}270=1.1e0\u{1}271=5E6\u{1}269=1E0\u{1}270=12e-1\u{1}271=7\u{1}";
    process_lob_fast(msg, &mut book, "1");
    assert_eq!(book.bids.prices[0], 110000);
    assert_eq!(book.bids.volumes[0], 500_000_000_000);
    assert_eq!(book.asks.prices[0], 120000);
    assert_eq!(book.asks.volumes[0], 700000);
}

#[test]
fn entry_type_must_be_exactly_zero_or_one() {
    let mut book = OrderBook::new();
    let msg = "35=W\u{1}55=1\u{1}269=1.000001\u{1}270=1.2\u{1}271=3\u{1}269=0.0000001\u{1}270=1.1\u{1}271=3\u{1}";
    process_lob_fast(msg, &mut book, "1");
    assert_eq!(book.asks.prices, [0; 5]);
    assert_eq!(book.bids.prices, [0; 5]);
    let msg = "35=W\u{1}55=1\u{1}269=1.0000000\u{1}270=1.2\u{1}271=3\u{1}269=0e7\u{1}270=1.1\u{1}271=3\u{1}";
    process_lob_fast(msg, &mut book, "1");
    assert_eq!(book.asks.prices[0], 120000);
    assert_eq!(book.bids.prices[0], 110000);
}
