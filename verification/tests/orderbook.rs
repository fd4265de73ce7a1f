use mm_engine::orderbook::OrderBook;
use mm_engine::types::Side;

#[test]
fn resting_orders_are_visible_at_best_bid_ask() {
    let mut book = OrderBook::new();
    book.insert_resting_order(1, Side::Bid, 9998, 10, 0, false);
    book.insert_resting_order(2, Side::Ask, 10002, 10, 0, false);
    assert_eq!(book.best_bid(), Some(9998));
    assert_eq!(book.best_ask(), Some(10002));
    assert_eq!(book.mid_half_ticks().map(|half_ticks| half_ticks as f64 / 2.0), Some(10000.0));
}

#[test]
fn market_order_matches_best_price_first() {
    let mut book = OrderBook::new();
    book.insert_resting_order(1, Side::Ask, 10005, 5, 0, false);
    book.insert_resting_order(2, Side::Ask, 10001, 5, 0, false); // cheaper ask, added second
    let fills = book.execute_market_order(Side::Bid, 5, 0);
    assert_eq!(fills.len(), 1);
    assert_eq!(fills[0].price, 10001); // must hit the cheaper level first
    assert_eq!(fills[0].resting_order_id, 2);
    assert_eq!(book.best_ask(), Some(10005));
}

#[test]
fn market_order_respects_time_priority_within_a_level() {
    let mut book = OrderBook::new();
    book.insert_resting_order(1, Side::Bid, 9999, 5, 0, false); // first in queue
    book.insert_resting_order(2, Side::Bid, 9999, 5, 0, false); // second in queue
    let fills = book.execute_market_order(Side::Ask, 5, 0);
    assert_eq!(fills[0].resting_order_id, 1); // FIFO: earlier order fills first
}

#[test]
fn market_order_walks_multiple_levels_when_size_exceeds_top_level() {
    let mut book = OrderBook::new();
    book.insert_resting_order(1, Side::Ask, 10001, 3, 0, false);
    book.insert_resting_order(2, Side::Ask, 10002, 10, 0, false);
    let fills = book.execute_market_order(Side::Bid, 5, 0);
    assert_eq!(fills.len(), 2);
    assert_eq!((fills[0].price, fills[0].qty), (10001, 3));
    assert_eq!((fills[1].price, fills[1].qty), (10002, 2));
}

#[test]
fn cancel_removes_only_the_targeted_order() {
    let mut book = OrderBook::new();
    book.insert_resting_order(1, Side::Bid, 9999, 5, 0, false);
    book.insert_resting_order(2, Side::Bid, 9999, 5, 0, false);
    assert!(book.cancel_order(Side::Bid, 9999, 1));
    let fills = book.execute_market_order(Side::Ask, 5, 0);
    assert_eq!(fills[0].resting_order_id, 2); // order 1 is gone, order 2 remains
}

#[test]
fn depth_snapshot_aggregates_quantity_per_price_level() {
    let mut book = OrderBook::new();
    book.insert_resting_order(1, Side::Bid, 9999, 4, 0, false);
    book.insert_resting_order(2, Side::Bid, 9999, 6, 0, false);
    let (bids, _asks) = book.depth_snapshot(5);
    assert_eq!(bids[0], (9999, 10));
}

#[test]
fn apply_trade_mirrors_a_partial_then_full_fill_reported_externally() {
    let mut book = OrderBook::new();
    book.insert_resting_order(1, Side::Bid, 9999, 10, 0, false);
    book.apply_trade(Side::Bid, 9999, 1, 4);
    assert_eq!(book.depth_snapshot(1).0, vec![(9999, 6)]);
    book.apply_trade(Side::Bid, 9999, 1, 6);
    assert_eq!(book.best_bid(), None); // fully consumed, level removed
}

#[test]
fn resync_rebuild_discards_stale_ghost_orders() {
    let mut ground_truth = OrderBook::new();
    ground_truth.insert_resting_order(1, Side::Bid, 9999, 10, 0, false);
    ground_truth.insert_resting_order(2, Side::Ask, 10001, 10, 0, false);

    // simulate a shadow book that missed a Cancel event and now has a
    // "ghost" order (id 99) that ground truth no longer has
    let mut shadow = OrderBook::new();
    shadow.insert_resting_order(1, Side::Bid, 9999, 10, 0, false);
    shadow.insert_resting_order(99, Side::Bid, 10050, 5, 0, false); // ghost: above where a bid should be

    let resync = ground_truth.export_resync();
    shadow.rebuild_from_resync(&resync, 0);

    assert_eq!(shadow.best_bid(), Some(9999)); // ghost at 10050 is gone
    assert_eq!(shadow.best_ask(), Some(10001));
    assert_eq!(shadow.depth_snapshot(5).0.len(), 1);
}

#[test]
fn submit_limit_order_matches_immediately_when_it_crosses_the_book() {
    // A bid at or above the best ask is marketable: it must match at once
    // and not rest.
    let mut book = OrderBook::new();
    book.insert_resting_order(1, Side::Ask, 10000, 5, 0, false);
    let fills = book.submit_limit_order(2, Side::Bid, 10000, 5, 0, false);
    assert_eq!(fills.len(), 1);
    assert_eq!((fills[0].price, fills[0].qty), (10000, 5));
    assert_eq!(book.best_ask(), None); // fully matched away, nothing rests
    assert_eq!(book.best_bid(), None); // and the crossing bid didn't rest either
}

#[test]
fn submit_limit_order_partially_fills_then_rests_the_remainder() {
    let mut book = OrderBook::new();
    book.insert_resting_order(1, Side::Ask, 10000, 3, 0, false);
    let fills = book.submit_limit_order(2, Side::Bid, 10000, 10, 0, false);
    assert_eq!(fills.len(), 1);
    assert_eq!(fills[0].qty, 3);
    assert_eq!(book.best_ask(), None); // ask fully consumed
    assert_eq!(book.best_bid(), Some(10000)); // remaining 7 rests as a bid
    assert_eq!(book.depth_snapshot(1).0, vec![(10000, 7)]);
}

#[test]
fn submit_limit_order_walks_multiple_crossing_levels_but_stops_at_the_limit_price() {
    let mut book = OrderBook::new();
    book.insert_resting_order(1, Side::Ask, 9999, 5, 0, false);
    book.insert_resting_order(2, Side::Ask, 10000, 5, 0, false);
    book.insert_resting_order(3, Side::Ask, 10001, 5, 0, false); // outside our limit price
    let fills = book.submit_limit_order(4, Side::Bid, 10000, 20, 0, false);
    assert_eq!(fills.len(), 2); // matches 9999 and 10000, but not 10001
    assert_eq!(fills.iter().map(|f| f.qty).sum::<u64>(), 10);
    assert_eq!(book.best_ask(), Some(10001)); // untouched, outside the limit price
    assert_eq!(book.best_bid(), Some(10000)); // remaining 10 rests at our limit price
}

#[test]
fn submit_limit_order_rests_normally_when_it_does_not_cross() {
    let mut book = OrderBook::new();
    book.insert_resting_order(1, Side::Ask, 10005, 5, 0, false);
    let fills = book.submit_limit_order(2, Side::Bid, 9995, 5, 0, false);
    assert!(fills.is_empty());
    assert_eq!(book.best_bid(), Some(9995));
    assert_eq!(book.best_ask(), Some(10005));
}
