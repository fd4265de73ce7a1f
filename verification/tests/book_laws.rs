use mm_engine::orderbook::OrderBook;
use mm_engine::types::{BookResync, Order, Side};
use std::collections::VecDeque;

fn rows(book: &OrderBook) -> (Vec<(u64, i64, u64, bool)>, Vec<(u64, i64, u64, bool)>) {
    let resync = book.export_resync();
    (resync.bids, resync.asks)
}

fn asks() -> OrderBook {
    let mut book = OrderBook::new();
    book.insert_resting_order(1, Side::Ask, 101, 3, 0, false);
    book.insert_resting_order(2, Side::Ask, 100, 4, 0, true);
    book.insert_resting_order(3, Side::Ask, 101, 5, 0, false);
    book.insert_resting_order(4, Side::Ask, 100, 6, 0, false);
    book.insert_resting_order(5, Side::Ask, 103, 7, 0, false);
    book
}

#[test]
fn cancel_undoes_rest() {
    let mut book = asks();
    let before = rows(&book);
    for price in [100, 102] {
        book.insert_resting_order(9, Side::Ask, price, 8, 0, false);
        assert_ne!(rows(&book), before);
        assert!(book.cancel_order(Side::Ask, price, 9));
        assert_eq!(rows(&book), before);
    }
    assert!(!book.cancel_order(Side::Ask, 102, 9));
    assert!(!book.cancel_order(Side::Bid, 100, 2));
    assert_eq!(rows(&book), before);
}

#[test]
fn cancel_undoes_rest_among_orders_that_rest_elsewhere_than_they_say() {
    let mut book = OrderBook::new();
    let stray = Order { id: 7, side: Side::Bid, price: 55, qty: 2, ts_nanos: 0, is_ours: false };
    book.asks.insert(100, VecDeque::from([stray]));
    let before = rows(&book);
    for price in [100, 101] {
        book.insert_resting_order(9, Side::Ask, price, 8, 0, false);
        assert!(book.cancel_order(Side::Ask, price, 9));
        assert_eq!(rows(&book), before);
        assert_eq!(book.asks.len(), 1);
    }
}

#[test]
fn orders_trade_by_price_then_by_age() {
    let mut book = asks();
    let fills = book.submit_limit_order(10, Side::Bid, 101, 15, 77, false);
    let told: Vec<(u64, i64, u64, bool)> =
        fills.iter().map(|f| (f.resting_order_id, f.price, f.qty, f.resting_is_ours)).collect();
    assert_eq!(
        told,
        vec![(2, 100, 4, true), (4, 100, 6, false), (1, 101, 3, false), (3, 101, 2, false)]
    );
    assert!(fills.iter().all(|f| f.ts_nanos == 77 && f.side_of_resting_order == Side::Ask));
    assert_eq!(rows(&book), (vec![], vec![(3, 101, 3, false), (5, 103, 7, false)]));
}

#[test]
fn quantity_is_neither_made_nor_lost() {
    for (price, qty) in [(99, 10), (100, 10), (100, 30), (101, 18), (110, 25), (110, 30)] {
        let mut book = asks();
        let fills = book.submit_limit_order(10, Side::Bid, price, qty, 0, false);
        let filled: u64 = fills.iter().map(|f| f.qty).sum();
        let (bids, left) = rows(&book);
        let bid_qty: u64 = bids.iter().map(|row| row.2).sum();
        let ask_qty: u64 = left.iter().map(|row| row.2).sum();
        assert_eq!(filled + bid_qty, qty);
        assert_eq!(filled + ask_qty, 25);
        assert!(!book.is_crossed());
    }
}

#[test]
fn market_order_takes_all_there_is_and_no_more() {
    let mut book = asks();
    let fills = book.execute_market_order(Side::Bid, 100, 0);
    assert_eq!(fills.iter().map(|f| f.qty).sum::<u64>(), 25);
    assert_eq!(rows(&book), (vec![], vec![]));
    assert_eq!(book.execute_market_order(Side::Bid, 100, 0), vec![]);
}

#[test]
fn market_order_may_be_split() {
    for (a, b) in [(0, 7), (3, 4), (4, 6), (10, 1), (12, 13), (20, 20), (7, 0)] {
        let mut whole = asks();
        let mut parts = asks();
        let whole_qty: u64 =
            whole.execute_market_order(Side::Bid, a + b, 1).iter().map(|f| f.qty).sum();
        let first: u64 = parts.execute_market_order(Side::Bid, a, 1).iter().map(|f| f.qty).sum();
        let second: u64 = parts.execute_market_order(Side::Bid, b, 2).iter().map(|f| f.qty).sum();
        assert_eq!(first + second, whole_qty);
        assert_eq!(rows(&whole), rows(&parts));
    }
}

#[test]
fn unlimited_order_trades_as_a_market_order() {
    for (price, qty) in [(103, 20), (i64::MAX, 25), (i64::MAX, 40)] {
        let mut market = asks();
        let mut limit = asks();
        assert_eq!(
            limit.submit_limit_order(10, Side::Bid, price, qty, 5, false),
            market.execute_market_order(Side::Bid, qty, 5)
        );
        assert_eq!(rows(&limit).1, rows(&market).1);
        let left = qty - qty.min(25);
        assert_eq!(limit.depth_snapshot(1).0.iter().map(|l| l.1).sum::<u64>(), left);
    }
}

#[test]
fn fills_replayed_as_trades_take_what_the_match_took() {
    for qty in [0, 1, 4, 5, 10, 13, 18, 25, 40] {
        let mut book = asks();
        let mut shadow = asks();
        for f in book.execute_market_order(Side::Bid, qty, 0) {
            shadow.apply_trade(f.side_of_resting_order, f.price, f.resting_order_id, f.qty);
        }
        assert_eq!(rows(&book), rows(&shadow));
    }
}

#[test]
fn snapshot_tells_all_of_a_book() {
    let mut book = asks();
    book.insert_resting_order(20, Side::Bid, 98, 1, 0, false);
    book.insert_resting_order(21, Side::Bid, 99, 2, 0, true);
    book.insert_resting_order(22, Side::Bid, 98, 3, 0, false);
    let resync = book.export_resync();
    assert_eq!(resync.seq_at_snapshot, 0);
    let mut other = OrderBook::new();
    other.insert_resting_order(50, Side::Bid, 500, 1, 0, false);
    other.rebuild_from_resync(&resync, 123);
    assert_eq!(rows(&other), rows(&book));
    assert!(other.bids.values().flatten().all(|order| order.ts_nanos == 123));
    assert!(other.asks.values().flatten().all(|order| order.ts_nanos == 123));
    assert!(other.bids.values().flatten().all(|order| order.side == Side::Bid));
}

#[test]
fn rebuilding_from_nothing_empties_the_book() {
    let mut book = asks();
    book.rebuild_from_resync(&BookResync::default(), 1);
    assert_eq!(book.best_bid(), None);
    assert_eq!(book.best_ask(), None);
    assert!(book.asks.is_empty());
}

#[test]
fn replayed_orders_may_cross_for_a_while() {
    let mut book = asks();
    book.insert_resting_order(30, Side::Bid, 100, 1, 0, false);
    assert!(book.is_crossed());
    assert!(book.cancel_order(Side::Bid, 100, 30));
    assert!(!book.is_crossed());
}

#[test]
fn trade_against_an_unknown_order_changes_nothing() {
    let mut book = asks();
    let before = rows(&book);
    book.apply_trade(Side::Ask, 100, 99, 1);
    book.apply_trade(Side::Ask, 102, 1, 1);
    book.apply_trade(Side::Bid, 100, 2, 1);
    assert_eq!(rows(&book), before);
    // more than the order had takes the order, and nothing of the next one
    book.apply_trade(Side::Ask, 100, 2, 1000);
    assert_eq!(book.depth_snapshot(1), (vec![], vec![(100, 6)]));
}

#[test]
fn depth_shows_the_best_levels_first() {
    let mut book = asks();
    book.insert_resting_order(20, Side::Bid, 98, 1, 0, false);
    book.insert_resting_order(21, Side::Bid, 99, 2, 0, true);
    assert_eq!(book.depth_snapshot(0), (vec![], vec![]));
    assert_eq!(book.depth_snapshot(2), (vec![(99, 2), (98, 1)], vec![(100, 10), (101, 8)]));
    assert_eq!(
        book.depth_snapshot(9),
        (vec![(99, 2), (98, 1)], vec![(100, 10), (101, 8), (103, 7)])
    );
    assert_eq!(book.mid_half_ticks(), Some(199));
}

#[test]
fn mid_needs_both_sides() {
    assert_eq!(OrderBook::new().mid_half_ticks(), None);
    assert_eq!(asks().mid_half_ticks(), None);
}
