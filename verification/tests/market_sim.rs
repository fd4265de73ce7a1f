use mm_engine::market_sim::{fill_to_trade_event, noise_side, Exchange, Stamps};
use mm_engine::orderbook::OrderBook;
use mm_engine::types::{BookResync, Fill, MarketEvent, Side, StrategyCommand};

const STAMPS: Stamps = Stamps { cancel: 1, submit: 2, add: 3 };

fn add(order_id: u64, side: Side, price: i64, qty: u64, is_ours: bool) -> MarketEvent {
    MarketEvent::Add { order_id, side, price, qty, ts_nanos: 3, is_ours }
}

fn cancel(order_id: u64, side: Side, price: i64) -> MarketEvent {
    MarketEvent::Cancel { order_id, side, price, ts_nanos: 1 }
}

fn quote(bid_price: i64, ask_price: i64) -> StrategyCommand {
    StrategyCommand::Quote { bid_price, bid_qty: 5, ask_price, ask_qty: 5 }
}

fn replay(book: &mut OrderBook, events: &[MarketEvent]) {
    for event in events {
        match *event {
            MarketEvent::Add { order_id, side, price, qty, ts_nanos, is_ours } => {
                book.insert_resting_order(order_id, side, price, qty, ts_nanos, is_ours)
            }
            MarketEvent::Cancel { order_id, side, price, .. } => {
                book.cancel_order(side, price, order_id);
            }
            MarketEvent::Trade { resting_order_id, side_of_resting_order, price, qty, .. } => {
                book.apply_trade(side_of_resting_order, price, resting_order_id, qty)
            }
        }
    }
}

fn same_orders(a: &BookResync, b: &BookResync) -> bool {
    a.bids == b.bids && a.asks == b.asks
}

/// An exchange with a background of three levels around 10000.
fn exchange() -> Exchange {
    let mut exchange = Exchange::new(3);
    exchange.refresh_background(10000, 20, &vec![(true, true); 3], &vec![(STAMPS, STAMPS); 3]);
    exchange
}

#[test]
fn fill_becomes_a_trade_event() {
    let fill = Fill {
        resting_order_id: 4,
        resting_is_ours: true,
        side_of_resting_order: Side::Ask,
        price: 10001,
        qty: 3,
        ts_nanos: 9,
    };
    assert_eq!(
        fill_to_trade_event(&fill),
        MarketEvent::Trade {
            resting_order_id: 4,
            resting_is_ours: true,
            side_of_resting_order: Side::Ask,
            price: 10001,
            qty: 3,
            ts_nanos: 9,
        }
    );
}

#[test]
fn background_lies_around_the_fundamental_price() {
    let mut exchange = Exchange::new(2);
    let events = exchange.refresh_background(
        10000,
        20,
        &vec![(true, true); 2],
        &vec![(STAMPS, STAMPS); 2],
    );
    assert_eq!(
        events,
        vec![
            add(1, Side::Bid, 9999, 20, false),
            add(2, Side::Ask, 10001, 20, false),
            add(3, Side::Bid, 9998, 20, false),
            add(4, Side::Ask, 10002, 20, false),
        ]
    );
    assert_eq!(exchange.book().best_bid(), Some(9999));
    assert_eq!(exchange.book().best_ask(), Some(10001));
    assert!(!exchange.book().is_crossed());
}

#[test]
fn background_is_renewed_where_the_draws_say_so() {
    let mut exchange = exchange();
    let draws = vec![(false, true), (true, false), (false, false)];
    let events = exchange.refresh_background(10000, 20, &draws, &vec![(STAMPS, STAMPS); 3]);
    assert_eq!(
        events,
        vec![
            cancel(2, Side::Ask, 10001),
            add(7, Side::Ask, 10001, 20, false),
            cancel(3, Side::Bid, 9998),
            add(8, Side::Bid, 9998, 20, false),
        ]
    );
}

#[test]
fn levels_that_are_not_drawn_need_no_price_and_no_name() {
    let mut exchange = exchange();
    for mid in [i64::MIN, i64::MAX] {
        let draws = vec![(false, false); 9];
        let events = exchange.refresh_background(mid, 20, &draws, &vec![(STAMPS, STAMPS); 9]);
        assert_eq!(events, vec![]);
    }
    assert_eq!(exchange.last_order_id(), 6);
    // a bid just below the greatest price there is
    let draws = vec![(true, false)];
    let events = exchange.refresh_background(i64::MAX, 20, &draws, &vec![(STAMPS, STAMPS)]);
    assert_eq!(events[0], cancel(1, Side::Bid, 9999));
    assert_eq!(exchange.last_order_id(), 7);
}

#[test]
fn background_order_that_crosses_trades_at_once() {
    let mut exchange = exchange();
    // the fundamental price has jumped: the new bid at 10002 meets the asks
    // at 10001 and 10002
    let events = exchange.place_background(Side::Bid, 0, 10003, 30, STAMPS);
    assert_eq!(events.len(), 3);
    assert_eq!(events[0], cancel(1, Side::Bid, 9999));
    for (event, id, price, qty) in [(events[1], 2, 10001, 20), (events[2], 4, 10002, 10)] {
        assert_eq!(
            event,
            MarketEvent::Trade {
                resting_order_id: id,
                resting_is_ours: false,
                side_of_resting_order: Side::Ask,
                price,
                qty,
                ts_nanos: 2,
            }
        );
    }
    assert!(!exchange.book().is_crossed());
    // it was filled at once, so there is nothing to take back next time
    let events = exchange.place_background(Side::Bid, 0, 10000, 20, STAMPS);
    assert_eq!(events, vec![add(8, Side::Bid, 9999, 20, false)]);
}

#[test]
fn quote_places_both_orders_and_replaces_them() {
    let mut exchange = exchange();
    assert_eq!(
        exchange.apply_command(quote(9999, 10001), STAMPS, STAMPS),
        vec![add(7, Side::Bid, 9999, 5, true), add(8, Side::Ask, 10001, 5, true)]
    );
    assert_eq!(
        exchange.apply_command(quote(9998, 10002), STAMPS, STAMPS),
        vec![
            cancel(7, Side::Bid, 9999),
            cancel(8, Side::Ask, 10001),
            add(9, Side::Bid, 9998, 5, true),
            add(10, Side::Ask, 10002, 5, true),
        ]
    );
}

#[test]
fn collapsed_quote_does_not_trade_with_itself() {
    let mut exchange = exchange();
    assert_eq!(
        exchange.apply_command(quote(10000, 10000), STAMPS, STAMPS),
        vec![add(7, Side::Bid, 10000, 5, true), add(8, Side::Ask, 10001, 5, true)]
    );
    assert_eq!(
        exchange.apply_command(quote(10000, 9000), STAMPS, STAMPS),
        vec![
            cancel(7, Side::Bid, 10000),
            cancel(8, Side::Ask, 10001),
            add(9, Side::Bid, 10000, 5, true),
            add(10, Side::Ask, 10001, 5, true),
        ]
    );
    assert!(!exchange.book().is_crossed());
}

#[test]
fn quote_that_is_filled_at_once_leaves_nothing_to_take_back() {
    let mut exchange = exchange();
    let events = exchange.apply_command(quote(10001, 10003), STAMPS, STAMPS);
    assert_eq!(
        events[0],
        MarketEvent::Trade {
            resting_order_id: 2,
            resting_is_ours: false,
            side_of_resting_order: Side::Ask,
            price: 10001,
            qty: 5,
            ts_nanos: 2,
        }
    );
    assert_eq!(events[1..], [add(8, Side::Ask, 10003, 5, true)]);
    assert_eq!(
        exchange.apply_command(StrategyCommand::CancelAll, STAMPS, STAMPS),
        vec![cancel(8, Side::Ask, 10003)]
    );
}

#[test]
fn cancel_all_leaves_no_order_of_ours() {
    let mut exchange = exchange();
    exchange.apply_command(quote(9999, 10001), STAMPS, STAMPS);
    assert_eq!(
        exchange.apply_command(StrategyCommand::CancelAll, STAMPS, STAMPS),
        vec![cancel(7, Side::Bid, 9999), cancel(8, Side::Ask, 10001)]
    );
    let resync = exchange.resync(0);
    assert!(resync.bids.iter().all(|row| !row.3));
    assert!(resync.asks.iter().all(|row| !row.3));
    assert_eq!(exchange.apply_command(StrategyCommand::CancelAll, STAMPS, STAMPS), vec![]);
}

#[test]
fn market_order_hits_the_tighter_quote_of_ours() {
    let mut exchange = exchange();
    exchange.apply_command(quote(10000, 10001), STAMPS, STAMPS);
    assert_eq!(
        exchange.market_order(Side::Ask, 3, 11),
        vec![MarketEvent::Trade {
            resting_order_id: 7,
            resting_is_ours: true,
            side_of_resting_order: Side::Bid,
            price: 10000,
            qty: 3,
            ts_nanos: 11,
        }]
    );
}

#[test]
fn noise_trader_buys_on_heads_and_sells_on_tails() {
    assert_eq!(noise_side(true), Side::Bid);
    assert_eq!(noise_side(false), Side::Ask);
}

#[test]
fn noise_orders_hit_both_sides() {
    let mut rng = rand::thread_rng();
    let mut bids_hit = 0;
    let mut asks_hit = 0;
    for _ in 0..200 {
        let mut exchange = exchange();
        let events = exchange.noise_order(&mut rng, 3, 11);
        assert_eq!(events.len(), 1);
        match events[0] {
            MarketEvent::Trade { side_of_resting_order: Side::Bid, price, qty, ts_nanos, .. } => {
                assert_eq!((price, qty, ts_nanos), (9999, 3, 11));
                bids_hit += 1;
            }
            MarketEvent::Trade { side_of_resting_order: Side::Ask, price, qty, ts_nanos, .. } => {
                assert_eq!((price, qty, ts_nanos), (10001, 3, 11));
                asks_hit += 1;
            }
            _ => panic!("a market order only trades"),
        }
    }
    assert!(bids_hit > 0 && asks_hit > 0);
}

#[test]
fn market_order_on_an_empty_book_does_nothing() {
    let mut exchange = Exchange::new(0);
    assert_eq!(exchange.market_order(Side::Bid, 3, 11), vec![]);
    assert_eq!(exchange.book().best_bid(), None);
}

#[test]
fn resync_tells_every_order_by_rising_price() {
    let mut exchange = exchange();
    exchange.apply_command(quote(9999, 10001), STAMPS, STAMPS);
    let resync = exchange.resync(42);
    assert_eq!(resync.seq_at_snapshot, 42);
    assert_eq!(
        resync.bids,
        vec![
            (5, 9997, 20, false),
            (3, 9998, 20, false),
            (1, 9999, 20, false),
            (7, 9999, 5, true),
        ]
    );
    assert_eq!(
        resync.asks,
        vec![
            (2, 10001, 20, false),
            (8, 10001, 5, true),
            (4, 10002, 20, false),
            (6, 10003, 20, false),
        ]
    );
}

/// A run of the engine that turns up every kind of step.
fn step(exchange: &mut Exchange, i: i64) -> Vec<MarketEvent> {
    let mid = 10000 + (i * i) % 13 - 6;
    match i % 4 {
        0 => {
            let draws: Vec<(bool, bool)> = (0..3).map(|l| (i % 3 != l, i % 5 != l)).collect();
            exchange.refresh_background(mid, 20, &draws, &vec![(STAMPS, STAMPS); 3])
        }
        1 => exchange.apply_command(quote(mid - 1, mid + i % 2), STAMPS, STAMPS),
        2 => exchange.market_order(if i % 8 == 2 { Side::Bid } else { Side::Ask }, 17, 11),
        _ if i % 16 == 3 => exchange.apply_command(StrategyCommand::CancelAll, STAMPS, STAMPS),
        _ => exchange.market_order(if i % 8 == 3 { Side::Bid } else { Side::Ask }, 90, 11),
    }
}

#[test]
fn book_is_never_crossed_and_names_are_never_shared() {
    let mut exchange = exchange();
    for i in 0..400 {
        step(&mut exchange, i);
        assert!(!exchange.book().is_crossed());
        let resync = exchange.resync(0);
        let mut ids: Vec<u64> =
            resync.bids.iter().chain(resync.asks.iter()).map(|row| row.0).collect();
        let count = ids.len();
        ids.sort();
        ids.dedup();
        assert_eq!(ids.len(), count);
        assert!(resync.bids.iter().filter(|row| row.3).count() <= 1);
        assert!(resync.asks.iter().filter(|row| row.3).count() <= 1);
    }
}

#[test]
fn replayed_book_follows_the_engine() {
    let mut exchange = exchange();
    let mut shadow = OrderBook::new();
    shadow.rebuild_from_resync(&exchange.resync(0), 99);
    for i in 0..400 {
        let events = step(&mut exchange, i);
        replay(&mut shadow, &events);
        assert!(same_orders(&shadow.export_resync(), &exchange.resync(0)));
        assert_eq!(shadow.best_bid(), exchange.book().best_bid());
        assert_eq!(shadow.best_ask(), exchange.book().best_ask());
    }
}

#[test]
fn commands_never_trade_against_an_order_of_ours() {
    let mut exchange = exchange();
    for i in 0..400 {
        let ours = i % 4 == 1 || i % 16 == 3;
        for event in step(&mut exchange, i) {
            if let MarketEvent::Trade { resting_is_ours, .. } = event {
                assert!(!(ours && resting_is_ours));
            }
        }
    }
}
