use mm_engine::feed::FeedSender;
use mm_engine::market_sim::{Exchange, Stamps};
use mm_engine::risk::{Breaches, KillSwitch};
use mm_engine::strategy::{OwnFill, Strategy, OUR_LOT_SIZE};
use mm_engine::types::{BookResync, MarketEvent, SeqEvent, Side, StrategyCommand};

const STAMPS: Stamps = Stamps { cancel: 1, submit: 2, add: 3 };

fn add(seq: u64, order_id: u64, side: Side, price: i64, qty: u64, is_ours: bool) -> SeqEvent {
    SeqEvent { seq, event: MarketEvent::Add { order_id, side, price, qty, ts_nanos: 0, is_ours } }
}

fn trade(seq: u64, id: u64, side: Side, price: i64, qty: u64, ours: bool) -> SeqEvent {
    SeqEvent {
        seq,
        event: MarketEvent::Trade {
            resting_order_id: id,
            resting_is_ours: ours,
            side_of_resting_order: side,
            price,
            qty,
            ts_nanos: 0,
        },
    }
}

fn resync(seq_at_snapshot: u64) -> BookResync {
    BookResync {
        bids: vec![(1, 9997, 10, false), (2, 9998, 5, true), (3, 9998, 5, true)],
        asks: vec![(4, 10002, 5, true)],
        seq_at_snapshot,
    }
}

#[test]
fn book_is_rebuilt_from_events() {
    let mut s = Strategy::new();
    assert_eq!(s.on_event(add(0, 1, Side::Bid, 9999, 20, false)), None);
    assert_eq!(s.on_event(add(1, 2, Side::Ask, 10001, 20, false)), None);
    assert_eq!(s.on_event(trade(2, 1, Side::Bid, 9999, 8, false)), None);
    assert_eq!(s.book().depth_snapshot(5), (vec![(9999, 12)], vec![(10001, 20)]));
    let event = MarketEvent::Cancel { order_id: 1, side: Side::Bid, price: 9999, ts_nanos: 0 };
    assert_eq!(s.on_event(SeqEvent { seq: 3, event }), None);
    assert_eq!(s.book().best_bid(), None);
    assert_eq!(s.book().best_ask(), Some(10001));
    assert_eq!(s.inventory(), 0);
    assert_eq!(s.trades_count(), 0);
}

#[test]
fn trades_of_ours_move_the_inventory() {
    let mut s = Strategy::new();
    s.on_event(add(0, 1, Side::Bid, 9999, 5, true));
    s.on_event(add(1, 2, Side::Ask, 10001, 5, true));
    assert_eq!(
        s.on_event(trade(2, 1, Side::Bid, 9999, 3, true)),
        Some(OwnFill { side: Side::Bid, price: 9999, qty: 3 })
    );
    assert_eq!(s.inventory(), 3);
    assert_eq!(
        s.on_event(trade(3, 2, Side::Ask, 10001, 5, true)),
        Some(OwnFill { side: Side::Ask, price: 10001, qty: 5 })
    );
    assert_eq!(s.inventory(), -2);
    assert_eq!(s.trades_count(), 2);
}

#[test]
fn a_quote_is_sent_until_it_is_seen() {
    let mut s = Strategy::new();
    let command = StrategyCommand::Quote {
        bid_price: 9999,
        bid_qty: OUR_LOT_SIZE,
        ask_price: 10001,
        ask_qty: OUR_LOT_SIZE,
    };
    assert_eq!(s.requote(9999, 10001), Some(command));
    assert_eq!(s.requote(9999, 10001), Some(command));
    s.on_event(add(0, 1, Side::Bid, 9999, 5, true));
    assert_eq!(s.requote(9999, 10001), Some(command));
    s.on_event(add(1, 2, Side::Ask, 10001, 5, true));
    assert_eq!(s.requote(9999, 10001), None);
    assert!(s.requote(9998, 10001).is_some());
    assert!(s.requote(9999, 10002).is_some());
}

#[test]
fn without_quotes_even_zero_prices_are_quoted() {
    let s = Strategy::new();
    assert!(s.requote(0, 0).is_some());
}

#[test]
fn pulled_quotes_are_sent_anew() {
    let mut s = Strategy::new();
    s.on_event(add(0, 1, Side::Bid, 9999, 5, true));
    s.on_event(add(1, 2, Side::Ask, 10001, 5, true));
    assert_eq!(s.pull_quotes(), StrategyCommand::CancelAll);
    assert!(s.requote(9999, 10001).is_some());
}

#[test]
fn stopped_strategy_only_takes_its_orders_back() {
    let mut s = Strategy::new();
    s.on_event(add(0, 1, Side::Bid, 9999, 5, true));
    s.on_event(add(1, 2, Side::Ask, 10001, 5, true));
    assert_eq!(s.decide(false, 9999, 10001), None);
    let mut switch = KillSwitch::new(60);
    let breaches = Breaches { drawdown: false, var_95: false };
    switch.evaluate(0, breaches, true);
    for inventory in [0, 10, 100] {
        let stopped = switch.evaluate(inventory, breaches, false).is_some();
        assert_eq!(s.decide(stopped, 9999, 10001), Some(StrategyCommand::CancelAll));
    }
    switch.reset();
    let stopped = switch.evaluate(0, breaches, false).is_some();
    assert_eq!(
        s.decide(stopped, 9999, 10001),
        Some(StrategyCommand::Quote { bid_price: 9999, bid_qty: 5, ask_price: 10001, ask_qty: 5 })
    );
}

#[test]
fn snapshot_is_taken_only_after_a_loss() {
    let mut s = Strategy::new();
    s.on_event(add(3, 9, Side::Ask, 10050, 5, false));
    assert!(!s.loss_detected(0));
    assert!(!s.offer_resync(0, &resync(10), 7));
    assert_eq!(s.book().best_ask(), Some(10050));
    assert!(s.loss_detected(1));
    assert!(s.offer_resync(1, &resync(10), 7));
    assert_eq!(s.book().best_bid(), Some(9998));
    assert_eq!(s.book().best_ask(), Some(10002));
    // the same losses ask for no second snapshot
    assert!(!s.loss_detected(1));
    assert!(!s.offer_resync(1, &resync(20), 7));
}

#[test]
fn snapshot_that_is_not_newer_is_refused() {
    let mut s = Strategy::new();
    s.on_event(add(10, 9, Side::Ask, 10050, 5, false));
    assert!(!s.offer_resync(1, &resync(9), 7));
    assert!(!s.offer_resync(2, &resync(10), 7));
    assert_eq!(s.book().best_ask(), Some(10050));
    assert!(s.offer_resync(3, &resync(11), 7));
    assert_eq!(s.book().best_ask(), Some(10002));
    // and what it held counts as taken in
    assert!(!s.offer_resync(4, &resync(11), 7));
}

#[test]
fn late_event_does_not_turn_the_clock_back() {
    let mut s = Strategy::new();
    s.on_event(add(10, 9, Side::Ask, 10050, 5, false));
    s.on_event(add(4, 8, Side::Ask, 10040, 5, false));
    assert!(!s.offer_resync(1, &resync(10), 7));
    assert_eq!(s.book().best_ask(), Some(10040));
}

#[test]
fn empty_snapshot_is_refused_but_the_loss_is_noted() {
    let mut s = Strategy::new();
    s.on_event(add(0, 9, Side::Ask, 10050, 5, false));
    let empty = BookResync { seq_at_snapshot: 100, ..BookResync::default() };
    assert!(!s.offer_resync(1, &empty, 7));
    assert_eq!(s.book().best_ask(), Some(10050));
    assert!(!s.loss_detected(1));
}

#[test]
fn snapshot_tells_where_our_quotes_rest() {
    let mut s = Strategy::new();
    s.on_event(add(0, 1, Side::Bid, 1, 5, true));
    assert!(s.offer_resync(1, &resync(10), 7));
    assert_eq!(s.requote(9998, 10002), None);
    // one side without an order of ours leaves what was known
    let bids_only = BookResync {
        bids: vec![(1, 9990, 10, true)],
        asks: vec![(2, 10010, 10, false)],
        seq_at_snapshot: 11,
    };
    assert!(s.offer_resync(2, &bids_only, 7));
    assert_eq!(s.requote(9990, 10002), None);
}

#[test]
fn resting_quotes_are_not_sent_again() {
    let mut exchange = Exchange::new(1);
    let mut s = Strategy::new();
    let mut seq = 0;
    let mut events =
        exchange.refresh_background(10000, 20, &vec![(true, true)], &vec![(STAMPS, STAMPS)]);
    let command = s.requote(9999, 10001).unwrap();
    events.extend(exchange.apply_command(command, STAMPS, STAMPS));
    for event in events {
        s.on_event(SeqEvent { seq, event });
        seq += 1;
    }
    assert_eq!(s.requote(9999, 10001), None);
    // a spread that has collapsed is opened by a tick, and asked for again
    let command = s.requote(10000, 10000).unwrap();
    for event in exchange.apply_command(command, STAMPS, STAMPS) {
        s.on_event(SeqEvent { seq, event });
        seq += 1;
    }
    assert_eq!(s.requote(10000, 10001), None);
    assert!(s.requote(10000, 10000).is_some());
}

#[test]
fn taken_snapshot_holds_all_that_was_seen() {
    let mut exchange = Exchange::new(1);
    let mut sender = FeedSender::new();
    let draws = vec![(true, true)];
    let mut packets = Vec::new();
    let mut snapshots = Vec::new();
    for i in 0..10i64 {
        let events =
            exchange.refresh_background(10000 + i, 20, &draws, &vec![(STAMPS, STAMPS)]);
        for event in events {
            packets.extend(sender.emit(event, false));
        }
        snapshots.push((exchange.resync(sender.next_seq()), exchange.book().export_resync()));
    }
    for seen in 1..packets.len() {
        for (snapshot, book) in &snapshots {
            let mut s = Strategy::new();
            for packet in &packets[..seen] {
                s.on_event(SeqEvent { seq: packet.seq, event: packet.event });
            }
            let taken = s.offer_resync(1, snapshot, 7);
            assert_eq!(taken, snapshot.seq_at_snapshot >= seen as u64);
            if taken {
                assert!(packets[..seen].iter().all(|p| p.seq < snapshot.seq_at_snapshot));
                assert_eq!(s.book().export_resync().bids, book.bids);
                assert_eq!(s.book().export_resync().asks, book.asks);
            }
        }
    }
}

#[test]
fn snapshot_brings_a_strategy_back_that_has_missed_events() {
    let mut exchange = Exchange::new(2);
    let mut s = Strategy::new();
    let mut seq = 0;
    for i in 0..40i64 {
        let draws = vec![(i % 2 == 0, i % 3 == 0), (true, i % 2 == 1)];
        let mut events =
            exchange.refresh_background(10000 + i % 5, 20, &draws, &vec![(STAMPS, STAMPS); 2]);
        events.extend(exchange.market_order(Side::Bid, 7, 1));
        for event in events {
            if i >= 20 || seq % 3 != 0 {
                s.on_event(SeqEvent { seq, event });
            }
            seq += 1;
        }
        if i == 19 {
            assert!(s.offer_resync(1, &exchange.resync(seq), 7));
        }
        if i >= 19 {
            let (ours, theirs) = (s.book().export_resync(), exchange.book().export_resync());
            assert_eq!(ours.bids, theirs.bids);
            assert_eq!(ours.asks, theirs.asks);
        }
    }
}
