use mm_engine::feed::{FeedHandler, FeedHealth, FeedSender};
use mm_engine::types::{FeedPacket, MarketEvent, SeqEvent, Side};

fn event(order_id: u64) -> MarketEvent {
    MarketEvent::Cancel { order_id, side: Side::Bid, price: 9999, ts_nanos: 7 }
}

fn packet(seq: u64) -> FeedPacket {
    FeedPacket { seq, event: event(seq) }
}

fn health(packets_received: u64, gaps_detected: u64, events_lost_to_gaps: u64) -> FeedHealth {
    FeedHealth { packets_received, gaps_detected, events_lost_to_gaps }
}

#[test]
fn sender_numbers_events_from_zero() {
    let mut sender = FeedSender::new();
    assert_eq!(sender.next_seq(), 0);
    assert_eq!(sender.emit(event(10), false), Some(FeedPacket { seq: 0, event: event(10) }));
    assert_eq!(sender.emit(event(11), false), Some(FeedPacket { seq: 1, event: event(11) }));
    assert_eq!(sender.next_seq(), 2);
}

#[test]
fn lost_event_uses_up_its_number() {
    let mut sender = FeedSender::new();
    assert_eq!(sender.emit(event(10), true), None);
    assert_eq!(sender.next_seq(), 1);
    assert_eq!(sender.emit(event(11), false), Some(FeedPacket { seq: 1, event: event(11) }));
}

#[test]
fn handler_passes_every_event_on() {
    let mut handler = FeedHandler::new();
    for seq in [5, 6, 9, 7, 6] {
        assert_eq!(handler.on_packet(packet(seq)), SeqEvent { seq, event: event(seq) });
    }
}

#[test]
fn first_packet_shows_no_gap_wherever_it_starts() {
    let mut handler = FeedHandler::new();
    assert_eq!(handler.health(), FeedHealth::new());
    handler.on_packet(packet(1000));
    assert_eq!(handler.health(), health(1, 0, 0));
    handler.on_packet(packet(1001));
    assert_eq!(handler.health(), health(2, 0, 0));
}

#[test]
fn gap_counts_what_is_missing() {
    let mut handler = FeedHandler::new();
    handler.on_packet(packet(0));
    handler.on_packet(packet(4));
    assert_eq!(handler.health(), health(2, 1, 3));
    handler.on_packet(packet(5));
    assert_eq!(handler.health(), health(3, 1, 3));
    handler.on_packet(packet(7));
    assert_eq!(handler.health(), health(4, 2, 4));
}

#[test]
fn stale_packet_rewinds_nothing() {
    let mut handler = FeedHandler::new();
    handler.on_packet(packet(0));
    handler.on_packet(packet(4));
    handler.on_packet(packet(2));
    assert_eq!(handler.health(), health(3, 1, 3));
    handler.on_packet(packet(4));
    assert_eq!(handler.health(), health(4, 1, 3));
    handler.on_packet(packet(5));
    assert_eq!(handler.health(), health(5, 1, 3));
}

#[test]
fn what_is_lost_between_two_arrivals_is_counted() {
    let mut sender = FeedSender::new();
    let mut handler = FeedHandler::new();
    let mut lost_events = 0;
    for i in 0..1000u64 {
        let lost = i > 0 && i < 999 && (i % 7 == 3 || i % 11 < 2);
        if lost {
            lost_events += 1;
        }
        if let Some(packet) = sender.emit(event(i), lost) {
            handler.on_packet(packet);
        }
    }
    assert!(lost_events > 0);
    assert_eq!(handler.health().events_lost_to_gaps, lost_events);
    assert_eq!(handler.health().packets_received, 1000 - lost_events);
}

#[test]
fn every_number_is_accounted_for() {
    let mut handler = FeedHandler::new();
    let seqs = [10, 11, 15, 12, 12, 16, 20];
    for seq in seqs {
        handler.on_packet(packet(seq));
    }
    let in_time = 5;
    assert_eq!(20 + 1 - 10, in_time + handler.health().events_lost_to_gaps);
}
