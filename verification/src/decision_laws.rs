//! What the strategy, the kill switch and the feed handler make of what they are
//! shown, each on every input.
use crate::feed::{FeedHealth, HandlerView};
use crate::orderbook::BookView;
use crate::risk::{Breaches, KillReason, SwitchView};
use crate::strategy::{first_ours, StrategyView};
use crate::types::{
    BookResync, MarketEvent, Order, Price, Qty, ResyncRow, SeqEvent, Side, StrategyCommand,
};
use vstd::prelude::*;

verus! {

/// Whether an event adds a bid of ours.
pub open spec fn adds_our_bid(event: MarketEvent) -> bool {
    event is Add && event->Add_is_ours && event->Add_side == Side::Bid
}

/// Whether an event adds an ask of ours.
pub open spec fn adds_our_ask(event: MarketEvent) -> bool {
    event is Add && event->Add_is_ours && event->Add_side == Side::Ask
}

/// Whether an event tells of a trade against an order of ours.
pub open spec fn hits_us(event: MarketEvent) -> bool {
    event is Trade && event->Trade_resting_is_ours
}

/// A quantity as a holding of 64 bits has it: itself, but that one beyond the
/// range comes round at the other end.
pub open spec fn as_holding(qty: Qty) -> int {
    if qty <= i64::MAX {
        qty as int
    } else {
        qty - 0x1_0000_0000_0000_0000
    }
}

/// A trade against a bid of ours adds what it traded to what we hold, one against
/// an ask of ours takes it away, and each counts once. No other event changes
/// what we hold or how many trades we count.
pub proof fn law_holding_moves_with_our_trades(strategy: StrategyView, seq_event: SeqEvent)
    ensures
        ({
            let after = strategy.after_event(seq_event);
            let event = seq_event.event;
            &&& hits_us(event) && event->Trade_side_of_resting_order == Side::Bid
                ==> after.inventory == strategy.inventory + as_holding(event->Trade_qty)
            &&& hits_us(event) && event->Trade_side_of_resting_order == Side::Ask
                ==> after.inventory == strategy.inventory - as_holding(event->Trade_qty)
            &&& hits_us(event) ==> after.trades_count == strategy.trades_count + 1
            &&& !hits_us(event) ==> after.inventory == strategy.inventory && after.trades_count
                == strategy.trades_count
        }),
{
    if seq_event.event is Trade {
        let qty = seq_event.event->Trade_qty;
        assert(qty > 0x7fff_ffff_ffff_ffff ==> (qty as i64) == qty - 0x1_0000_0000_0000_0000)
            by (bit_vector);
    }
}

/// A trade against an order of ours is reported with its side, its price and its
/// quantity; no other event is.
pub proof fn law_own_trades_are_reported(event: MarketEvent)
    ensures
        StrategyView::own_fill(event) is Some <==> hits_us(event),
        StrategyView::own_fill(event) matches Some(fill) ==> {
            &&& fill.side == event->Trade_side_of_resting_order
            &&& fill.price == event->Trade_price
            &&& fill.qty == event->Trade_qty
        },
{
}

/// The price of a bid of ours that is added is where our bid was last seen, and
/// likewise for an ask; either means that we have quotes. No other event changes
/// what is known of our quotes.
pub proof fn law_quotes_are_seen_where_they_are_added(strategy: StrategyView, seq_event: SeqEvent)
    ensures
        ({
            let after = strategy.after_event(seq_event);
            let event = seq_event.event;
            &&& after.our_bid_price == if adds_our_bid(event) {
                event->Add_price
            } else {
                strategy.our_bid_price
            }
            &&& after.our_ask_price == if adds_our_ask(event) {
                event->Add_price
            } else {
                strategy.our_ask_price
            }
            &&& after.have_quotes == (strategy.have_quotes || adds_our_bid(event) || adds_our_ask(
                event,
            ))
        }),
{
}

/// Every event is replayed into the book and moves the strategy forward to its
/// number, never back. It leaves alone what is known of losses.
pub proof fn law_every_event_is_replayed(strategy: StrategyView, seq_event: SeqEvent)
    ensures
        ({
            let after = strategy.after_event(seq_event);
            &&& after.book == strategy.book.replayed(seq_event.event)
            &&& after.highest_seq_applied >= strategy.highest_seq_applied
            &&& after.highest_seq_applied >= seq_event.seq
            &&& after.highest_seq_applied == strategy.highest_seq_applied
                || after.highest_seq_applied == seq_event.seq
            &&& after.last_known_lost_events == strategy.last_known_lost_events
        }),
{
}

/// The bid of ours that was added last is where our bid was last seen.
pub proof fn law_bid_was_last_seen_where_it_was_last_added(
    strategy: StrategyView,
    seq_events: Seq<SeqEvent>,
    k: int,
)
    requires
        0 <= k < seq_events.len(),
        adds_our_bid(seq_events[k].event),
        forall|i: int| k < i < seq_events.len() ==> !adds_our_bid((#[trigger] seq_events[i]).event),
    ensures
        strategy.after_events(seq_events).our_bid_price == seq_events[k].event->Add_price,
    decreases seq_events.len(),
{
    let rest = seq_events.drop_first();
    let next = strategy.after_event(seq_events[0]);
    if k > 0 {
        assert(rest[k - 1] == seq_events[k]);
        assert forall|i: int| k - 1 < i < rest.len() implies !adds_our_bid(
            (#[trigger] rest[i]).event,
        ) by {
            assert(rest[i] == seq_events[i + 1]);
        }
        law_bid_was_last_seen_where_it_was_last_added(next, rest, k - 1);
    } else {
        assert forall|i: int| 0 <= i < rest.len() implies !adds_our_bid(
            (#[trigger] rest[i]).event,
        ) by {
            assert(rest[i] == seq_events[i + 1]);
        }
        lemma_bid_price_kept(next, rest);
    }
}

/// Events that add no bid of ours leave where it was last seen.
proof fn lemma_bid_price_kept(strategy: StrategyView, seq_events: Seq<SeqEvent>)
    requires
        forall|i: int| 0 <= i < seq_events.len() ==> !adds_our_bid((#[trigger] seq_events[i]).event),
    ensures
        strategy.after_events(seq_events).our_bid_price == strategy.our_bid_price,
    decreases seq_events.len(),
{
    if seq_events.len() > 0 {
        let rest = seq_events.drop_first();
        assert(!adds_our_bid(seq_events[0].event));
        assert forall|i: int| 0 <= i < rest.len() implies !adds_our_bid(
            (#[trigger] rest[i]).event,
        ) by {
            assert(rest[i] == seq_events[i + 1]);
        }
        lemma_bid_price_kept(strategy.after_event(seq_events[0]), rest);
    }
}

/// The ask of ours that was added last is where our ask was last seen.
pub proof fn law_ask_was_last_seen_where_it_was_last_added(
    strategy: StrategyView,
    seq_events: Seq<SeqEvent>,
    k: int,
)
    requires
        0 <= k < seq_events.len(),
        adds_our_ask(seq_events[k].event),
        forall|i: int| k < i < seq_events.len() ==> !adds_our_ask((#[trigger] seq_events[i]).event),
    ensures
        strategy.after_events(seq_events).our_ask_price == seq_events[k].event->Add_price,
    decreases seq_events.len(),
{
    let rest = seq_events.drop_first();
    let next = strategy.after_event(seq_events[0]);
    if k > 0 {
        assert(rest[k - 1] == seq_events[k]);
        assert forall|i: int| k - 1 < i < rest.len() implies !adds_our_ask(
            (#[trigger] rest[i]).event,
        ) by {
            assert(rest[i] == seq_events[i + 1]);
        }
        law_ask_was_last_seen_where_it_was_last_added(next, rest, k - 1);
    } else {
        assert forall|i: int| 0 <= i < rest.len() implies !adds_our_ask(
            (#[trigger] rest[i]).event,
        ) by {
            assert(rest[i] == seq_events[i + 1]);
        }
        lemma_ask_price_kept(next, rest);
    }
}

/// Events that add no ask of ours leave where it was last seen.
proof fn lemma_ask_price_kept(strategy: StrategyView, seq_events: Seq<SeqEvent>)
    requires
        forall|i: int| 0 <= i < seq_events.len() ==> !adds_our_ask((#[trigger] seq_events[i]).event),
    ensures
        strategy.after_events(seq_events).our_ask_price == strategy.our_ask_price,
    decreases seq_events.len(),
{
    if seq_events.len() > 0 {
        let rest = seq_events.drop_first();
        assert(!adds_our_ask(seq_events[0].event));
        assert forall|i: int| 0 <= i < rest.len() implies !adds_our_ask(
            (#[trigger] rest[i]).event,
        ) by {
            assert(rest[i] == seq_events[i + 1]);
        }
        lemma_ask_price_kept(strategy.after_event(seq_events[0]), rest);
    }
}

/// A strategy that has no quotes, or whose bid or ask was last seen elsewhere than
/// where it is wanted, quotes: both sides, at exactly the wanted prices, with the
/// same lot on each.
pub proof fn law_quote_that_is_not_where_it_should_be_is_sent(
    strategy: StrategyView,
    bid_ticks: Price,
    ask_ticks: Price,
)
    ensures
        ({
            let quote = StrategyCommand::Quote {
                bid_price: bid_ticks,
                bid_qty: 5,
                ask_price: ask_ticks,
                ask_qty: 5,
            };
            let (after, command) = strategy.decided(false, bid_ticks, ask_ticks);
            &&& !strategy.have_quotes ==> command == Some(quote)
            &&& strategy.our_bid_price != bid_ticks ==> command == Some(quote)
            &&& strategy.our_ask_price != ask_ticks ==> command == Some(quote)
            &&& strategy.have_quotes && strategy.our_bid_price == bid_ticks
                && strategy.our_ask_price == ask_ticks ==> command is None
            &&& strategy.requoted(bid_ticks, ask_ticks) == command
            &&& after == strategy
        }),
{
}

/// A strategy that is stopped takes its orders back and forgets that it had
/// quotes, so that it quotes as soon as it is no longer stopped.
pub proof fn law_stopped_strategy_quotes_again_when_it_may(
    strategy: StrategyView,
    bid_ticks: Price,
    ask_ticks: Price,
    later_bid_ticks: Price,
    later_ask_ticks: Price,
)
    ensures
        ({
            let (stopped, command) = strategy.decided(true, bid_ticks, ask_ticks);
            &&& command == Some(StrategyCommand::CancelAll)
            &&& stopped.decided(false, later_bid_ticks, later_ask_ticks).1 matches Some(
                StrategyCommand::Quote { bid_price, ask_price, .. },
            ) && bid_price == later_bid_ticks && ask_price == later_ask_ticks
            &&& stopped.book == strategy.book
            &&& stopped.inventory == strategy.inventory
            &&& stopped.trades_count == strategy.trades_count
            &&& stopped.our_bid_price == strategy.our_bid_price
            &&& stopped.our_ask_price == strategy.our_ask_price
            &&& stopped.last_known_lost_events == strategy.last_known_lost_events
            &&& stopped.highest_seq_applied == strategy.highest_seq_applied
        }),
{
}

/// The first row that is ours gives its price; where none is ours there is none.
pub proof fn law_first_row_of_ours_is_found(rows: Seq<ResyncRow>, k: int)
    requires
        0 <= k <= rows.len(),
        forall|i: int| 0 <= i < k ==> !(#[trigger] rows[i]).3,
    ensures
        k == rows.len() ==> first_ours(rows) is None,
        k < rows.len() && rows[k].3 ==> first_ours(rows) == Some(rows[k].1),
    decreases rows.len(),
{
    if k > 0 {
        let rest = rows.drop_first();
        assert(!rows[0].3);
        assert forall|i: int| 0 <= i < k - 1 implies !(#[trigger] rest[i]).3 by {
            assert(rest[i] == rows[i + 1]);
        }
        law_first_row_of_ours_is_found(rest, k - 1);
        if k < rows.len() {
            assert(rest[k - 1] == rows[k]);
        }
    }
}

/// A snapshot is taken exactly where events were lost since the last time, it is
/// strictly newer than all that was taken in, and it holds an order. The book is
/// then that of the snapshot, and the strategy has got as far as the snapshot; our
/// quotes are where the snapshot shows them, or where they were last seen. Else
/// nothing of that changes. What we hold and have counted stays either way, and
/// the losses that were shown are noted.
pub proof fn law_snapshot_is_taken_if_it_helps(
    strategy: StrategyView,
    events_lost: u64,
    resync: BookResync,
    ts_nanos: u64,
)
    ensures
        ({
            let after = strategy.after_resync(events_lost, resync, ts_nanos);
            let taken = events_lost > strategy.last_known_lost_events && resync.seq_at_snapshot
                > strategy.highest_seq_applied && resync.bids@.len() + resync.asks@.len() > 0;
            &&& strategy.takes_resync(events_lost, resync) == taken
            &&& taken ==> {
                &&& after.book == BookView::rebuilt(resync.bids@, resync.asks@, ts_nanos)
                &&& after.highest_seq_applied == resync.seq_at_snapshot
                &&& first_ours(resync.bids@) is Some ==> after.our_bid_price == first_ours(
                    resync.bids@,
                )->0
                &&& first_ours(resync.bids@) is None ==> after.our_bid_price
                    == strategy.our_bid_price
                &&& first_ours(resync.asks@) is Some ==> after.our_ask_price == first_ours(
                    resync.asks@,
                )->0
                &&& first_ours(resync.asks@) is None ==> after.our_ask_price
                    == strategy.our_ask_price
            }
            &&& !taken ==> {
                &&& after.book == strategy.book
                &&& after.highest_seq_applied == strategy.highest_seq_applied
                &&& after.our_bid_price == strategy.our_bid_price
                &&& after.our_ask_price == strategy.our_ask_price
            }
            &&& after.inventory == strategy.inventory
            &&& after.trades_count == strategy.trades_count
            &&& after.have_quotes == strategy.have_quotes
            &&& after.last_known_lost_events >= events_lost
            &&& after.last_known_lost_events >= strategy.last_known_lost_events
            &&& after.last_known_lost_events == events_lost || after.last_known_lost_events
                == strategy.last_known_lost_events
        }),
{
}

/// A strategy that has seen nothing has an empty book, holds nothing, has counted
/// nothing and has no quotes.
pub proof fn law_fresh_strategy_knows_nothing()
    ensures
        ({
            let fresh = StrategyView::fresh();
            &&& fresh.book.bids == Map::<Price, Seq<Order>>::empty()
            &&& fresh.book.asks == Map::<Price, Seq<Order>>::empty()
            &&& fresh.inventory == 0
            &&& fresh.trades_count == 0
            &&& !fresh.have_quotes
            &&& fresh.our_bid_price == 0
            &&& fresh.our_ask_price == 0
            &&& fresh.last_known_lost_events == 0
            &&& fresh.highest_seq_applied == 0
        }),
{
}

/// An armed switch that is shown no request stops for inventory exactly where
/// more is held than the limit, bought or sold, whatever else is broken; with the
/// holding within the limit it stops for drawdown exactly where that is broken,
/// and for value at risk exactly where that alone is. It stops for no other
/// reason, and the limit stays.
pub proof fn law_switch_stops_for_the_first_limit_that_is_broken(
    switch: SwitchView,
    inventory: i64,
    breaches: Breaches,
)
    requires
        switch.triggered is None,
    ensures
        ({
            let after = switch.evaluated(inventory, breaches, false);
            let size: int = if inventory < 0 {
                -inventory
            } else {
                inventory as int
            };
            &&& after.triggered == Some(KillReason::InventoryLimit) <==> size
                > switch.max_abs_inventory
            &&& after.triggered == Some(KillReason::Drawdown) <==> size <= switch.max_abs_inventory
                && breaches.drawdown
            &&& after.triggered == Some(KillReason::ValueAtRisk) <==> size
                <= switch.max_abs_inventory && !breaches.drawdown && breaches.var_95
            &&& after.triggered is None <==> size <= switch.max_abs_inventory && !breaches.drawdown
                && !breaches.var_95
            &&& after.triggered != Some(KillReason::Manual)
            &&& after.max_abs_inventory == switch.max_abs_inventory
        }),
{
}

/// The switch does not care whether something was bought or sold.
pub proof fn law_switch_is_the_same_long_and_short(
    switch: SwitchView,
    long: i64,
    short: i64,
    breaches: Breaches,
    manual_kill: bool,
)
    requires
        long + short == 0,
    ensures
        switch.evaluated(long, breaches, manual_kill) == switch.evaluated(
            short,
            breaches,
            manual_kill,
        ),
{
}

/// To hold more never lets a switch go on that would have stopped.
pub proof fn law_switch_stops_no_later_for_holding_more(
    switch: SwitchView,
    less: i64,
    more: i64,
    breaches: Breaches,
)
    requires
        0 <= less <= more || more <= less <= 0,
        switch.evaluated(less, breaches, false).triggered is Some,
    ensures
        switch.evaluated(more, breaches, false).triggered is Some,
{
}

/// A switch keeps its first reason, whatever it is shown; a request that it is
/// shown before any other reason is that reason; and its limit stays.
pub proof fn law_switch_keeps_its_first_reason(
    switch: SwitchView,
    inventory: i64,
    breaches: Breaches,
    manual_kill: bool,
)
    ensures
        ({
            let after = switch.evaluated(inventory, breaches, manual_kill);
            &&& switch.triggered is Some ==> after.triggered == switch.triggered
            &&& switch.triggered is None && manual_kill ==> after.triggered == Some(
                KillReason::Manual,
            )
            &&& after.max_abs_inventory == switch.max_abs_inventory
        }),
{
}

/// Each reason has words of its own.
pub proof fn law_reasons_are_told_apart(reason: KillReason)
    ensures
        reason.text() == match reason {
            KillReason::InventoryLimit => "inventory limit breached"@,
            KillReason::Drawdown => "drawdown limit breached"@,
            KillReason::ValueAtRisk => "VaR limit breached"@,
            KillReason::Manual => "manual kill switch triggered"@,
        },
{
}

/// Whether a counter shows so many more than another, counting on from zero when
/// its range is used up.
pub open spec fn is_more_by(after: u64, before: u64, n: int) -> bool {
    after == (before + n) % 0x1_0000_0000_0000_0000
}

/// Every packet is counted. The first one only says where the feed stands. After
/// that, a packet with the expected number moves the expectation on by one; one
/// with a higher number shows one gap, and as many lost events as it skips; one
/// with a lower number changes neither the expectation nor what is counted as
/// lost.
pub proof fn law_gaps_are_what_is_skipped(handler: HandlerView, seq: u64)
    requires
        seq < u64::MAX,
    ensures
        ({
            let after = handler.received(seq);
            let (was, is) = (handler.health, after.health);
            &&& is_more_by(is.packets_received, was.packets_received, 1)
            &&& handler.expected_seq is None ==> {
                &&& after.expected_seq == Some((seq + 1) as u64)
                &&& is.gaps_detected == was.gaps_detected
                &&& is.events_lost_to_gaps == was.events_lost_to_gaps
            }
            &&& handler.expected_seq matches Some(expected) ==> {
                &&& seq < expected ==> {
                    &&& after.expected_seq == Some(expected)
                    &&& is.gaps_detected == was.gaps_detected
                    &&& is.events_lost_to_gaps == was.events_lost_to_gaps
                }
                &&& seq == expected ==> {
                    &&& after.expected_seq == Some((expected + 1) as u64)
                    &&& is.gaps_detected == was.gaps_detected
                    &&& is.events_lost_to_gaps == was.events_lost_to_gaps
                }
                &&& seq > expected ==> {
                    &&& after.expected_seq == Some((seq + 1) as u64)
                    &&& is_more_by(is.gaps_detected, was.gaps_detected, 1)
                    &&& is_more_by(
                        is.events_lost_to_gaps,
                        was.events_lost_to_gaps,
                        seq - expected,
                    )
                }
            }
        }),
{
}

/// A handler that has received nothing expects nothing and has counted nothing.
pub proof fn law_fresh_handler_knows_nothing()
    ensures
        HandlerView::fresh().expected_seq is None,
        HandlerView::fresh().health.packets_received == 0,
        HandlerView::fresh().health.gaps_detected == 0,
        HandlerView::fresh().health.events_lost_to_gaps == 0,
        FeedHealth::fresh().packets_received == 0,
        FeedHealth::fresh().gaps_detected == 0,
        FeedHealth::fresh().events_lost_to_gaps == 0,
{
}

} // verus!
