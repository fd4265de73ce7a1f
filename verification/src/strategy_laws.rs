//! What holds of the strategy whatever the feed brings, and of the strategy
//! and the matching engine together.
use crate::exchange_laws::{
    law_engine_book_is_never_crossed, law_rebuilt_book_follows_the_engine,
    law_replayed_book_follows_the_engine, lemma_acted_add, Action,
};
use crate::levels::in_rising_order;
use crate::market_sim::{safe_ask_price, ExchangeView, Stamps};
use crate::replay_laws::{law_snapshot_tells_the_book, law_stamps_make_no_difference};
use crate::risk::{law_kill_switch_latches, Breaches, SwitchView};
use crate::strategy::{inventory_change, StrategyView};
use crate::types::{
    row_of, BookResync, MarketEvent, Order, Price, Qty, SeqEvent, Side, StrategyCommand,
};
use vstd::prelude::*;

verus! {

/// What the strategy is given: an event of the feed, or the offer of a snapshot.
pub enum Intake {
    Event { seq_event: SeqEvent },
    Offer { events_lost: u64, resync: BookResync, ts_nanos: u64 },
}

impl StrategyView {
    /// After an event or an offer.
    pub open spec fn after_intake(self, intake: Intake) -> StrategyView {
        match intake {
            Intake::Event { seq_event } => self.after_event(seq_event),
            Intake::Offer { events_lost, resync, ts_nanos } => self.after_resync(
                events_lost,
                resync,
                ts_nanos,
            ),
        }
    }

    /// After events and offers, in order.
    pub open spec fn after_intakes(self, intakes: Seq<Intake>) -> StrategyView
        decreases intakes.len(),
    {
        if intakes.len() == 0 {
            self
        } else {
            self.after_intakes(intakes.drop_last()).after_intake(intakes.last())
        }
    }

    /// After events of the feed, in order.
    pub open spec fn after_events(self, seq_events: Seq<SeqEvent>) -> StrategyView
        decreases seq_events.len(),
    {
        if seq_events.len() == 0 {
            self
        } else {
            self.after_event(seq_events[0]).after_events(seq_events.drop_first())
        }
    }
}

/// The events that the feed carried, without their numbers.
pub open spec fn events_of(seq_events: Seq<SeqEvent>) -> Seq<MarketEvent> {
    seq_events.map_values(|seq_event: SeqEvent| seq_event.event)
}

/// What trades against our orders have bought, less what they have sold.
pub open spec fn net_bought(events: Seq<MarketEvent>) -> int
    decreases events.len(),
{
    if events.len() == 0 {
        0
    } else {
        let first = match StrategyView::own_fill(events[0]) {
            Some(fill) => inventory_change(fill.side, fill.qty),
            None => 0,
        };
        first + net_bought(events.drop_first())
    }
}

/// How many trades there were against our orders.
pub open spec fn own_trades(events: Seq<MarketEvent>) -> nat
    decreases events.len(),
{
    if events.len() == 0 {
        0
    } else {
        let first: nat = if StrategyView::own_fill(events[0]) is Some {
            1
        } else {
            0
        };
        first + own_trades(events.drop_first())
    }
}

/// What the strategy has taken in never goes back: an event or a snapshot moves
/// it forward or leaves it where it is.
pub proof fn law_feed_position_never_goes_back(
    strategy: StrategyView,
    seq_event: SeqEvent,
    events_lost: u64,
    resync: BookResync,
    ts_nanos: u64,
)
    ensures
        strategy.after_event(seq_event).highest_seq_applied >= strategy.highest_seq_applied,
        strategy.after_event(seq_event).highest_seq_applied >= seq_event.seq,
        strategy.after_resync(events_lost, resync, ts_nanos).highest_seq_applied
            >= strategy.highest_seq_applied,
{
}

/// A snapshot that is not newer than what has been taken in changes nothing but
/// that it was asked for: the book and our quotes are as they were.
pub proof fn law_old_snapshots_undo_nothing(
    strategy: StrategyView,
    events_lost: u64,
    resync: BookResync,
    ts_nanos: u64,
)
    requires
        resync.seq_at_snapshot <= strategy.highest_seq_applied,
    ensures
        strategy.after_resync(events_lost, resync, ts_nanos) == (StrategyView {
            last_known_lost_events: strategy.after_resync(
                events_lost,
                resync,
                ts_nanos,
            ).last_known_lost_events,
            ..strategy
        }),
{
}

/// As long as nothing more is lost, no snapshot is taken.
pub proof fn law_without_losses_no_snapshot_is_taken(
    strategy: StrategyView,
    events_lost: u64,
    resync: BookResync,
    ts_nanos: u64,
)
    requires
        events_lost <= strategy.last_known_lost_events,
    ensures
        strategy.after_resync(events_lost, resync, ts_nanos) == strategy,
{
}

/// The strategy's book is the replay of the events that it got, and its holding
/// and its count are those of the trades against its orders among them.
pub proof fn law_strategy_adds_up_its_events(strategy: StrategyView, seq_events: Seq<SeqEvent>)
    ensures
        ({
            let after = strategy.after_events(seq_events);
            let events = events_of(seq_events);
            &&& after.book == strategy.book.replayed_all(events)
            &&& after.inventory == strategy.inventory + net_bought(events)
            &&& after.trades_count == strategy.trades_count + own_trades(events)
        }),
    decreases seq_events.len(),
{
    let events = events_of(seq_events);
    if seq_events.len() > 0 {
        assert(events.drop_first() =~= events_of(seq_events.drop_first()));
        assert(events[0] == seq_events[0].event);
        law_strategy_adds_up_its_events(
            strategy.after_event(seq_events[0]),
            seq_events.drop_first(),
        );
    }
}

/// A strategy that gets every event of the matching engine, in order, holds the
/// same orders in the same places as the engine does.
pub proof fn law_strategy_follows_the_engine(
    state: ExchangeView,
    actions: Seq<Action>,
    strategy: StrategyView,
    seq_events: Seq<SeqEvent>,
)
    requires
        state.sound(),
        state.allows_all(actions),
        strategy.book.alike(state.book),
        events_of(seq_events) == state.acted_all(actions).events,
    ensures
        strategy.after_events(seq_events).book.alike(state.acted_all(actions).state.book),
{
    law_strategy_adds_up_its_events(strategy, seq_events);
    law_replayed_book_follows_the_engine(state, strategy.book, actions);
}

/// A strategy that takes a snapshot of the matching engine's book, whatever it
/// has missed, holds what the engine holds, and again after every event that
/// follows.
pub proof fn law_snapshot_brings_strategy_back(
    state: ExchangeView,
    actions: Seq<Action>,
    strategy: StrategyView,
    events_lost: u64,
    resync: BookResync,
    ts_nanos: u64,
    seq_events: Seq<SeqEvent>,
)
    requires
        state.sound(),
        state.allows_all(actions),
        resync.bids@ == in_rising_order(state.book.bids).map_values(|order: Order| row_of(order)),
        resync.asks@ == in_rising_order(state.book.asks).map_values(|order: Order| row_of(order)),
        strategy.takes_resync(events_lost, resync),
        events_of(seq_events) == state.acted_all(actions).events,
    ensures
        strategy.after_resync(events_lost, resync, ts_nanos).after_events(seq_events).book.alike(
            state.acted_all(actions).state.book,
        ),
{
    let back = strategy.after_resync(events_lost, resync, ts_nanos);
    law_strategy_adds_up_its_events(back, seq_events);
    law_rebuilt_book_follows_the_engine(state, ts_nanos, actions);
}

/// The strategy has got at least as far as every event that it was given.
proof fn lemma_every_event_is_behind(strategy: StrategyView, intakes: Seq<Intake>)
    ensures
        strategy.after_intakes(intakes).highest_seq_applied >= strategy.highest_seq_applied,
        forall|i: int|
            0 <= i < intakes.len() ==> (#[trigger] intakes[i] matches Intake::Event { seq_event }
                ==> seq_event.seq <= strategy.after_intakes(intakes).highest_seq_applied),
    decreases intakes.len(),
{
    if intakes.len() > 0 {
        let before = intakes.drop_last();
        lemma_every_event_is_behind(strategy, before);
        assert forall|i: int| 0 <= i < intakes.len() implies (#[trigger] intakes[i] matches
            Intake::Event { seq_event } ==> seq_event.seq <= strategy.after_intakes(
            intakes,
        ).highest_seq_applied) by {
            if i < before.len() {
                assert(intakes[i] == before[i]);
            }
        }
    }
}

/// A snapshot that is taken holds all that was seen. The snapshot is of the
/// matching engine after `actions`, and its number is how many events the engine
/// had told by then; the strategy has been given events of the feed, each with
/// its place in it, some of them perhaps told after the snapshot, and any offers
/// of snapshots between them. Wherever it takes the snapshot, every event that
/// it was given had been told before, and it then holds what the engine held.
pub proof fn law_taken_snapshot_holds_all_that_was_seen(
    background_levels: nat,
    actions: Seq<Action>,
    later: Seq<Action>,
    intakes: Seq<Intake>,
    events_lost: u64,
    resync: BookResync,
    ts_nanos: u64,
)
    requires
        ({
            let fresh = ExchangeView::fresh(background_levels);
            let then = fresh.acted_all(actions);
            let told = fresh.acted_all(actions + later).events;
            &&& fresh.allows_all(actions + later)
            &&& resync.seq_at_snapshot == then.events.len()
            &&& resync.bids@ == in_rising_order(then.state.book.bids).map_values(
                |order: Order| row_of(order),
            )
            &&& resync.asks@ == in_rising_order(then.state.book.asks).map_values(
                |order: Order| row_of(order),
            )
            &&& forall|i: int|
                0 <= i < intakes.len() ==> (#[trigger] intakes[i] matches Intake::Event {
                    seq_event,
                } ==> seq_event.seq < told.len() && seq_event.event == told[seq_event.seq as int])
            &&& StrategyView::fresh().after_intakes(intakes).takes_resync(events_lost, resync)
        }),
    ensures
        ({
            let then = ExchangeView::fresh(background_levels).acted_all(actions);
            let strategy = StrategyView::fresh().after_intakes(intakes);
            &&& forall|i: int|
                0 <= i < intakes.len() ==> (#[trigger] intakes[i] matches Intake::Event {
                    seq_event,
                } ==> seq_event.seq < then.events.len() && seq_event.event
                    == then.events[seq_event.seq as int])
            &&& strategy.after_resync(events_lost, resync, ts_nanos).book.alike(then.state.book)
        }),
{
    let fresh = ExchangeView::fresh(background_levels);
    let then = fresh.acted_all(actions);
    lemma_acted_add(fresh, actions, later);
    lemma_every_event_is_behind(StrategyView::fresh(), intakes);
    law_engine_book_is_never_crossed(background_levels, actions);
    law_snapshot_tells_the_book(then.state.book, ts_nanos);
    law_stamps_make_no_difference(then.state.book, ts_nanos);
}

/// Whether no event adds an order of ours.
spec fn adds_no_order_of_ours(events: Seq<MarketEvent>) -> bool {
    forall|i: int|
        0 <= i < events.len() ==> (#[trigger] events[i] matches MarketEvent::Add { is_ours, .. }
            ==> !is_ours)
}

/// Events that add no order of ours leave what is known of our quotes.
proof fn lemma_quotes_kept(strategy: StrategyView, seq_events: Seq<SeqEvent>)
    requires
        adds_no_order_of_ours(events_of(seq_events)),
    ensures
        ({
            let after = strategy.after_events(seq_events);
            &&& after.our_bid_price == strategy.our_bid_price
            &&& after.our_ask_price == strategy.our_ask_price
            &&& after.have_quotes == strategy.have_quotes
        }),
    decreases seq_events.len(),
{
    let events = events_of(seq_events);
    if seq_events.len() > 0 {
        let rest = events_of(seq_events.drop_first());
        assert(events[0] == seq_events[0].event);
        assert forall|i: int| 0 <= i < rest.len() implies (#[trigger] rest[i] matches MarketEvent::Add {
            is_ours,
            ..
        } ==> !is_ours) by {
            assert(rest[i] == events[i + 1]);
        }
        lemma_quotes_kept(strategy.after_event(seq_events[0]), seq_events.drop_first());
    }
}

/// Events are taken in one after another.
proof fn lemma_after_events_add(strategy: StrategyView, a: Seq<SeqEvent>, b: Seq<SeqEvent>)
    ensures
        strategy.after_events(a + b) == strategy.after_events(a).after_events(b),
    decreases a.len(),
{
    if a.len() == 0 {
        assert(a + b =~= b);
    } else {
        assert((a + b).drop_first() =~= a.drop_first() + b);
        lemma_after_events_add(strategy.after_event(a[0]), a.drop_first(), b);
    }
}

/// Events that end with the adding of an order of ours, and add none before,
/// change what is known of our quotes in that order alone.
proof fn lemma_quote_seen(strategy: StrategyView, seq_events: Seq<SeqEvent>)
    requires
        seq_events.len() > 0,
        adds_no_order_of_ours(events_of(seq_events).drop_last()),
        events_of(seq_events).last() matches MarketEvent::Add { is_ours, .. } && is_ours,
    ensures
        ({
            let after = strategy.after_events(seq_events);
            let last = events_of(seq_events).last();
            &&& after.have_quotes
            &&& after.our_bid_price == if last->Add_side == Side::Bid {
                last->Add_price
            } else {
                strategy.our_bid_price
            }
            &&& after.our_ask_price == if last->Add_side == Side::Ask {
                last->Add_price
            } else {
                strategy.our_ask_price
            }
        }),
{
    let before = seq_events.drop_last();
    let last = seq_events.last();
    assert(events_of(before) =~= events_of(seq_events).drop_last());
    assert(events_of(seq_events).last() == last.event);
    assert(seq_events =~= before + seq![last]);
    lemma_after_events_add(strategy, before, seq![last]);
    lemma_quotes_kept(strategy, before);
    assert(seq![last].drop_first() =~= seq![]);
    assert(strategy.after_events(before).after_events(seq![last]) == strategy.after_events(
        before,
    ).after_event(last).after_events(seq![]));
}

/// Quotes that rest are not sent again: once the strategy has seen the events of
/// its own quote, and both orders came to rest at the prices that it asked for,
/// it sends nothing as long as it wants the same prices.
pub proof fn law_resting_quotes_are_not_sent_again(
    state: ExchangeView,
    strategy: StrategyView,
    bid_price: Price,
    bid_qty: Qty,
    ask_price: Price,
    ask_qty: Qty,
    bid_stamps: Stamps,
    ask_stamps: Stamps,
    seq_events: Seq<SeqEvent>,
)
    requires
        ({
            let quoted = state.quoted(
                bid_price,
                bid_qty,
                ask_price,
                ask_qty,
                bid_stamps,
                ask_stamps,
            );
            &&& bid_price < ask_price
            &&& quoted.state.our_bid is Some
            &&& quoted.state.our_ask is Some
            &&& events_of(seq_events) == quoted.events
        }),
    ensures
        strategy.after_events(seq_events).requoted(bid_price, ask_price) is None,
{
    let gone = state.all_cancelled(bid_stamps.cancel, ask_stamps.cancel);
    let bid = gone.state.ours_placed(
        Side::Bid,
        bid_price,
        bid_qty,
        bid_stamps.submit,
        bid_stamps.add,
    );
    let ask = bid.state.ours_placed(
        Side::Ask,
        ask_price,
        ask_qty,
        ask_stamps.submit,
        ask_stamps.add,
    );
    let n = (gone.events.len() + bid.events.len()) as int;
    let first = seq_events.take(n);
    let second = seq_events.skip(n);
    let events = events_of(seq_events);
    assert(ask_price == safe_ask_price(bid_price, ask_price));
    assert(events == gone.events + bid.events + ask.events);
    assert(events.len() == seq_events.len());
    assert(events_of(first) =~= events.take(n));
    assert(events.take(n) =~= gone.events + bid.events);
    assert(events_of(second) =~= events.skip(n));
    assert(events.skip(n) =~= ask.events);
    assert(seq_events =~= first + second);
    lemma_after_events_add(strategy, first, second);
    lemma_quote_seen(strategy, first);
    lemma_quote_seen(strategy.after_events(first), second);
}

/// Once the kill switch is triggered the strategy quotes no more: whatever the
/// switch is shown from then on, all that the strategy asks for is that its
/// orders are taken back.
pub proof fn law_triggered_switch_ends_quoting(
    switch: SwitchView,
    states: Seq<(i64, Breaches, bool)>,
    strategy: StrategyView,
    bid_ticks: Price,
    ask_ticks: Price,
)
    requires
        switch.triggered is Some,
    ensures
        strategy.decided(
            switch.evaluated_all(states).triggered is Some,
            bid_ticks,
            ask_ticks,
        ).1 == Some(StrategyCommand::CancelAll),
{
    law_kill_switch_latches(switch, states);
}

} // verus!
