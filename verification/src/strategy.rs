//! What the strategy knows and decides.
//!
//! Its view of the market is built from nothing but the events of the feed,
//! and from snapshots where the feed has lost some.
use crate::orderbook::{BookView, OrderBook};
use crate::types::{
    BookResync, MarketEvent, Price, Qty, ResyncRow, SeqEvent, Side, StrategyCommand,
};
use vstd::prelude::*;

verus! {

/// The quantity that the strategy offers on each side.
pub const OUR_LOT_SIZE: Qty = 5;

/// A trade against an order of ours: `side` is that of our order.
#[derive(Debug, Clone, Copy, PartialEq, Eq, Structural)]
pub struct OwnFill {
    pub side: Side,
    pub price: Price,
    pub qty: Qty,
}

/// The strategy's state.
pub struct Strategy {
    shadow_book: OrderBook,
    inventory: i64,
    trades_count: u64,
    our_bid_price: Price,
    our_ask_price: Price,
    have_quotes: bool,
    last_known_lost_events: u64,
    highest_seq_applied: u64,
}

/// What the strategy knows.
#[verifier::ext_equal]
pub struct StrategyView {
    /// The replayed book.
    pub book: BookView,
    /// What we hold: bought less sold.
    pub inventory: int,
    /// How many of our orders' trades were seen.
    pub trades_count: nat,
    /// The price at which our bid was last seen.
    pub our_bid_price: Price,
    /// The price at which our ask was last seen.
    pub our_ask_price: Price,
    /// Whether an order of ours was seen since the quotes were last pulled.
    pub have_quotes: bool,
    /// How many lost events had been counted when a snapshot was last asked for.
    pub last_known_lost_events: u64,
    /// How far the feed has been taken in.
    pub highest_seq_applied: u64,
}

/// The price of the first row that is ours.
pub open spec fn first_ours(rows: Seq<ResyncRow>) -> Option<Price>
    decreases rows.len(),
{
    if rows.len() == 0 {
        None
    } else if rows[0].3 {
        Some(rows[0].1)
    } else {
        first_ours(rows.drop_first())
    }
}

/// How a trade of ours changes what we hold: our bid buys, our ask sells.
pub open spec fn inventory_change(side: Side, qty: Qty) -> int {
    match side {
        Side::Bid => (qty as i64) as int,
        Side::Ask => -((qty as i64) as int),
    }
}

impl StrategyView {
    /// Before the first event.
    pub open spec fn fresh() -> StrategyView {
        StrategyView {
            book: BookView::empty(),
            inventory: 0,
            trades_count: 0,
            our_bid_price: 0,
            our_ask_price: 0,
            have_quotes: false,
            last_known_lost_events: 0,
            highest_seq_applied: 0,
        }
    }

    /// The trade of ours that an event tells of.
    pub open spec fn own_fill(event: MarketEvent) -> Option<OwnFill> {
        match event {
            MarketEvent::Trade {
                resting_is_ours,
                side_of_resting_order,
                price,
                qty,
                ..
            } if resting_is_ours => Some(OwnFill { side: side_of_resting_order, price, qty }),
            _ => None,
        }
    }

    /// After an event of the feed.
    pub open spec fn after_event(self, seq_event: SeqEvent) -> StrategyView {
        let seen = StrategyView {
            book: self.book.replayed(seq_event.event),
            highest_seq_applied: if seq_event.seq > self.highest_seq_applied {
                seq_event.seq
            } else {
                self.highest_seq_applied
            },
            ..self
        };
        match (seq_event.event, StrategyView::own_fill(seq_event.event)) {
            (MarketEvent::Add { side: Side::Bid, price, is_ours: true, .. }, _) => StrategyView {
                our_bid_price: price,
                have_quotes: true,
                ..seen
            },
            (MarketEvent::Add { side: Side::Ask, price, is_ours: true, .. }, _) => StrategyView {
                our_ask_price: price,
                have_quotes: true,
                ..seen
            },
            (_, Some(fill)) => StrategyView {
                trades_count: self.trades_count + 1,
                inventory: self.inventory + inventory_change(fill.side, fill.qty),
                ..seen
            },
            _ => seen,
        }
    }

    /// Whether a snapshot is taken: only where events were lost since the last
    /// time, and only one that is newer than what has been taken in and not
    /// empty.
    pub open spec fn takes_resync(self, events_lost: u64, resync: BookResync) -> bool {
        &&& events_lost > self.last_known_lost_events
        &&& resync.seq_at_snapshot > self.highest_seq_applied
        &&& resync.bids@.len() > 0 || resync.asks@.len() > 0
    }

    /// After a snapshot has been offered.
    pub open spec fn after_resync(
        self,
        events_lost: u64,
        resync: BookResync,
        ts_nanos: u64,
    ) -> StrategyView {
        let asked = StrategyView {
            last_known_lost_events: if events_lost > self.last_known_lost_events {
                events_lost
            } else {
                self.last_known_lost_events
            },
            ..self
        };
        if self.takes_resync(events_lost, resync) {
            StrategyView {
                book: BookView::rebuilt(resync.bids@, resync.asks@, ts_nanos),
                highest_seq_applied: resync.seq_at_snapshot,
                our_bid_price: match first_ours(resync.bids@) {
                    Some(price) => price,
                    None => self.our_bid_price,
                },
                our_ask_price: match first_ours(resync.asks@) {
                    Some(price) => price,
                    None => self.our_ask_price,
                },
                ..asked
            }
        } else {
            asked
        }
    }

    /// The command that brings our quotes to these prices, where they are not
    /// there already.
    pub open spec fn requoted(self, bid_ticks: Price, ask_ticks: Price) -> Option<StrategyCommand> {
        if self.have_quotes && self.our_bid_price == bid_ticks && self.our_ask_price == ask_ticks {
            None
        } else {
            Some(
                StrategyCommand::Quote {
                    bid_price: bid_ticks,
                    bid_qty: OUR_LOT_SIZE,
                    ask_price: ask_ticks,
                    ask_qty: OUR_LOT_SIZE,
                },
            )
        }
    }

    /// After a decision, and the command that it comes to: a strategy that is
    /// stopped takes its orders back, one that is not quotes.
    pub open spec fn decided(
        self,
        stopped: bool,
        bid_ticks: Price,
        ask_ticks: Price,
    ) -> (StrategyView, Option<StrategyCommand>) {
        if stopped {
            (StrategyView { have_quotes: false, ..self }, Some(StrategyCommand::CancelAll))
        } else {
            (self, self.requoted(bid_ticks, ask_ticks))
        }
    }
}

impl View for Strategy {
    type V = StrategyView;

    closed spec fn view(&self) -> StrategyView {
        StrategyView {
            book: self.shadow_book@,
            inventory: self.inventory as int,
            trades_count: self.trades_count as nat,
            our_bid_price: self.our_bid_price,
            our_ask_price: self.our_ask_price,
            have_quotes: self.have_quotes,
            last_known_lost_events: self.last_known_lost_events,
            highest_seq_applied: self.highest_seq_applied,
        }
    }
}

/// The price of the first row that is ours.
fn find_ours(rows: &Vec<ResyncRow>) -> (found: Option<Price>)
    ensures
        found == first_ours(rows@),
{
    let mut i: usize = 0;
    assert(rows@.skip(0) =~= rows@);
    while i < rows.len()
        invariant
            i <= rows@.len(),
            first_ours(rows@.skip(i as int)) == first_ours(rows@),
        decreases rows@.len() - i,
    {
        assert(rows@.skip(i as int).drop_first() =~= rows@.skip(i + 1));
        if rows[i].3 {
            return Some(rows[i].1);
        }
        i = i + 1;
    }
    None
}

impl Strategy {
    /// A strategy that has seen nothing and holds nothing.
    pub fn new() -> (strategy: Strategy)
        ensures
            strategy@ == StrategyView::fresh(),
    {
        Strategy {
            shadow_book: OrderBook::new(),
            inventory: 0,
            trades_count: 0,
            our_bid_price: 0,
            our_ask_price: 0,
            have_quotes: false,
            last_known_lost_events: 0,
            highest_seq_applied: 0,
        }
    }

    /// The replayed book.
    pub fn book(&self) -> (book: &OrderBook)
        ensures
            book@ == self@.book,
    {
        &self.shadow_book
    }

    /// What we hold: bought less sold.
    pub fn inventory(&self) -> (inventory: i64)
        ensures
            inventory == self@.inventory,
    {
        self.inventory
    }

    /// How many trades of ours were seen.
    pub fn trades_count(&self) -> (count: u64)
        ensures
            count == self@.trades_count,
    {
        self.trades_count
    }

    /// Replays an event of the feed; gives the trade of ours that it tells of.
    pub fn on_event(&mut self, seq_event: SeqEvent) -> (own_fill: Option<OwnFill>)
        requires
            StrategyView::own_fill(seq_event.event) matches Some(fill) ==> {
                &&& old(self)@.trades_count < u64::MAX
                &&& i64::MIN <= old(self)@.inventory + inventory_change(fill.side, fill.qty)
                    <= i64::MAX
            },
        ensures
            final(self)@ == old(self)@.after_event(seq_event),
            own_fill == StrategyView::own_fill(seq_event.event),
    {
        if seq_event.seq > self.highest_seq_applied {
            self.highest_seq_applied = seq_event.seq;
        }
        match seq_event.event {
            MarketEvent::Add { order_id, side, price, qty, ts_nanos, is_ours } => {
                self.shadow_book.insert_resting_order(order_id, side, price, qty, ts_nanos, is_ours);
                if is_ours {
                    match side {
                        Side::Bid => {
                            self.our_bid_price = price;
                        },
                        Side::Ask => {
                            self.our_ask_price = price;
                        },
                    }
                    self.have_quotes = true;
                }
                None
            },
            MarketEvent::Cancel { order_id, side, price, .. } => {
                self.shadow_book.cancel_order(side, price, order_id);
                None
            },
            MarketEvent::Trade {
                resting_order_id,
                resting_is_ours,
                side_of_resting_order,
                price,
                qty,
                ..
            } => {
                self.shadow_book.apply_trade(side_of_resting_order, price, resting_order_id, qty);
                if resting_is_ours {
                    self.trades_count = self.trades_count + 1;
                    let change: i64 = #[verifier::truncate]
                    (qty as i64);
                    match side_of_resting_order {
                        Side::Bid => {
                            self.inventory = self.inventory + change;
                        },
                        Side::Ask => {
                            self.inventory = self.inventory - change;
                        },
                    }
                    Some(OwnFill { side: side_of_resting_order, price, qty })
                } else {
                    None
                }
            },
        }
    }

    /// Whether more events are known to be lost than when a snapshot was last
    /// asked for.
    pub fn loss_detected(&self, events_lost: u64) -> (detected: bool)
        ensures
            detected == (events_lost > self@.last_known_lost_events),
    {
        events_lost > self.last_known_lost_events
    }

    /// Offers a snapshot; says whether the book was rebuilt from it.
    pub fn offer_resync(&mut self, events_lost: u64, resync: &BookResync, ts_nanos: u64) -> (taken:
        bool)
        ensures
            final(self)@ == old(self)@.after_resync(events_lost, *resync, ts_nanos),
            taken == old(self)@.takes_resync(events_lost, *resync),
    {
        if events_lost <= self.last_known_lost_events {
            return false;
        }
        self.last_known_lost_events = events_lost;
        let is_newer = resync.seq_at_snapshot > self.highest_seq_applied;
        if is_newer && (resync.bids.len() > 0 || resync.asks.len() > 0) {
            self.shadow_book.rebuild_from_resync(resync, ts_nanos);
            self.highest_seq_applied = resync.seq_at_snapshot;
            if let Some(price) = find_ours(&resync.bids) {
                self.our_bid_price = price;
            }
            if let Some(price) = find_ours(&resync.asks) {
                self.our_ask_price = price;
            }
            true
        } else {
            false
        }
    }

    /// The command that brings our quotes to these prices, where they are not
    /// there already.
    pub fn requote(&self, bid_ticks: Price, ask_ticks: Price) -> (command: Option<StrategyCommand>)
        ensures
            command == self@.requoted(bid_ticks, ask_ticks),
    {
        if !self.have_quotes || self.our_bid_price != bid_ticks || self.our_ask_price != ask_ticks {
            Some(
                StrategyCommand::Quote {
                    bid_price: bid_ticks,
                    bid_qty: OUR_LOT_SIZE,
                    ask_price: ask_ticks,
                    ask_qty: OUR_LOT_SIZE,
                },
            )
        } else {
            None
        }
    }

    /// Pulls our quotes, because trading is stopped.
    pub fn pull_quotes(&mut self) -> (command: StrategyCommand)
        ensures
            final(self)@ == (StrategyView { have_quotes: false, ..old(self)@ }),
            command == StrategyCommand::CancelAll,
    {
        self.have_quotes = false;
        StrategyCommand::CancelAll
    }

    /// Decides what to ask of the matching engine: where trading is stopped, that
    /// our orders are taken back; else that our quotes are at these prices,
    /// where they are not there already.
    pub fn decide(&mut self, stopped: bool, bid_ticks: Price, ask_ticks: Price) -> (command: Option<
        StrategyCommand,
    >)
        ensures
            final(self)@ == old(self)@.decided(stopped, bid_ticks, ask_ticks).0,
            command == old(self)@.decided(stopped, bid_ticks, ask_ticks).1,
    {
        if stopped {
            Some(self.pull_quotes())
        } else {
            self.requote(bid_ticks, ask_ticks)
        }
    }
}

} // verus!
