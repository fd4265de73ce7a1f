//! The matching engine: it owns the one authoritative book, keeps it supplied
//! with background liquidity, carries out the strategy's commands, and tells
//! of every change as a market event.
//!
//! What depends on the clock or on chance comes in as an argument.
use crate::exchange_laws::{law_action_keeps_engine_sound, law_fresh_engine_is_sound, Action};
use crate::levels::{
    cancelled, fills_qty, in_rising_order, lemma_fills_qty_take, lemma_sweep_conserves, position,
    queue_at,
};
use crate::orderbook::{BookView, OrderBook};
use crate::types::{
    row_of, BookResync, Fill, MarketEvent, Order, OrderId, Price, Qty, Side, StrategyCommand,
};
use rand::rngs::ThreadRng;
use rand::Rng;
use vstd::prelude::*;

verus! {

/// Where an order of ours or of the background rests: its id and its price.
pub type Slot = Option<(OrderId, Price)>;

/// The clock readings that go with the replacement of one order.
#[derive(Debug, Clone, Copy, PartialEq, Eq, Structural)]
pub struct Stamps {
    /// When the old order is cancelled.
    pub cancel: u64,
    /// When the new order is submitted.
    pub submit: u64,
    /// When what is left of the new order is announced.
    pub add: u64,
}

/// The event that tells of a fill, for use in contracts.
pub open spec fn trade_event(fill: Fill) -> MarketEvent {
    MarketEvent::Trade {
        resting_order_id: fill.resting_order_id,
        resting_is_ours: fill.resting_is_ours,
        side_of_resting_order: fill.side_of_resting_order,
        price: fill.price,
        qty: fill.qty,
        ts_nanos: fill.ts_nanos,
    }
}

/// The events that tell of fills, for use in contracts.
pub open spec fn trade_events(fills: Seq<Fill>) -> Seq<MarketEvent> {
    fills.map_values(|fill: Fill| trade_event(fill))
}

/// A book after a step of the matching engine, and what the step told.
pub struct Told {
    pub book: BookView,
    pub events: Seq<MarketEvent>,
}

/// An order is taken back, if it still rests.
pub open spec fn withdrawn(book: BookView, side: Side, slot: Slot, ts_nanos: u64) -> Told {
    match slot {
        Some((id, price)) => Told {
            book: book.with_side(side, cancelled(book.side(side), price, id)),
            events: if position(queue_at(book.side(side), price), id) is Some {
                seq![MarketEvent::Cancel { order_id: id, side, price, ts_nanos }]
            } else {
                seq![]
            },
        },
        None => Told { book, events: seq![] },
    }
}

/// An order is submitted: its fills are told, then what is left of it.
pub open spec fn placed(book: BookView, order: Order, add_ts_nanos: u64) -> Told {
    let submitted = book.submitted(order);
    Told {
        book: submitted.book,
        events: trade_events(submitted.fills) + if submitted.left > 0 {
            seq![
                MarketEvent::Add {
                    order_id: order.id,
                    side: order.side,
                    price: order.price,
                    qty: submitted.left as u64,
                    ts_nanos: add_ts_nanos,
                    is_ours: order.is_ours,
                },
            ]
        } else {
            seq![]
        },
    }
}

/// Where a submitted order rests.
pub open spec fn placed_slot(book: BookView, order: Order) -> Slot {
    if book.submitted(order).left > 0 {
        Some((order.id, order.price))
    } else {
        None
    }
}

/// The event that tells of a fill.
pub fn fill_to_trade_event(fill: &Fill) -> (event: MarketEvent)
    ensures
        event == trade_event(*fill),
{
    MarketEvent::Trade {
        resting_order_id: fill.resting_order_id,
        resting_is_ours: fill.resting_is_ours,
        side_of_resting_order: fill.side_of_resting_order,
        price: fill.price,
        qty: fill.qty,
        ts_nanos: fill.ts_nanos,
    }
}

/// Adds the events of `fills` to `events`; gives the quantity that was filled.
fn tell_fills(fills: &Vec<Fill>, events: &mut Vec<MarketEvent>) -> (filled: Qty)
    requires
        fills_qty(fills@) <= u64::MAX,
    ensures
        final(events)@ == old(events)@ + trade_events(fills@),
        filled == fills_qty(fills@),
{
    let mut filled: Qty = 0;
    for i in 0..fills.len()
        invariant
            fills_qty(fills@) <= u64::MAX,
            filled == fills_qty(fills@.take(i as int)),
            events@ == old(events)@ + trade_events(fills@.take(i as int)),
    {
        proof {
            assert(fills@.take(i + 1).drop_last() =~= fills@.take(i as int));
            lemma_fills_qty_take(fills@, i + 1);
            assert(trade_events(fills@.take(i + 1)) =~= trade_events(fills@.take(i as int)).push(
                trade_event(fills@[i as int]),
            ));
        }
        filled = filled + fills[i].qty;
        events.push(fill_to_trade_event(&fills[i]));
    }
    assert(fills@.take(fills@.len() as int) =~= fills@);
    filled
}

/// Takes an order back, if it still rests, and tells so.
fn withdraw(
    book: &mut OrderBook,
    side: Side,
    slot: Slot,
    ts_nanos: u64,
    events: &mut Vec<MarketEvent>,
)
    ensures
        final(book)@ == withdrawn(old(book)@, side, slot, ts_nanos).book,
        final(events)@ == old(events)@ + withdrawn(old(book)@, side, slot, ts_nanos).events,
{
    if let Some((id, price)) = slot {
        if book.cancel_order(side, price, id) {
            events.push(MarketEvent::Cancel { order_id: id, side, price, ts_nanos });
        }
    }
}

/// Submits an order and tells what became of it; gives where it rests.
fn place(
    book: &mut OrderBook,
    order: Order,
    add_ts_nanos: u64,
    events: &mut Vec<MarketEvent>,
) -> (slot: Slot)
    ensures
        final(book)@ == placed(old(book)@, order, add_ts_nanos).book,
        final(events)@ == old(events)@ + placed(old(book)@, order, add_ts_nanos).events,
        slot == placed_slot(old(book)@, order),
{
    let ghost before = book@;
    proof {
        book.lemma_finite();
        lemma_sweep_conserves(
            before.side(order.side.flipped()),
            order.side.flipped(),
            Some(order.price),
            order.qty as nat,
            order.ts_nanos,
        );
    }
    let fills = book.submit_limit_order(
        order.id,
        order.side,
        order.price,
        order.qty,
        order.ts_nanos,
        order.is_ours,
    );
    let filled = tell_fills(&fills, events);
    if filled < order.qty {
        events.push(
            MarketEvent::Add {
                order_id: order.id,
                side: order.side,
                price: order.price,
                qty: order.qty - filled,
                ts_nanos: add_ts_nanos,
                is_ours: order.is_ours,
            },
        );
        Some((order.id, order.price))
    } else {
        None
    }
}

/// `rand`'s generator of the running thread.
#[verifier::external_type_specification]
#[verifier::external_body]
pub struct ExThreadRng(ThreadRng);

/// A fair coin, by `rand::Rng::gen`. It is chance: nothing is claimed of what
/// comes up.
#[verifier::external_body]
fn flip_coin(rng: &mut ThreadRng) -> (coin: bool) {
    rng.gen::<bool>()
}

/// The side that a noise trader takes, for use in contracts.
pub open spec fn noise_side_of(coin: bool) -> Side {
    if coin {
        Side::Bid
    } else {
        Side::Ask
    }
}

/// The side that a noise trader takes.
pub fn noise_side(coin: bool) -> (side: Side)
    ensures
        side == noise_side_of(coin),
{
    if coin {
        Side::Bid
    } else {
        Side::Ask
    }
}

/// The matching engine.
pub struct Exchange {
    book: OrderBook,
    id_gen: OrderId,
    bid_slots: Vec<Slot>,
    ask_slots: Vec<Slot>,
    our_bid: Slot,
    our_ask: Slot,
}

/// What the matching engine holds.
#[verifier::ext_equal]
pub struct ExchangeView {
    /// The authoritative book.
    pub book: BookView,
    /// The last order id that was given out.
    pub id_gen: nat,
    /// Where the background's bids rest, level by level.
    pub bid_slots: Seq<Slot>,
    /// Where the background's asks rest, level by level.
    pub ask_slots: Seq<Slot>,
    /// Where the strategy's bid rests.
    pub our_bid: Slot,
    /// Where the strategy's ask rests.
    pub our_ask: Slot,
}

/// The matching engine after a step, and what the step told.
pub struct Stepped {
    pub state: ExchangeView,
    pub events: Seq<MarketEvent>,
}

/// The price of the background's order on a level: one tick from the
/// fundamental price on the first level, and one more on each further level.
pub open spec fn background_price(side: Side, lvl_idx: int, mid_ticks: Price) -> int {
    match side {
        Side::Bid => mid_ticks - (lvl_idx + 1),
        Side::Ask => mid_ticks + (lvl_idx + 1),
    }
}

/// How many orders the first `n` draws call for.
pub open spec fn drawn(draws: Seq<(bool, bool)>, n: nat) -> nat
    decreases n,
{
    if n == 0 {
        0
    } else {
        let draw = draws[n - 1];
        drawn(draws, (n - 1) as nat) + (if draw.0 {
            1nat
        } else {
            0nat
        }) + (if draw.1 {
            1nat
        } else {
            0nat
        })
    }
}

/// Whether the orders that a draw calls for on a level have prices.
pub open spec fn has_prices(draw: (bool, bool), lvl_idx: int, mid_ticks: Price) -> bool {
    &&& draw.0 || draw.1 ==> lvl_idx < i64::MAX
    &&& draw.0 ==> i64::MIN <= background_price(Side::Bid, lvl_idx, mid_ticks)
    &&& draw.1 ==> background_price(Side::Ask, lvl_idx, mid_ticks) <= i64::MAX
}

/// More draws call for no fewer orders.
pub proof fn lemma_drawn_grows(draws: Seq<(bool, bool)>, m: nat, n: nat)
    requires
        m <= n,
    ensures
        drawn(draws, m) <= drawn(draws, n),
    decreases n,
{
    if m < n {
        lemma_drawn_grows(draws, m, (n - 1) as nat);
    }
}

/// The price at which our ask is submitted: always above our bid, so that the
/// two never trade with each other.
pub open spec fn safe_ask_price(bid_price: Price, ask_price: Price) -> Price {
    if ask_price > bid_price {
        ask_price
    } else {
        (bid_price + 1) as Price
    }
}

impl ExchangeView {
    /// A matching engine that has done nothing yet.
    pub open spec fn fresh(background_levels: nat) -> ExchangeView {
        ExchangeView {
            book: BookView::empty(),
            id_gen: 0,
            bid_slots: Seq::new(background_levels, |i: int| None),
            ask_slots: Seq::new(background_levels, |i: int| None),
            our_bid: None,
            our_ask: None,
        }
    }

    /// Where the background's orders of one side rest.
    pub open spec fn slots(self, side: Side) -> Seq<Slot> {
        match side {
            Side::Bid => self.bid_slots,
            Side::Ask => self.ask_slots,
        }
    }

    /// Where the strategy's order of one side rests.
    pub open spec fn ours(self, side: Side) -> Slot {
        match side {
            Side::Bid => self.our_bid,
            Side::Ask => self.our_ask,
        }
    }

    /// The background's order of a level is replaced by a new one.
    pub open spec fn refreshed(
        self,
        side: Side,
        lvl_idx: int,
        mid_ticks: Price,
        qty: Qty,
        stamps: Stamps,
    ) -> Stepped {
        let gone = withdrawn(self.book, side, self.slots(side)[lvl_idx], stamps.cancel);
        let order = Order {
            id: (self.id_gen + 1) as u64,
            side,
            price: background_price(side, lvl_idx, mid_ticks) as i64,
            qty,
            ts_nanos: stamps.submit,
            is_ours: false,
        };
        let put = placed(gone.book, order, stamps.add);
        let slot = placed_slot(gone.book, order);
        Stepped {
            state: ExchangeView {
                book: put.book,
                id_gen: self.id_gen + 1,
                bid_slots: if side == Side::Bid {
                    self.bid_slots.update(lvl_idx, slot)
                } else {
                    self.bid_slots
                },
                ask_slots: if side == Side::Ask {
                    self.ask_slots.update(lvl_idx, slot)
                } else {
                    self.ask_slots
                },
                ..self
            },
            events: gone.events + put.events,
        }
    }

    /// Whether the orders that the first `n` draws call for can be placed: their
    /// levels exist, they have prices, and there are names left for them.
    pub open spec fn can_refresh(
        self,
        n: nat,
        mid_ticks: Price,
        draws: Seq<(bool, bool)>,
    ) -> bool {
        &&& forall|i: int|
            0 <= i < n ==> {
                &&& has_prices(#[trigger] draws[i], i, mid_ticks)
                &&& draws[i].0 ==> i < self.bid_slots.len()
                &&& draws[i].1 ==> i < self.ask_slots.len()
            }
        &&& self.id_gen + drawn(draws, n) <= u64::MAX
    }

    /// On the first `n` levels, level by level, the background's bid and then its
    /// ask are replaced where `draws` says so.
    pub open spec fn background_refreshed(
        self,
        n: nat,
        mid_ticks: Price,
        qty: Qty,
        draws: Seq<(bool, bool)>,
        stamps: Seq<(Stamps, Stamps)>,
    ) -> Stepped
        decreases n,
    {
        if n == 0 {
            Stepped { state: self, events: seq![] }
        } else {
            let i = n - 1;
            let before = self.background_refreshed(i as nat, mid_ticks, qty, draws, stamps);
            let bid = before.state.maybe_refreshed(
                draws[i].0,
                Side::Bid,
                i,
                mid_ticks,
                qty,
                stamps[i].0,
            );
            let ask = bid.state.maybe_refreshed(
                draws[i].1,
                Side::Ask,
                i,
                mid_ticks,
                qty,
                stamps[i].1,
            );
            Stepped { state: ask.state, events: before.events + bid.events + ask.events }
        }
    }

    /// The background's order of a level is replaced by a new one, or not.
    pub open spec fn maybe_refreshed(
        self,
        draw: bool,
        side: Side,
        lvl_idx: int,
        mid_ticks: Price,
        qty: Qty,
        stamps: Stamps,
    ) -> Stepped {
        if draw {
            self.refreshed(side, lvl_idx, mid_ticks, qty, stamps)
        } else {
            Stepped { state: self, events: seq![] }
        }
    }

    /// The strategy's orders are taken back.
    pub open spec fn all_cancelled(self, bid_ts_nanos: u64, ask_ts_nanos: u64) -> Stepped {
        let bid_gone = withdrawn(self.book, Side::Bid, self.our_bid, bid_ts_nanos);
        let ask_gone = withdrawn(bid_gone.book, Side::Ask, self.our_ask, ask_ts_nanos);
        Stepped {
            state: ExchangeView { book: ask_gone.book, our_bid: None, our_ask: None, ..self },
            events: bid_gone.events + ask_gone.events,
        }
    }

    /// An order of the strategy is submitted.
    pub open spec fn ours_placed(
        self,
        side: Side,
        price: Price,
        qty: Qty,
        submit_ts_nanos: u64,
        add_ts_nanos: u64,
    ) -> Stepped {
        let order = Order {
            id: (self.id_gen + 1) as u64,
            side,
            price,
            qty,
            ts_nanos: submit_ts_nanos,
            is_ours: true,
        };
        let put = placed(self.book, order, add_ts_nanos);
        let slot = placed_slot(self.book, order);
        Stepped {
            state: ExchangeView {
                book: put.book,
                id_gen: self.id_gen + 1,
                our_bid: if side == Side::Bid { slot } else { self.our_bid },
                our_ask: if side == Side::Ask { slot } else { self.our_ask },
                ..self
            },
            events: put.events,
        }
    }

    /// The strategy's orders are replaced by a new bid and a new ask.
    pub open spec fn quoted(
        self,
        bid_price: Price,
        bid_qty: Qty,
        ask_price: Price,
        ask_qty: Qty,
        bid_stamps: Stamps,
        ask_stamps: Stamps,
    ) -> Stepped {
        let gone = self.all_cancelled(bid_stamps.cancel, ask_stamps.cancel);
        let bid = gone.state.ours_placed(
            Side::Bid,
            bid_price,
            bid_qty,
            bid_stamps.submit,
            bid_stamps.add,
        );
        let ask = bid.state.ours_placed(
            Side::Ask,
            safe_ask_price(bid_price, ask_price),
            ask_qty,
            ask_stamps.submit,
            ask_stamps.add,
        );
        Stepped { state: ask.state, events: gone.events + bid.events + ask.events }
    }

    /// A command of the strategy is carried out.
    pub open spec fn commanded(
        self,
        command: StrategyCommand,
        bid_stamps: Stamps,
        ask_stamps: Stamps,
    ) -> Stepped {
        match command {
            StrategyCommand::Quote { bid_price, bid_qty, ask_price, ask_qty } => self.quoted(
                bid_price,
                bid_qty,
                ask_price,
                ask_qty,
                bid_stamps,
                ask_stamps,
            ),
            StrategyCommand::CancelAll => self.all_cancelled(bid_stamps.cancel, ask_stamps.cancel),
        }
    }

    /// A market order of some other participant is matched.
    pub open spec fn hit(self, aggressor_side: Side, qty: Qty, ts_nanos: u64) -> Stepped {
        let resting_side = aggressor_side.flipped();
        let swept = self.book.taken(resting_side, qty as nat, ts_nanos);
        Stepped {
            state: ExchangeView { book: self.book.with_side(resting_side, swept.levels), ..self },
            events: trade_events(swept.fills),
        }
    }
}

impl View for Exchange {
    type V = ExchangeView;

    closed spec fn view(&self) -> ExchangeView {
        ExchangeView {
            book: self.book@,
            id_gen: self.id_gen as nat,
            bid_slots: self.bid_slots@,
            ask_slots: self.ask_slots@,
            our_bid: self.our_bid,
            our_ask: self.our_ask,
        }
    }
}

impl Exchange {
    /// A matching engine with an empty book, for a background of so many levels
    /// on each side.
    pub fn new(background_levels: usize) -> (exchange: Exchange)
        ensures
            exchange@ == ExchangeView::fresh(background_levels as nat),
            exchange@.sound(),
    {
        proof {
            law_fresh_engine_is_sound(background_levels as nat);
        }
        let mut bid_slots: Vec<Slot> = Vec::new();
        let mut ask_slots: Vec<Slot> = Vec::new();
        for i in 0..background_levels
            invariant
                bid_slots@ == Seq::new(i as nat, |k: int| None::<(OrderId, Price)>),
                ask_slots@ == Seq::new(i as nat, |k: int| None::<(OrderId, Price)>),
        {
            bid_slots.push(None);
            ask_slots.push(None);
            assert(bid_slots@ =~= Seq::new((i + 1) as nat, |k: int| None::<(OrderId, Price)>));
            assert(ask_slots@ =~= Seq::new((i + 1) as nat, |k: int| None::<(OrderId, Price)>));
        }
        let exchange = Exchange {
            book: OrderBook::new(),
            id_gen: 0,
            bid_slots,
            ask_slots,
            our_bid: None,
            our_ask: None,
        };
        assert(exchange@ =~= ExchangeView::fresh(background_levels as nat));
        exchange
    }

    /// The authoritative book.
    pub fn book(&self) -> (book: &OrderBook)
        ensures
            book@ == self@.book,
    {
        &self.book
    }

    /// The last order id that was given out.
    pub fn last_order_id(&self) -> (id: OrderId)
        ensures
            id == self@.id_gen,
    {
        self.id_gen
    }

    /// Replaces the background's order of one level by a new one, priced from
    /// the fundamental price.
    pub fn place_background(
        &mut self,
        side: Side,
        lvl_idx: usize,
        mid_ticks: Price,
        qty: Qty,
        stamps: Stamps,
    ) -> (events: Vec<MarketEvent>)
        requires
            lvl_idx < old(self)@.slots(side).len(),
            lvl_idx < i64::MAX,
            i64::MIN <= background_price(side, lvl_idx as int, mid_ticks) <= i64::MAX,
            old(self)@.id_gen < u64::MAX,
        ensures
            final(self)@ == old(self)@.refreshed(
                side,
                lvl_idx as int,
                mid_ticks,
                qty,
                stamps,
            ).state,
            events@ == old(self)@.refreshed(side, lvl_idx as int, mid_ticks, qty, stamps).events,
            old(self)@.sound() ==> final(self)@.sound(),
    {
        let ghost before = self@;
        proof {
            if before.sound() {
                law_action_keeps_engine_sound(
                    before,
                    Action::Refresh { side, lvl_idx: lvl_idx as int, mid_ticks, qty, stamps },
                );
            }
        }
        let mut events: Vec<MarketEvent> = Vec::new();
        let existing = match side {
            Side::Bid => self.bid_slots[lvl_idx],
            Side::Ask => self.ask_slots[lvl_idx],
        };
        withdraw(&mut self.book, side, existing, stamps.cancel, &mut events);
        let depth: Price = lvl_idx as Price + 1;
        let price = match side {
            Side::Bid => mid_ticks - depth,
            Side::Ask => mid_ticks + depth,
        };
        self.id_gen = self.id_gen + 1;
        let order = Order {
            id: self.id_gen,
            side,
            price,
            qty,
            ts_nanos: stamps.submit,
            is_ours: false,
        };
        let slot = place(&mut self.book, order, stamps.add, &mut events);
        match side {
            Side::Bid => {
                self.bid_slots[lvl_idx] = slot;
            },
            Side::Ask => {
                self.ask_slots[lvl_idx] = slot;
            },
        }
        let ghost after = before.refreshed(side, lvl_idx as int, mid_ticks, qty, stamps);
        assert(self@ =~= after.state);
        assert(events@ =~= after.events);
        events
    }

    /// Goes through the levels of the background and replaces its bid and its ask
    /// where `draws` says so: every participant behind it quotes anew now and
    /// then.
    pub fn refresh_background(
        &mut self,
        mid_ticks: Price,
        qty: Qty,
        draws: &Vec<(bool, bool)>,
        stamps: &Vec<(Stamps, Stamps)>,
    ) -> (events: Vec<MarketEvent>)
        requires
            draws@.len() == stamps@.len(),
            old(self)@.can_refresh(draws@.len(), mid_ticks, draws@),
        ensures
            final(self)@ == old(self)@.background_refreshed(
                draws@.len(),
                mid_ticks,
                qty,
                draws@,
                stamps@,
            ).state,
            events@ == old(self)@.background_refreshed(
                draws@.len(),
                mid_ticks,
                qty,
                draws@,
                stamps@,
            ).events,
            old(self)@.sound() ==> final(self)@.sound(),
    {
        let ghost before = self@;
        let mut events: Vec<MarketEvent> = Vec::new();
        for i in 0..draws.len()
            invariant
                draws@.len() == stamps@.len(),
                before.can_refresh(draws@.len(), mid_ticks, draws@),
                self@.bid_slots.len() == before.bid_slots.len(),
                self@.ask_slots.len() == before.ask_slots.len(),
                self@.id_gen == before.id_gen + drawn(draws@, i as nat),
                before.sound() ==> self@.sound(),
                self@ == before.background_refreshed(i as nat, mid_ticks, qty, draws@, stamps@).state,
                events@ == before.background_refreshed(
                    i as nat,
                    mid_ticks,
                    qty,
                    draws@,
                    stamps@,
                ).events,
        {
            proof {
                lemma_drawn_grows(draws@, (i + 1) as nat, draws@.len());
                assert(has_prices(draws@[i as int], i as int, mid_ticks));
            }
            if draws[i].0 {
                let mut told = self.place_background(Side::Bid, i, mid_ticks, qty, stamps[i].0);
                events.append(&mut told);
            }
            if draws[i].1 {
                let mut told = self.place_background(Side::Ask, i, mid_ticks, qty, stamps[i].1);
                events.append(&mut told);
            }
            assert(events@ =~= before.background_refreshed(
                (i + 1) as nat,
                mid_ticks,
                qty,
                draws@,
                stamps@,
            ).events);
        }
        events
    }

    /// Carries out a command of the strategy. A quote replaces both of its
    /// orders; an ask that would not lie above the bid is raised until it does.
    pub fn apply_command(
        &mut self,
        command: StrategyCommand,
        bid_stamps: Stamps,
        ask_stamps: Stamps,
    ) -> (events: Vec<MarketEvent>)
        requires
            command matches StrategyCommand::Quote { bid_price, .. } ==> bid_price < i64::MAX && old(
                self,
            )@.id_gen + 2 <= u64::MAX,
        ensures
            final(self)@ == old(self)@.commanded(command, bid_stamps, ask_stamps).state,
            events@ == old(self)@.commanded(command, bid_stamps, ask_stamps).events,
            old(self)@.sound() ==> final(self)@.sound(),
    {
        let ghost before = self@;
        proof {
            if before.sound() {
                law_action_keeps_engine_sound(
                    before,
                    Action::Obey { command, bid_stamps, ask_stamps },
                );
            }
        }
        let mut events: Vec<MarketEvent> = Vec::new();
        withdraw(&mut self.book, Side::Bid, self.our_bid, bid_stamps.cancel, &mut events);
        self.our_bid = None;
        withdraw(&mut self.book, Side::Ask, self.our_ask, ask_stamps.cancel, &mut events);
        self.our_ask = None;
        let ghost gone = before.all_cancelled(bid_stamps.cancel, ask_stamps.cancel);
        assert(self@ =~= gone.state);
        assert(events@ =~= gone.events);
        if let StrategyCommand::Quote { bid_price, bid_qty, ask_price, ask_qty } = command {
            self.place_ours(
                Side::Bid,
                bid_price,
                bid_qty,
                bid_stamps.submit,
                bid_stamps.add,
                &mut events,
            );
            let safe_ask = if ask_price > bid_price {
                ask_price
            } else {
                bid_price + 1
            };
            self.place_ours(
                Side::Ask,
                safe_ask,
                ask_qty,
                ask_stamps.submit,
                ask_stamps.add,
                &mut events,
            );
        }
        events
    }

    /// Submits an order of the strategy.
    fn place_ours(
        &mut self,
        side: Side,
        price: Price,
        qty: Qty,
        submit_ts_nanos: u64,
        add_ts_nanos: u64,
        events: &mut Vec<MarketEvent>,
    )
        requires
            old(self)@.id_gen < u64::MAX,
        ensures
            final(self)@ == old(self)@.ours_placed(
                side,
                price,
                qty,
                submit_ts_nanos,
                add_ts_nanos,
            ).state,
            final(events)@ == old(events)@ + old(self)@.ours_placed(
                side,
                price,
                qty,
                submit_ts_nanos,
                add_ts_nanos,
            ).events,
    {
        let ghost before = self@;
        self.id_gen = self.id_gen + 1;
        let order = Order {
            id: self.id_gen,
            side,
            price,
            qty,
            ts_nanos: submit_ts_nanos,
            is_ours: true,
        };
        let slot = place(&mut self.book, order, add_ts_nanos, events);
        match side {
            Side::Bid => {
                self.our_bid = slot;
            },
            Side::Ask => {
                self.our_ask = slot;
            },
        }
        assert(self@ =~= before.ours_placed(
            side,
            price,
            qty,
            submit_ts_nanos,
            add_ts_nanos,
        ).state);
    }

    /// Matches a market order of some other participant, against whoever has
    /// the best price.
    pub fn market_order(&mut self, aggressor_side: Side, qty: Qty, ts_nanos: u64) -> (events: Vec<
        MarketEvent,
    >)
        ensures
            final(self)@ == old(self)@.hit(aggressor_side, qty, ts_nanos).state,
            events@ == old(self)@.hit(aggressor_side, qty, ts_nanos).events,
            old(self)@.sound() ==> final(self)@.sound(),
    {
        let ghost before = self@;
        proof {
            if before.sound() {
                law_action_keeps_engine_sound(
                    before,
                    Action::Match { aggressor_side, qty, ts_nanos },
                );
            }
            self.book.lemma_finite();
            lemma_sweep_conserves(
                before.book.side(aggressor_side.flipped()),
                aggressor_side.flipped(),
                None,
                qty as nat,
                ts_nanos,
            );
        }
        let mut events: Vec<MarketEvent> = Vec::new();
        let fills = self.book.execute_market_order(aggressor_side, qty, ts_nanos);
        tell_fills(&fills, &mut events);
        assert(self@ =~= before.hit(aggressor_side, qty, ts_nanos).state);
        assert(events@ =~= before.hit(aggressor_side, qty, ts_nanos).events);
        events
    }

    /// Matches a market order of a noise trader, who buys or sells by chance.
    pub fn noise_order(&mut self, rng: &mut ThreadRng, qty: Qty, ts_nanos: u64) -> (events: Vec<
        MarketEvent,
    >)
        ensures
            exists|coin: bool|
                {
                    let stepped = #[trigger] old(self)@.hit(noise_side_of(coin), qty, ts_nanos);
                    final(self)@ == stepped.state && events@ == stepped.events
                },
            old(self)@.sound() ==> final(self)@.sound(),
    {
        let coin = flip_coin(rng);
        self.market_order(noise_side(coin), qty, ts_nanos)
    }

    /// A snapshot of the book for replayed books to start again from, taken
    /// when the feed has reached `next_seq`.
    pub fn resync(&self, next_seq: u64) -> (resync: BookResync)
        ensures
            resync.bids@ == in_rising_order(self@.book.bids).map_values(
                |order: Order| row_of(order),
            ),
            resync.asks@ == in_rising_order(self@.book.asks).map_values(
                |order: Order| row_of(order),
            ),
            resync.seq_at_snapshot == next_seq,
    {
        let resync = self.book.export_resync();
        BookResync { seq_at_snapshot: next_seq, bids: resync.bids, asks: resync.asks }
    }
}

} // verus!
