//! What each step of the matching engine submits, takes back and tells, in
//! numbers.
use crate::levels::cancelled;
use crate::market_sim::{noise_side_of, placed, placed_slot, withdrawn, ExchangeView, Stamps};
use crate::orderbook::BookView;
use crate::queue_laws::{
    law_cancel_of_nothing_changes_nothing, law_search_finds_the_oldest, stands_nowhere,
};
use crate::types::{Fill, MarketEvent, Order, OrderId, Price, Qty, Side, StrategyCommand};
use vstd::prelude::*;

verus! {

/// Whether an event tells of a fill: the order that was hit, whether it is ours,
/// where it rested, how much it gave, and when.
pub open spec fn tells_of_fill(event: MarketEvent, fill: Fill) -> bool {
    &&& event is Trade
    &&& event->Trade_resting_order_id == fill.resting_order_id
    &&& event->Trade_resting_is_ours == fill.resting_is_ours
    &&& event->Trade_side_of_resting_order == fill.side_of_resting_order
    &&& event->Trade_price == fill.price
    &&& event->Trade_qty == fill.qty
    &&& event->Trade_ts_nanos == fill.ts_nanos
}

/// Whether events tell of fills, one for one and in the same order.
pub open spec fn tells_of_fills(events: Seq<MarketEvent>, fills: Seq<Fill>) -> bool {
    &&& events.len() == fills.len()
    &&& forall|i: int| 0 <= i < fills.len() ==> tells_of_fill(#[trigger] events[i], fills[i])
}

/// An order that still rests is taken back, which is told of in one event; one
/// that rests no more is not, and nothing is told.
pub proof fn law_withdrawal_is_told_if_there_is_one(
    book: BookView,
    side: Side,
    id: OrderId,
    p: Price,
    ts_nanos: u64,
)
    ensures
        ({
            let levels = if side == Side::Bid {
                book.bids
            } else {
                book.asks
            };
            let told = withdrawn(book, side, Some((id, p)), ts_nanos);
            &&& stands_nowhere(levels, p, id) ==> told.book == book && told.events.len() == 0
            &&& !stands_nowhere(levels, p, id) ==> {
                &&& told.events == seq![
                    MarketEvent::Cancel { order_id: id, side, price: p, ts_nanos },
                ]
                &&& told.book.bids == if side == Side::Bid {
                    cancelled(book.bids, p, id)
                } else {
                    book.bids
                }
                &&& told.book.asks == if side == Side::Ask {
                    cancelled(book.asks, p, id)
                } else {
                    book.asks
                }
            }
        }),
{
    let levels = book.side(side);
    law_search_finds_the_oldest(levels, p, id);
    if stands_nowhere(levels, p, id) {
        law_cancel_of_nothing_changes_nothing(levels, p, id);
        assert(withdrawn(book, side, Some((id, p)), ts_nanos).book =~= book);
    }
}

/// Where nothing rests, nothing is taken back or told.
pub proof fn law_nothing_is_withdrawn_from_an_empty_slot(book: BookView, side: Side, ts_nanos: u64)
    ensures
        withdrawn(book, side, None, ts_nanos).book == book,
        withdrawn(book, side, None, ts_nanos).events.len() == 0,
{
}

/// An order that is submitted is told of fill by fill, and then, if some of it
/// comes to rest, as added: under its name, on its side, at its price, with what
/// is left of it. Its slot says where it rests.
pub proof fn law_submission_is_told_in_full(book: BookView, order: Order, add_ts_nanos: u64)
    ensures
        ({
            let told = placed(book, order, add_ts_nanos);
            let submitted = book.submitted(order);
            let n = submitted.fills.len() as int;
            &&& told.book == submitted.book
            &&& tells_of_fills(told.events.take(n), submitted.fills)
            &&& submitted.left == 0 ==> told.events.len() == n && placed_slot(book, order) is None
            &&& submitted.left > 0 ==> {
                &&& told.events.len() == n + 1
                &&& told.events[n] == (MarketEvent::Add {
                    order_id: order.id,
                    side: order.side,
                    price: order.price,
                    qty: submitted.left as u64,
                    ts_nanos: add_ts_nanos,
                    is_ours: order.is_ours,
                })
                &&& placed_slot(book, order) == Some((order.id, order.price))
            }
        }),
{
}

/// The background's order on a level is priced one tick from the fundamental
/// price on the first level and one tick further out on each further level. What
/// rested there before is taken back; the new order gets the next name, and its
/// slot says where it rests. Nothing else that the engine keeps changes.
pub proof fn law_background_order_lies_its_level_away(
    state: ExchangeView,
    side: Side,
    lvl_idx: int,
    mid_ticks: Price,
    qty: Qty,
    stamps: Stamps,
)
    requires
        0 <= lvl_idx,
        side == Side::Bid ==> lvl_idx < state.bid_slots.len() && i64::MIN <= mid_ticks - lvl_idx - 1,
        side == Side::Ask ==> lvl_idx < state.ask_slots.len() && mid_ticks + lvl_idx + 1 <= i64::MAX,
        state.id_gen < u64::MAX,
    ensures
        ({
            let after = state.refreshed(side, lvl_idx, mid_ticks, qty, stamps);
            let price = if side == Side::Bid {
                (mid_ticks - lvl_idx - 1) as i64
            } else {
                (mid_ticks + lvl_idx + 1) as i64
            };
            let slot = if side == Side::Bid {
                state.bid_slots[lvl_idx]
            } else {
                state.ask_slots[lvl_idx]
            };
            let order = Order {
                id: (state.id_gen + 1) as u64,
                side,
                price,
                qty,
                ts_nanos: stamps.submit,
                is_ours: false,
            };
            let gone = withdrawn(state.book, side, slot, stamps.cancel);
            let put = placed(gone.book, order, stamps.add);
            &&& after.state.book == put.book
            &&& after.events == gone.events + put.events
            &&& after.state.id_gen == state.id_gen + 1
            &&& after.state.our_bid == state.our_bid
            &&& after.state.our_ask == state.our_ask
            &&& side == Side::Bid ==> {
                &&& after.state.bid_slots == state.bid_slots.update(
                    lvl_idx,
                    placed_slot(gone.book, order),
                )
                &&& after.state.ask_slots == state.ask_slots
            }
            &&& side == Side::Ask ==> {
                &&& after.state.ask_slots == state.ask_slots.update(
                    lvl_idx,
                    placed_slot(gone.book, order),
                )
                &&& after.state.bid_slots == state.bid_slots
            }
        }),
{
}

/// Two levels of one side that are quoted from the same fundamental price lie as
/// far apart as their numbers: no two levels share a price.
pub proof fn law_background_levels_lie_apart(
    state: ExchangeView,
    other_state: ExchangeView,
    side: Side,
    near: int,
    far: int,
    mid_ticks: Price,
    qty: Qty,
    stamps: Stamps,
)
    requires
        0 <= near < far,
        side == Side::Bid ==> near < state.bid_slots.len() && far < other_state.bid_slots.len()
            && i64::MIN <= mid_ticks - far - 1,
        side == Side::Ask ==> near < state.ask_slots.len() && far < other_state.ask_slots.len()
            && mid_ticks + far + 1 <= i64::MAX,
        state.id_gen < u64::MAX,
        other_state.id_gen < u64::MAX,
        state.refreshed(side, near, mid_ticks, qty, stamps).state.slots(side)[near] is Some,
        other_state.refreshed(side, far, mid_ticks, qty, stamps).state.slots(side)[far] is Some,
    ensures
        ({
            let near_state = state.refreshed(side, near, mid_ticks, qty, stamps).state;
            let far_state = other_state.refreshed(side, far, mid_ticks, qty, stamps).state;
            let p = (near_state.slots(side)[near]->0).1;
            let q = (far_state.slots(side)[far]->0).1;
            &&& side == Side::Bid ==> p - q == far - near && p < mid_ticks && q < mid_ticks
            &&& side == Side::Ask ==> q - p == far - near && p > mid_ticks && q > mid_ticks
        }),
{
    law_background_order_lies_its_level_away(state, side, near, mid_ticks, qty, stamps);
    law_background_order_lies_its_level_away(other_state, side, far, mid_ticks, qty, stamps);
}

/// When the strategy's orders are taken back, its bid goes first and then its
/// ask; the engine keeps neither.
pub proof fn law_cancel_all_takes_back_bid_and_ask(
    state: ExchangeView,
    bid_stamps: Stamps,
    ask_stamps: Stamps,
)
    ensures
        ({
            let after = state.commanded(StrategyCommand::CancelAll, bid_stamps, ask_stamps);
            let bid_gone = withdrawn(state.book, Side::Bid, state.our_bid, bid_stamps.cancel);
            let ask_gone = withdrawn(bid_gone.book, Side::Ask, state.our_ask, ask_stamps.cancel);
            &&& after.events == bid_gone.events + ask_gone.events
            &&& after.state.book == ask_gone.book
            &&& after.state.our_bid is None
            &&& after.state.our_ask is None
            &&& after.state.id_gen == state.id_gen
            &&& after.state.bid_slots == state.bid_slots
            &&& after.state.ask_slots == state.ask_slots
        }),
{
}

/// A quote takes the strategy's orders back and submits new ones under the next
/// two names: the bid at the price that was asked for, then the ask at the price
/// that was asked for or one tick above the bid, whichever is higher, each with
/// the quantity that was asked for.
pub proof fn law_quote_replaces_bid_and_ask(
    state: ExchangeView,
    bid_price: Price,
    bid_qty: Qty,
    ask_price: Price,
    ask_qty: Qty,
    bid_stamps: Stamps,
    ask_stamps: Stamps,
)
    requires
        bid_price < i64::MAX,
        state.id_gen + 2 <= u64::MAX,
    ensures
        ({
            let command = StrategyCommand::Quote { bid_price, bid_qty, ask_price, ask_qty };
            let after = state.commanded(command, bid_stamps, ask_stamps);
            let gone = state.commanded(StrategyCommand::CancelAll, bid_stamps, ask_stamps);
            let bid = Order {
                id: (state.id_gen + 1) as u64,
                side: Side::Bid,
                price: bid_price,
                qty: bid_qty,
                ts_nanos: bid_stamps.submit,
                is_ours: true,
            };
            let ask = Order {
                id: (state.id_gen + 2) as u64,
                side: Side::Ask,
                price: if ask_price <= bid_price {
                    (bid_price + 1) as i64
                } else {
                    ask_price
                },
                qty: ask_qty,
                ts_nanos: ask_stamps.submit,
                is_ours: true,
            };
            let bid_put = placed(gone.state.book, bid, bid_stamps.add);
            let ask_put = placed(bid_put.book, ask, ask_stamps.add);
            &&& after.events == gone.events + bid_put.events + ask_put.events
            &&& after.state.book == ask_put.book
            &&& after.state.our_bid == placed_slot(gone.state.book, bid)
            &&& after.state.our_ask == placed_slot(bid_put.book, ask)
            &&& after.state.id_gen == state.id_gen + 2
            &&& after.state.bid_slots == state.bid_slots
            &&& after.state.ask_slots == state.ask_slots
        }),
{
}

/// A market order that buys is matched against the asks, one that sells against
/// the bids; the other side and all else that the engine keeps stay, and every
/// fill is told.
pub proof fn law_market_order_hits_the_other_side(
    state: ExchangeView,
    aggressor_side: Side,
    qty: Qty,
    ts_nanos: u64,
)
    ensures
        ({
            let after = state.hit(aggressor_side, qty, ts_nanos);
            let other = match aggressor_side {
                Side::Bid => Side::Ask,
                Side::Ask => Side::Bid,
            };
            let taken = state.book.taken(other, qty as nat, ts_nanos);
            &&& tells_of_fills(after.events, taken.fills)
            &&& aggressor_side == Side::Bid ==> after.state.book.asks == taken.levels
                && after.state.book.bids == state.book.bids
            &&& aggressor_side == Side::Ask ==> after.state.book.bids == taken.levels
                && after.state.book.asks == state.book.asks
            &&& after.state.id_gen == state.id_gen
            &&& after.state.bid_slots == state.bid_slots
            &&& after.state.ask_slots == state.ask_slots
            &&& after.state.our_bid == state.our_bid
            &&& after.state.our_ask == state.our_ask
        }),
{
}

/// An engine that has done nothing has no order, has given out no name, and knows
/// of no order in any of its slots, of which there is one for each level.
pub proof fn law_fresh_engine_holds_nothing(background_levels: nat)
    ensures
        ({
            let fresh = ExchangeView::fresh(background_levels);
            &&& fresh.book.bids == Map::<Price, Seq<Order>>::empty()
            &&& fresh.book.asks == Map::<Price, Seq<Order>>::empty()
            &&& fresh.id_gen == 0
            &&& fresh.bid_slots.len() == background_levels
            &&& fresh.ask_slots.len() == background_levels
            &&& forall|i: int| 0 <= i < background_levels ==> (#[trigger] fresh.bid_slots[i]) is None
            &&& forall|i: int| 0 <= i < background_levels ==> (#[trigger] fresh.ask_slots[i]) is None
            &&& fresh.our_bid is None
            &&& fresh.our_ask is None
        }),
{
}

/// A noise trader buys on heads and sells on tails, so both sides are hit.
pub proof fn law_noise_traders_take_both_sides(coin: bool)
    ensures
        noise_side_of(coin) == Side::Bid <==> coin,
        noise_side_of(coin) == noise_side_of(!coin).flipped(),
{
}

} // verus!
