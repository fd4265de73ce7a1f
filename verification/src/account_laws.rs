//! What a match is to the one whose orders it trades with: what their orders
//! lose is what they are told, and what the strategy books.
use crate::exchange_laws::{law_strategy_never_trades_with_itself, spares_ours, Action};
use crate::fill_laws::{
    filled, filled_where, is_fair, law_limit_order_is_matched_fairly,
    law_market_order_is_matched_fairly, orders_at, qty_where, tells_of,
};
use crate::levels::Levels;
use crate::market_sim::{
    background_price, placed, trade_events, withdrawn, ExchangeView, Stamps,
};
use crate::orderbook::BookView;
use crate::strategy::StrategyView;
use crate::strategy_laws::{events_of, law_strategy_adds_up_its_events, net_bought};
use crate::types::{
    Fill, MarketEvent, Order, OrderId, Price, Qty, SeqEvent, Side, StrategyCommand,
};
use vstd::prelude::*;

verus! {

/// The quantity that the orders of a class have on a side.
pub open spec fn side_where(levels: Levels, class: spec_fn(OrderId, bool) -> bool) -> int
    decreases levels.len(),
    when levels.dom().finite()
{
    if levels.dom().len() == 0 {
        0
    } else {
        let p = levels.dom().choose();
        qty_where(levels[p], class) + side_where(levels.remove(p), class)
    }
}

/// The quantity of the fills against orders of a class.
pub open spec fn filled_of(fills: Seq<Fill>, class: spec_fn(OrderId, bool) -> bool) -> int
    decreases fills.len(),
{
    if fills.len() == 0 {
        0
    } else {
        let fill = fills.last();
        filled_of(fills.drop_last(), class) + if class(
            fill.resting_order_id,
            fill.resting_is_ours,
        ) {
            fill.qty as int
        } else {
            0
        }
    }
}

/// The class of our orders.
pub open spec fn of_ours() -> spec_fn(OrderId, bool) -> bool {
    |id: OrderId, is_ours: bool| is_ours
}

/// What we have resting on a side.
pub open spec fn our_qty(levels: Levels) -> int {
    side_where(levels, of_ours())
}

/// The quantity of a side is that of any one level and that of the others.
proof fn lemma_side_split(levels: Levels, class: spec_fn(OrderId, bool) -> bool, p: Price)
    requires
        levels.dom().finite(),
        levels.contains_key(p),
    ensures
        side_where(levels, class) == qty_where(levels[p], class) + side_where(
            levels.remove(p),
            class,
        ),
    decreases levels.len(),
{
    assert(levels.dom().len() > 0) by {
        if levels.dom().len() == 0 {
            assert(levels.dom() =~= Set::empty());
        }
    }
    let c = levels.dom().choose();
    assert(levels.dom().contains(c));
    if c != p {
        lemma_side_split(levels.remove(c), class, p);
        lemma_side_split(levels.remove(p), class, c);
        assert(levels.remove(c).remove(p) =~= levels.remove(p).remove(c));
    }
}

/// The fills without those at one price.
spec fn elsewhere(fills: Seq<Fill>, p: Price) -> Seq<Fill> {
    fills.filter(|fill: Fill| fill.price != p)
}

/// The fills at one price and those elsewhere are all fills.
proof fn lemma_elsewhere(fills: Seq<Fill>, p: Price, class: spec_fn(OrderId, bool) -> bool)
    ensures
        filled_of(fills, class) == filled_where(fills, p, class) + filled_of(
            elsewhere(fills, p),
            class,
        ),
        forall|q: Price|
            q != p ==> #[trigger] filled_where(elsewhere(fills, p), q, class) == filled_where(
                fills,
                q,
                class,
            ),
        filled_where(elsewhere(fills, p), p, class) == 0,
        forall|i: int|
            0 <= i < elsewhere(fills, p).len() ==> {
                &&& (#[trigger] elsewhere(fills, p)[i]).price != p
                &&& fills.contains(elsewhere(fills, p)[i])
            },
    decreases fills.len(),
{
    reveal(Seq::filter);
    if fills.len() > 0 {
        let before = fills.drop_last();
        lemma_elsewhere(before, p, class);
        let kept = elsewhere(before, p);
        if fills.last().price != p {
            assert(elsewhere(fills, p) =~= kept.push(fills.last()));
            assert(kept.push(fills.last()).drop_last() =~= kept);
        } else {
            assert(elsewhere(fills, p) =~= kept);
        }
        assert forall|q: Price| q != p implies #[trigger] filled_where(
            elsewhere(fills, p),
            q,
            class,
        ) == filled_where(fills, q, class) by {
            assert(filled_where(kept, q, class) == filled_where(before, q, class));
        }
        assert forall|i: int| 0 <= i < elsewhere(fills, p).len() implies {
            &&& (#[trigger] elsewhere(fills, p)[i]).price != p
            &&& fills.contains(elsewhere(fills, p)[i])
        } by {
            if i < kept.len() {
                assert(before.contains(kept[i]));
                let k = choose|k: int| 0 <= k < before.len() && before[k] == kept[i];
                assert(fills[k] == kept[i]);
            } else {
                assert(fills[fills.len() - 1] == fills.last());
            }
        }
    }
}

/// Where every level has lost what the fills at its price tell, the side has
/// lost what all fills tell.
proof fn lemma_side_loses(
    before: Levels,
    after: Levels,
    fills: Seq<Fill>,
    class: spec_fn(OrderId, bool) -> bool,
)
    requires
        before.dom().finite(),
        after.dom().subset_of(before.dom()),
        forall|i: int| 0 <= i < fills.len() ==> before.contains_key((#[trigger] fills[i]).price),
        forall|p: Price|
            #![trigger before.contains_key(p)]
            before.contains_key(p) ==> qty_where(before[p], class) == qty_where(
                orders_at(after, p),
                class,
            ) + filled_where(fills, p, class),
    ensures
        after.dom().finite(),
        side_where(before, class) == side_where(after, class) + filled_of(fills, class),
    decreases before.len(),
{
    vstd::set_lib::lemma_set_subset_finite(before.dom(), after.dom());
    if before.dom().len() == 0 {
        assert(before.dom() =~= Set::empty());
        assert(after.dom() =~= Set::empty());
        if fills.len() > 0 {
            assert(before.contains_key(fills[0].price));
        }
    } else {
        let p = before.dom().choose();
        assert(before.dom().contains(p));
        let others = elsewhere(fills, p);
        lemma_elsewhere(fills, p, class);
        assert forall|q: Price| #![trigger before.remove(p).contains_key(q)]
            before.remove(p).contains_key(q) implies qty_where(before.remove(p)[q], class)
            == qty_where(orders_at(after.remove(p), q), class) + filled_where(
            others,
            q,
            class,
        ) by {
            assert(before.contains_key(q));
            assert(orders_at(after.remove(p), q) == orders_at(after, q));
        }
        assert forall|i: int| 0 <= i < others.len() implies before.remove(p).contains_key(
            (#[trigger] others[i]).price,
        ) by {
            assert(fills.contains(others[i]));
            let k = choose|k: int| 0 <= k < fills.len() && fills[k] == others[i];
            assert(before.contains_key(fills[k].price));
        }
        lemma_side_loses(before.remove(p), after.remove(p), others, class);
        lemma_side_split(before, class, p);
        if after.contains_key(p) {
            lemma_side_split(after, class, p);
        } else {
            assert(after.remove(p) =~= after);
        }
    }
}

/// A fair match takes from every class of orders what its fills tell.
proof fn lemma_fair_match_accounts(
    before: Levels,
    side: Side,
    limit: Option<Price>,
    qty: nat,
    ts_nanos: u64,
    fills: Seq<Fill>,
    after: Levels,
    left: nat,
    class: spec_fn(OrderId, bool) -> bool,
)
    requires
        before.dom().finite(),
        is_fair(before, side, limit, qty, ts_nanos, fills, after, left),
    ensures
        after.dom().finite(),
        side_where(before, class) == side_where(after, class) + filled_of(fills, class),
        forall|i: int|
            0 <= i < fills.len() ==> {
                &&& (#[trigger] fills[i]).side_of_resting_order == side
                &&& fills[i].qty <= qty
            },
{
    reveal(is_fair);
    let places = choose|places: Seq<int>| #[trigger]
        tells_of(before, side, limit, ts_nanos, fills, places);
    reveal(tells_of);
    assert(after.dom().subset_of(before.dom())) by {
        assert forall|p: Price| after.dom().contains(p) implies before.dom().contains(p) by {
            assert(after.contains_key(p));
            assert(before.contains_key(p));
        }
    }
    assert forall|p: Price| #![trigger before.contains_key(p)]
        before.contains_key(p) implies qty_where(before[p], class) == qty_where(
        orders_at(after, p),
        class,
    ) + filled_where(fills, p, class) by {
        assert(filled_where(fills, p, class) == filled_where(fills, p, class));
        assert(orders_at(before, p) == before[p]);
    }
    lemma_side_loses(before, after, fills, class);
    assert forall|i: int| 0 <= i < fills.len() implies {
        &&& (#[trigger] fills[i]).side_of_resting_order == side
        &&& fills[i].qty <= qty
    } by {
        lemma_one_of_the_fills(fills, i);
    }
}

/// One fill is no more than all of them.
proof fn lemma_one_of_the_fills(fills: Seq<Fill>, i: int)
    requires
        0 <= i < fills.len(),
    ensures
        fills[i].qty <= filled(fills),
    decreases fills.len(),
{
    lemma_filled_is_no_debt(fills.drop_last());
    if i < fills.len() - 1 {
        lemma_one_of_the_fills(fills.drop_last(), i);
    }
}

/// A sum of fills is not negative.
proof fn lemma_filled_is_no_debt(fills: Seq<Fill>)
    ensures
        filled(fills) >= 0,
    decreases fills.len(),
{
    if fills.len() > 0 {
        lemma_filled_is_no_debt(fills.drop_last());
    }
}

/// What is bought over events, one list behind the other.
proof fn lemma_net_add(a: Seq<MarketEvent>, b: Seq<MarketEvent>)
    ensures
        net_bought(a + b) == net_bought(a) + net_bought(b),
    decreases a.len(),
{
    if a.len() == 0 {
        assert(a + b =~= b);
    } else {
        assert((a + b).drop_first() =~= a.drop_first() + b);
        lemma_net_add(a.drop_first(), b);
    }
}

/// What is bought in one event.
proof fn lemma_net_one(event: MarketEvent)
    ensures
        net_bought(seq![event]) == match event {
            MarketEvent::Trade {
                resting_is_ours: true,
                side_of_resting_order: Side::Bid,
                qty,
                ..
            } => (qty as i64) as int,
            MarketEvent::Trade {
                resting_is_ours: true,
                side_of_resting_order: Side::Ask,
                qty,
                ..
            } => -((qty as i64) as int),
            _ => 0,
        },
{
    assert(seq![event].drop_first() =~= seq![]);
    assert(net_bought(seq![]) == 0);
}

/// What is bought in the trades that tell of fills.
proof fn lemma_net_of_fills(fills: Seq<Fill>, side: Side)
    requires
        forall|i: int|
            0 <= i < fills.len() ==> {
                &&& (#[trigger] fills[i]).side_of_resting_order == side
                &&& fills[i].qty <= i64::MAX
            },
    ensures
        net_bought(trade_events(fills)) == if side == Side::Bid {
            filled_of(fills, of_ours())
        } else {
            -filled_of(fills, of_ours())
        },
    decreases fills.len(),
{
    if fills.len() > 0 {
        let before = fills.drop_last();
        let last = fills.last();
        assert forall|i: int| 0 <= i < before.len() implies {
            &&& (#[trigger] before[i]).side_of_resting_order == side
            &&& before[i].qty <= i64::MAX
        } by {
            assert(before[i] == fills[i]);
        }
        lemma_net_of_fills(before, side);
        assert(fills[fills.len() - 1] == last);
        let event = trade_events(fills).last();
        assert(trade_events(fills) =~= trade_events(before) + seq![event]);
        lemma_net_add(trade_events(before), seq![event]);
        lemma_net_one(event);
    } else {
        assert(trade_events(fills) =~= seq![]);
    }
}

/// What we gain by a change of the book in which our orders only lose to trades:
/// what our bids have lost, less what our asks have lost.
pub open spec fn gained(before: BookView, after: BookView) -> int {
    (our_qty(before.bids) - our_qty(after.bids)) - (our_qty(before.asks) - our_qty(after.asks))
}

/// What we buy and sell in a match is what our orders lose in it.
proof fn lemma_taken_is_booked(book: BookView, side: Side, qty: nat, ts_nanos: u64)
    requires
        book.finite(),
        qty <= i64::MAX,
    ensures
        ({
            let taken = book.taken(side, qty, ts_nanos);
            net_bought(trade_events(taken.fills)) == gained(
                book,
                book.with_side(side, taken.levels),
            )
        }),
{
    let taken = book.taken(side, qty, ts_nanos);
    law_market_order_is_matched_fairly(book, side, qty, ts_nanos);
    lemma_fair_match_accounts(
        book.side(side),
        side,
        None,
        qty,
        ts_nanos,
        taken.fills,
        taken.levels,
        taken.left,
        of_ours(),
    );
    lemma_net_of_fills(taken.fills, side);
}

/// The strategy books what its orders lose: when somebody's market order is
/// matched, and the strategy gets the events, its holding rises by what its bids
/// have lost in the matching engine's book and falls by what its asks have lost.
pub proof fn law_strategy_books_what_its_orders_lose(
    state: ExchangeView,
    strategy: StrategyView,
    aggressor_side: Side,
    qty: Qty,
    ts_nanos: u64,
    seq_events: Seq<SeqEvent>,
)
    requires
        state.book.finite(),
        qty <= i64::MAX,
        events_of(seq_events) == state.hit(aggressor_side, qty, ts_nanos).events,
    ensures
        strategy.after_events(seq_events).inventory == strategy.inventory + gained(
            state.book,
            state.hit(aggressor_side, qty, ts_nanos).state.book,
        ),
{
    law_strategy_adds_up_its_events(strategy, seq_events);
    lemma_taken_is_booked(state.book, aggressor_side.flipped(), qty as nat, ts_nanos);
}

/// The strategy books what its orders lose to an order of somebody else that is
/// submitted.
pub proof fn law_strategy_books_what_limit_orders_take(
    book: BookView,
    strategy: StrategyView,
    order: Order,
    add_ts_nanos: u64,
    seq_events: Seq<SeqEvent>,
)
    requires
        book.finite(),
        !order.is_ours,
        order.qty <= i64::MAX,
        events_of(seq_events) == placed(book, order, add_ts_nanos).events,
    ensures
        strategy.after_events(seq_events).inventory == strategy.inventory + gained(
            book,
            placed(book, order, add_ts_nanos).book,
        ),
{
    law_strategy_adds_up_its_events(strategy, seq_events);
    lemma_placed_is_booked(book, order, add_ts_nanos);
}

/// What we buy and sell when somebody else's order is submitted is what our
/// orders lose.
proof fn lemma_placed_is_booked(book: BookView, order: Order, add_ts_nanos: u64)
    requires
        book.finite(),
        !order.is_ours,
        order.qty <= i64::MAX,
    ensures
        net_bought(placed(book, order, add_ts_nanos).events) == gained(
            book,
            placed(book, order, add_ts_nanos).book,
        ),
{
    let other = order.side.flipped();
    let submitted = book.submitted(order);
    let told = placed(book, order, add_ts_nanos);
    law_limit_order_is_matched_fairly(book, order);
    lemma_fair_match_accounts(
        book.side(other),
        other,
        Some(order.price),
        order.qty as nat,
        order.ts_nanos,
        submitted.fills,
        submitted.book.side(other),
        submitted.left,
        of_ours(),
    );
    lemma_net_of_fills(submitted.fills, other);
    let trades = trade_events(submitted.fills);
    if submitted.left > 0 {
        let add = told.events.last();
        assert(told.events =~= trades + seq![add]);
        lemma_net_add(trades, seq![add]);
        lemma_net_one(add);
        let own = submitted.book.side(order.side);
        assert(own[order.price].drop_last() =~= orders_at(book.side(order.side), order.price));
        lemma_rest_of_others(book.side(order.side), submitted.book.side(order.side), order.price);
    } else {
        assert(told.events =~= trades);
    }
}

/// An order of somebody else that comes to rest leaves what we have resting.
proof fn lemma_rest_of_others(before: Levels, after: Levels, p: Price)
    requires
        before.dom().finite(),
        after == before.insert(p, after[p]),
        after[p].len() > 0,
        after[p].drop_last() == orders_at(before, p),
        !after[p].last().is_ours,
    ensures
        our_qty(after) == our_qty(before),
{
    lemma_side_split(after, of_ours(), p);
    if before.contains_key(p) {
        lemma_side_split(before, of_ours(), p);
        assert(after.remove(p) =~= before.remove(p));
    } else {
        assert(after.remove(p) =~= before);
        assert(qty_where(Seq::<Order>::empty(), of_ours()) == 0);
    }
}

/// Events that spare our orders buy nothing.
proof fn lemma_spared_is_no_trade(events: Seq<MarketEvent>)
    requires
        spares_ours(events),
    ensures
        net_bought(events) == 0,
    decreases events.len(),
{
    if events.len() > 0 {
        let rest = events.drop_first();
        assert(events =~= seq![events[0]] + rest);
        assert forall|i: int| 0 <= i < rest.len() implies (#[trigger] rest[i] matches
            MarketEvent::Trade { resting_is_ours, .. } ==> !resting_is_ours) by {
            assert(rest[i] == events[i + 1]);
        }
        lemma_spared_is_no_trade(rest);
        lemma_net_add(seq![events[0]], rest);
        lemma_net_one(events[0]);
    }
}

/// The strategy's own commands change nothing that it holds.
pub proof fn law_own_commands_are_booked_as_nothing(
    state: ExchangeView,
    strategy: StrategyView,
    command: StrategyCommand,
    bid_stamps: Stamps,
    ask_stamps: Stamps,
    seq_events: Seq<SeqEvent>,
)
    requires
        state.sound(),
        state.allows(Action::Obey { command, bid_stamps, ask_stamps }),
        events_of(seq_events) == state.commanded(command, bid_stamps, ask_stamps).events,
    ensures
        strategy.after_events(seq_events).inventory == strategy.inventory,
{
    law_strategy_never_trades_with_itself(state, command, bid_stamps, ask_stamps);
    lemma_spared_is_no_trade(state.commanded(command, bid_stamps, ask_stamps).events);
    law_strategy_adds_up_its_events(strategy, seq_events);
}

/// The strategy books what its orders lose when the background quotes anew: what
/// its bids lose, less what its asks lose, once the background's old order is
/// taken back.
pub proof fn law_strategy_books_what_the_background_takes(
    state: ExchangeView,
    strategy: StrategyView,
    side: Side,
    lvl_idx: int,
    mid_ticks: Price,
    qty: Qty,
    stamps: Stamps,
    seq_events: Seq<SeqEvent>,
)
    requires
        state.book.finite(),
        qty <= i64::MAX,
        events_of(seq_events) == state.refreshed(side, lvl_idx, mid_ticks, qty, stamps).events,
    ensures
        ({
            let gone = withdrawn(state.book, side, state.slots(side)[lvl_idx], stamps.cancel);
            strategy.after_events(seq_events).inventory == strategy.inventory + gained(
                gone.book,
                state.refreshed(side, lvl_idx, mid_ticks, qty, stamps).state.book,
            )
        }),
{
    let slot = state.slots(side)[lvl_idx];
    let gone = withdrawn(state.book, side, slot, stamps.cancel);
    let order = Order {
        id: (state.id_gen + 1) as u64,
        side,
        price: background_price(side, lvl_idx, mid_ticks) as i64,
        qty,
        ts_nanos: stamps.submit,
        is_ours: false,
    };
    let put = placed(gone.book, order, stamps.add);
    law_strategy_adds_up_its_events(strategy, seq_events);
    assert(spares_ours(gone.events));
    lemma_spared_is_no_trade(gone.events);
    lemma_net_add(gone.events, put.events);
    lemma_placed_is_booked(gone.book, order, stamps.add);
}

} // verus!
