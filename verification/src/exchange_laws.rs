//! What holds of the matching engine in every state that it can reach, and of
//! what it tells about each step.
use crate::book_laws::{
    law_cancel_never_crosses, law_limit_order_never_crosses, law_market_order_never_crosses,
    lemma_some_position, lemma_sweep,
};
use crate::levels::{
    best_price, cancelled, in_rising_order, is_best, is_position, lemma_best_is,
    lemma_sweep_conserves, lesser, position, queue_at, queue_fills, queue_left, queue_rest, reduced,
    rested, sweep, within, Levels,
};
use crate::market_sim::{
    background_price, drawn, has_prices, placed, placed_slot, safe_ask_price, trade_events, withdrawn, ExchangeView,
    Slot, Stamps, Stepped,
};
use crate::orderbook::BookView;
use crate::replay_laws::{
    law_replay_keeps_books_alike, law_snapshot_tells_the_book, law_stamps_make_no_difference,
    law_trades_tell_the_match, lemma_replay_add, queue_stamped, side_stamped,
};
use crate::types::{row_of, MarketEvent, Order, OrderId, Price, Qty, Side, StrategyCommand};
use vstd::prelude::*;

verus! {

/// Something that the matching engine does.
pub enum Action {
    /// It replaces the background's order of a level.
    Refresh { side: Side, lvl_idx: int, mid_ticks: Price, qty: Qty, stamps: Stamps },
    /// It carries out a command of the strategy.
    Obey { command: StrategyCommand, bid_stamps: Stamps, ask_stamps: Stamps },
    /// It matches a market order.
    Match { aggressor_side: Side, qty: Qty, ts_nanos: u64 },
}

/// Whether a queue at `p` is tidy: its orders have something to give, they
/// have names that were given out and are all different, and none is ours but
/// the one that `slot` tells of.
pub open spec fn queue_tidy(queue: Seq<Order>, p: Price, id_gen: nat, slot: Slot) -> bool {
    &&& forall|i: int|
        0 <= i < queue.len() ==> {
            &&& (#[trigger] queue[i]).qty > 0
            &&& queue[i].id <= id_gen
            &&& queue[i].is_ours ==> slot == Some((queue[i].id, p))
        }
    &&& forall|i: int, j: int|
        0 <= i < j < queue.len() ==> (#[trigger] queue[i]).id != (#[trigger] queue[j]).id
}

/// Whether every queue of a side is tidy.
pub open spec fn side_tidy(levels: Levels, id_gen: nat, slot: Slot) -> bool {
    forall|p: Price| #[trigger]
        levels.contains_key(p) ==> queue_tidy(levels[p], p, id_gen, slot)
}

/// Whether a queue holds an order of a name.
pub open spec fn names(queue: Seq<Order>, id: OrderId) -> bool {
    exists|i: int| 0 <= i < queue.len() && (#[trigger] queue[i]).id == id
}

/// Whether an order of a name rests on a side at a price.
pub open spec fn rests_at(book: BookView, side: Side, p: Price, id: OrderId) -> bool {
    book.side(side).contains_key(p) && names(book.side(side)[p], id)
}

/// Whether a book is in order and uncrossed, no two of its orders have the same
/// name, and no order is ours but those that the two slots tell of.
pub open spec fn book_tidy(book: BookView, id_gen: nat, our_bid: Slot, our_ask: Slot) -> bool {
    &&& book.sound()
    &&& book.uncrossed()
    &&& side_tidy(book.bids, id_gen, our_bid)
    &&& side_tidy(book.asks, id_gen, our_ask)
    &&& forall|s: Side, p: Price, t: Side, q: Price, id: OrderId| #[trigger]
        rests_at(book, s, p, id) && #[trigger] rests_at(book, t, q, id) ==> s == t && p == q
}

/// Whether a book holds no order of ours.
pub open spec fn without_ours(book: BookView) -> bool {
    forall|side: Side, p: Price, i: int|
        book.side(side).contains_key(p) && 0 <= i < book.side(side)[p].len()
            ==> !(#[trigger] book.side(side)[p][i]).is_ours
}

impl ExchangeView {
    /// Whether the engine is in a state that it can reach: its book is in order
    /// and uncrossed, no two orders have the same name, and no order is ours but
    /// those that the engine knows of.
    pub open spec fn sound(self) -> bool {
        book_tidy(self.book, self.id_gen, self.our_bid, self.our_ask)
    }

    /// Whether the engine can do something: the level exists, the prices are
    /// prices, and there are names left to give out.
    pub open spec fn allows(self, action: Action) -> bool {
        match action {
            Action::Refresh { side, lvl_idx, mid_ticks, .. } => {
                &&& 0 <= lvl_idx < self.slots(side).len()
                &&& i64::MIN <= background_price(side, lvl_idx, mid_ticks) <= i64::MAX
                &&& self.id_gen < u64::MAX
            },
            Action::Obey { command, .. } => match command {
                StrategyCommand::Quote { bid_price, .. } => {
                    &&& bid_price < i64::MAX
                    &&& self.id_gen + 2 <= u64::MAX
                },
                StrategyCommand::CancelAll => true,
            },
            Action::Match { .. } => true,
        }
    }

    /// The engine once it has done something.
    pub open spec fn acted(self, action: Action) -> Stepped {
        match action {
            Action::Refresh { side, lvl_idx, mid_ticks, qty, stamps } => self.refreshed(
                side,
                lvl_idx,
                mid_ticks,
                qty,
                stamps,
            ),
            Action::Obey { command, bid_stamps, ask_stamps } => self.commanded(
                command,
                bid_stamps,
                ask_stamps,
            ),
            Action::Match { aggressor_side, qty, ts_nanos } => self.hit(
                aggressor_side,
                qty,
                ts_nanos,
            ),
        }
    }

    /// Whether the engine can do things one after another.
    pub open spec fn allows_all(self, actions: Seq<Action>) -> bool
        decreases actions.len(),
    {
        actions.len() > 0 ==> {
            &&& self.allows(actions[0])
            &&& self.acted(actions[0]).state.allows_all(actions.drop_first())
        }
    }

    /// The engine once it has done things one after another.
    pub open spec fn acted_all(self, actions: Seq<Action>) -> Stepped
        decreases actions.len(),
    {
        if actions.len() == 0 {
            Stepped { state: self, events: seq![] }
        } else {
            let first = self.acted(actions[0]);
            let further = first.state.acted_all(actions.drop_first());
            Stepped { state: further.state, events: first.events + further.events }
        }
    }
}

/// Taking from a tidy queue leaves it tidy.
proof fn lemma_rest_tidy(queue: Seq<Order>, p: Price, id_gen: nat, slot: Slot, qty: nat)
    requires
        queue_tidy(queue, p, id_gen, slot),
    ensures
        queue_tidy(queue_rest(queue, qty), p, id_gen, slot),
        forall|id: OrderId| #[trigger] names(queue_rest(queue, qty), id) ==> names(queue, id),
    decreases queue.len(),
{
    if queue.len() == 0 || qty == 0 {
        assert(queue_rest(queue, qty) == queue);
    } else if queue[0].qty <= qty {
        let rest = queue.drop_first();
        assert(queue_tidy(rest, p, id_gen, slot));
        lemma_rest_tidy(rest, p, id_gen, slot, (qty - queue[0].qty) as nat);
        assert forall|id: OrderId| #[trigger] names(queue_rest(queue, qty), id) implies names(
            queue,
            id,
        ) by {
            assert(names(rest, id));
            let i = choose|i: int| 0 <= i < rest.len() && (#[trigger] rest[i]).id == id;
            assert(queue[i + 1].id == id);
        }
    } else {
        let after = queue.update(0, reduced(queue[0], qty));
        assert(queue_rest(queue, qty) == after);
        assert forall|i: int| 0 <= i < after.len() implies (#[trigger] after[i]).id == queue[i].id
            && after[i].is_ours == queue[i].is_ours && after[i].qty > 0 by {}
    }
}

/// Taking an order out of a tidy queue leaves it tidy.
proof fn lemma_remove_tidy(queue: Seq<Order>, p: Price, id_gen: nat, slot: Slot, at: int)
    requires
        queue_tidy(queue, p, id_gen, slot),
        0 <= at < queue.len(),
    ensures
        queue_tidy(queue.remove(at), p, id_gen, slot),
        forall|id: OrderId| #[trigger] names(queue.remove(at), id) ==> names(queue, id),
{
    let after = queue.remove(at);
    assert forall|i: int| 0 <= i < after.len() implies (#[trigger] after[i]) == queue[if i < at {
        i
    } else {
        i + 1
    }] by {}
    assert forall|id: OrderId| #[trigger] names(after, id) implies names(queue, id) by {
        let i = choose|i: int| 0 <= i < after.len() && (#[trigger] after[i]).id == id;
        assert(queue[if i < at { i } else { i + 1 }].id == id);
    }
}

/// Whether one side names no order that another does not name at the same
/// price.
spec fn names_within(after: Levels, before: Levels) -> bool {
    forall|p: Price, id: OrderId|
        #![trigger names(after[p], id)]
        after.contains_key(p) && names(after[p], id) ==> before.contains_key(p) && names(
            before[p],
            id,
        )
}

/// A sweep leaves a side tidy.
proof fn lemma_sweep_tidy(
    levels: Levels,
    side: Side,
    limit: Option<Price>,
    qty: nat,
    ts_nanos: u64,
    id_gen: nat,
    slot: Slot,
)
    requires
        levels.dom().finite(),
        side_tidy(levels, id_gen, slot),
    ensures
        side_tidy(sweep(levels, side, limit, qty, ts_nanos).levels, id_gen, slot),
        names_within(sweep(levels, side, limit, qty, ts_nanos).levels, levels),
    decreases levels.len(),
{
    let swept = sweep(levels, side, limit, qty, ts_nanos);
    let best = best_price(levels, side);
    if !(qty == 0 || best is None || !within(side, best->0, limit)) {
        let p = best->0;
        let rest = queue_rest(levels[p], qty);
        assert(is_best(levels, side, p));
        lemma_rest_tidy(levels[p], p, id_gen, slot, qty);
        if rest.len() > 0 {
            assert forall|q: Price| #[trigger] swept.levels.contains_key(q) implies queue_tidy(
                swept.levels[q],
                q,
                id_gen,
                slot,
            ) by {
                assert(levels.contains_key(q));
            }
        } else {
            let left = queue_left(levels[p], qty);
            assert forall|q: Price| #[trigger] levels.remove(p).contains_key(q) implies queue_tidy(
                levels.remove(p)[q],
                q,
                id_gen,
                slot,
            ) by {
                assert(levels.contains_key(q));
            }
            lemma_sweep_tidy(levels.remove(p), side, limit, left, ts_nanos, id_gen, slot);
            assert forall|q: Price, id: OrderId|
                swept.levels.contains_key(q) && #[trigger] names(
                    swept.levels[q],
                    id,
                ) implies levels.contains_key(q) && names(levels[q], id) by {
                assert(levels.remove(p).contains_key(q));
            }
        }
    }
}

/// A cancel leaves a side tidy. If it is the order of ours that it takes back,
/// no order of ours is left.
proof fn lemma_cancelled_tidy(levels: Levels, p: Price, id: OrderId, id_gen: nat, slot: Slot)
    requires
        side_tidy(levels, id_gen, slot),
    ensures
        side_tidy(cancelled(levels, p, id), id_gen, slot),
        slot == Some((id, p)) ==> side_tidy(cancelled(levels, p, id), id_gen, None),
        names_within(cancelled(levels, p, id), levels),
{
    let after = cancelled(levels, p, id);
    let queue = queue_at(levels, p);
    if let Some(at) = position(queue, id) {
        assert(is_position(queue, id, at));
        assert(levels.contains_key(p));
        lemma_remove_tidy(levels[p], p, id_gen, slot, at);
    }
    assert forall|q: Price| #[trigger] after.contains_key(q) implies queue_tidy(
        after[q],
        q,
        id_gen,
        slot,
    ) by {
        assert(levels.contains_key(q));
    }
    if slot == Some((id, p)) {
        assert forall|q: Price| #[trigger] after.contains_key(q) implies queue_tidy(
            after[q],
            q,
            id_gen,
            None,
        ) by {
            assert(levels.contains_key(q));
            assert(queue_tidy(after[q], q, id_gen, slot));
            assert forall|i: int| 0 <= i < after[q].len() implies !(#[trigger] after[q][i]).is_ours by {
                if after[q][i].is_ours {
                    assert(q == p && after[q][i].id == id);
                    lemma_gone_after_cancel(levels, p, id, id_gen, slot, i);
                }
            }
        }
    }
}

/// No order of a name is left in a tidy queue once it was cancelled.
proof fn lemma_gone_after_cancel(
    levels: Levels,
    p: Price,
    id: OrderId,
    id_gen: nat,
    slot: Slot,
    i: int,
)
    requires
        side_tidy(levels, id_gen, slot),
        levels.contains_key(p),
        cancelled(levels, p, id).contains_key(p),
        0 <= i < cancelled(levels, p, id)[p].len(),
    ensures
        cancelled(levels, p, id)[p][i].id != id,
{
    let queue = levels[p];
    assert(queue_tidy(queue, p, id_gen, slot));
    match position(queue, id) {
        Some(at) => {
            assert(is_position(queue, id, at));
            let from = if i < at {
                i
            } else {
                i + 1
            };
            assert(queue.remove(at)[i] == queue[from]);
            assert(queue[from].id != queue[at].id);
        },
        None => {
            if queue[i].id == id {
                lemma_some_position(queue, id, i);
            }
        },
    }
}

/// A book whose one side is replaced by a tidy one that names no further order
/// is tidy.
proof fn lemma_side_replaced(
    book: BookView,
    id_gen: nat,
    our_bid: Slot,
    our_ask: Slot,
    side: Side,
    after: Levels,
    slot: Slot,
)
    requires
        book_tidy(book, id_gen, our_bid, our_ask),
        book.with_side(side, after).sound(),
        book.with_side(side, after).uncrossed(),
        side_tidy(after, id_gen, slot),
        names_within(after, book.side(side)),
    ensures
        book_tidy(
            book.with_side(side, after),
            id_gen,
            if side == Side::Bid {
                slot
            } else {
                our_bid
            },
            if side == Side::Ask {
                slot
            } else {
                our_ask
            },
        ),
{
    let next = book.with_side(side, after);
    assert forall|s: Side, p: Price, id: OrderId| #[trigger] rests_at(next, s, p, id) implies rests_at(
        book,
        s,
        p,
        id,
    ) by {
        if s == side {
            assert(names(after[p], id));
        }
    }
}

/// An order that was taken back leaves the book tidy, and with no order of ours
/// on its side if it was the one of ours.
proof fn lemma_withdrawn_tidy(
    book: BookView,
    id_gen: nat,
    our_bid: Slot,
    our_ask: Slot,
    side: Side,
    slot: Slot,
    ts_nanos: u64,
)
    requires
        book_tidy(book, id_gen, our_bid, our_ask),
    ensures
        ({
            let after = withdrawn(book, side, slot, ts_nanos).book;
            &&& book_tidy(after, id_gen, our_bid, our_ask)
            &&& side == Side::Bid && slot == our_bid ==> book_tidy(after, id_gen, None, our_ask)
            &&& side == Side::Ask && slot == our_ask ==> book_tidy(after, id_gen, our_bid, None)
        }),
{
    if let Some((id, p)) = slot {
        let levels = book.side(side);
        let ours = if side == Side::Bid {
            our_bid
        } else {
            our_ask
        };
        law_cancel_never_crosses(book, side, p, id);
        lemma_cancelled_tidy(levels, p, id, id_gen, ours);
        let after = cancelled(levels, p, id);
        lemma_side_replaced(book, id_gen, our_bid, our_ask, side, after, ours);
        if slot == ours {
            lemma_side_replaced(book, id_gen, our_bid, our_ask, side, after, None);
        }
    }
}

/// A market order leaves the book tidy.
proof fn lemma_taken_tidy(
    book: BookView,
    id_gen: nat,
    our_bid: Slot,
    our_ask: Slot,
    side: Side,
    qty: nat,
    ts_nanos: u64,
)
    requires
        book_tidy(book, id_gen, our_bid, our_ask),
    ensures
        book_tidy(
            book.with_side(side, book.taken(side, qty, ts_nanos).levels),
            id_gen,
            our_bid,
            our_ask,
        ),
{
    let ours = if side == Side::Bid {
        our_bid
    } else {
        our_ask
    };
    let after = book.taken(side, qty, ts_nanos).levels;
    law_market_order_never_crosses(book, side, qty, ts_nanos);
    lemma_sweep_tidy(book.side(side), side, None, qty, ts_nanos, id_gen, ours);
    lemma_side_replaced(book, id_gen, our_bid, our_ask, side, after, ours);
}

/// An order that comes to rest under a new name leaves its side tidy.
proof fn lemma_rested_tidy(levels: Levels, order: Order, id_gen: nat, slot: Slot)
    requires
        side_tidy(levels, id_gen, slot),
        order.qty > 0,
        order.id == id_gen + 1,
        order.is_ours ==> slot is None,
    ensures
        side_tidy(
            rested(levels, order.price, order),
            id_gen + 1,
            if order.is_ours {
                Some((order.id, order.price))
            } else {
                slot
            },
        ),
{
    let after = rested(levels, order.price, order);
    let now = if order.is_ours {
        Some((order.id, order.price))
    } else {
        slot
    };
    assert forall|p: Price| #[trigger] after.contains_key(p) implies queue_tidy(
        after[p],
        p,
        id_gen + 1,
        now,
    ) by {
        if levels.contains_key(p) {
            assert(queue_tidy(levels[p], p, id_gen, slot));
        }
    }
}

/// An order that was submitted under a new name leaves the book tidy. If it is
/// ours, it is the only one of ours on its side.
proof fn lemma_placed_tidy(
    book: BookView,
    id_gen: nat,
    our_bid: Slot,
    our_ask: Slot,
    order: Order,
    ts_nanos: u64,
)
    requires
        book_tidy(book, id_gen, our_bid, our_ask),
        order.id == id_gen + 1,
        order.is_ours && order.side == Side::Bid ==> our_bid is None,
        order.is_ours && order.side == Side::Ask ==> our_ask is None,
    ensures
        book_tidy(
            placed(book, order, ts_nanos).book,
            id_gen + 1,
            if order.is_ours && order.side == Side::Bid {
                placed_slot(book, order)
            } else {
                our_bid
            },
            if order.is_ours && order.side == Side::Ask {
                placed_slot(book, order)
            } else {
                our_ask
            },
        ),
{
    let other = order.side.flipped();
    let theirs = if other == Side::Bid {
        our_bid
    } else {
        our_ask
    };
    let ours = if other == Side::Bid {
        our_ask
    } else {
        our_bid
    };
    let qty = order.qty as nat;
    let limit = Some(order.price);
    let swept = sweep(book.side(other), other, limit, qty, order.ts_nanos);
    law_limit_order_never_crosses(book, order);
    lemma_sweep_tidy(book.side(other), other, limit, qty, order.ts_nanos, id_gen, theirs);
    lemma_sweep(book.side(other), other, limit, qty, order.ts_nanos);
    lemma_sweep_conserves(book.side(other), other, limit, qty, order.ts_nanos);
    let next = placed(book, order, ts_nanos).book;
    if swept.left > 0 {
        lemma_rested_tidy(
            book.side(order.side),
            Order { qty: swept.left as u64, ..order },
            id_gen,
            ours,
        );
    }
    assert forall|s: Side, p: Price, id: OrderId| #[trigger] rests_at(next, s, p, id) implies {
        ||| rests_at(book, s, p, id) && id <= id_gen
        ||| s == order.side && p == order.price && id == order.id
    } by {
        let i = choose|i: int|
            0 <= i < next.side(s)[p].len() && (#[trigger] next.side(s)[p][i]).id == id;
        if s == other {
            assert(names(swept.levels[p], id));
            assert(queue_tidy(swept.levels[p], p, id_gen, theirs));
        } else if book.side(s).contains_key(p) && i < book.side(s)[p].len() {
            assert(book.side(s)[p][i].id == id);
            assert(queue_tidy(book.side(s)[p], p, id_gen, ours));
        }
    }
    assert(side_tidy(next.side(other), id_gen + 1, theirs)) by {
        assert forall|p: Price| #[trigger] next.side(other).contains_key(p) implies queue_tidy(
            next.side(other)[p],
            p,
            id_gen + 1,
            theirs,
        ) by {
            assert(queue_tidy(swept.levels[p], p, id_gen, theirs));
        }
    }
    if swept.left == 0 {
        let now = if order.is_ours {
            placed_slot(book, order)
        } else {
            ours
        };
        assert forall|p: Price| #[trigger] next.side(order.side).contains_key(p) implies queue_tidy(
            next.side(order.side)[p],
            p,
            id_gen + 1,
            now,
        ) by {
            assert(queue_tidy(book.side(order.side)[p], p, id_gen, ours));
        }
    }
}

/// A matching engine that has done nothing yet is in a sound state.
pub proof fn law_fresh_engine_is_sound(background_levels: nat)
    ensures
        ExchangeView::fresh(background_levels).sound(),
{
}

/// The strategy's orders taken back leave the book tidy and without any order
/// of ours.
proof fn lemma_all_cancelled_tidy(state: ExchangeView, bid_ts_nanos: u64, ask_ts_nanos: u64)
    requires
        state.sound(),
    ensures
        state.all_cancelled(bid_ts_nanos, ask_ts_nanos).state.sound(),
{
    let bid_gone = withdrawn(state.book, Side::Bid, state.our_bid, bid_ts_nanos);
    lemma_withdrawn_tidy(
        state.book,
        state.id_gen,
        state.our_bid,
        state.our_ask,
        Side::Bid,
        state.our_bid,
        bid_ts_nanos,
    );
    lemma_withdrawn_tidy(
        bid_gone.book,
        state.id_gen,
        None,
        state.our_ask,
        Side::Ask,
        state.our_ask,
        ask_ts_nanos,
    );
}

/// An order of the strategy that is submitted where it has none leaves the
/// engine sound.
proof fn lemma_ours_placed_tidy(
    state: ExchangeView,
    side: Side,
    price: Price,
    qty: Qty,
    submit_ts_nanos: u64,
    add_ts_nanos: u64,
)
    requires
        state.sound(),
        state.ours(side) is None,
        state.id_gen < u64::MAX,
    ensures
        state.ours_placed(side, price, qty, submit_ts_nanos, add_ts_nanos).state.sound(),
{
    let order = Order {
        id: (state.id_gen + 1) as u64,
        side,
        price,
        qty,
        ts_nanos: submit_ts_nanos,
        is_ours: true,
    };
    lemma_placed_tidy(
        state.book,
        state.id_gen,
        state.our_bid,
        state.our_ask,
        order,
        add_ts_nanos,
    );
}

/// Whatever the engine does, it stays in a sound state. In particular its book
/// is never crossed.
pub proof fn law_action_keeps_engine_sound(state: ExchangeView, action: Action)
    requires
        state.sound(),
        state.allows(action),
    ensures
        state.acted(action).state.sound(),
        state.acted(action).state.book.uncrossed(),
{
    match action {
        Action::Refresh { side, lvl_idx, mid_ticks, qty, stamps } => {
            let slot = state.slots(side)[lvl_idx];
            let gone = withdrawn(state.book, side, slot, stamps.cancel);
            let order = Order {
                id: (state.id_gen + 1) as u64,
                side,
                price: background_price(side, lvl_idx, mid_ticks) as i64,
                qty,
                ts_nanos: stamps.submit,
                is_ours: false,
            };
            lemma_withdrawn_tidy(
                state.book,
                state.id_gen,
                state.our_bid,
                state.our_ask,
                side,
                slot,
                stamps.cancel,
            );
            lemma_placed_tidy(
                gone.book,
                state.id_gen,
                state.our_bid,
                state.our_ask,
                order,
                stamps.add,
            );
        },
        Action::Obey { command, bid_stamps, ask_stamps } => {
            lemma_all_cancelled_tidy(state, bid_stamps.cancel, ask_stamps.cancel);
            let gone = state.all_cancelled(bid_stamps.cancel, ask_stamps.cancel).state;
            if let StrategyCommand::Quote { bid_price, bid_qty, ask_price, ask_qty } = command {
                lemma_ours_placed_tidy(
                    gone,
                    Side::Bid,
                    bid_price,
                    bid_qty,
                    bid_stamps.submit,
                    bid_stamps.add,
                );
                let quoted = gone.ours_placed(
                    Side::Bid,
                    bid_price,
                    bid_qty,
                    bid_stamps.submit,
                    bid_stamps.add,
                ).state;
                lemma_ours_placed_tidy(
                    quoted,
                    Side::Ask,
                    safe_ask_price(bid_price, ask_price),
                    ask_qty,
                    ask_stamps.submit,
                    ask_stamps.add,
                );
            }
        },
        Action::Match { aggressor_side, qty, ts_nanos } => {
            lemma_taken_tidy(
                state.book,
                state.id_gen,
                state.our_bid,
                state.our_ask,
                aggressor_side.flipped(),
                qty as nat,
                ts_nanos,
            );
        },
    }
}

/// What the engine does to its background is a run of actions: the replacement
/// of one order after another.
pub open spec fn background_actions(
    n: nat,
    mid_ticks: Price,
    qty: Qty,
    draws: Seq<(bool, bool)>,
    stamps: Seq<(Stamps, Stamps)>,
) -> Seq<Action>
    decreases n,
{
    if n == 0 {
        seq![]
    } else {
        let i = n - 1;
        let bid = Action::Refresh {
            side: Side::Bid,
            lvl_idx: i,
            mid_ticks,
            qty,
            stamps: stamps[i].0,
        };
        let ask = Action::Refresh {
            side: Side::Ask,
            lvl_idx: i,
            mid_ticks,
            qty,
            stamps: stamps[i].1,
        };
        background_actions(i as nat, mid_ticks, qty, draws, stamps) + (if draws[i].0 {
            seq![bid]
        } else {
            seq![]
        }) + (if draws[i].1 {
            seq![ask]
        } else {
            seq![]
        })
    }
}

/// Runs of actions are done one after another.
pub proof fn lemma_acted_add(state: ExchangeView, a: Seq<Action>, b: Seq<Action>)
    ensures
        ({
            let first = state.acted_all(a);
            let second = first.state.acted_all(b);
            &&& state.acted_all(a + b) == (Stepped {
                state: second.state,
                events: first.events + second.events,
            })
            &&& state.allows_all(a + b) == (state.allows_all(a) && first.state.allows_all(b))
        }),
    decreases a.len(),
{
    if a.len() == 0 {
        assert(a + b =~= b);
        let second = state.acted_all(b);
        assert(seq![] + second.events =~= second.events);
    } else {
        assert((a + b).drop_first() =~= a.drop_first() + b);
        assert((a + b)[0] == a[0]);
        lemma_acted_add(state.acted(a[0]).state, a.drop_first(), b);
        let first = state.acted_all(a);
        let second = first.state.acted_all(b);
        assert(state.acted_all(a + b).events =~= first.events + second.events);
    }
}

/// A run of no action.
proof fn lemma_acted_never(state: ExchangeView)
    ensures
        state.acted_all(seq![]) == (Stepped { state, events: seq![] }),
        state.allows_all(seq![]),
{
}

/// A run of one action.
proof fn lemma_acted_once(state: ExchangeView, action: Action)
    ensures
        state.acted_all(seq![action]) == state.acted(action),
        state.allows_all(seq![action]) == state.allows(action),
{
    let next = state.acted(action);
    assert(seq![action].drop_first() =~= seq![]);
    lemma_acted_never(next.state);
    assert(next.events + seq![] =~= next.events);
    assert(state.acted_all(seq![action]) == (Stepped {
        state: next.state,
        events: next.events + seq![],
    }));
}

/// What the engine does to its background is one of the runs that the laws on
/// runs speak of.
pub proof fn law_background_is_a_run_of_actions(
    state: ExchangeView,
    n: nat,
    mid_ticks: Price,
    qty: Qty,
    draws: Seq<(bool, bool)>,
    stamps: Seq<(Stamps, Stamps)>,
)
    requires
        state.can_refresh(n, mid_ticks, draws),
    ensures
        ({
            let actions = background_actions(n, mid_ticks, qty, draws, stamps);
            let after = state.background_refreshed(n, mid_ticks, qty, draws, stamps);
            &&& state.allows_all(actions)
            &&& state.acted_all(actions) == after
            &&& after.state.id_gen == state.id_gen + drawn(draws, n)
            &&& after.state.bid_slots.len() == state.bid_slots.len()
            &&& after.state.ask_slots.len() == state.ask_slots.len()
        }),
    decreases n,
{
    if n > 0 {
        let i = n - 1;
        let earlier = background_actions(i as nat, mid_ticks, qty, draws, stamps);
        let before = state.background_refreshed(i as nat, mid_ticks, qty, draws, stamps);
        let bid = Action::Refresh {
            side: Side::Bid,
            lvl_idx: i,
            mid_ticks,
            qty,
            stamps: stamps[i].0,
        };
        let ask = Action::Refresh {
            side: Side::Ask,
            lvl_idx: i,
            mid_ticks,
            qty,
            stamps: stamps[i].1,
        };
        let bids = if draws[i].0 {
            seq![bid]
        } else {
            seq![]
        };
        let asks = if draws[i].1 {
            seq![ask]
        } else {
            seq![]
        };
        assert(has_prices(draws[i], i, mid_ticks));
        law_background_is_a_run_of_actions(state, i as nat, mid_ticks, qty, draws, stamps);
        lemma_acted_add(state, earlier, bids);
        lemma_acted_add(state, earlier + bids, asks);
        lemma_acted_never(before.state);
        lemma_acted_once(before.state, bid);
        let between = before.state.maybe_refreshed(
            draws[i].0,
            Side::Bid,
            i,
            mid_ticks,
            qty,
            stamps[i].0,
        );
        lemma_acted_never(between.state);
        lemma_acted_once(between.state, ask);
        assert(background_actions(n, mid_ticks, qty, draws, stamps) == earlier + bids + asks);
    } else {
        lemma_acted_never(state);
    }
}

/// Whatever the engine does one thing after another, it stays in a sound state.
proof fn lemma_actions_keep_engine_sound(state: ExchangeView, actions: Seq<Action>)
    requires
        state.sound(),
        state.allows_all(actions),
    ensures
        state.acted_all(actions).state.sound(),
    decreases actions.len(),
{
    if actions.len() > 0 {
        law_action_keeps_engine_sound(state, actions[0]);
        lemma_actions_keep_engine_sound(state.acted(actions[0]).state, actions.drop_first());
    }
}

/// The authoritative book is never crossed: however long the engine has run,
/// and whatever it was told to do, every bid lies below every ask.
pub proof fn law_engine_book_is_never_crossed(background_levels: nat, actions: Seq<Action>)
    requires
        ExchangeView::fresh(background_levels).allows_all(actions),
    ensures
        ExchangeView::fresh(background_levels).acted_all(actions).state.sound(),
        ExchangeView::fresh(background_levels).acted_all(actions).state.book.uncrossed(),
{
    law_fresh_engine_is_sound(background_levels);
    lemma_actions_keep_engine_sound(ExchangeView::fresh(background_levels), actions);
}

/// A book that is uncrossed has its best bid below its best ask.
pub proof fn law_uncrossed_books_have_a_spread(book: BookView)
    requires
        book.uncrossed(),
        best_price(book.bids, Side::Bid) is Some,
        best_price(book.asks, Side::Ask) is Some,
    ensures
        best_price(book.bids, Side::Bid)->0 < best_price(book.asks, Side::Ask)->0,
{
    assert(is_best(book.bids, Side::Bid, best_price(book.bids, Side::Bid)->0));
    assert(is_best(book.asks, Side::Ask, best_price(book.asks, Side::Ask)->0));
}

/// A book that is tidy without a slot holds no order of ours.
proof fn lemma_without_ours(book: BookView, id_gen: nat)
    requires
        book_tidy(book, id_gen, None, None),
    ensures
        without_ours(book),
{
    assert forall|side: Side, p: Price, i: int|
        book.side(side).contains_key(p) && 0 <= i < book.side(side)[p].len() implies !(
    #[trigger] book.side(side)[p][i]).is_ours by {
        assert(queue_tidy(book.side(side)[p], p, id_gen, None));
    }
}

/// An order that was cancelled is gone: its name rests nowhere any more.
pub proof fn law_cancelled_orders_are_gone(
    state: ExchangeView,
    side: Side,
    p: Price,
    id: OrderId,
    at_side: Side,
    at: Price,
)
    requires
        state.sound(),
        rests_at(state.book, side, p, id),
    ensures
        !rests_at(
            state.book.with_side(side, cancelled(state.book.side(side), p, id)),
            at_side,
            at,
            id,
        ),
{
    let levels = state.book.side(side);
    let after = state.book.with_side(side, cancelled(levels, p, id));
    if rests_at(after, at_side, at, id) {
        let i = choose|i: int|
            0 <= i < after.side(at_side)[at].len() && (#[trigger] after.side(at_side)[at][i]).id
                == id;
        lemma_cancelled_tidy(levels, p, id, state.id_gen, state.ours(side));
        if at_side == side {
            assert(names(cancelled(levels, p, id)[at], id));
        }
        assert(rests_at(state.book, at_side, at, id));
        lemma_gone_after_cancel(levels, p, id, state.id_gen, state.ours(side), i);
    }
}

/// Once the strategy has asked for its orders to be taken back, no order of
/// ours rests.
pub proof fn law_cancel_all_leaves_no_order_of_ours(
    state: ExchangeView,
    bid_stamps: Stamps,
    ask_stamps: Stamps,
)
    requires
        state.sound(),
    ensures
        without_ours(
            state.commanded(StrategyCommand::CancelAll, bid_stamps, ask_stamps).state.book,
        ),
{
    lemma_all_cancelled_tidy(state, bid_stamps.cancel, ask_stamps.cancel);
    lemma_without_ours(
        state.all_cancelled(bid_stamps.cancel, ask_stamps.cancel).state.book,
        state.id_gen,
    );
}

/// Whether no event tells of a trade against an order of ours.
pub open spec fn spares_ours(events: Seq<MarketEvent>) -> bool {
    forall|i: int|
        0 <= i < events.len() ==> (#[trigger] events[i] matches MarketEvent::Trade {
            resting_is_ours,
            ..
        } ==> !resting_is_ours)
}

/// The fills against a queue without orders of ours spare them.
proof fn lemma_queue_spares(queue: Seq<Order>, side: Side, p: Price, qty: nat, ts_nanos: u64)
    requires
        forall|i: int| 0 <= i < queue.len() ==> !(#[trigger] queue[i]).is_ours,
    ensures
        spares_ours(trade_events(queue_fills(queue, side, p, qty, ts_nanos))),
    decreases queue.len(),
{
    let fills = queue_fills(queue, side, p, qty, ts_nanos);
    if queue.len() > 0 && qty > 0 {
        let amount = lesser(queue[0].qty as nat, qty);
        let further = queue_fills(queue.drop_first(), side, p, (qty - amount) as nat, ts_nanos);
        lemma_queue_spares(queue.drop_first(), side, p, (qty - amount) as nat, ts_nanos);
        let events = trade_events(fills);
        assert forall|i: int| 0 <= i < events.len() implies (#[trigger] events[i] matches MarketEvent::Trade {
            resting_is_ours,
            ..
        } ==> !resting_is_ours) by {
            if i > 0 {
                assert(events[i] == trade_events(further)[i - 1]);
            }
        }
    }
}

/// The fills of a sweep that reaches no order of ours spare them.
proof fn lemma_sweep_spares(
    levels: Levels,
    side: Side,
    limit: Option<Price>,
    qty: nat,
    ts_nanos: u64,
)
    requires
        levels.dom().finite(),
        forall|p: Price, i: int|
            levels.contains_key(p) && within(side, p, limit) && 0 <= i < levels[p].len()
                ==> !(#[trigger] levels[p][i]).is_ours,
    ensures
        spares_ours(trade_events(sweep(levels, side, limit, qty, ts_nanos).fills)),
    decreases levels.len(),
{
    let swept = sweep(levels, side, limit, qty, ts_nanos);
    let best = best_price(levels, side);
    if !(qty == 0 || best is None || !within(side, best->0, limit)) {
        let p = best->0;
        let fills = queue_fills(levels[p], side, p, qty, ts_nanos);
        assert(is_best(levels, side, p));
        lemma_queue_spares(levels[p], side, p, qty, ts_nanos);
        if queue_rest(levels[p], qty).len() == 0 {
            let left = queue_left(levels[p], qty);
            let rest = levels.remove(p);
            assert forall|q: Price, i: int|
                rest.contains_key(q) && within(side, q, limit) && 0 <= i < rest[q].len() implies !(
            #[trigger] rest[q][i]).is_ours by {
                assert(levels.contains_key(q) && levels[q] == rest[q]);
                assert(!levels[q][i].is_ours);
            }
            lemma_sweep_spares(rest, side, limit, left, ts_nanos);
            let further = sweep(rest, side, limit, left, ts_nanos).fills;
            assert(trade_events(swept.fills) =~= trade_events(fills) + trade_events(further));
            lemma_spares_add(trade_events(fills), trade_events(further));
        }
    }
}

/// Two lists of events that spare our orders spare them one behind the other.
proof fn lemma_spares_add(a: Seq<MarketEvent>, b: Seq<MarketEvent>)
    requires
        spares_ours(a),
        spares_ours(b),
    ensures
        spares_ours(a + b),
{
    assert forall|i: int| 0 <= i < (a + b).len() implies (#[trigger] (a + b)[i] matches MarketEvent::Trade {
        resting_is_ours,
        ..
    } ==> !resting_is_ours) by {
        if i < a.len() {
            assert((a + b)[i] == a[i]);
        } else {
            assert((a + b)[i] == b[i - a.len()]);
        }
    }
}

/// The strategy never trades with itself: carrying out a command tells of no
/// trade against an order of ours.
pub proof fn law_strategy_never_trades_with_itself(
    state: ExchangeView,
    command: StrategyCommand,
    bid_stamps: Stamps,
    ask_stamps: Stamps,
)
    requires
        state.sound(),
        state.allows(Action::Obey { command, bid_stamps, ask_stamps }),
    ensures
        spares_ours(state.commanded(command, bid_stamps, ask_stamps).events),
{
    let gone = state.all_cancelled(bid_stamps.cancel, ask_stamps.cancel);
    lemma_all_cancelled_tidy(state, bid_stamps.cancel, ask_stamps.cancel);
    assert(spares_ours(gone.events));
    if let StrategyCommand::Quote { bid_price, bid_qty, ask_price, ask_qty } = command {
        let bid = gone.state.ours_placed(
            Side::Bid,
            bid_price,
            bid_qty,
            bid_stamps.submit,
            bid_stamps.add,
        );
        let safe_price = safe_ask_price(bid_price, ask_price);
        let ask = bid.state.ours_placed(
            Side::Ask,
            safe_price,
            ask_qty,
            ask_stamps.submit,
            ask_stamps.add,
        );
        lemma_without_ours(gone.state.book, gone.state.id_gen);
        let asks = gone.state.book.asks;
        assert forall|p: Price, i: int|
            asks.contains_key(p) && within(Side::Ask, p, Some(bid_price)) && 0 <= i
                < asks[p].len() implies !(#[trigger] asks[p][i]).is_ours by {
            assert(!gone.state.book.side(Side::Ask)[p][i].is_ours);
        }
        lemma_sweep_spares(asks, Side::Ask, Some(bid_price), bid_qty as nat, bid_stamps.submit);
        assert(spares_ours(bid.events));
        lemma_ours_placed_tidy(
            gone.state,
            Side::Bid,
            bid_price,
            bid_qty,
            bid_stamps.submit,
            bid_stamps.add,
        );
        let bids = bid.state.book.bids;
        assert forall|p: Price, i: int|
            bids.contains_key(p) && within(Side::Bid, p, Some(safe_price)) && 0 <= i
                < bids[p].len() implies !(#[trigger] bids[p][i]).is_ours by {
            assert(queue_tidy(bids[p], p, bid.state.id_gen, bid.state.our_bid));
        }
        lemma_sweep_spares(bids, Side::Bid, Some(safe_price), ask_qty as nat, ask_stamps.submit);
        assert(spares_ours(ask.events));
        lemma_spares_add(gone.events, bid.events);
        lemma_spares_add(gone.events + bid.events, ask.events);
    }
}

/// An order that is taken back is told of: replayed, the telling takes it out.
proof fn lemma_withdrawal_told(book: BookView, side: Side, slot: Slot, ts_nanos: u64)
    ensures
        book.replayed_all(withdrawn(book, side, slot, ts_nanos).events) == withdrawn(
            book,
            side,
            slot,
            ts_nanos,
        ).book,
{
    let told = withdrawn(book, side, slot, ts_nanos);
    if let Some((id, price)) = slot {
        if position(queue_at(book.side(side), price), id) is Some {
            assert(told.events.drop_first() =~= seq![]);
            assert(book.replayed_all(told.events) == book.replayed(
                told.events[0],
            ).replayed_all(seq![]));
        } else {
            assert(told.book =~= book);
        }
    }
}

/// An order that is submitted is told of: replayed, the telling makes its
/// trades and lets the rest of it rest.
proof fn lemma_placement_told(book: BookView, order: Order, add_ts_nanos: u64)
    requires
        book.sound(),
    ensures
        book.replayed_all(placed(book, order, add_ts_nanos).events).alike(
            placed(book, order, add_ts_nanos).book,
        ),
{
    let told = placed(book, order, add_ts_nanos);
    let submitted = book.submitted(order);
    let other = order.side.flipped();
    let swept = sweep(
        book.side(other),
        other,
        Some(order.price),
        order.qty as nat,
        order.ts_nanos,
    );
    let trades = trade_events(submitted.fills);
    law_trades_tell_the_match(
        book,
        other,
        Some(order.price),
        order.qty as nat,
        order.ts_nanos,
    );
    let matched = book.with_side(other, swept.levels);
    if swept.left > 0 {
        let left = Order { qty: swept.left as u64, ..order };
        let announced = Order { ts_nanos: add_ts_nanos, ..left };
        let add = MarketEvent::Add {
            order_id: order.id,
            side: order.side,
            price: order.price,
            qty: swept.left as u64,
            ts_nanos: add_ts_nanos,
            is_ours: order.is_ours,
        };
        assert(told.events == trades + seq![add]);
        lemma_replay_add(book, trades, seq![add]);
        assert(seq![add].drop_first() =~= seq![]);
        assert(matched.replayed_all(seq![add]) == matched.replayed(add).replayed_all(seq![]));
        assert(matched.replayed(add) == matched.resting(announced));
        let levels = matched.side(order.side);
        let p = order.price;
        assert(queue_stamped(queue_at(levels, p).push(left), 0) =~= queue_stamped(
            queue_at(levels, p).push(announced),
            0,
        ));
        assert(side_stamped(rested(levels, p, left), 0) =~= side_stamped(
            rested(levels, p, announced),
            0,
        ));
    } else {
        assert(told.events =~= trades);
    }
}

/// What was told of two steps, one after the other, replays both.
proof fn lemma_told_twice(
    before: BookView,
    a: Seq<MarketEvent>,
    between: BookView,
    b: Seq<MarketEvent>,
    after: BookView,
)
    requires
        before.replayed_all(a).alike(between),
        between.replayed_all(b).alike(after),
    ensures
        before.replayed_all(a + b).alike(after),
{
    lemma_replay_add(before, a, b);
    law_replay_keeps_books_alike(before.replayed_all(a), between, b);
}

/// The strategy's orders taken back are told of.
proof fn lemma_all_cancelled_told(state: ExchangeView, bid_ts_nanos: u64, ask_ts_nanos: u64)
    ensures
        state.book.replayed_all(state.all_cancelled(bid_ts_nanos, ask_ts_nanos).events).alike(
            state.all_cancelled(bid_ts_nanos, ask_ts_nanos).state.book,
        ),
{
    let bid_gone = withdrawn(state.book, Side::Bid, state.our_bid, bid_ts_nanos);
    let ask_gone = withdrawn(bid_gone.book, Side::Ask, state.our_ask, ask_ts_nanos);
    lemma_withdrawal_told(state.book, Side::Bid, state.our_bid, bid_ts_nanos);
    lemma_withdrawal_told(bid_gone.book, Side::Ask, state.our_ask, ask_ts_nanos);
    lemma_told_twice(
        state.book,
        bid_gone.events,
        bid_gone.book,
        ask_gone.events,
        ask_gone.book,
    );
}

/// An order of the strategy that is submitted is told of.
proof fn lemma_ours_placed_told(
    state: ExchangeView,
    side: Side,
    price: Price,
    qty: Qty,
    submit_ts_nanos: u64,
    add_ts_nanos: u64,
)
    requires
        state.book.sound(),
    ensures
        ({
            let next = state.ours_placed(side, price, qty, submit_ts_nanos, add_ts_nanos);
            state.book.replayed_all(next.events).alike(next.state.book)
        }),
{
    let order = Order {
        id: (state.id_gen + 1) as u64,
        side,
        price,
        qty,
        ts_nanos: submit_ts_nanos,
        is_ours: true,
    };
    lemma_placement_told(state.book, order, add_ts_nanos);
}

/// What the engine tells of an action is all of it.
proof fn lemma_action_told(state: ExchangeView, action: Action)
    requires
        state.sound(),
        state.allows(action),
    ensures
        state.book.replayed_all(state.acted(action).events).alike(state.acted(action).state.book),
{
    match action {
        Action::Refresh { side, lvl_idx, mid_ticks, qty, stamps } => {
            let slot = state.slots(side)[lvl_idx];
            let gone = withdrawn(state.book, side, slot, stamps.cancel);
            let order = Order {
                id: (state.id_gen + 1) as u64,
                side,
                price: background_price(side, lvl_idx, mid_ticks) as i64,
                qty,
                ts_nanos: stamps.submit,
                is_ours: false,
            };
            let put = placed(gone.book, order, stamps.add);
            lemma_withdrawal_told(state.book, side, slot, stamps.cancel);
            lemma_withdrawn_tidy(
                state.book,
                state.id_gen,
                state.our_bid,
                state.our_ask,
                side,
                slot,
                stamps.cancel,
            );
            lemma_placement_told(gone.book, order, stamps.add);
            lemma_told_twice(state.book, gone.events, gone.book, put.events, put.book);
        },
        Action::Obey { command, bid_stamps, ask_stamps } => {
            let gone = state.all_cancelled(bid_stamps.cancel, ask_stamps.cancel);
            lemma_all_cancelled_tidy(state, bid_stamps.cancel, ask_stamps.cancel);
            lemma_all_cancelled_told(state, bid_stamps.cancel, ask_stamps.cancel);
            if let StrategyCommand::Quote { bid_price, bid_qty, ask_price, ask_qty } = command {
                let safe_price = safe_ask_price(bid_price, ask_price);
                let bid = gone.state.ours_placed(
                    Side::Bid,
                    bid_price,
                    bid_qty,
                    bid_stamps.submit,
                    bid_stamps.add,
                );
                let ask = bid.state.ours_placed(
                    Side::Ask,
                    safe_price,
                    ask_qty,
                    ask_stamps.submit,
                    ask_stamps.add,
                );
                lemma_ours_placed_tidy(
                    gone.state,
                    Side::Bid,
                    bid_price,
                    bid_qty,
                    bid_stamps.submit,
                    bid_stamps.add,
                );
                lemma_ours_placed_told(
                    gone.state,
                    Side::Bid,
                    bid_price,
                    bid_qty,
                    bid_stamps.submit,
                    bid_stamps.add,
                );
                lemma_ours_placed_told(
                    bid.state,
                    Side::Ask,
                    safe_price,
                    ask_qty,
                    ask_stamps.submit,
                    ask_stamps.add,
                );
                lemma_told_twice(
                    state.book,
                    gone.events,
                    gone.state.book,
                    bid.events,
                    bid.state.book,
                );
                lemma_told_twice(
                    state.book,
                    gone.events + bid.events,
                    bid.state.book,
                    ask.events,
                    ask.state.book,
                );
            }
        },
        Action::Match { aggressor_side, qty, ts_nanos } => {
            law_trades_tell_the_match(
                state.book,
                aggressor_side.flipped(),
                None,
                qty as nat,
                ts_nanos,
            );
        },
    }
}

/// A replayed book follows the matching engine's: as long as it gets every
/// event, in order, it holds the same orders in the same places.
pub proof fn law_replayed_book_follows_the_engine(
    state: ExchangeView,
    shadow: BookView,
    actions: Seq<Action>,
)
    requires
        state.sound(),
        state.allows_all(actions),
        shadow.alike(state.book),
    ensures
        shadow.replayed_all(state.acted_all(actions).events).alike(
            state.acted_all(actions).state.book,
        ),
    decreases actions.len(),
{
    if actions.len() > 0 {
        let first = state.acted(actions[0]);
        let further = first.state.acted_all(actions.drop_first());
        let next = shadow.replayed_all(first.events);
        law_action_keeps_engine_sound(state, actions[0]);
        lemma_action_told(state, actions[0]);
        law_replay_keeps_books_alike(shadow, state.book, first.events);
        law_replayed_book_follows_the_engine(first.state, next, actions.drop_first());
        lemma_replay_add(shadow, first.events, further.events);
    }
}

/// A book that is rebuilt from a snapshot of the matching engine's follows it
/// from there on, whatever was lost before.
pub proof fn law_rebuilt_book_follows_the_engine(
    state: ExchangeView,
    ts_nanos: u64,
    actions: Seq<Action>,
)
    requires
        state.sound(),
        state.allows_all(actions),
    ensures
        BookView::rebuilt(
            in_rising_order(state.book.bids).map_values(|order: Order| row_of(order)),
            in_rising_order(state.book.asks).map_values(|order: Order| row_of(order)),
            ts_nanos,
        ).replayed_all(state.acted_all(actions).events).alike(
            state.acted_all(actions).state.book,
        ),
{
    law_snapshot_tells_the_book(state.book, ts_nanos);
    law_stamps_make_no_difference(state.book, ts_nanos);
    law_replayed_book_follows_the_engine(state, state.book.stamped(ts_nanos), actions);
}

/// Books that are alike have the same best prices.
pub proof fn law_alike_books_show_the_same_prices(a: BookView, b: BookView, side: Side)
    requires
        a.alike(b),
    ensures
        best_price(a.side(side), side) == best_price(b.side(side), side),
{
    let (ours, theirs) = (a.side(side), b.side(side));
    let stamped = side_stamped(ours, 0);
    assert(stamped == side_stamped(theirs, 0));
    assert(ours.dom() =~= stamped.dom());
    assert(theirs.dom() =~= stamped.dom());
    assert forall|p: Price|
        #![trigger ours.contains_key(p)]
        #![trigger theirs.contains_key(p)]
        ours.contains_key(p) <==> theirs.contains_key(p) by {
        assert(ours.dom().contains(p) <==> theirs.dom().contains(p));
    }
    if let Some(p) = best_price(ours, side) {
        assert(is_best(ours, side, p));
        lemma_best_is(theirs, side, p);
    }
    if let Some(p) = best_price(theirs, side) {
        assert(is_best(theirs, side, p));
        lemma_best_is(ours, side, p);
    }
}

} // verus!
