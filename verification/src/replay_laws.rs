//! What a replayed book owes to the feed and to snapshots: it holds what the
//! matching engine's own book holds, but for the clock readings.
use crate::book_laws::{belongs, lemma_best_exists, queue_sound, side_sound};
use crate::levels::{
    best_price, cancelled, in_priority, in_rising_order, is_best, is_position, lemma_best_is,
    lemma_position_is, lesser, position, queue_at, queue_fills, queue_left, queue_rest,
    queue_traded, reduced, rested, rested_all, sweep, traded, with_queue, within, Levels,
};
use crate::market_sim::{trade_event, trade_events};
use crate::orderbook::{orders_of, BookView};
use crate::types::{row_of, MarketEvent, Order, OrderId, Price, Side};
use vstd::prelude::*;

verus! {

/// An order as if it rested from `ts_nanos` on.
pub open spec fn stamped(order: Order, ts_nanos: u64) -> Order {
    Order { ts_nanos, ..order }
}

/// A queue as if all its orders rested from `ts_nanos` on.
pub open spec fn queue_stamped(queue: Seq<Order>, ts_nanos: u64) -> Seq<Order> {
    queue.map_values(|order: Order| stamped(order, ts_nanos))
}

/// A side as if all its orders rested from `ts_nanos` on.
pub open spec fn side_stamped(levels: Levels, ts_nanos: u64) -> Levels {
    levels.map_values(|queue: Seq<Order>| queue_stamped(queue, ts_nanos))
}

impl BookView {
    /// The book as if all its orders rested from `ts_nanos` on.
    pub open spec fn stamped(self, ts_nanos: u64) -> BookView {
        BookView {
            bids: side_stamped(self.bids, ts_nanos),
            asks: side_stamped(self.asks, ts_nanos),
        }
    }

    /// Whether two books hold the same orders in the same places, whenever
    /// they came to rest.
    pub open spec fn alike(self, other: BookView) -> bool {
        self.stamped(0) == other.stamped(0)
    }
}

/// Replaying is done event by event.
pub proof fn lemma_replay_add(book: BookView, a: Seq<MarketEvent>, b: Seq<MarketEvent>)
    ensures
        book.replayed_all(a + b) == book.replayed_all(a).replayed_all(b),
    decreases a.len(),
{
    if a.len() == 0 {
        assert(a + b =~= b);
    } else {
        assert((a + b).drop_first() =~= a.drop_first() + b);
        lemma_replay_add(book.replayed(a[0]), a.drop_first(), b);
    }
}

/// Where an order stands does not depend on the clock.
proof fn lemma_position_stamped(queue: Seq<Order>, id: OrderId, ts_nanos: u64)
    ensures
        position(queue_stamped(queue, ts_nanos), id) == position(queue, id),
{
    let other = queue_stamped(queue, ts_nanos);
    if exists|i: int| is_position(queue, id, i) {
        let i = choose|i: int| is_position(queue, id, i);
        assert(is_position(other, id, i));
        lemma_position_is(queue, id, i);
        lemma_position_is(other, id, i);
    }
    if exists|i: int| is_position(other, id, i) {
        let i = choose|i: int| is_position(other, id, i);
        assert forall|j: int| 0 <= j < i implies (#[trigger] queue[j]).id != id by {
            assert(other[j].id != id);
        }
        assert(is_position(queue, id, i));
        lemma_position_is(queue, id, i);
        lemma_position_is(other, id, i);
    }
}

/// Replaying an event does the same to two sides that differ in clock
/// readings alone.
proof fn lemma_sides_alike(levels: Levels, ts_nanos: u64)
    ensures
        forall|p: Price, order: Order| #[trigger]
            side_stamped(rested(levels, p, order), ts_nanos) == side_stamped(
                rested(side_stamped(levels, ts_nanos), p, order),
                ts_nanos,
            ),
        forall|p: Price, id: OrderId| #[trigger]
            side_stamped(cancelled(levels, p, id), ts_nanos) == side_stamped(
                cancelled(side_stamped(levels, ts_nanos), p, id),
                ts_nanos,
            ),
        forall|p: Price, id: OrderId, qty: nat| #[trigger]
            side_stamped(traded(levels, p, id, qty), ts_nanos) == side_stamped(
                traded(side_stamped(levels, ts_nanos), p, id, qty),
                ts_nanos,
            ),
{
    let other = side_stamped(levels, ts_nanos);
    lemma_stamped_twice(levels, ts_nanos);
    assert(side_stamped(other, ts_nanos) == other);
    assert forall|p: Price, order: Order| #[trigger]
        side_stamped(rested(levels, p, order), ts_nanos) == side_stamped(
            rested(other, p, order),
            ts_nanos,
        ) by {
        assert(queue_stamped(queue_at(levels, p).push(order), ts_nanos) =~= queue_stamped(
            queue_at(other, p).push(order),
            ts_nanos,
        ));
        assert(side_stamped(rested(levels, p, order), ts_nanos) =~= side_stamped(
            rested(other, p, order),
            ts_nanos,
        ));
    }
    assert forall|p: Price, id: OrderId| #[trigger]
        side_stamped(cancelled(levels, p, id), ts_nanos) == side_stamped(
            cancelled(other, p, id),
            ts_nanos,
        ) by {
        lemma_position_stamped(queue_at(levels, p), id, ts_nanos);
        assert(queue_stamped(queue_at(levels, p), ts_nanos) =~= queue_at(other, p));
        if let Some(i) = position(queue_at(levels, p), id) {
            assert(queue_stamped(levels[p].remove(i), ts_nanos) =~= queue_stamped(
                other[p].remove(i),
                ts_nanos,
            ));
        }
        assert(side_stamped(cancelled(levels, p, id), ts_nanos) =~= side_stamped(
            cancelled(other, p, id),
            ts_nanos,
        ));
    }
    assert forall|p: Price, id: OrderId, qty: nat| #[trigger]
        side_stamped(traded(levels, p, id, qty), ts_nanos) == side_stamped(
            traded(other, p, id, qty),
            ts_nanos,
        ) by {
        if levels.contains_key(p) {
            lemma_position_stamped(levels[p], id, ts_nanos);
            assert(queue_stamped(queue_traded(levels[p], id, qty), ts_nanos) =~= queue_stamped(
                queue_traded(other[p], id, qty),
                ts_nanos,
            ));
        }
        assert(side_stamped(traded(levels, p, id, qty), ts_nanos) =~= side_stamped(
            traded(other, p, id, qty),
            ts_nanos,
        ));
    }
}

/// To stamp a side twice is to stamp it once.
proof fn lemma_stamped_twice(levels: Levels, ts_nanos: u64)
    ensures
        side_stamped(side_stamped(levels, ts_nanos), ts_nanos) == side_stamped(levels, ts_nanos),
{
    assert forall|q: Price| #[trigger] levels.contains_key(q) implies queue_stamped(
        queue_stamped(levels[q], ts_nanos),
        ts_nanos,
    ) == queue_stamped(levels[q], ts_nanos) by {
        assert(queue_stamped(queue_stamped(levels[q], ts_nanos), ts_nanos) =~= queue_stamped(
            levels[q],
            ts_nanos,
        ));
    }
    assert(side_stamped(side_stamped(levels, ts_nanos), ts_nanos) =~= side_stamped(
        levels,
        ts_nanos,
    ));
}

/// Replaying the same event into two books that are alike leaves them alike.
proof fn lemma_replay_one_alike(a: BookView, b: BookView, event: MarketEvent)
    requires
        a.alike(b),
    ensures
        a.replayed(event).alike(b.replayed(event)),
{
    lemma_sides_alike(a.bids, 0);
    lemma_sides_alike(a.asks, 0);
    lemma_sides_alike(b.bids, 0);
    lemma_sides_alike(b.asks, 0);
    match event {
        MarketEvent::Add { order_id, side, price, qty, ts_nanos, is_ours } => {
            let order = Order { id: order_id, side, price, qty, ts_nanos, is_ours };
            assert(side_stamped(rested(a.side(side), price, order), 0) == side_stamped(
                rested(b.side(side), price, order),
                0,
            ));
        },
        MarketEvent::Cancel { order_id, side, price, .. } => {
            assert(side_stamped(cancelled(a.side(side), price, order_id), 0) == side_stamped(
                cancelled(b.side(side), price, order_id),
                0,
            ));
        },
        MarketEvent::Trade { resting_order_id, side_of_resting_order, price, qty, .. } => {
            let side = side_of_resting_order;
            assert(side_stamped(traded(a.side(side), price, resting_order_id, qty as nat), 0)
                == side_stamped(traded(b.side(side), price, resting_order_id, qty as nat), 0));
        },
    }
}

/// Two books that are alike stay alike as long as the same events are replayed
/// into both.
pub proof fn law_replay_keeps_books_alike(a: BookView, b: BookView, events: Seq<MarketEvent>)
    requires
        a.alike(b),
    ensures
        a.replayed_all(events).alike(b.replayed_all(events)),
    decreases events.len(),
{
    if events.len() > 0 {
        lemma_replay_one_alike(a, b, events[0]);
        law_replay_keeps_books_alike(
            a.replayed(events[0]),
            b.replayed(events[0]),
            events.drop_first(),
        );
    }
}

/// The trades of one level, replayed, take from it what was taken.
proof fn lemma_replay_queue(book: BookView, side: Side, p: Price, qty: nat, ts_nanos: u64)
    requires
        book.side(side).contains_key(p),
        book.side(side)[p].len() > 0,
    ensures
        ({
            let queue = book.side(side)[p];
            book.replayed_all(trade_events(queue_fills(queue, side, p, qty, ts_nanos)))
                == book.with_side(side, with_queue(book.side(side), p, queue_rest(queue, qty)))
        }),
    decreases book.side(side)[p].len(),
{
    let levels = book.side(side);
    let queue = levels[p];
    let fills = queue_fills(queue, side, p, qty, ts_nanos);
    let after = book.with_side(side, with_queue(levels, p, queue_rest(queue, qty)));
    if qty == 0 {
        assert(trade_events(fills) =~= seq![]);
        assert(with_queue(levels, p, queue) =~= levels);
        assert(after =~= book);
    } else {
        let amount = lesser(queue[0].qty as nat, qty);
        let event = trade_event(fills[0]);
        let further = queue_fills(queue.drop_first(), side, p, (qty - amount) as nat, ts_nanos);
        assert(trade_events(fills).drop_first() =~= trade_events(further));
        assert(trade_events(fills)[0] == event);
        assert(is_position(queue, queue[0].id, 0));
        lemma_position_is(queue, queue[0].id, 0);
        let next = book.replayed(event);
        assert(fills[0].qty == amount);
        assert(book.replayed_all(trade_events(fills)) == next.replayed_all(trade_events(further)));
        reveal_with_fuel(queue_rest, 2);
        if queue[0].qty <= qty {
            assert(queue_traded(queue, queue[0].id, amount) == queue.remove(0));
            assert(queue.remove(0) =~= queue.drop_first());
            if queue.len() == 1 {
                assert(trade_events(further) =~= seq![]);
                assert(next =~= after);
            } else {
                assert(next.side(side)[p] == queue.drop_first());
                lemma_replay_queue(next, side, p, (qty - amount) as nat, ts_nanos);
                assert(next.with_side(
                    side,
                    with_queue(next.side(side), p, queue_rest(queue, qty)),
                ) =~= after);
            }
        } else {
            assert(trade_events(further) =~= seq![]);
            assert(queue_traded(queue, queue[0].id, amount) == queue.update(
                0,
                reduced(queue[0], qty),
            ));
            assert(next =~= after);
        }
    }
}

/// The fills of a match tell all of it: replayed as trades, they take from a
/// book exactly what the match took. No level within the limit may be empty: such
/// a level goes without a trade to tell of it.
pub proof fn law_trades_tell_the_match(
    book: BookView,
    side: Side,
    limit: Option<Price>,
    qty: nat,
    ts_nanos: u64,
)
    requires
        book.side(side).dom().finite(),
        forall|p: Price| #[trigger]
            book.side(side).contains_key(p) && within(side, p, limit) ==> book.side(side)[p].len()
                > 0,
    ensures
        ({
            let swept = sweep(book.side(side), side, limit, qty, ts_nanos);
            book.replayed_all(trade_events(swept.fills)) == book.with_side(side, swept.levels)
        }),
    decreases book.side(side).len(),
{
    let levels = book.side(side);
    let swept = sweep(levels, side, limit, qty, ts_nanos);
    let best = best_price(levels, side);
    if qty == 0 || best is None || !within(side, best->0, limit) {
        assert(trade_events(swept.fills) =~= seq![]);
        assert(book.with_side(side, swept.levels) =~= book);
    } else {
        let p = best->0;
        let queue = levels[p];
        let fills = queue_fills(queue, side, p, qty, ts_nanos);
        let next = book.with_side(side, with_queue(levels, p, queue_rest(queue, qty)));
        assert(is_best(levels, side, p));
        lemma_replay_queue(book, side, p, qty, ts_nanos);
        if queue_rest(queue, qty).len() == 0 {
            let left = queue_left(queue, qty);
            let further = sweep(levels.remove(p), side, limit, left, ts_nanos);
            assert forall|q: Price| #[trigger]
                next.side(side).contains_key(q) && within(
                    side,
                    q,
                    limit,
                ) implies next.side(side)[q].len() > 0 by {
                assert(levels.contains_key(q));
            }
            law_trades_tell_the_match(next, side, limit, left, ts_nanos);
            lemma_replay_add(book, trade_events(fills), trade_events(further.fills));
            assert(trade_events(swept.fills) =~= trade_events(fills) + trade_events(further.fills));
            assert(next.with_side(side, further.levels) =~= book.with_side(side, swept.levels));
        }
    }
}

/// Stamping changes no order's place in the walk.
proof fn lemma_in_priority_stamped(levels: Levels, side: Side, ts_nanos: u64)
    requires
        levels.dom().finite(),
    ensures
        in_priority(side_stamped(levels, ts_nanos), side) == queue_stamped(
            in_priority(levels, side),
            ts_nanos,
        ),
    decreases levels.len(),
{
    let other = side_stamped(levels, ts_nanos);
    assert(other.dom() =~= levels.dom());
    match best_price(levels, side) {
        Some(p) => {
            assert(is_best(levels, side, p));
            assert(is_best(other, side, p));
            lemma_best_is(other, side, p);
            lemma_in_priority_stamped(levels.remove(p), side, ts_nanos);
            assert(other.remove(p) =~= side_stamped(levels.remove(p), ts_nanos));
            assert(in_priority(other, side) =~= queue_stamped(in_priority(levels, side), ts_nanos));
        },
        None => {
            if let Some(p) = best_price(other, side) {
                assert(is_best(other, side, p));
                assert(is_best(levels, side, p));
            }
            assert(in_priority(other, side) =~= queue_stamped(in_priority(levels, side), ts_nanos));
        },
    }
}

/// Orders come to rest one after another.
proof fn lemma_rested_all_add(levels: Levels, a: Seq<Order>, b: Seq<Order>)
    ensures
        rested_all(levels, a + b) == rested_all(rested_all(levels, a), b),
    decreases b.len(),
{
    if b.len() == 0 {
        assert(a + b =~= a);
    } else {
        assert((a + b).drop_last() =~= a + b.drop_last());
        lemma_rested_all_add(levels, a, b.drop_last());
    }
}

/// Orders that come to rest at a price where none did make up its queue.
proof fn lemma_rested_queue(levels: Levels, queue: Seq<Order>, side: Side, p: Price)
    requires
        queue_sound(queue, side, p),
        !levels.contains_key(p),
    ensures
        rested_all(levels, queue) == levels.insert(p, queue),
    decreases queue.len(),
{
    let before = queue.drop_last();
    let last = queue.last();
    assert(belongs(queue[queue.len() - 1], side, p));
    assert(queue =~= before.push(last));
    if before.len() == 0 {
        assert(rested_all(levels, before) == levels);
        assert(queue_at(levels, p).push(last) =~= queue);
    } else {
        assert(queue_sound(before, side, p)) by {
            assert forall|i: int| 0 <= i < before.len() implies belongs(
                #[trigger] before[i],
                side,
                p,
            ) by {
                assert(before[i] == queue[i]);
            }
        }
        lemma_rested_queue(levels, before, side, p);
        assert(levels.insert(p, before).insert(p, queue) =~= levels.insert(p, queue));
    }
}

/// A side is what its orders make up when they come to rest in their order.
proof fn lemma_rested_side(base: Levels, levels: Levels, side: Side, walk: Side)
    requires
        side_sound(levels, side),
        forall|p: Price| #[trigger] levels.contains_key(p) ==> !base.contains_key(p),
    ensures
        rested_all(base, in_priority(levels, walk)) == base.union_prefer_right(levels),
    decreases levels.len(),
{
    match best_price(levels, walk) {
        Some(p) => {
            assert(is_best(levels, walk, p));
            let rest = levels.remove(p);
            let next = base.insert(p, levels[p]);
            lemma_rested_all_add(base, levels[p], in_priority(rest, walk));
            lemma_rested_queue(base, levels[p], side, p);
            assert forall|q: Price| #[trigger] rest.contains_key(q) implies queue_sound(
                rest[q],
                side,
                q,
            ) && !next.contains_key(q) by {
                assert(levels.contains_key(q));
            }
            lemma_rested_side(next, rest, side, walk);
            assert(next.union_prefer_right(rest) =~= base.union_prefer_right(levels));
        },
        None => {
            assert forall|p: Price| !#[trigger] levels.contains_key(p) by {
                if levels.contains_key(p) {
                    lemma_best_exists(levels, walk, p);
                }
            }
            assert(base.union_prefer_right(levels) =~= base);
        },
    }
}

/// The rows of a side stand for the side, as it rests from `ts_nanos` on.
proof fn lemma_side_rebuilt(levels: Levels, side: Side, ts_nanos: u64)
    requires
        side_sound(levels, side),
    ensures
        rested_all(
            Map::empty(),
            orders_of(
                in_rising_order(levels).map_values(|order: Order| row_of(order)),
                side,
                ts_nanos,
            ),
        ) == side_stamped(levels, ts_nanos),
{
    let other = side_stamped(levels, ts_nanos);
    let orders = in_rising_order(levels);
    let rows = orders.map_values(|order: Order| row_of(order));
    assert(other.dom() =~= levels.dom());
    lemma_in_priority_stamped(levels, Side::Ask, ts_nanos);
    assert forall|i: int| 0 <= i < orders.len() implies (#[trigger] orders[i]).side == side by {
        lemma_priority_belongs(levels, side, Side::Ask, i);
    }
    assert(orders_of(rows, side, ts_nanos) =~= queue_stamped(orders, ts_nanos));
    assert(side_sound(other, side)) by {
        assert forall|p: Price| #[trigger] other.contains_key(p) implies queue_sound(
            other[p],
            side,
            p,
        ) by {
            assert(levels.contains_key(p));
            assert forall|i: int| 0 <= i < other[p].len() implies belongs(
                #[trigger] other[p][i],
                side,
                p,
            ) by {
                assert(belongs(levels[p][i], side, p));
            }
        }
    }
    lemma_rested_side(Map::empty(), other, side, Side::Ask);
    assert(Map::<Price, Seq<Order>>::empty().union_prefer_right(other) =~= other);
}

/// The orders of a side that is in order belong to it.
proof fn lemma_priority_belongs(levels: Levels, side: Side, walk: Side, i: int)
    requires
        side_sound(levels, side),
        0 <= i < in_priority(levels, walk).len(),
    ensures
        in_priority(levels, walk)[i].side == side,
    decreases levels.len(),
{
    let p = best_price(levels, walk)->0;
    let rest = levels.remove(p);
    assert(is_best(levels, walk, p));
    assert(queue_sound(levels[p], side, p));
    if i < levels[p].len() {
        assert(belongs(levels[p][i], side, p));
    } else {
        assert forall|q: Price| #[trigger] rest.contains_key(q) implies queue_sound(
            rest[q],
            side,
            q,
        ) by {
            assert(levels.contains_key(q));
        }
        lemma_priority_belongs(rest, side, walk, i - levels[p].len());
    }
}

/// A snapshot tells all of a book: what is rebuilt from it holds the same
/// orders in the same places, which rest from the moment of the rebuilding on.
pub proof fn law_snapshot_tells_the_book(book: BookView, ts_nanos: u64)
    requires
        book.sound(),
    ensures
        BookView::rebuilt(
            in_rising_order(book.bids).map_values(|order: Order| row_of(order)),
            in_rising_order(book.asks).map_values(|order: Order| row_of(order)),
            ts_nanos,
        ) == book.stamped(ts_nanos),
{
    lemma_side_rebuilt(book.bids, Side::Bid, ts_nanos);
    lemma_side_rebuilt(book.asks, Side::Ask, ts_nanos);
}

/// A book as if its orders rested from some other moment on is like it.
pub proof fn law_stamps_make_no_difference(book: BookView, ts_nanos: u64)
    ensures
        book.stamped(ts_nanos).alike(book),
{
    assert forall|levels: Levels| #[trigger]
        side_stamped(side_stamped(levels, ts_nanos), 0) == side_stamped(levels, 0) by {
        assert forall|p: Price| #[trigger] levels.contains_key(p) implies queue_stamped(
            queue_stamped(levels[p], ts_nanos),
            0,
        ) == queue_stamped(levels[p], 0) by {
            assert(queue_stamped(queue_stamped(levels[p], ts_nanos), 0) =~= queue_stamped(
                levels[p],
                0,
            ));
        }
        assert(side_stamped(side_stamped(levels, ts_nanos), 0) =~= side_stamped(levels, 0));
    }
}

} // verus!
