//! What each change of a book does to the queues in it, and what each question
//! about a book answers, place by place.
use crate::book_laws::{lemma_best_exists, lemma_some_position};
use crate::fill_laws::{ahead, orders_at, qty_where};
use crate::levels::{
    best_price, cancelled, depth, in_rising_order, is_best, is_position, lemma_position_is,
    position, price_order, queue_at, rested_all, total, traded, Levels,
};
use crate::orderbook::{in_lots, orders_of, BookView, OrderBook};
use crate::types::{row_of, MarketEvent, Order, OrderId, Price, Qty, ResyncRow, Side};
use vstd::prelude::*;

verus! {

/// Whether the oldest order named `id` at a price stands at `at`.
pub open spec fn stands_at(levels: Levels, p: Price, id: OrderId, at: int) -> bool {
    &&& levels.contains_key(p)
    &&& 0 <= at < levels[p].len()
    &&& levels[p][at].id == id
    &&& forall|i: int| 0 <= i < at ==> (#[trigger] levels[p][i]).id != id
}

/// Whether no order of a name stands at a price.
pub open spec fn stands_nowhere(levels: Levels, p: Price, id: OrderId) -> bool {
    levels.contains_key(p) ==> forall|i: int|
        0 <= i < levels[p].len() ==> (#[trigger] levels[p][i]).id != id
}

/// Whether two sides are the same at every price but one.
pub open spec fn same_elsewhere(a: Levels, b: Levels, p: Price) -> bool {
    forall|q: Price|
        #![trigger a.contains_key(q)]
        #![trigger b.contains_key(q)]
        q != p ==> a.contains_key(q) == b.contains_key(q) && (a.contains_key(q) ==> a[q] == b[q])
}

/// Whether a queue is another one without the order at a place: those ahead of
/// it keep their places, and those behind it move up by one.
pub open spec fn closes_up(after: Seq<Order>, before: Seq<Order>, at: int) -> bool {
    &&& after.len() == before.len() - 1
    &&& forall|i: int| 0 <= i < at ==> #[trigger] after[i] == before[i]
    &&& forall|i: int| at <= i < after.len() ==> #[trigger] after[i] == before[i + 1]
}

/// A search for an order finds the oldest one of the name, and finds none only
/// where there is none.
pub proof fn law_search_finds_the_oldest(levels: Levels, p: Price, id: OrderId)
    ensures
        match position(queue_at(levels, p), id) {
            Some(at) => stands_at(levels, p, id, at),
            None => stands_nowhere(levels, p, id),
        },
{
    let queue = queue_at(levels, p);
    match position(queue, id) {
        Some(at) => {
            assert(is_position(queue, id, at));
        },
        None => {
            if levels.contains_key(p) {
                assert forall|i: int| 0 <= i < levels[p].len() implies (
                #[trigger] levels[p][i]).id != id by {
                    if levels[p][i].id == id {
                        lemma_some_position(queue, id, i);
                    }
                }
            }
        },
    }
}

/// A cancel takes out the order that it names and closes the gap: every other
/// order of the level is still there and keeps its place among the others. A
/// level that has lost its last order is gone. No other price is touched.
pub proof fn law_cancel_closes_the_gap(levels: Levels, p: Price, id: OrderId, at: int)
    requires
        stands_at(levels, p, id, at),
    ensures
        same_elsewhere(cancelled(levels, p, id), levels, p),
        levels[p].len() == 1 ==> !cancelled(levels, p, id).contains_key(p),
        levels[p].len() > 1 ==> cancelled(levels, p, id).contains_key(p) && closes_up(
            cancelled(levels, p, id)[p],
            levels[p],
            at,
        ),
{
    assert(is_position(levels[p], id, at));
    lemma_position_is(levels[p], id, at);
}

/// A cancel keeps time priority: of any two other orders of the level, the one
/// that was ahead is still ahead.
pub proof fn law_cancel_keeps_time_priority(
    levels: Levels,
    p: Price,
    id: OrderId,
    at: int,
    i: int,
    j: int,
)
    requires
        stands_at(levels, p, id, at),
        0 <= i < j < levels[p].len(),
        i != at,
        j != at,
    ensures
        cancelled(levels, p, id).contains_key(p),
        exists|a: int, b: int|
            0 <= a < b < cancelled(levels, p, id)[p].len() && #[trigger] cancelled(
                levels,
                p,
                id,
            )[p][a] == levels[p][i] && #[trigger] cancelled(levels, p, id)[p][b] == levels[p][j],
{
    law_cancel_closes_the_gap(levels, p, id, at);
    let after = cancelled(levels, p, id)[p];
    let a = if i < at {
        i
    } else {
        i - 1
    };
    let b = if j < at {
        j
    } else {
        j - 1
    };
    assert(after[a] == levels[p][i]);
    assert(after[b] == levels[p][j]);
}

/// A cancel of an order that does not stand there changes nothing.
pub proof fn law_cancel_of_nothing_changes_nothing(levels: Levels, p: Price, id: OrderId)
    requires
        stands_nowhere(levels, p, id),
    ensures
        cancelled(levels, p, id) == levels,
{
    law_search_finds_the_oldest(levels, p, id);
}

/// A reported trade takes its quantity from the order that it names, and the
/// order out where that is all it had. Every other order is as it was and keeps
/// its place among the others. No other price is touched.
pub proof fn law_trade_takes_from_one_order(
    levels: Levels,
    p: Price,
    id: OrderId,
    qty: nat,
    at: int,
)
    requires
        stands_at(levels, p, id, at),
    ensures
        ({
            let after = traded(levels, p, id, qty);
            let order = levels[p][at];
            &&& same_elsewhere(after, levels, p)
            &&& qty >= order.qty && levels[p].len() == 1 ==> !after.contains_key(p)
            &&& qty >= order.qty && levels[p].len() > 1 ==> after.contains_key(p) && closes_up(
                after[p],
                levels[p],
                at,
            )
            &&& qty < order.qty ==> {
                &&& after.contains_key(p)
                &&& after[p].len() == levels[p].len()
                &&& after[p][at] == (Order { qty: (order.qty - qty) as u64, ..order })
                &&& forall|i: int|
                    0 <= i < levels[p].len() && i != at ==> #[trigger] after[p][i] == levels[p][i]
            }
        }),
{
    assert(is_position(levels[p], id, at));
    lemma_position_is(levels[p], id, at);
}

/// A reported trade against an order that does not stand there changes nothing,
/// but that a level without orders goes.
pub proof fn law_trade_against_nothing_changes_nothing(
    levels: Levels,
    p: Price,
    id: OrderId,
    qty: nat,
)
    requires
        stands_nowhere(levels, p, id),
    ensures
        traded(levels, p, id, qty) == if levels.contains_key(p) && levels[p].len() == 0 {
            levels.remove(p)
        } else {
            levels
        },
{
    law_search_finds_the_oldest(levels, p, id);
    if levels.contains_key(p) {
        assert(levels.insert(p, levels[p]) =~= levels);
    }
}

/// An order that is added comes to rest on its side, behind all that rests at its
/// price; nothing else of the book changes.
pub proof fn law_added_order_stands_last(
    book: BookView,
    order_id: OrderId,
    side: Side,
    price: Price,
    qty: Qty,
    ts_nanos: u64,
    is_ours: bool,
)
    ensures
        ({
            let order = Order { id: order_id, side, price, qty, ts_nanos, is_ours };
            let after = book.replayed(
                MarketEvent::Add { order_id, side, price, qty, ts_nanos, is_ours },
            );
            &&& after == book.resting(order)
            &&& side == Side::Bid ==> {
                &&& after.bids == book.bids.insert(
                    price,
                    orders_at(book.bids, price) + seq![order],
                )
                &&& after.asks == book.asks
            }
            &&& side == Side::Ask ==> {
                &&& after.asks == book.asks.insert(
                    price,
                    orders_at(book.asks, price) + seq![order],
                )
                &&& after.bids == book.bids
            }
        }),
{
    let order = Order { id: order_id, side, price, qty, ts_nanos, is_ours };
    assert(queue_at(book.bids, price).push(order) =~= orders_at(book.bids, price) + seq![order]);
    assert(queue_at(book.asks, price).push(order) =~= orders_at(book.asks, price) + seq![order]);
}

/// A cancel or a trade that is replayed changes the side that it names, and not
/// the other.
pub proof fn law_replay_changes_one_side(
    book: BookView,
    id: OrderId,
    side: Side,
    price: Price,
    qty: Qty,
    ts_nanos: u64,
    is_ours: bool,
)
    ensures
        ({
            let gone = book.replayed(MarketEvent::Cancel { order_id: id, side, price, ts_nanos });
            let hit = book.replayed(
                MarketEvent::Trade {
                    resting_order_id: id,
                    resting_is_ours: is_ours,
                    side_of_resting_order: side,
                    price,
                    qty,
                    ts_nanos,
                },
            );
            &&& side == Side::Bid ==> {
                &&& gone.bids == cancelled(book.bids, price, id) && gone.asks == book.asks
                &&& hit.bids == traded(book.bids, price, id, qty as nat) && hit.asks == book.asks
            }
            &&& side == Side::Ask ==> {
                &&& gone.asks == cancelled(book.asks, price, id) && gone.bids == book.bids
                &&& hit.asks == traded(book.asks, price, id, qty as nat) && hit.bids == book.bids
            }
        }),
{
}

/// A side that is put in place is the one that is named, and the other one stays.
pub proof fn law_one_side_is_put_in_place(book: BookView, levels: Levels)
    ensures
        book.with_side(Side::Bid, levels).bids == levels,
        book.with_side(Side::Bid, levels).asks == book.asks,
        book.with_side(Side::Ask, levels).asks == levels,
        book.with_side(Side::Ask, levels).bids == book.bids,
        book.side(Side::Bid) == book.bids,
        book.side(Side::Ask) == book.asks,
        Side::Bid.flipped() == Side::Ask,
        Side::Ask.flipped() == Side::Bid,
{
}

/// The best bid is the highest price at which someone bids, the best ask the
/// lowest at which someone offers; there is none only where nobody does.
pub proof fn law_best_prices_are_the_extremes(levels: Levels)
    requires
        levels.dom().finite(),
    ensures
        match best_price(levels, Side::Bid) {
            Some(p) => levels.contains_key(p) && forall|q: Price| #[trigger]
                levels.contains_key(q) ==> q <= p,
            None => forall|q: Price| !#[trigger] levels.contains_key(q),
        },
        match best_price(levels, Side::Ask) {
            Some(p) => levels.contains_key(p) && forall|q: Price| #[trigger]
                levels.contains_key(q) ==> q >= p,
            None => forall|q: Price| !#[trigger] levels.contains_key(q),
        },
{
    assert forall|side: Side| (#[trigger] best_price(levels, side)) is None implies forall|q: Price|
        !#[trigger] levels.contains_key(q) by {
        assert forall|q: Price| !#[trigger] levels.contains_key(q) by {
            if levels.contains_key(q) {
                lemma_best_exists(levels, side, q);
            }
        }
    }
    if let Some(p) = best_price(levels, Side::Bid) {
        assert(is_best(levels, Side::Bid, p));
    }
    if let Some(p) = best_price(levels, Side::Ask) {
        assert(is_best(levels, Side::Ask, p));
    }
}

/// The class of all orders.
pub open spec fn of_all() -> spec_fn(OrderId, bool) -> bool {
    |id: OrderId, is_ours: bool| true
}

/// A queue's quantity is the sum over its orders.
proof fn lemma_total_is_a_sum(queue: Seq<Order>)
    ensures
        total(queue) == qty_where(queue, of_all()),
    decreases queue.len(),
{
    if queue.len() > 0 {
        let last = queue.last();
        let before = queue.drop_last();
        lemma_total_is_a_sum(before);
        assert(queue =~= before.push(last));
        lemma_total_push(before, last);
    }
}

/// One order more adds its quantity.
proof fn lemma_total_push(queue: Seq<Order>, order: Order)
    ensures
        total(queue.push(order)) == total(queue) + order.qty,
    decreases queue.len(),
{
    if queue.len() == 0 {
        assert(queue.push(order).drop_first() =~= queue);
    } else {
        assert(queue.push(order).drop_first() =~= queue.drop_first().push(order));
        lemma_total_push(queue.drop_first(), order);
    }
}

/// The price order of a side lists each of its prices, one after the other in the
/// order in which they trade.
proof fn lemma_price_order(levels: Levels, side: Side)
    requires
        levels.dom().finite(),
    ensures
        ({
            let prices = price_order(levels, side);
            &&& prices.len() == levels.len()
            &&& forall|i: int| 0 <= i < prices.len() ==> levels.contains_key(#[trigger] prices[i])
            &&& forall|i: int, j: int|
                0 <= i < j < prices.len() ==> ahead(side, #[trigger] prices[i], #[trigger] prices[j])
            &&& forall|p: Price| #[trigger] levels.contains_key(p) ==> prices.contains(p)
        }),
    decreases levels.len(),
{
    let prices = price_order(levels, side);
    match best_price(levels, side) {
        Some(p) => {
            let rest = levels.remove(p);
            let further = price_order(rest, side);
            assert(is_best(levels, side, p));
            lemma_price_order(rest, side);
            assert(prices =~= seq![p] + further);
            assert forall|i: int| 0 <= i < prices.len() implies levels.contains_key(
                #[trigger] prices[i],
            ) by {
                if i > 0 {
                    assert(prices[i] == further[i - 1]);
                    assert(rest.contains_key(further[i - 1]));
                }
            }
            assert forall|i: int, j: int| 0 <= i < j < prices.len() implies ahead(
                side,
                #[trigger] prices[i],
                #[trigger] prices[j],
            ) by {
                assert(prices[j] == further[j - 1]);
                assert(rest.contains_key(further[j - 1]));
                assert(levels.contains_key(prices[j]));
                if i > 0 {
                    assert(prices[i] == further[i - 1]);
                }
            }
            assert forall|q: Price| #[trigger] levels.contains_key(q) implies prices.contains(q) by {
                if q == p {
                    assert(prices[0] == p);
                } else {
                    assert(rest.contains_key(q));
                    let k = choose|k: int| 0 <= k < further.len() && further[k] == q;
                    assert(prices[k + 1] == q);
                }
            }
        },
        None => {
            assert forall|q: Price| !#[trigger] levels.contains_key(q) by {
                if levels.contains_key(q) {
                    lemma_best_exists(levels, side, q);
                }
            }
            assert(levels.dom() =~= Set::empty());
        },
    }
}

/// The depth of a side shows its best levels, as many as are asked for and there
/// are, the one that trades first in front, each with the sum of what rests
/// there. A level that is not shown trades after all that are, and is left out
/// only because enough are shown.
pub proof fn law_depth_shows_the_best_levels(levels: Levels, side: Side, n: nat)
    requires
        levels.dom().finite(),
    ensures
        ({
            let shown = depth(levels, side, n);
            &&& shown.len() <= n
            &&& forall|i: int|
                0 <= i < shown.len() ==> {
                    &&& levels.contains_key((#[trigger] shown[i]).0)
                    &&& shown[i].1 == qty_where(levels[shown[i].0], of_all())
                }
            &&& forall|i: int, j: int|
                0 <= i < j < shown.len() ==> ahead(
                    side,
                    (#[trigger] shown[i]).0,
                    (#[trigger] shown[j]).0,
                )
            &&& forall|p: Price, i: int|
                #![trigger levels.contains_key(p), shown[i]]
                levels.contains_key(p) && 0 <= i < shown.len() && !shows(shown, p) ==> ahead(
                    side,
                    shown[i].0,
                    p,
                )
            &&& forall|p: Price| #[trigger]
                levels.contains_key(p) && !shows(shown, p) ==> shown.len() == n
        }),
{
    let prices = price_order(levels, side);
    let shown = depth(levels, side, n);
    lemma_price_order(levels, side);
    assert forall|i: int| 0 <= i < shown.len() implies {
        &&& levels.contains_key((#[trigger] shown[i]).0)
        &&& shown[i].1 == qty_where(levels[shown[i].0], of_all())
    } by {
        lemma_total_is_a_sum(levels[prices[i]]);
    }
    assert forall|i: int, j: int| 0 <= i < j < shown.len() implies ahead(
        side,
        (#[trigger] shown[i]).0,
        (#[trigger] shown[j]).0,
    ) by {
        assert(shown[i].0 == prices[i] && shown[j].0 == prices[j]);
    }
    assert forall|p: Price| #[trigger] levels.contains_key(p) && !shows(shown, p) implies {
        &&& shown.len() == n
        &&& forall|i: int| 0 <= i < shown.len() ==> ahead(side, (#[trigger] shown[i]).0, p)
    } by {
        let k = choose|k: int| 0 <= k < prices.len() && prices[k] == p;
        if k < shown.len() {
            assert(shown[k].0 == p);
        }
        assert forall|i: int| 0 <= i < shown.len() implies ahead(
            side,
            (#[trigger] shown[i]).0,
            p,
        ) by {
            assert(shown[i].0 == prices[i]);
            assert(ahead(side, prices[i], prices[k]));
        }
    }
}

/// A list of levels in lots has the same prices and the same quantities.
pub proof fn law_lots_are_what_they_are(levels: Seq<(Price, Qty)>)
    ensures
        in_lots(levels).len() == levels.len(),
        forall|i: int|
            0 <= i < levels.len() ==> {
                &&& (#[trigger] in_lots(levels)[i]).0 == levels[i].0
                &&& in_lots(levels)[i].1 == levels[i].1
            },
{
}

/// A book is seen as it is: each level of its maps is a level of its view, with
/// the same orders in the same places.
pub proof fn law_book_is_seen_as_it_is(book: OrderBook, p: Price)
    ensures
        book@.bids.contains_key(p) == book.bids@.contains_key(p),
        book@.asks.contains_key(p) == book.asks@.contains_key(p),
        book@.bids.contains_key(p) ==> book@.bids[p] == book.bids@[p]@,
        book@.asks.contains_key(p) ==> book@.asks[p] == book.asks@[p]@,
{
}

/// Whether a list of levels shows a price.
pub open spec fn shows(levels: Seq<(Price, nat)>, p: Price) -> bool {
    exists|i: int| 0 <= i < levels.len() && (#[trigger] levels[i]).0 == p
}

/// Whether a place of a queue is among those listed.
pub open spec fn listed(prices: Seq<Price>, places: Seq<int>, p: Price, at: int) -> bool {
    exists|r: int| 0 <= r < prices.len() && #[trigger] prices[r] == p && places[r] == at
}

/// Whether a row is that of the order at a place.
pub open spec fn is_row_of(row: ResyncRow, levels: Levels, p: Price, at: int) -> bool {
    &&& levels.contains_key(p)
    &&& 0 <= at < levels[p].len()
    &&& row.0 == levels[p][at].id
    &&& row.1 == levels[p][at].price
    &&& row.2 == levels[p][at].qty
    &&& row.3 == levels[p][at].is_ours
}

/// Whether rows are those of every order of a side, each once, by rising price
/// and then by age: the order's name, its price, its quantity, and whether it is
/// ours.
pub open spec fn is_listing(
    levels: Levels,
    rows: Seq<ResyncRow>,
    prices: Seq<Price>,
    places: Seq<int>,
) -> bool {
    &&& prices.len() == rows.len()
    &&& places.len() == rows.len()
    &&& forall|r: int|
        0 <= r < rows.len() ==> is_row_of(#[trigger] rows[r], levels, prices[r], places[r])
    &&& forall|r: int, s: int|
        #![trigger prices[r], prices[s]]
        0 <= r < s < rows.len() ==> {
            ||| prices[r] < prices[s]
            ||| prices[r] == prices[s] && places[r] < places[s]
        }
    &&& forall|p: Price, at: int|
        #![trigger listed(prices, places, p, at)]
        levels.contains_key(p) && 0 <= at < levels[p].len() ==> listed(prices, places, p, at)
}

/// Whether rows list every order of a side.
pub open spec fn lists(levels: Levels, rows: Seq<ResyncRow>) -> bool {
    exists|prices: Seq<Price>, places: Seq<int>| #[trigger]
        is_listing(levels, rows, prices, places)
}

/// A snapshot lists every order of a side, each once, by rising price and then by
/// age, with what it tells of each.
pub proof fn law_snapshot_lists_every_order(levels: Levels)
    requires
        levels.dom().finite(),
    ensures
        lists(levels, in_rising_order(levels).map_values(|order: Order| row_of(order))),
    decreases levels.len(),
{
    let rows = in_rising_order(levels).map_values(|order: Order| row_of(order));
    match best_price(levels, Side::Ask) {
        Some(p) => {
            let rest = levels.remove(p);
            let queue = levels[p];
            let further = in_rising_order(rest).map_values(|order: Order| row_of(order));
            assert(is_best(levels, Side::Ask, p));
            law_snapshot_lists_every_order(rest);
            let (prices, places) = choose|prices: Seq<Price>, places: Seq<int>| #[trigger]
                is_listing(rest, further, prices, places);
            let n = queue.len() as int;
            let all_prices = Seq::new(queue.len(), |i: int| p) + prices;
            let all_places = Seq::new(queue.len(), |i: int| i) + places;
            assert(in_rising_order(levels) == queue + in_rising_order(rest));
            assert(rows =~= queue.map_values(|order: Order| row_of(order)) + further);
            assert forall|r: int| 0 <= r < rows.len() implies is_row_of(
                #[trigger] rows[r],
                levels,
                all_prices[r],
                all_places[r],
            ) by {
                if r >= n {
                    assert(rows[r] == further[r - n]);
                    assert(is_row_of(further[r - n], rest, prices[r - n], places[r - n]));
                }
            }
            assert forall|r: int, s: int| #![trigger all_prices[r], all_prices[s]]
                0 <= r < s < rows.len() implies {
                ||| all_prices[r] < all_prices[s]
                ||| all_prices[r] == all_prices[s] && all_places[r] < all_places[s]
            } by {
                if s >= n {
                    assert(is_row_of(further[s - n], rest, prices[s - n], places[s - n]));
                    assert(levels.contains_key(prices[s - n]));
                    if r >= n {
                        assert(all_prices[r] == prices[r - n] && all_prices[s] == prices[s - n]);
                    }
                }
            }
            assert forall|q: Price, at: int| #![trigger listed(all_prices, all_places, q, at)]
                levels.contains_key(q) && 0 <= at < levels[q].len() implies listed(
                all_prices,
                all_places,
                q,
                at,
            ) by {
                if q == p {
                    assert(all_prices[at] == p);
                } else {
                    assert(rest.contains_key(q));
                    assert(listed(prices, places, q, at));
                    let r = choose|r: int|
                        0 <= r < prices.len() && #[trigger] prices[r] == q && places[r] == at;
                    assert(all_prices[r + n] == q && all_places[r + n] == at);
                }
            }
            assert(is_listing(levels, rows, all_prices, all_places));
        },
        None => {
            assert forall|q: Price| !#[trigger] levels.contains_key(q) by {
                if levels.contains_key(q) {
                    lemma_best_exists(levels, Side::Ask, q);
                }
            }
            assert(rows =~= seq![]);
            assert(is_listing(levels, rows, seq![], seq![]));
        },
    }
}

/// The rows of one price.
pub open spec fn rows_at(rows: Seq<ResyncRow>, p: Price) -> Seq<ResyncRow> {
    rows.filter(|row: ResyncRow| row.1 == p)
}

/// Whether a queue is that of rows: one order for each, in the same order, with
/// what the row tells, on the given side from the given moment on.
pub open spec fn is_queue_of(
    queue: Seq<Order>,
    rows: Seq<ResyncRow>,
    side: Side,
    ts_nanos: u64,
) -> bool {
    &&& queue.len() == rows.len()
    &&& forall|i: int|
        0 <= i < rows.len() ==> #[trigger] queue[i] == (Order {
            id: rows[i].0,
            side,
            price: rows[i].1,
            qty: rows[i].2,
            ts_nanos,
            is_ours: rows[i].3,
        })
}

/// One side of a rebuilt book.
proof fn lemma_rebuilt_side(rows: Seq<ResyncRow>, side: Side, ts_nanos: u64, p: Price)
    ensures
        ({
            let levels = rested_all(Map::empty(), orders_of(rows, side, ts_nanos));
            &&& levels.contains_key(p) <==> rows_at(rows, p).len() > 0
            &&& is_queue_of(orders_at(levels, p), rows_at(rows, p), side, ts_nanos)
        }),
    decreases rows.len(),
{
    reveal(Seq::filter);
    let orders = orders_of(rows, side, ts_nanos);
    if rows.len() > 0 {
        let before = rows.drop_last();
        lemma_rebuilt_side(before, side, ts_nanos, p);
        assert(orders.drop_last() =~= orders_of(before, side, ts_nanos));
        let levels = rested_all(Map::empty(), orders.drop_last());
        let row = rows.last();
        if row.1 == p {
            assert(rows_at(rows, p) =~= rows_at(before, p).push(row));
        } else {
            assert(rows_at(rows, p) =~= rows_at(before, p));
        }
        assert(queue_at(levels, p) == orders_at(levels, p));
    }
}

/// A book that is rebuilt from rows has at each price the orders of the rows of
/// that price, in the order of the rows, and nothing else.
pub proof fn law_rebuilt_book_holds_the_rows(
    bids: Seq<ResyncRow>,
    asks: Seq<ResyncRow>,
    ts_nanos: u64,
    p: Price,
)
    ensures
        ({
            let book = BookView::rebuilt(bids, asks, ts_nanos);
            &&& book.bids.contains_key(p) <==> rows_at(bids, p).len() > 0
            &&& book.asks.contains_key(p) <==> rows_at(asks, p).len() > 0
            &&& is_queue_of(orders_at(book.bids, p), rows_at(bids, p), Side::Bid, ts_nanos)
            &&& is_queue_of(orders_at(book.asks, p), rows_at(asks, p), Side::Ask, ts_nanos)
        }),
{
    lemma_rebuilt_side(bids, Side::Bid, ts_nanos, p);
    lemma_rebuilt_side(asks, Side::Ask, ts_nanos, p);
}

} // verus!
