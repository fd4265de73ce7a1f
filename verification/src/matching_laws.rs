//! What holds of every match: price-time priority, and that quantity is
//! neither made nor lost.
use crate::book_laws::{lemma_best_exists, lemma_sweep};
use crate::levels::{
    best_price, better, fill_of, fills_qty, in_priority, is_best, lemma_best_is, lemma_best_none,
    lemma_fills_qty_add, lemma_queue_conserves, lemma_rest_or_left, lemma_sweep_conserves, lesser,
    queue_at, queue_fills, queue_left, queue_rest, reduced, rested, sweep, total, within, Levels,
};
use crate::orderbook::BookView;
use crate::types::{Fill, Order, Price, Side};
use vstd::prelude::*;

verus! {

/// The fills that `qty` makes against orders that are taken in turn, each at
/// its own price.
pub open spec fn walk_fills(orders: Seq<Order>, side: Side, qty: nat, ts_nanos: u64) -> Seq<Fill>
    decreases orders.len(),
{
    if orders.len() == 0 || qty == 0 {
        seq![]
    } else {
        let traded = lesser(orders[0].qty as nat, qty);
        seq![fill_of(orders[0], side, orders[0].price, traded, ts_nanos)] + walk_fills(
            orders.drop_first(),
            side,
            (qty - traded) as nat,
            ts_nanos,
        )
    }
}

/// The levels of a side that a limit admits.
pub open spec fn admitted(levels: Levels, side: Side, limit: Option<Price>) -> Levels {
    Map::new(|p: Price| levels.contains_key(p) && within(side, p, limit), |p: Price| levels[p])
}

/// The quantity that rests on a side.
pub open spec fn side_qty(levels: Levels, side: Side) -> nat {
    total(in_priority(levels, side))
}

/// The quantity of two queues, one behind the other.
proof fn lemma_total_add(a: Seq<Order>, b: Seq<Order>)
    ensures
        total(a + b) == total(a) + total(b),
    decreases a.len(),
{
    if a.len() == 0 {
        assert(a + b =~= b);
    } else {
        assert((a + b).drop_first() =~= a.drop_first() + b);
        lemma_total_add(a.drop_first(), b);
    }
}

/// Taking from two queues, one behind the other.
proof fn lemma_rest_add(a: Seq<Order>, b: Seq<Order>, qty: nat)
    ensures
        queue_rest(a + b, qty) == if queue_rest(a, qty).len() > 0 {
            queue_rest(a, qty) + b
        } else {
            queue_rest(b, queue_left(a, qty))
        },
    decreases a.len(),
{
    if a.len() == 0 {
        assert(a + b =~= b);
    } else if qty > 0 {
        assert((a + b)[0] == a[0]);
        if a[0].qty <= qty {
            assert((a + b).drop_first() =~= a.drop_first() + b);
            lemma_rest_add(a.drop_first(), b, (qty - a[0].qty) as nat);
            assert(queue_left(a.drop_first(), (qty - a[0].qty) as nat) == queue_left(a, qty));
        } else {
            assert((a + b).update(0, reduced(a[0], qty)) =~= a.update(0, reduced(a[0], qty)) + b);
        }
    }
}

/// Walking two lists of orders, one behind the other.
proof fn lemma_walk_add(a: Seq<Order>, b: Seq<Order>, side: Side, qty: nat, ts_nanos: u64)
    ensures
        walk_fills(a + b, side, qty, ts_nanos) == walk_fills(a, side, qty, ts_nanos) + walk_fills(
            b,
            side,
            queue_left(a, qty),
            ts_nanos,
        ),
    decreases a.len(),
{
    let further = walk_fills(b, side, queue_left(a, qty), ts_nanos);
    if a.len() == 0 {
        assert(a + b =~= b);
        assert(walk_fills(a, side, qty, ts_nanos) + further =~= further);
    } else if qty == 0 {
        assert(walk_fills(a, side, qty, ts_nanos) + further =~= seq![]);
    } else {
        let traded = lesser(a[0].qty as nat, qty);
        assert((a + b)[0] == a[0]);
        assert((a + b).drop_first() =~= a.drop_first() + b);
        lemma_walk_add(a.drop_first(), b, side, (qty - traded) as nat, ts_nanos);
        assert(queue_left(a.drop_first(), (qty - traded) as nat) == queue_left(a, qty));
        assert(walk_fills(a + b, side, qty, ts_nanos) =~= walk_fills(a, side, qty, ts_nanos)
            + further);
    }
}

/// In a queue whose orders belong at one price, walking and taking are one.
proof fn lemma_walk_queue(queue: Seq<Order>, side: Side, p: Price, qty: nat, ts_nanos: u64)
    requires
        forall|i: int| 0 <= i < queue.len() ==> (#[trigger] queue[i]).price == p,
    ensures
        walk_fills(queue, side, qty, ts_nanos) == queue_fills(queue, side, p, qty, ts_nanos),
    decreases queue.len(),
{
    if queue.len() > 0 && qty > 0 {
        let traded = lesser(queue[0].qty as nat, qty);
        lemma_walk_queue(queue.drop_first(), side, p, (qty - traded) as nat, ts_nanos);
    }
}

/// What a limit admits of a side without its best level.
proof fn lemma_admitted_best(levels: Levels, side: Side, limit: Option<Price>, p: Price)
    requires
        levels.dom().finite(),
        is_best(levels, side, p),
        within(side, p, limit),
    ensures
        admitted(levels, side, limit).dom().finite(),
        is_best(admitted(levels, side, limit), side, p),
        admitted(levels, side, limit)[p] == levels[p],
        admitted(levels, side, limit).remove(p) == admitted(levels.remove(p), side, limit),
{
    let open = admitted(levels, side, limit);
    vstd::set_lib::lemma_set_subset_finite(levels.dom(), open.dom());
    assert(open.remove(p) =~= admitted(levels.remove(p), side, limit));
}

/// Price-time priority: an order trades with the orders that its limit admits
/// in the order of their price and then of their age, each at its own price,
/// and takes all of one before it turns to the next. Nothing that the limit
/// does not admit is touched. Each order that it admits rests at its own price.
pub proof fn law_price_time_priority(
    levels: Levels,
    side: Side,
    limit: Option<Price>,
    qty: nat,
    ts_nanos: u64,
)
    requires
        levels.dom().finite(),
        forall|p: Price, i: int|
            levels.contains_key(p) && within(side, p, limit) && 0 <= i < levels[p].len()
                ==> (#[trigger] levels[p][i]).price == p,
    ensures
        ({
            let swept = sweep(levels, side, limit, qty, ts_nanos);
            let orders = in_priority(admitted(levels, side, limit), side);
            &&& swept.fills == walk_fills(orders, side, qty, ts_nanos)
            &&& in_priority(admitted(swept.levels, side, limit), side) == queue_rest(orders, qty)
            &&& swept.left == queue_left(orders, qty)
            &&& forall|p: Price|
                !within(side, p, limit) ==> {
                    &&& #[trigger] swept.levels.contains_key(p) == levels.contains_key(p)
                    &&& levels.contains_key(p) ==> swept.levels[p] == levels[p]
                }
        }),
    decreases levels.len(),
{
    let swept = sweep(levels, side, limit, qty, ts_nanos);
    let open = admitted(levels, side, limit);
    let best = best_price(levels, side);
    if best is None || !within(side, best->0, limit) {
        assert forall|p: Price| #[trigger] open.contains_key(p) implies false by {
            lemma_best_exists(levels, side, p);
        }
        lemma_best_none(open, side);
        vstd::set_lib::lemma_set_subset_finite(levels.dom(), open.dom());
        assert(in_priority(open, side) =~= seq![]);
    } else {
        let p = best->0;
        let further = in_priority(open.remove(p), side);
        assert(is_best(levels, side, p));
        lemma_admitted_best(levels, side, limit, p);
        lemma_best_is(open, side, p);
        assert(in_priority(open, side) == levels[p] + further);
        if qty > 0 {
            let rest = queue_rest(levels[p], qty);
            lemma_rest_add(levels[p], further, qty);
            lemma_walk_add(levels[p], further, side, qty, ts_nanos);
            lemma_walk_queue(levels[p], side, p, qty, ts_nanos);
            lemma_rest_or_left(levels[p], qty);
            lemma_total_add(levels[p], further);
            if rest.len() > 0 {
                assert(swept.levels.remove(p) =~= levels.remove(p));
                assert(is_best(swept.levels, side, p)) by {
                    assert forall|q: Price| #[trigger] swept.levels.contains_key(q) implies q == p
                        || better(side, p, q) by {
                        assert(levels.contains_key(q));
                    }
                }
                lemma_admitted_best(swept.levels, side, limit, p);
                lemma_best_is(admitted(swept.levels, side, limit), side, p);
                assert(swept.fills =~= walk_fills(levels[p] + further, side, qty, ts_nanos));
            } else {
                let left = queue_left(levels[p], qty);
                let others = levels.remove(p);
                assert forall|q: Price, i: int|
                    others.contains_key(q) && within(side, q, limit) && 0 <= i
                        < others[q].len() implies (#[trigger] others[q][i]).price == q by {
                    assert(others[q] == levels[q]);
                    assert(levels[q][i].price == q);
                }
                law_price_time_priority(levels.remove(p), side, limit, left, ts_nanos);
            }
        }
    }
}

/// What a sweep takes from a side is what the side no longer has.
proof fn lemma_side_conserves(
    levels: Levels,
    side: Side,
    limit: Option<Price>,
    qty: nat,
    ts_nanos: u64,
)
    requires
        levels.dom().finite(),
        qty <= u64::MAX,
    ensures
        ({
            let swept = sweep(levels, side, limit, qty, ts_nanos);
            fills_qty(swept.fills) + side_qty(swept.levels, side) == side_qty(levels, side)
        }),
    decreases levels.len(),
{
    let swept = sweep(levels, side, limit, qty, ts_nanos);
    let best = best_price(levels, side);
    if !(qty == 0 || best is None || !within(side, best->0, limit)) {
        let p = best->0;
        let rest = queue_rest(levels[p], qty);
        let fills = queue_fills(levels[p], side, p, qty, ts_nanos);
        assert(is_best(levels, side, p));
        lemma_queue_conserves(levels[p], side, p, qty, ts_nanos);
        lemma_total_add(levels[p], in_priority(levels.remove(p), side));
        if rest.len() > 0 {
            assert(swept.levels.remove(p) =~= levels.remove(p));
            assert forall|q: Price| #[trigger] swept.levels.contains_key(q) implies q == p
                || better(side, p, q) by {
                assert(levels.contains_key(q));
            }
            lemma_best_is(swept.levels, side, p);
            lemma_total_add(rest, in_priority(levels.remove(p), side));
        } else {
            let left = queue_left(levels[p], qty);
            lemma_side_conserves(levels.remove(p), side, limit, left, ts_nanos);
            lemma_fills_qty_add(fills, sweep(levels.remove(p), side, limit, left, ts_nanos).fills);
        }
    }
}

/// The quantity of a side is that of any one level and that of the others.
proof fn lemma_side_qty_split(levels: Levels, side: Side, p: Price)
    requires
        levels.dom().finite(),
        levels.contains_key(p),
    ensures
        side_qty(levels, side) == total(levels[p]) + side_qty(levels.remove(p), side),
    decreases levels.len(),
{
    lemma_best_exists(levels, side, p);
    let b = best_price(levels, side)->0;
    lemma_total_add(levels[b], in_priority(levels.remove(b), side));
    if b != p {
        let others = levels.remove(p);
        lemma_side_qty_split(levels.remove(b), side, p);
        lemma_best_is(others, side, b);
        lemma_total_add(others[b], in_priority(others.remove(b), side));
        assert(others.remove(b) =~= levels.remove(b).remove(p));
    }
}

/// An order that comes to rest adds its quantity to its side.
proof fn lemma_rested_adds(levels: Levels, side: Side, order: Order)
    requires
        levels.dom().finite(),
    ensures
        side_qty(rested(levels, order.price, order), side) == side_qty(levels, side) + order.qty,
{
    let p = order.price;
    let after = rested(levels, p, order);
    lemma_side_qty_split(after, side, p);
    lemma_total_add(queue_at(levels, p), seq![order]);
    assert(queue_at(levels, p).push(order) =~= queue_at(levels, p) + seq![order]);
    assert(seq![order].drop_first() =~= seq![]);
    assert(total(seq![order]) == order.qty + total(seq![]));
    if levels.contains_key(p) {
        lemma_side_qty_split(levels, side, p);
        assert(after.remove(p) =~= levels.remove(p));
    } else {
        assert(after.remove(p) =~= levels);
    }
}

/// A limit order makes and loses no quantity: what it trades and what comes to
/// rest make up what was ordered, what it trades is what the other side no
/// longer has, and what comes to rest is what its own side has gained.
pub proof fn law_limit_order_conserves_quantity(book: BookView, order: Order)
    requires
        book.finite(),
    ensures
        ({
            let submitted = book.submitted(order);
            let other = order.side.flipped();
            &&& fills_qty(submitted.fills) + submitted.left == order.qty
            &&& fills_qty(submitted.fills) + side_qty(submitted.book.side(other), other)
                == side_qty(book.side(other), other)
            &&& side_qty(submitted.book.side(order.side), order.side) == side_qty(
                book.side(order.side),
                order.side,
            ) + submitted.left
        }),
{
    let other = order.side.flipped();
    let levels = book.side(other);
    let qty = order.qty as nat;
    lemma_sweep_conserves(levels, other, Some(order.price), qty, order.ts_nanos);
    lemma_side_conserves(levels, other, Some(order.price), qty, order.ts_nanos);
    let left = book.submitted(order).left;
    if left > 0 {
        lemma_rested_adds(
            book.side(order.side),
            order.side,
            Order { qty: left as u64, ..order },
        );
    }
}

/// A market order makes and loses no quantity: it trades what it asks for, or
/// all that there is, and that is what the side no longer has.
pub proof fn law_market_order_conserves_quantity(
    book: BookView,
    side: Side,
    qty: nat,
    ts_nanos: u64,
)
    requires
        book.finite(),
        qty <= u64::MAX,
    ensures
        ({
            let taken = book.taken(side, qty, ts_nanos);
            &&& fills_qty(taken.fills) == lesser(qty, side_qty(book.side(side), side))
            &&& fills_qty(taken.fills) + side_qty(taken.levels, side) == side_qty(
                book.side(side),
                side,
            )
        }),
{
    let levels = book.side(side);
    lemma_sweep_conserves(levels, side, None, qty, ts_nanos);
    lemma_side_conserves(levels, side, None, qty, ts_nanos);
    lemma_sweep(levels, side, None, qty, ts_nanos);
    let taken = book.taken(side, qty, ts_nanos);
    if taken.left > 0 {
        assert forall|p: Price| !#[trigger] taken.levels.contains_key(p) by {
            assert(within(side, p, None));
        }
        lemma_best_none(taken.levels, side);
        assert(side_qty(taken.levels, side) == 0);
    }
}

/// What a queue no longer has is what was taken from it.
proof fn lemma_rest_total(queue: Seq<Order>, qty: nat)
    ensures
        total(queue_rest(queue, qty)) == total(queue) - lesser(qty, total(queue)),
    decreases queue.len(),
{
    if queue.len() > 0 && qty > 0 {
        if queue[0].qty <= qty {
            lemma_rest_total(queue.drop_first(), (qty - queue[0].qty) as nat);
        } else {
            let rest = queue.update(0, reduced(queue[0], qty));
            assert(rest.drop_first() =~= queue.drop_first());
        }
    }
}

/// Taking from a queue twice is taking from it once.
proof fn lemma_rest_twice(queue: Seq<Order>, a: nat, b: nat)
    ensures
        queue_rest(queue_rest(queue, a), b) == queue_rest(queue, a + b),
    decreases queue.len(),
{
    if queue.len() > 0 && a > 0 {
        if queue[0].qty <= a {
            lemma_rest_twice(queue.drop_first(), (a - queue[0].qty) as nat, b);
        } else {
            let rest = queue.update(0, reduced(queue[0], a));
            assert(queue_rest(queue, a) == rest);
            assert(rest.drop_first() =~= queue.drop_first());
            if b > 0 && rest[0].qty > b {
                assert(reduced(rest[0], b) == reduced(queue[0], a + b));
                assert(rest.update(0, reduced(rest[0], b)) =~= queue.update(
                    0,
                    reduced(queue[0], a + b),
                ));
            }
        }
    }
}

/// Sweeping a side twice is sweeping it once.
proof fn lemma_sweep_twice(
    levels: Levels,
    side: Side,
    limit: Option<Price>,
    a: nat,
    b: nat,
    ts_nanos: u64,
    later_ts_nanos: u64,
)
    requires
        levels.dom().finite(),
    ensures
        ({
            let first = sweep(levels, side, limit, a, ts_nanos);
            let second = sweep(first.levels, side, limit, b, later_ts_nanos);
            let whole = sweep(levels, side, limit, a + b, ts_nanos);
            &&& second.levels == whole.levels
            &&& first.left + second.left == whole.left
        }),
    decreases levels.len(),
{
    let best = best_price(levels, side);
    let first = sweep(levels, side, limit, a, ts_nanos);
    if a == 0 {
        lemma_sweep_untimed(levels, side, limit, b, ts_nanos, later_ts_nanos);
    } else if !(best is None || !within(side, best->0, limit)) {
        let p = best->0;
        let queue = levels[p];
        let rest = queue_rest(queue, a);
        assert(is_best(levels, side, p));
        lemma_rest_total(queue, a);
        lemma_rest_twice(queue, a, b);
        lemma_rest_or_left(queue, a);
        if rest.len() > 0 {
            let between = levels.insert(p, rest);
            assert(first.levels == between && first.left == 0);
            if b > 0 {
                assert forall|q: Price| #[trigger] between.contains_key(q) implies q == p || better(
                    side,
                    p,
                    q,
                ) by {
                    assert(levels.contains_key(q));
                }
                lemma_best_is(between, side, p);
                assert(between.remove(p) =~= levels.remove(p));
                let last = queue_rest(rest, b);
                if last.len() > 0 {
                    lemma_rest_or_left(queue, a + b);
                    assert(between.insert(p, last) =~= levels.insert(p, last));
                } else {
                    assert(queue_left(rest, b) == queue_left(queue, a + b));
                    lemma_sweep_untimed(
                        levels.remove(p),
                        side,
                        limit,
                        queue_left(queue, a + b),
                        ts_nanos,
                        later_ts_nanos,
                    );
                }
            }
        } else {
            let left = queue_left(queue, a);
            assert(queue_rest(rest, b).len() == 0);
            assert(left + b == queue_left(queue, a + b));
            lemma_sweep_twice(levels.remove(p), side, limit, left, b, ts_nanos, later_ts_nanos);
        }
    }
}

/// What a sweep takes does not depend on the clock.
proof fn lemma_sweep_untimed(
    levels: Levels,
    side: Side,
    limit: Option<Price>,
    qty: nat,
    ts_nanos: u64,
    other_ts_nanos: u64,
)
    requires
        levels.dom().finite(),
    ensures
        sweep(levels, side, limit, qty, ts_nanos).levels == sweep(
            levels,
            side,
            limit,
            qty,
            other_ts_nanos,
        ).levels,
        sweep(levels, side, limit, qty, ts_nanos).left == sweep(
            levels,
            side,
            limit,
            qty,
            other_ts_nanos,
        ).left,
    decreases levels.len(),
{
    let best = best_price(levels, side);
    if !(qty == 0 || best is None || !within(side, best->0, limit)) {
        let p = best->0;
        if queue_rest(levels[p], qty).len() == 0 {
            let left = queue_left(levels[p], qty);
            lemma_sweep_untimed(levels.remove(p), side, limit, left, ts_nanos, other_ts_nanos);
        }
    }
}

/// A market order may be split in two: one part after the other leaves the side
/// as the whole does, and trades as much.
pub proof fn law_market_order_may_be_split(
    book: BookView,
    side: Side,
    a: nat,
    b: nat,
    ts_nanos: u64,
    later_ts_nanos: u64,
)
    requires
        book.finite(),
        a + b <= u64::MAX,
    ensures
        ({
            let first = book.taken(side, a, ts_nanos);
            let between = book.with_side(side, first.levels);
            let second = between.taken(side, b, later_ts_nanos);
            let whole = book.taken(side, a + b, ts_nanos);
            &&& second.levels == whole.levels
            &&& first.left + second.left == whole.left
            &&& fills_qty(first.fills) + fills_qty(second.fills) == fills_qty(whole.fills)
        }),
{
    let levels = book.side(side);
    let first = book.taken(side, a, ts_nanos);
    lemma_sweep(levels, side, None, a, ts_nanos);
    lemma_sweep_twice(levels, side, None, a, b, ts_nanos, later_ts_nanos);
    lemma_sweep_conserves(levels, side, None, a, ts_nanos);
    lemma_sweep_conserves(first.levels, side, None, b, later_ts_nanos);
    lemma_sweep_conserves(levels, side, None, a + b, ts_nanos);
}

/// A limit that every level meets is no limit.
proof fn lemma_sweep_unlimited(
    levels: Levels,
    side: Side,
    limit: Price,
    qty: nat,
    ts_nanos: u64,
)
    requires
        levels.dom().finite(),
        forall|p: Price| #[trigger] levels.contains_key(p) ==> within(side, p, Some(limit)),
    ensures
        sweep(levels, side, Some(limit), qty, ts_nanos) == sweep(levels, side, None, qty, ts_nanos),
    decreases levels.len(),
{
    let best = best_price(levels, side);
    if qty > 0 && best is Some {
        let p = best->0;
        assert(is_best(levels, side, p));
        if queue_rest(levels[p], qty).len() == 0 {
            let left = queue_left(levels[p], qty);
            assert forall|q: Price| #[trigger] levels.remove(p).contains_key(q) implies within(
                side,
                q,
                Some(limit),
            ) by {
                assert(levels.contains_key(q));
            }
            lemma_sweep_unlimited(levels.remove(p), side, limit, left, ts_nanos);
        }
    }
}

/// A limit order whose price every order of the other side meets trades as a
/// market order does; only what finds no counterparty is treated otherwise, as
/// it comes to rest.
pub proof fn law_unlimited_order_trades_as_a_market_order(book: BookView, order: Order)
    requires
        book.finite(),
        forall|p: Price| #[trigger]
            book.side(order.side.flipped()).contains_key(p) ==> within(
                order.side.flipped(),
                p,
                Some(order.price),
            ),
    ensures
        ({
            let other = order.side.flipped();
            let submitted = book.submitted(order);
            let taken = book.taken(other, order.qty as nat, order.ts_nanos);
            &&& submitted.fills == taken.fills
            &&& submitted.left == taken.left
            &&& submitted.book.side(other) == taken.levels
            &&& taken.left == 0 ==> submitted.book == book.with_side(other, taken.levels)
        }),
{
    let other = order.side.flipped();
    lemma_sweep_unlimited(
        book.side(other),
        other,
        order.price,
        order.qty as nat,
        order.ts_nanos,
    );
}

} // verus!
