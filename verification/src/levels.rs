//! The mathematical model of one side of an order book.
//!
//! A side is a finite map from price to the orders resting there, oldest
//! first. Everything that the book does to a side is defined here as a
//! function on such maps.
use crate::types::{Fill, Order, OrderId, Price, Side};
use vstd::prelude::*;

verus! {

/// The orders resting on one side, by price, oldest first.
pub type Levels = Map<Price, Seq<Order>>;

/// Whether an order at `p` trades before one at `q` on the given side: the
/// highest bid and the lowest ask come first.
pub open spec fn better(side: Side, p: Price, q: Price) -> bool {
    match side {
        Side::Bid => p > q,
        Side::Ask => p < q,
    }
}

/// Whether `p` is the price of the level that trades first.
pub open spec fn is_best(levels: Levels, side: Side, p: Price) -> bool {
    &&& levels.contains_key(p)
    &&& forall|q: Price| #[trigger] levels.contains_key(q) ==> q == p || better(side, p, q)
}

/// The price of the level that trades first, if there is any level.
pub open spec fn best_price(levels: Levels, side: Side) -> Option<Price> {
    if exists|p: Price| is_best(levels, side, p) {
        Some(choose|p: Price| is_best(levels, side, p))
    } else {
        None
    }
}

/// There is one best price.
pub proof fn lemma_best_is(levels: Levels, side: Side, p: Price)
    requires
        is_best(levels, side, p),
    ensures
        best_price(levels, side) == Some(p),
{
}

/// No level, no best price.
pub proof fn lemma_best_none(levels: Levels, side: Side)
    requires
        forall|q: Price| !#[trigger] levels.contains_key(q),
    ensures
        best_price(levels, side) is None,
{
}

/// Whether a resting level at `p` is at least as good as `limit` asks.
/// `None` asks for nothing: that is a market order.
pub open spec fn within(side: Side, p: Price, limit: Option<Price>) -> bool {
    match limit {
        None => true,
        Some(l) => p == l || better(side, p, l),
    }
}

/// The quantity of a whole queue.
pub open spec fn total(queue: Seq<Order>) -> nat
    decreases queue.len(),
{
    if queue.len() == 0 {
        0
    } else {
        queue[0].qty as nat + total(queue.drop_first())
    }
}

/// The lesser of two quantities.
pub open spec fn lesser(a: nat, b: nat) -> nat {
    if a <= b {
        a
    } else {
        b
    }
}

/// The fill that a taker makes against `order` at `price`.
pub open spec fn fill_of(order: Order, side: Side, price: Price, qty: nat, ts_nanos: u64) -> Fill {
    Fill {
        resting_order_id: order.id,
        resting_is_ours: order.is_ours,
        side_of_resting_order: side,
        price,
        qty: qty as u64,
        ts_nanos,
    }
}

/// The fills that `qty` makes against a queue, oldest order first. Each order
/// gives what it has until nothing more is wanted.
pub open spec fn queue_fills(
    queue: Seq<Order>,
    side: Side,
    price: Price,
    qty: nat,
    ts_nanos: u64,
) -> Seq<Fill>
    decreases queue.len(),
{
    if queue.len() == 0 || qty == 0 {
        seq![]
    } else {
        let traded = lesser(queue[0].qty as nat, qty);
        seq![fill_of(queue[0], side, price, traded, ts_nanos)] + queue_fills(
            queue.drop_first(),
            side,
            price,
            (qty - traded) as nat,
            ts_nanos,
        )
    }
}

/// What is left of a queue once `qty` has been taken from its front.
pub open spec fn queue_rest(queue: Seq<Order>, qty: nat) -> Seq<Order>
    decreases queue.len(),
{
    if queue.len() == 0 || qty == 0 {
        queue
    } else if queue[0].qty <= qty {
        queue_rest(queue.drop_first(), (qty - queue[0].qty) as nat)
    } else {
        queue.update(0, reduced(queue[0], qty))
    }
}

/// How much of `qty` a queue could not give.
pub open spec fn queue_left(queue: Seq<Order>, qty: nat) -> nat {
    (qty - lesser(qty, total(queue))) as nat
}

/// The quantity of a list of fills.
pub open spec fn fills_qty(fills: Seq<Fill>) -> nat
    decreases fills.len(),
{
    if fills.len() == 0 {
        0
    } else {
        fills_qty(fills.drop_last()) + fills.last().qty as nat
    }
}

/// What a taker's order does to the side that it trades against.
pub struct Swept {
    /// The fills, in the order in which they happen.
    pub fills: Seq<Fill>,
    /// The side afterwards.
    pub levels: Levels,
    /// The quantity that found no counterparty.
    pub left: nat,
}

/// An order for `qty` walks the levels that `limit` admits, best price first,
/// and empties each before it goes on to the next.
pub open spec fn sweep(
    levels: Levels,
    side: Side,
    limit: Option<Price>,
    qty: nat,
    ts_nanos: u64,
) -> Swept
    decreases levels.len(),
    when levels.dom().finite()
{
    let best = best_price(levels, side);
    if qty == 0 || best is None || !within(side, best->0, limit) {
        Swept { fills: seq![], levels, left: qty }
    } else {
        let p = best->0;
        let fills = queue_fills(levels[p], side, p, qty, ts_nanos);
        let rest = queue_rest(levels[p], qty);
        if rest.len() > 0 {
            Swept { fills, levels: levels.insert(p, rest), left: 0 }
        } else {
            let further = sweep(levels.remove(p), side, limit, queue_left(levels[p], qty), ts_nanos);
            Swept { fills: fills + further.fills, ..further }
        }
    }
}

/// The queue at a price: empty where no order rests.
pub open spec fn queue_at(levels: Levels, p: Price) -> Seq<Order> {
    if levels.contains_key(p) {
        levels[p]
    } else {
        seq![]
    }
}

/// The side with a queue put in place at `p`. A level without orders is no
/// level.
pub open spec fn with_queue(levels: Levels, p: Price, queue: Seq<Order>) -> Levels {
    if queue.len() == 0 {
        levels.remove(p)
    } else {
        levels.insert(p, queue)
    }
}

/// The side once `order` rests at `p`, behind what rests there already.
pub open spec fn rested(levels: Levels, p: Price, order: Order) -> Levels {
    levels.insert(p, queue_at(levels, p).push(order))
}

/// Whether the oldest order named `id` stands at `i`.
pub open spec fn is_position(queue: Seq<Order>, id: OrderId, i: int) -> bool {
    &&& 0 <= i < queue.len()
    &&& queue[i].id == id
    &&& forall|j: int| 0 <= j < i ==> (#[trigger] queue[j]).id != id
}

/// Where the oldest order named `id` stands, if there is one.
pub open spec fn position(queue: Seq<Order>, id: OrderId) -> Option<int> {
    if exists|i: int| is_position(queue, id, i) {
        Some(choose|i: int| is_position(queue, id, i))
    } else {
        None
    }
}

/// The side without the oldest order named `id` at `p`.
pub open spec fn cancelled(levels: Levels, p: Price, id: OrderId) -> Levels {
    match position(queue_at(levels, p), id) {
        Some(i) => with_queue(levels, p, levels[p].remove(i)),
        None => levels,
    }
}

/// An order from which `qty` was taken.
pub open spec fn reduced(order: Order, qty: nat) -> Order {
    Order { qty: (order.qty - qty) as u64, ..order }
}

/// A queue after a trade of `qty` against the oldest order named `id`, which
/// leaves the queue if that is all it had.
pub open spec fn queue_traded(queue: Seq<Order>, id: OrderId, qty: nat) -> Seq<Order> {
    match position(queue, id) {
        Some(i) => if qty >= queue[i].qty {
            queue.remove(i)
        } else {
            queue.update(i, reduced(queue[i], qty))
        },
        None => queue,
    }
}

/// The side after a reported trade at `p`.
pub open spec fn traded(levels: Levels, p: Price, id: OrderId, qty: nat) -> Levels {
    if levels.contains_key(p) {
        with_queue(levels, p, queue_traded(levels[p], id, qty))
    } else {
        levels
    }
}

/// What still rests in a queue is there because nothing more was wanted.
pub proof fn lemma_rest_or_left(queue: Seq<Order>, qty: nat)
    ensures
        queue_rest(queue, qty).len() > 0 ==> queue_left(queue, qty) == 0,
    decreases queue.len(),
{
    if queue.len() > 0 && qty > 0 && queue[0].qty <= qty {
        lemma_rest_or_left(queue.drop_first(), (qty - queue[0].qty) as nat);
    }
}

/// The prices of a side, best first.
pub open spec fn price_order(levels: Levels, side: Side) -> Seq<Price>
    decreases levels.len(),
    when levels.dom().finite()
{
    match best_price(levels, side) {
        Some(p) => seq![p] + price_order(levels.remove(p), side),
        None => seq![],
    }
}

/// The orders of a side in the order in which they trade: by price, then by
/// age.
pub open spec fn in_priority(levels: Levels, side: Side) -> Seq<Order>
    decreases levels.len(),
    when levels.dom().finite()
{
    match best_price(levels, side) {
        Some(p) => levels[p] + in_priority(levels.remove(p), side),
        None => seq![],
    }
}

/// The orders of a side by rising price, then by age.
pub open spec fn in_rising_order(levels: Levels) -> Seq<Order> {
    in_priority(levels, Side::Ask)
}

/// The best `n` levels of a side, each with the quantity that rests there.
pub open spec fn depth(levels: Levels, side: Side, n: nat) -> Seq<(Price, nat)> {
    let prices = price_order(levels, side);
    Seq::new(lesser(n, prices.len()), |i: int| (prices[i], total(levels[prices[i]])))
}

/// The side once orders have come to rest there one after another, each at
/// its own price.
pub open spec fn rested_all(levels: Levels, orders: Seq<Order>) -> Levels
    decreases orders.len(),
{
    if orders.len() == 0 {
        levels
    } else {
        let order = orders.last();
        rested(rested_all(levels, orders.drop_last()), order.price, order)
    }
}

/// A sequence that holds each price of a side, better ones before worse ones,
/// is the side's price order.
pub proof fn lemma_price_order_is(levels: Levels, side: Side, prices: Seq<Price>)
    requires
        levels.dom().finite(),
        forall|i: int, j: int|
            0 <= i < j < prices.len() ==> better(side, #[trigger] prices[i], #[trigger] prices[j]),
        forall|p: Price| #[trigger] levels.contains_key(p) <==> prices.contains(p),
    ensures
        price_order(levels, side) == prices,
    decreases levels.len(),
{
    if prices.len() == 0 {
        assert forall|q: Price| !#[trigger] levels.contains_key(q) by {
            assert(!prices.contains(q));
        }
        lemma_best_none(levels, side);
        assert(prices =~= seq![]);
    } else {
        let p = prices[0];
        let rest = prices.drop_first();
        assert(prices.contains(p));
        assert forall|q: Price| #[trigger] levels.contains_key(q) implies q == p || better(side, p, q) by {
            let i = choose|i: int| 0 <= i < prices.len() && prices[i] == q;
        }
        lemma_best_is(levels, side, p);
        assert forall|q: Price| #[trigger] levels.remove(p).contains_key(q) <==> rest.contains(q) by {
            if levels.remove(p).contains_key(q) {
                let i = choose|i: int| 0 <= i < prices.len() && prices[i] == q;
                assert(rest[i - 1] == q);
            }
            if rest.contains(q) {
                let i = choose|i: int| 0 <= i < rest.len() && rest[i] == q;
                assert(prices[i + 1] == q);
                assert(better(side, prices[0], prices[i + 1]));
                assert(levels.contains_key(q));
            }
        }
        lemma_price_order_is(levels.remove(p), side, rest);
        assert(prices =~= seq![p] + rest);
    }
}

/// Every price of the price order is that of a level.
pub proof fn lemma_price_order_holds(levels: Levels, side: Side, i: int)
    requires
        levels.dom().finite(),
        0 <= i < price_order(levels, side).len(),
    ensures
        levels.contains_key(price_order(levels, side)[i]),
    decreases levels.len(),
{
    let p = best_price(levels, side)->0;
    if i > 0 {
        lemma_price_order_holds(levels.remove(p), side, i - 1);
    }
}

/// Some of the fills come to no more than all of them.
pub proof fn lemma_fills_qty_take(fills: Seq<Fill>, n: int)
    requires
        0 <= n <= fills.len(),
    ensures
        fills_qty(fills.take(n)) <= fills_qty(fills),
    decreases fills.len(),
{
    if n < fills.len() {
        assert(fills.drop_last().take(n) =~= fills.take(n));
        lemma_fills_qty_take(fills.drop_last(), n);
    } else {
        assert(fills.take(n) =~= fills);
    }
}

/// The quantity of two lists of fills, one behind the other.
pub proof fn lemma_fills_qty_add(a: Seq<Fill>, b: Seq<Fill>)
    ensures
        fills_qty(a + b) == fills_qty(a) + fills_qty(b),
    decreases b.len(),
{
    if b.len() == 0 {
        assert(a + b =~= a);
    } else {
        assert((a + b).drop_last() =~= a + b.drop_last());
        lemma_fills_qty_add(a, b.drop_last());
    }
}

/// A queue gives what is taken from it: the fills and what could not be taken
/// make up the quantity, and the fills and what still rests make up the queue.
pub proof fn lemma_queue_conserves(
    queue: Seq<Order>,
    side: Side,
    price: Price,
    qty: nat,
    ts_nanos: u64,
)
    requires
        qty <= u64::MAX,
    ensures
        fills_qty(queue_fills(queue, side, price, qty, ts_nanos)) + queue_left(queue, qty) == qty,
        fills_qty(queue_fills(queue, side, price, qty, ts_nanos)) + total(queue_rest(queue, qty))
            == total(queue),
    decreases queue.len(),
{
    if queue.len() > 0 && qty > 0 {
        let traded = lesser(queue[0].qty as nat, qty);
        let fill = fill_of(queue[0], side, price, traded, ts_nanos);
        let further = queue_fills(queue.drop_first(), side, price, (qty - traded) as nat, ts_nanos);
        lemma_queue_conserves(queue.drop_first(), side, price, (qty - traded) as nat, ts_nanos);
        lemma_fills_qty_add(seq![fill], further);
        assert(seq![fill].drop_last() =~= seq![]);
        assert(fills_qty(seq![fill]) == fills_qty(seq![]) + traded);
        assert(queue.update(0, reduced(queue[0], qty)).drop_first() =~= queue.drop_first());
    }
}

/// The quantity that a sweep takes and the quantity that it leaves make up
/// what was asked for.
pub proof fn lemma_sweep_conserves(
    levels: Levels,
    side: Side,
    limit: Option<Price>,
    qty: nat,
    ts_nanos: u64,
)
    requires
        levels.dom().finite(),
        qty <= u64::MAX,
    ensures
        fills_qty(sweep(levels, side, limit, qty, ts_nanos).fills) + sweep(
            levels,
            side,
            limit,
            qty,
            ts_nanos,
        ).left == qty,
    decreases levels.len(),
{
    let best = best_price(levels, side);
    if !(qty == 0 || best is None || !within(side, best->0, limit)) {
        let p = best->0;
        let fills = queue_fills(levels[p], side, p, qty, ts_nanos);
        lemma_queue_conserves(levels[p], side, p, qty, ts_nanos);
        lemma_rest_or_left(levels[p], qty);
        if queue_rest(levels[p], qty).len() == 0 {
            let left = queue_left(levels[p], qty);
            lemma_sweep_conserves(levels.remove(p), side, limit, left, ts_nanos);
            lemma_fills_qty_add(fills, sweep(levels.remove(p), side, limit, left, ts_nanos).fills);
        }
    }
}

/// There is one oldest order of a name.
pub proof fn lemma_position_is(queue: Seq<Order>, id: OrderId, i: int)
    requires
        is_position(queue, id, i),
    ensures
        position(queue, id) == Some(i),
{
    let k = choose|k: int| is_position(queue, id, k);
    assert(is_position(queue, id, k));
    if k < i {
        assert(queue[k].id != id);
    } else if i < k {
        assert(queue[i].id != id);
    }
}

} // verus!
