//! What holds of every order book, whatever is done to it.
use crate::levels::{
    best_price, better, cancelled, is_best, is_position, lemma_position_is, position, queue_at,
    queue_left, queue_rest, queue_traded, reduced, rested, rested_all, sweep, traded, with_queue,
    within, Levels,
};
use crate::orderbook::{orders_of, BookView};
use crate::types::{MarketEvent, Order, OrderId, Price, ResyncRow, Side};
use vstd::prelude::*;

verus! {

/// Whether an order belongs where it rests.
pub open spec fn belongs(order: Order, side: Side, p: Price) -> bool {
    order.side == side && order.price == p
}

/// Whether a side is in order: it has finitely many levels, none of them
/// empty, and each order rests on its own side at its own price.
pub open spec fn side_sound(levels: Levels, side: Side) -> bool {
    &&& levels.dom().finite()
    &&& forall|p: Price| #[trigger] levels.contains_key(p) ==> queue_sound(levels[p], side, p)
}

/// Whether a queue is in order: it is not empty, and each order belongs there.
pub open spec fn queue_sound(queue: Seq<Order>, side: Side, p: Price) -> bool {
    &&& queue.len() > 0
    &&& forall|i: int| 0 <= i < queue.len() ==> belongs(#[trigger] queue[i], side, p)
}

impl BookView {
    /// Whether both sides are in order.
    pub open spec fn sound(self) -> bool {
        side_sound(self.bids, Side::Bid) && side_sound(self.asks, Side::Ask)
    }

    /// Whether every bid lies below every ask.
    pub open spec fn uncrossed(self) -> bool {
        forall|b: Price, a: Price| #[trigger]
            self.bids.contains_key(b) && #[trigger] self.asks.contains_key(a) ==> b < a
    }
}

/// A side that has a level has a best one.
pub proof fn lemma_best_exists(levels: Levels, side: Side, p: Price)
    requires
        levels.dom().finite(),
        levels.contains_key(p),
    ensures
        best_price(levels, side) is Some,
        is_best(levels, side, best_price(levels, side)->0),
    decreases levels.len(),
{
    let rest = levels.remove(p);
    if exists|q: Price| rest.contains_key(q) {
        let q = choose|q: Price| rest.contains_key(q);
        lemma_best_exists(rest, side, q);
        let b = best_price(rest, side)->0;
        if better(side, p, b) {
            assert forall|r: Price| #[trigger] levels.contains_key(r) implies r == p || better(
                side,
                p,
                r,
            ) by {
                assert(r == p || rest.contains_key(r));
            }
            assert(is_best(levels, side, p));
        } else {
            assert forall|r: Price| #[trigger] levels.contains_key(r) implies r == b || better(
                side,
                b,
                r,
            ) by {
                assert(r == p || rest.contains_key(r));
            }
            assert(levels.contains_key(b));
            assert(is_best(levels, side, b));
        }
    } else {
        assert forall|r: Price| #[trigger] levels.contains_key(r) implies r == p by {
            assert(r == p || rest.contains_key(r));
        }
        assert(is_best(levels, side, p));
    }
}

/// What rests in a queue after some of it was taken still belongs there.
proof fn lemma_rest_belongs(queue: Seq<Order>, side: Side, p: Price, qty: nat)
    requires
        forall|i: int| 0 <= i < queue.len() ==> belongs(#[trigger] queue[i], side, p),
    ensures
        forall|i: int|
            0 <= i < queue_rest(queue, qty).len() ==> belongs(
                #[trigger] queue_rest(queue, qty)[i],
                side,
                p,
            ),
    decreases queue.len(),
{
    if queue.len() == 0 || qty == 0 {
        assert(queue_rest(queue, qty) == queue);
    } else if queue[0].qty <= qty {
        let further = queue_rest(queue.drop_first(), (qty - queue[0].qty) as nat);
        lemma_rest_belongs(queue.drop_first(), side, p, (qty - queue[0].qty) as nat);
        assert(queue_rest(queue, qty) == further);
    } else {
        assert(belongs(queue[0], side, p));
        assert(queue_rest(queue, qty) == queue.update(0, reduced(queue[0], qty)));
    }
}

/// A sweep keeps a side in order, opens no level, and leaves a quantity over
/// only once no level is left that the limit admits.
pub proof fn lemma_sweep(
    levels: Levels,
    side: Side,
    limit: Option<Price>,
    qty: nat,
    ts_nanos: u64,
)
    requires
        levels.dom().finite(),
    ensures
        ({
            let swept = sweep(levels, side, limit, qty, ts_nanos);
            &&& swept.levels.dom().finite()
            &&& swept.levels.dom().subset_of(levels.dom())
            &&& side_sound(levels, side) ==> side_sound(swept.levels, side)
            &&& swept.left > 0 ==> forall|p: Price| #[trigger]
                swept.levels.contains_key(p) ==> !within(side, p, limit)
        }),
    decreases levels.len(),
{
    let swept = sweep(levels, side, limit, qty, ts_nanos);
    let best = best_price(levels, side);
    if qty == 0 {
    } else if best is None || !within(side, best->0, limit) {
        assert forall|p: Price| #[trigger] levels.contains_key(p) implies !within(
            side,
            p,
            limit,
        ) by {
            lemma_best_exists(levels, side, p);
        }
    } else {
        let p = best->0;
        let rest = queue_rest(levels[p], qty);
        assert(is_best(levels, side, p));
        if rest.len() > 0 {
            if side_sound(levels, side) {
                assert(queue_sound(levels[p], side, p));
                lemma_rest_belongs(levels[p], side, p, qty);
                assert(queue_sound(rest, side, p));
                assert forall|q: Price| #[trigger] swept.levels.contains_key(q) implies queue_sound(
                    swept.levels[q],
                    side,
                    q,
                ) by {
                    assert(levels.contains_key(q));
                }
            }
        } else {
            let left = queue_left(levels[p], qty);
            lemma_sweep(levels.remove(p), side, limit, left, ts_nanos);
            if side_sound(levels, side) {
                assert forall|q: Price| #[trigger] levels.remove(p).contains_key(q) implies queue_sound(
                    levels.remove(p)[q],
                    side,
                    q,
                ) by {
                    assert(levels.contains_key(q));
                }
            }
        }
    }
}

/// A queue put in place keeps a side in order, if its orders belong there.
proof fn lemma_with_queue_sound(levels: Levels, side: Side, p: Price, queue: Seq<Order>)
    requires
        side_sound(levels, side),
        forall|i: int| 0 <= i < queue.len() ==> belongs(#[trigger] queue[i], side, p),
    ensures
        side_sound(with_queue(levels, p, queue), side),
{
    let after = with_queue(levels, p, queue);
    assert forall|q: Price| #[trigger] after.contains_key(q) implies queue_sound(
        after[q],
        side,
        q,
    ) by {
        if q != p {
            assert(levels.contains_key(q));
        }
    }
}

/// An order that comes to rest keeps its side in order.
proof fn lemma_rested_sound(levels: Levels, side: Side, order: Order)
    requires
        side_sound(levels, side),
        order.side == side,
    ensures
        side_sound(rested(levels, order.price, order), side),
{
    if levels.contains_key(order.price) {
        assert(queue_sound(levels[order.price], side, order.price));
    }
    lemma_with_queue_sound(
        levels,
        side,
        order.price,
        queue_at(levels, order.price).push(order),
    );
}

/// A cancel keeps a side in order.
proof fn lemma_cancelled_sound(levels: Levels, side: Side, p: Price, id: OrderId)
    requires
        side_sound(levels, side),
    ensures
        side_sound(cancelled(levels, p, id), side),
{
    if let Some(i) = position(queue_at(levels, p), id) {
        assert(levels.contains_key(p));
        assert(queue_sound(levels[p], side, p));
        lemma_with_queue_sound(levels, side, p, levels[p].remove(i));
    }
}

/// A reported trade keeps a side in order.
proof fn lemma_traded_sound(levels: Levels, side: Side, p: Price, id: OrderId, qty: nat)
    requires
        side_sound(levels, side),
    ensures
        side_sound(traded(levels, p, id, qty), side),
{
    if levels.contains_key(p) {
        assert(queue_sound(levels[p], side, p));
        lemma_with_queue_sound(levels, side, p, queue_traded(levels[p], id, qty));
    }
}

/// Orders that come to rest one after another keep their side in order.
proof fn lemma_rested_all_sound(levels: Levels, side: Side, orders: Seq<Order>)
    requires
        side_sound(levels, side),
        forall|i: int| 0 <= i < orders.len() ==> (#[trigger] orders[i]).side == side,
    ensures
        side_sound(rested_all(levels, orders), side),
    decreases orders.len(),
{
    if orders.len() > 0 {
        lemma_rested_all_sound(levels, side, orders.drop_last());
        lemma_rested_sound(rested_all(levels, orders.drop_last()), side, orders.last());
    }
}

/// A book without orders is in order and uncrossed.
pub proof fn law_empty_book_is_sound()
    ensures
        BookView::empty().sound(),
        BookView::empty().uncrossed(),
{
}

/// A limit order keeps a book in order, and an uncrossed book uncrossed:
/// whatever it could trade with, it has traded with before it rests.
pub proof fn law_limit_order_never_crosses(book: BookView, order: Order)
    requires
        book.finite(),
    ensures
        book.sound() ==> book.submitted(order).book.sound(),
        book.uncrossed() ==> book.submitted(order).book.uncrossed(),
{
    let side = order.side.flipped();
    let swept = sweep(
        book.side(side),
        side,
        Some(order.price),
        order.qty as nat,
        order.ts_nanos,
    );
    lemma_sweep(book.side(side), side, Some(order.price), order.qty as nat, order.ts_nanos);
    if swept.left > 0 {
        let resting = Order { qty: swept.left as u64, ..order };
        if book.sound() {
            lemma_rested_sound(book.side(order.side), order.side, resting);
        }
    }
}

/// A market order keeps a book in order, and an uncrossed book uncrossed.
pub proof fn law_market_order_never_crosses(book: BookView, side: Side, qty: nat, ts_nanos: u64)
    requires
        book.finite(),
    ensures
        book.sound() ==> book.with_side(side, book.taken(side, qty, ts_nanos).levels).sound(),
        book.uncrossed() ==> book.with_side(
            side,
            book.taken(side, qty, ts_nanos).levels,
        ).uncrossed(),
{
    lemma_sweep(book.side(side), side, None, qty, ts_nanos);
}

/// A cancel keeps a book in order, and an uncrossed book uncrossed.
pub proof fn law_cancel_never_crosses(book: BookView, side: Side, p: Price, id: OrderId)
    ensures
        book.sound() ==> book.with_side(side, cancelled(book.side(side), p, id)).sound(),
        book.uncrossed() ==> book.with_side(
            side,
            cancelled(book.side(side), p, id),
        ).uncrossed(),
{
    if book.sound() {
        lemma_cancelled_sound(book.side(side), side, p, id);
    }
}

/// A cancel undoes the coming to rest of an order that has a name of its own at
/// its price. A level without orders is the one thing that it does not bring
/// back.
pub proof fn law_cancel_undoes_rest(book: BookView, order: Order)
    requires
        book.side(order.side).contains_key(order.price) ==> book.side(
            order.side,
        )[order.price].len() > 0,
        position(queue_at(book.side(order.side), order.price), order.id) is None,
    ensures
        ({
            let resting = book.resting(order);
            let levels = cancelled(resting.side(order.side), order.price, order.id);
            resting.with_side(order.side, levels) == book
        }),
{
    let levels = book.side(order.side);
    let p = order.price;
    let queue = queue_at(levels, p);
    let resting = book.resting(order);
    let last = queue.len() as int;
    assert forall|j: int| 0 <= j < last implies (#[trigger] queue.push(order)[j]).id != order.id by {
        if queue[j].id == order.id {
            lemma_some_position(queue, order.id, j);
        }
    }
    assert(is_position(queue.push(order), order.id, last));
    lemma_position_is(queue.push(order), order.id, last);
    assert(queue.push(order).remove(last) =~= queue);
    assert(cancelled(resting.side(order.side), p, order.id) =~= levels);
    assert(resting.with_side(order.side, levels) =~= book);
}

/// A queue that names an order has a place for it.
pub proof fn lemma_some_position(queue: Seq<Order>, id: OrderId, i: int)
    requires
        0 <= i < queue.len(),
        queue[i].id == id,
    ensures
        position(queue, id) is Some,
    decreases i,
{
    if exists|j: int| 0 <= j < i && (#[trigger] queue[j]).id == id {
        let j = choose|j: int| 0 <= j < i && (#[trigger] queue[j]).id == id;
        lemma_some_position(queue, id, j);
    } else {
        assert(is_position(queue, id, i));
    }
}

/// An order that comes to rest keeps a book in order. It can cross the other
/// side.
pub proof fn law_rest_keeps_books_sound(book: BookView, order: Order)
    requires
        book.sound(),
    ensures
        book.resting(order).sound(),
{
    lemma_rested_sound(book.side(order.side), order.side, order);
}

/// A reported trade keeps a book in order, and an uncrossed book uncrossed.
pub proof fn law_trade_never_crosses(
    book: BookView,
    side: Side,
    p: Price,
    id: OrderId,
    qty: nat,
)
    ensures
        book.sound() ==> book.with_side(side, traded(book.side(side), p, id, qty)).sound(),
        book.uncrossed() ==> book.with_side(
            side,
            traded(book.side(side), p, id, qty),
        ).uncrossed(),
{
    if book.sound() {
        lemma_traded_sound(book.side(side), side, p, id, qty);
    }
}

/// Whatever is replayed into a book, it stays in order. A replayed book can be
/// crossed for a while, since an event can be missing.
pub proof fn law_replay_keeps_books_sound(book: BookView, event: MarketEvent)
    requires
        book.sound(),
    ensures
        book.replayed(event).sound(),
{
    match event {
        MarketEvent::Add { order_id, side, price, qty, ts_nanos, is_ours } => {
            law_rest_keeps_books_sound(
                book,
                Order { id: order_id, side, price, qty, ts_nanos, is_ours },
            );
        },
        MarketEvent::Cancel { order_id, side, price, .. } => {
            law_cancel_never_crosses(book, side, price, order_id);
        },
        MarketEvent::Trade { resting_order_id, side_of_resting_order, price, qty, .. } => {
            law_trade_never_crosses(
                book,
                side_of_resting_order,
                price,
                resting_order_id,
                qty as nat,
            );
        },
    }
}

/// A book that is rebuilt from a snapshot is in order, whatever the snapshot
/// holds.
pub proof fn law_rebuilt_books_are_sound(
    bids: Seq<ResyncRow>,
    asks: Seq<ResyncRow>,
    ts_nanos: u64,
)
    ensures
        BookView::rebuilt(bids, asks, ts_nanos).sound(),
{
    lemma_rested_all_sound(Map::empty(), Side::Bid, orders_of(bids, Side::Bid, ts_nanos));
    lemma_rested_all_sound(Map::empty(), Side::Ask, orders_of(asks, Side::Ask, ts_nanos));
}

} // verus!
