//! What a match owes to the orders that rest: which of them trade, in which
//! order, how much each gives, and what each fill tells of them.
//!
//! Everything here is said of the orders before and after a match and of its
//! fills, field by field.
use crate::book_laws::lemma_best_exists;
use crate::levels::{
    best_price, is_best, lemma_rest_or_left, lesser, queue_fills, queue_left, queue_rest, reduced,
    sweep, total, within, Levels,
};
use crate::orderbook::BookView;
use crate::types::{Fill, Order, OrderId, Price, Side};
use vstd::prelude::*;

verus! {

/// Whether orders at `p` trade before orders at `q`: bids from the highest price
/// down, asks from the lowest price up.
pub open spec fn ahead(side: Side, p: Price, q: Price) -> bool {
    ||| side == Side::Bid && p > q
    ||| side == Side::Ask && p < q
}

/// Whether an order that rests at `p` is no worse than a limit asks. No limit
/// asks for nothing.
pub open spec fn meets(side: Side, p: Price, limit: Option<Price>) -> bool {
    ||| limit is None
    ||| side == Side::Bid && p >= limit->0
    ||| side == Side::Ask && p <= limit->0
}

/// The quantity of the orders of a queue that belong to a class, by their name
/// and by whether they are ours.
pub open spec fn qty_where(queue: Seq<Order>, class: spec_fn(OrderId, bool) -> bool) -> int
    decreases queue.len(),
{
    if queue.len() == 0 {
        0
    } else {
        qty_where(queue.drop_last(), class) + if class(queue.last().id, queue.last().is_ours) {
            queue.last().qty as int
        } else {
            0
        }
    }
}

/// The quantity of the fills at `p` against orders of a class.
pub open spec fn filled_where(
    fills: Seq<Fill>,
    p: Price,
    class: spec_fn(OrderId, bool) -> bool,
) -> int
    decreases fills.len(),
{
    if fills.len() == 0 {
        0
    } else {
        let fill = fills.last();
        filled_where(fills.drop_last(), p, class) + if fill.price == p && class(
            fill.resting_order_id,
            fill.resting_is_ours,
        ) {
            fill.qty as int
        } else {
            0
        }
    }
}

/// The quantity of all fills.
pub open spec fn filled(fills: Seq<Fill>) -> int
    decreases fills.len(),
{
    if fills.len() == 0 {
        0
    } else {
        filled(fills.drop_last()) + fills.last().qty
    }
}

/// The orders at a price, none where there is no level.
pub open spec fn orders_at(levels: Levels, p: Price) -> Seq<Order> {
    if levels.contains_key(p) {
        levels[p]
    } else {
        Seq::empty()
    }
}

/// Whether a fill tells of an order at its price: the order's name, whether it is
/// ours, its side, and no more than the quantity that it had.
pub open spec fn is_fill_of(fill: Fill, side: Side, p: Price, ts_nanos: u64, order: Order) -> bool {
    &&& fill.resting_order_id == order.id
    &&& fill.resting_is_ours == order.is_ours
    &&& fill.side_of_resting_order == side
    &&& fill.price == p
    &&& fill.ts_nanos == ts_nanos
    &&& fill.qty <= order.qty
}

/// Whether a fill is the first one at its price.
pub open spec fn opens_level(fills: Seq<Fill>, i: int) -> bool {
    forall|j: int| 0 <= j < i ==> (#[trigger] fills[j]).price != fills[i].price
}

/// Whether each fill tells of the order that stands at its place in the queue at
/// its price. The best price comes first and the oldest order first, none is
/// passed over, and each gives all that it has before the next gives anything.
#[verifier::opaque]
pub open spec fn tells_of(
    before: Levels,
    side: Side,
    limit: Option<Price>,
    ts_nanos: u64,
    fills: Seq<Fill>,
    places: Seq<int>,
) -> bool {
    &&& places.len() == fills.len()
    &&& forall|i: int|
        0 <= i < fills.len() ==> {
            let p = (#[trigger] fills[i]).price;
            &&& before.contains_key(p)
            &&& meets(side, p, limit)
            &&& 0 <= places[i] < before[p].len()
            &&& is_fill_of(fills[i], side, p, ts_nanos, before[p][places[i]])
            &&& i < fills.len() - 1 ==> fills[i].qty == before[p][places[i]].qty
        }
    &&& forall|i: int, j: int|
        #![trigger fills[i], fills[j]]
        0 <= i < j < fills.len() ==> {
            ||| ahead(side, fills[i].price, fills[j].price)
            ||| fills[i].price == fills[j].price && places[j] - places[i] == j - i
        }
    &&& forall|i: int|
        0 <= i < fills.len() && #[trigger] opens_level(fills, i) ==> places[i] == 0
}

/// Whether the queue after is what is left at the end of the queue before: some
/// of the oldest orders are gone, the next one may have lost some of its
/// quantity, and all others are as they were.
pub open spec fn is_left_of(after: Seq<Order>, before: Seq<Order>) -> bool {
    let gone = before.len() - after.len();
    &&& gone >= 0
    &&& forall|i: int| 0 < i < after.len() ==> #[trigger] after[i] == before[gone + i]
    &&& after.len() > 0 ==> {
        &&& after[0] == (Order { qty: after[0].qty, ..before[gone] })
        &&& after[0].qty == before[gone].qty || 0 < after[0].qty < before[gone].qty
    }
}

/// What a match for `qty` within `limit` owes to the side that it trades with.
#[verifier::opaque]
pub open spec fn is_fair(
    before: Levels,
    side: Side,
    limit: Option<Price>,
    qty: nat,
    ts_nanos: u64,
    fills: Seq<Fill>,
    after: Levels,
    left: nat,
) -> bool {
    // the fills tell of the orders that rested, in the order of priority
    &&& exists|places: Seq<int>| #[trigger]
        tells_of(before, side, limit, ts_nanos, fills, places)
    // every class of orders has lost what the fills tell, at every price
    &&& forall|p: Price, class: spec_fn(OrderId, bool) -> bool|
        #![trigger filled_where(fills, p, class)]
        qty_where(orders_at(before, p), class) == qty_where(orders_at(after, p), class)
            + filled_where(fills, p, class)
    // the oldest orders went first
    &&& forall|p: Price|
        #![trigger after.contains_key(p)]
        after.contains_key(p) ==> before.contains_key(p) && is_left_of(after[p], before[p])
    // what the limit does not admit is as it was
    &&& forall|p: Price|
        #![trigger after.contains_key(p)]
        #![trigger before.contains_key(p)]
        !meets(side, p, limit) && before.contains_key(p) ==> after.contains_key(p) && after[p]
            == before[p]
    // no worse price trades while a better one still has orders
    &&& forall|i: int, p: Price|
        #![trigger fills[i], after.contains_key(p)]
        0 <= i < fills.len() && ahead(side, p, fills[i].price) ==> !after.contains_key(p)
    // nothing is left over while the limit still admits a level
    &&& left > 0 ==> forall|p: Price| #[trigger]
        after.contains_key(p) ==> !meets(side, p, limit)
    // what was asked for was traded or is left over
    &&& filled(fills) + left == qty
}

/// Sums over queues, one behind the other.
proof fn lemma_qty_where_add(
    a: Seq<Order>,
    b: Seq<Order>,
    class: spec_fn(OrderId, bool) -> bool,
)
    ensures
        qty_where(a + b, class) == qty_where(a, class) + qty_where(b, class),
    decreases b.len(),
{
    if b.len() == 0 {
        assert(a + b =~= a);
    } else {
        assert((a + b).drop_last() =~= a + b.drop_last());
        lemma_qty_where_add(a, b.drop_last(), class);
    }
}

/// Sums over fills, one behind the other.
proof fn lemma_filled_add(a: Seq<Fill>, b: Seq<Fill>)
    ensures
        filled(a + b) == filled(a) + filled(b),
        forall|p: Price, class: spec_fn(OrderId, bool) -> bool| #[trigger]
            filled_where(a + b, p, class) == filled_where(a, p, class) + filled_where(b, p, class),
    decreases b.len(),
{
    if b.len() == 0 {
        assert(a + b =~= a);
    } else {
        assert((a + b).drop_last() =~= a + b.drop_last());
        lemma_filled_add(a, b.drop_last());
        assert forall|p: Price, class: spec_fn(OrderId, bool) -> bool| #[trigger]
            filled_where(a + b, p, class) == filled_where(a, p, class) + filled_where(
            b,
            p,
            class,
        ) by {
            assert(filled_where((a + b).drop_last(), p, class) == filled_where(a, p, class)
                + filled_where(b.drop_last(), p, class)) by {
                assert((a + b).drop_last() == a + b.drop_last());
                assert(filled_where(a + b.drop_last(), p, class) == filled_where(a, p, class)
                    + filled_where(b.drop_last(), p, class));
            }
        }
    }
}

/// Fills at other prices do not count.
proof fn lemma_filled_elsewhere(
    fills: Seq<Fill>,
    p: Price,
    class: spec_fn(OrderId, bool) -> bool,
)
    requires
        forall|i: int| 0 <= i < fills.len() ==> (#[trigger] fills[i]).price != p,
    ensures
        filled_where(fills, p, class) == 0,
    decreases fills.len(),
{
    if fills.len() > 0 {
        lemma_filled_elsewhere(fills.drop_last(), p, class);
    }
}

/// One order, one sum.
proof fn lemma_qty_where_one(order: Order, class: spec_fn(OrderId, bool) -> bool)
    ensures
        qty_where(seq![order], class) == if class(order.id, order.is_ours) {
            order.qty as int
        } else {
            0
        },
{
    assert(seq![order].drop_last() =~= seq![]);
    assert(qty_where(seq![], class) == 0);
}

/// One fill, one sum.
proof fn lemma_filled_one(fill: Fill)
    ensures
        filled(seq![fill]) == fill.qty,
        forall|p: Price, class: spec_fn(OrderId, bool) -> bool| #[trigger]
            filled_where(seq![fill], p, class) == if fill.price == p && class(
                fill.resting_order_id,
                fill.resting_is_ours,
            ) {
                fill.qty as int
            } else {
                0
            },
{
    assert(seq![fill].drop_last() =~= seq![]);
    assert(filled(seq![]) == 0);
    assert forall|p: Price, class: spec_fn(OrderId, bool) -> bool| #[trigger]
        filled_where(seq![fill], p, class) == if fill.price == p && class(
        fill.resting_order_id,
        fill.resting_is_ours,
    ) {
        fill.qty as int
    } else {
        0
    } by {
        assert(filled_where(seq![], p, class) == 0);
        assert(filled_where(seq![fill].drop_last(), p, class) == 0);
    }
}

/// What taking from one queue does, order by order.
proof fn lemma_queue_is_fair(queue: Seq<Order>, side: Side, p: Price, qty: nat, ts_nanos: u64)
    ensures
        ({
            let fills = queue_fills(queue, side, p, qty, ts_nanos);
            let rest = queue_rest(queue, qty);
            &&& fills.len() <= queue.len()
            &&& forall|i: int|
                0 <= i < fills.len() ==> {
                    &&& is_fill_of(#[trigger] fills[i], side, p, ts_nanos, queue[i])
                    &&& i < fills.len() - 1 ==> fills[i].qty == queue[i].qty
                }
            &&& is_left_of(rest, queue)
            &&& rest.len() == 0 ==> fills.len() == queue.len() && (fills.len() > 0
                ==> fills.last().qty == queue.last().qty)
            &&& forall|class: spec_fn(OrderId, bool) -> bool| #[trigger]
                qty_where(queue, class) == qty_where(rest, class) + filled_where(fills, p, class)
            &&& filled(fills) + queue_left(queue, qty) == qty
        }),
    decreases queue.len(),
{
    let fills = queue_fills(queue, side, p, qty, ts_nanos);
    let rest = queue_rest(queue, qty);
    if queue.len() == 0 || qty == 0 {
        assert(fills =~= seq![]);
        assert(rest == queue);
        assert forall|class: spec_fn(OrderId, bool) -> bool| #[trigger]
            qty_where(queue, class) == qty_where(rest, class) + filled_where(fills, p, class) by {
            assert(filled_where(seq![], p, class) == 0);
        }
        assert(filled(seq![]) == 0);
        assert(total(queue) >= 0);
    } else {
        let amount = lesser(queue[0].qty as nat, qty);
        let others = queue.drop_first();
        let further = queue_fills(others, side, p, (qty - amount) as nat, ts_nanos);
        let first = fills[0];
        lemma_queue_is_fair(others, side, p, (qty - amount) as nat, ts_nanos);
        assert(fills =~= seq![first] + further);
        assert(queue =~= seq![queue[0]] + others);
        lemma_filled_add(seq![first], further);
        lemma_filled_one(first);
        assert forall|i: int| 0 <= i < fills.len() implies {
            &&& is_fill_of(#[trigger] fills[i], side, p, ts_nanos, queue[i])
            &&& i < fills.len() - 1 ==> fills[i].qty == queue[i].qty
        } by {
            if i > 0 {
                assert(fills[i] == further[i - 1]);
                assert(queue[i] == others[i - 1]);
            } else if queue[0].qty > qty {
                assert(further =~= seq![]);
            }
        }
        if queue[0].qty <= qty {
            let further_rest = queue_rest(others, (qty - queue[0].qty) as nat);
            assert(rest == further_rest);
            let gone = others.len() - rest.len();
            assert forall|i: int| 0 < i < rest.len() implies #[trigger] rest[i] == queue[gone + 1
                + i] by {
                assert(rest[i] == others[gone + i]);
            }
            if rest.len() > 0 {
                assert(queue[gone + 1] == others[gone]);
            }
            if rest.len() == 0 && further.len() > 0 {
                assert(fills.last() == further.last());
                assert(queue.last() == others.last());
            }
            assert forall|class: spec_fn(OrderId, bool) -> bool| #[trigger]
                qty_where(queue, class) == qty_where(rest, class) + filled_where(
                fills,
                p,
                class,
            ) by {
                lemma_qty_where_add(seq![queue[0]], others, class);
                lemma_qty_where_one(queue[0], class);
                assert(qty_where(others, class) == qty_where(rest, class) + filled_where(
                    further,
                    p,
                    class,
                ));
                assert(filled_where(seq![first] + further, p, class) == filled_where(
                    seq![first],
                    p,
                    class,
                ) + filled_where(further, p, class));
            }
        } else {
            let front = reduced(queue[0], qty);
            assert(further =~= seq![]);
            assert(rest == queue.update(0, front));
            assert(rest =~= seq![front] + others);
            assert forall|class: spec_fn(OrderId, bool) -> bool| #[trigger]
                qty_where(queue, class) == qty_where(rest, class) + filled_where(
                fills,
                p,
                class,
            ) by {
                lemma_qty_where_add(seq![queue[0]], others, class);
                lemma_qty_where_add(seq![front], others, class);
                lemma_qty_where_one(queue[0], class);
                lemma_qty_where_one(front, class);
                assert(filled_where(further, p, class) == 0);
                assert(filled_where(seq![first] + further, p, class) == filled_where(
                    seq![first],
                    p,
                    class,
                ) + filled_where(further, p, class));
            }
        }
    }
}

/// A match is fair to the side that it trades with.
proof fn lemma_sweep_is_fair(
    levels: Levels,
    side: Side,
    limit: Option<Price>,
    qty: nat,
    ts_nanos: u64,
)
    requires
        levels.dom().finite(),
    ensures
        ({
            let swept = sweep(levels, side, limit, qty, ts_nanos);
            is_fair(
                levels,
                side,
                limit,
                qty,
                ts_nanos,
                swept.fills,
                swept.levels,
                swept.left,
            )
        }),
    decreases levels.len(),
{
    reveal(is_fair);
    let swept = sweep(levels, side, limit, qty, ts_nanos);
    let (fills, after) = (swept.fills, swept.levels);
    let best = best_price(levels, side);
    assert forall|p: Price| #[trigger] meets(side, p, limit) == within(side, p, limit) by {}
    if qty == 0 || best is None || !within(side, best->0, limit) {
        assert(fills =~= seq![]);
        assert(after == levels && swept.left == qty);
        assert(filled(seq![]) == 0);
        assert(tells_of(levels, side, limit, ts_nanos, fills, seq![])) by {
            reveal(tells_of);
        }
        assert forall|p: Price, class: spec_fn(OrderId, bool) -> bool| #[trigger]
            filled_where(fills, p, class) == 0 by {
            assert(filled_where(seq![], p, class) == 0);
        }
        if qty > 0 {
            assert forall|p: Price| #[trigger] after.contains_key(p) implies !meets(
                side,
                p,
                limit,
            ) by {
                lemma_best_exists(levels, side, p);
            }
        }
    } else {
        let p = best->0;
        let queue = levels[p];
        let first = queue_fills(queue, side, p, qty, ts_nanos);
        let rest = queue_rest(queue, qty);
        let left = queue_left(queue, qty);
        assert(is_best(levels, side, p));
        lemma_queue_is_fair(queue, side, p, qty, ts_nanos);
        lemma_rest_or_left(queue, qty);
        if rest.len() > 0 {
            assert(fills == first);
            lemma_places_first(levels, side, limit, ts_nanos, p, first);
            assert forall|q: Price, class: spec_fn(OrderId, bool) -> bool| #[trigger]
                filled_where(fills, q, class) == qty_where(orders_at(levels, q), class) - qty_where(
                orders_at(after, q),
                class,
            ) by {
                if q == p {
                    assert(qty_where(queue, class) == qty_where(rest, class) + filled_where(
                        first,
                        p,
                        class,
                    ));
                } else {
                    lemma_filled_elsewhere(first, q, class);
                }
            }
            assert forall|i: int, q: Price| #![trigger fills[i], after.contains_key(q)]
                0 <= i < fills.len() && ahead(side, q, fills[i].price) implies !after.contains_key(
                q,
            ) by {
                if after.contains_key(q) {
                    assert(levels.contains_key(q));
                }
            }
        } else {
            let others = levels.remove(p);
            let further = sweep(others, side, limit, left, ts_nanos);
            lemma_sweep_is_fair(others, side, limit, left, ts_nanos);
            lemma_filled_add(first, further.fills);
            assert(fills == first + further.fills && after == further.levels);
            let later = choose|places: Seq<int>| #[trigger]
                tells_of(others, side, limit, ts_nanos, further.fills, places);
            lemma_places_join(levels, side, limit, ts_nanos, p, first, further.fills, later);
            assert forall|q: Price, class: spec_fn(OrderId, bool) -> bool| #[trigger]
                filled_where(fills, q, class) == qty_where(orders_at(levels, q), class) - qty_where(
                orders_at(after, q),
                class,
            ) by {
                assert(filled_where(first + further.fills, q, class) == filled_where(
                    first,
                    q,
                    class,
                ) + filled_where(further.fills, q, class));
                assert(qty_where(orders_at(others, q), class) == qty_where(
                    orders_at(after, q),
                    class,
                ) + filled_where(further.fills, q, class));
                if q == p {
                    assert(qty_where(queue, class) == qty_where(rest, class) + filled_where(
                        first,
                        p,
                        class,
                    ));
                    assert(qty_where(rest, class) == 0);
                    assert(qty_where(orders_at(others, p), class) == 0);
                } else {
                    lemma_filled_elsewhere(first, q, class);
                }
            }
            assert forall|q: Price| #![trigger after.contains_key(q)]
                after.contains_key(q) implies levels.contains_key(q) && is_left_of(
                after[q],
                levels[q],
            ) by {
                assert(others.contains_key(q));
            }
            assert forall|q: Price|
                #![trigger after.contains_key(q)]
                #![trigger levels.contains_key(q)]
                !meets(side, q, limit) && levels.contains_key(q) implies after.contains_key(q)
                && after[q] == levels[q] by {
                assert(others.contains_key(q));
            }
            assert forall|i: int, q: Price| #![trigger fills[i], after.contains_key(q)]
                0 <= i < fills.len() && ahead(side, q, fills[i].price) implies !after.contains_key(
                q,
            ) by {
                if after.contains_key(q) {
                    assert(others.contains_key(q));
                    assert(levels.contains_key(q));
                    if i >= first.len() {
                        assert(fills[i] == further.fills[i - first.len()]);
                    } else {
                        assert(fills[i] == first[i]);
                    }
                }
            }
        }
    }
}

/// The fills of one queue tell of it.
proof fn lemma_places_first(
    levels: Levels,
    side: Side,
    limit: Option<Price>,
    ts_nanos: u64,
    p: Price,
    fills: Seq<Fill>,
)
    requires
        levels.contains_key(p),
        meets(side, p, limit),
        fills.len() <= levels[p].len(),
        forall|i: int|
            0 <= i < fills.len() ==> {
                &&& is_fill_of(#[trigger] fills[i], side, p, ts_nanos, levels[p][i])
                &&& i < fills.len() - 1 ==> fills[i].qty == levels[p][i].qty
            },
    ensures
        tells_of(levels, side, limit, ts_nanos, fills, Seq::new(fills.len(), |i: int| i)),
{
    reveal(tells_of);
    let places = Seq::new(fills.len(), |i: int| i);
    assert forall|i: int|
        0 <= i < fills.len() && #[trigger] opens_level(fills, i) implies places[i] == 0 by {
        if i > 0 {
            assert(fills[0].price == p && fills[i].price == p);
        }
    }
}

/// The fills of the best level, and behind them those of the other levels, tell
/// of the side.
proof fn lemma_places_join(
    levels: Levels,
    side: Side,
    limit: Option<Price>,
    ts_nanos: u64,
    p: Price,
    first: Seq<Fill>,
    further: Seq<Fill>,
    later: Seq<int>,
)
    requires
        is_best(levels, side, p),
        meets(side, p, limit),
        first.len() <= levels[p].len(),
        forall|i: int|
            0 <= i < first.len() ==> {
                &&& is_fill_of(#[trigger] first[i], side, p, ts_nanos, levels[p][i])
                &&& first[i].qty == levels[p][i].qty
            },
        tells_of(levels.remove(p), side, limit, ts_nanos, further, later),
    ensures
        tells_of(
            levels,
            side,
            limit,
            ts_nanos,
            first + further,
            Seq::new(first.len(), |i: int| i) + later,
        ),
{
    reveal(tells_of);
    let others = levels.remove(p);
    let fills = first + further;
    let n = first.len() as int;
    let places = Seq::new(first.len(), |i: int| i) + later;
    assert forall|i: int| 0 <= i < fills.len() implies {
        let q = (#[trigger] fills[i]).price;
        &&& levels.contains_key(q)
        &&& meets(side, q, limit)
        &&& 0 <= places[i] < levels[q].len()
        &&& is_fill_of(fills[i], side, q, ts_nanos, levels[q][places[i]])
        &&& i < fills.len() - 1 ==> fills[i].qty == levels[q][places[i]].qty
    } by {
        if i < n {
            assert(fills[i] == first[i]);
        } else {
            assert(fills[i] == further[i - n]);
            assert(others.contains_key(further[i - n].price));
        }
    }
    assert forall|i: int, j: int| #![trigger fills[i], fills[j]]
        0 <= i < j < fills.len() implies {
        ||| ahead(side, fills[i].price, fills[j].price)
        ||| fills[i].price == fills[j].price && places[j] - places[i] == j - i
    } by {
        if j < n {
            assert(fills[i] == first[i] && fills[j] == first[j]);
        } else if i < n {
            assert(fills[i] == first[i] && fills[j] == further[j - n]);
            assert(others.contains_key(further[j - n].price));
            assert(levels.contains_key(fills[j].price));
        } else {
            assert(fills[i] == further[i - n] && fills[j] == further[j - n]);
        }
    }
    assert forall|i: int|
        0 <= i < fills.len() && #[trigger] opens_level(fills, i) implies places[i] == 0 by {
        if i < n {
            if i > 0 {
                assert(fills[0] == first[0] && fills[i] == first[i]);
            }
        } else {
            assert forall|j: int| 0 <= j < i - n implies (#[trigger] further[j]).price
                != further[i - n].price by {
                assert(fills[n + j] == further[j] && fills[i] == further[i - n]);
            }
            assert(opens_level(further, i - n));
        }
    }
}

/// A limit order is matched fairly against the other side, and what finds no
/// counterparty comes to rest behind all that rests at its price already; nothing
/// else of its own side changes.
pub proof fn law_limit_order_is_matched_fairly(book: BookView, order: Order)
    requires
        book.finite(),
    ensures
        ({
            let (own, other) = match order.side {
                Side::Bid => (Side::Bid, Side::Ask),
                Side::Ask => (Side::Ask, Side::Bid),
            };
            let submitted = book.submitted(order);
            let before = if own == Side::Bid {
                book.bids
            } else {
                book.asks
            };
            let after = if own == Side::Bid {
                submitted.book.bids
            } else {
                submitted.book.asks
            };
            &&& is_fair(
                if own == Side::Bid {
                    book.asks
                } else {
                    book.bids
                },
                other,
                Some(order.price),
                order.qty as nat,
                order.ts_nanos,
                submitted.fills,
                if own == Side::Bid {
                    submitted.book.asks
                } else {
                    submitted.book.bids
                },
                submitted.left,
            )
            &&& submitted.left == 0 ==> after == before
            &&& submitted.left > 0 ==> after == before.insert(
                order.price,
                orders_at(before, order.price) + seq![
                    Order {
                        id: order.id,
                        side: order.side,
                        price: order.price,
                        qty: submitted.left as u64,
                        ts_nanos: order.ts_nanos,
                        is_ours: order.is_ours,
                    },
                ],
            )
        }),
{
    let other = order.side.flipped();
    lemma_sweep_is_fair(
        book.side(other),
        other,
        Some(order.price),
        order.qty as nat,
        order.ts_nanos,
    );
    let before = book.side(order.side);
    let submitted = book.submitted(order);
    if submitted.left > 0 {
        let resting = Order { qty: submitted.left as u64, ..order };
        assert(orders_at(before, order.price).push(resting) =~= orders_at(before, order.price)
            + seq![resting]);
    }
}

/// A market order is matched fairly against the side that it hits: bids where it
/// sells, asks where it buys.
pub proof fn law_market_order_is_matched_fairly(
    book: BookView,
    side: Side,
    qty: nat,
    ts_nanos: u64,
)
    requires
        book.finite(),
    ensures
        ({
            let taken = book.taken(side, qty, ts_nanos);
            is_fair(
                if side == Side::Bid {
                    book.bids
                } else {
                    book.asks
                },
                side,
                None,
                qty,
                ts_nanos,
                taken.fills,
                taken.levels,
                taken.left,
            )
        }),
{
    lemma_sweep_is_fair(book.side(side), side, None, qty, ts_nanos);
}

/// Whether a fill names an order of a queue, says rightly whether that order is
/// ours, and takes no more than it has.
pub open spec fn names_one_of(fill: Fill, queue: Seq<Order>) -> bool {
    exists|k: int|
        {
            &&& 0 <= k < queue.len()
            &&& (#[trigger] queue[k]).id == fill.resting_order_id
            &&& queue[k].is_ours == fill.resting_is_ours
            &&& fill.qty <= queue[k].qty
        }
}

/// Each fill of a fair match tells of an order that rested.
proof fn lemma_fair_fill(
    before: Levels,
    side: Side,
    limit: Option<Price>,
    qty: nat,
    ts_nanos: u64,
    fills: Seq<Fill>,
    after: Levels,
    left: nat,
    i: int,
)
    requires
        is_fair(before, side, limit, qty, ts_nanos, fills, after, left),
        0 <= i < fills.len(),
    ensures
        before.contains_key(fills[i].price),
        names_one_of(fills[i], before[fills[i].price]),
        fills[i].side_of_resting_order == side,
        fills[i].ts_nanos == ts_nanos,
{
    reveal(is_fair);
    reveal(tells_of);
    let places = choose|places: Seq<int>| #[trigger]
        tells_of(before, side, limit, ts_nanos, fills, places);
    let order = before[fills[i].price][places[i]];
    assert(is_fill_of(fills[i], side, fills[i].price, ts_nanos, order));
}

/// Every fill of a market order carries the flag of the order that it names: an
/// order of that name rested on the fill's side at the fill's price, and it was
/// ours exactly where the fill says so.
pub proof fn law_market_fill_carries_the_flag_of_its_order(
    book: BookView,
    side: Side,
    qty: nat,
    ts_nanos: u64,
    i: int,
)
    requires
        book.finite(),
        0 <= i < book.taken(side, qty, ts_nanos).fills.len(),
    ensures
        ({
            let fill = book.taken(side, qty, ts_nanos).fills[i];
            let before = if fill.side_of_resting_order == Side::Bid {
                book.bids
            } else {
                book.asks
            };
            &&& fill.side_of_resting_order == side
            &&& fill.ts_nanos == ts_nanos
            &&& before.contains_key(fill.price)
            &&& names_one_of(fill, before[fill.price])
        }),
{
    let taken = book.taken(side, qty, ts_nanos);
    law_market_order_is_matched_fairly(book, side, qty, ts_nanos);
    lemma_fair_fill(
        book.side(side),
        side,
        None,
        qty,
        ts_nanos,
        taken.fills,
        taken.levels,
        taken.left,
        i,
    );
}

/// Every fill of a limit order carries the flag of the order that it names.
pub proof fn law_limit_fill_carries_the_flag_of_its_order(book: BookView, order: Order, i: int)
    requires
        book.finite(),
        0 <= i < book.submitted(order).fills.len(),
    ensures
        ({
            let fill = book.submitted(order).fills[i];
            let before = if fill.side_of_resting_order == Side::Bid {
                book.bids
            } else {
                book.asks
            };
            &&& fill.side_of_resting_order != order.side
            &&& fill.ts_nanos == order.ts_nanos
            &&& before.contains_key(fill.price)
            &&& names_one_of(fill, before[fill.price])
        }),
{
    let other = order.side.flipped();
    let submitted = book.submitted(order);
    law_limit_order_is_matched_fairly(book, order);
    lemma_fair_fill(
        book.side(other),
        other,
        Some(order.price),
        order.qty as nat,
        order.ts_nanos,
        submitted.fills,
        submitted.book.side(other),
        submitted.left,
        i,
    );
}

} // verus!
