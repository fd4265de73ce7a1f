//! A price-time-priority limit order book.
//!
//! The same type is the matching engine's own book, where every change is
//! authoritative, and the strategy's replayed book, which is rebuilt from
//! nothing but the market events that it receives.
use crate::book_laws::{
    law_cancel_never_crosses, law_limit_order_never_crosses, law_market_order_never_crosses,
    law_rebuilt_books_are_sound, law_rest_keeps_books_sound, law_trade_never_crosses,
};
use crate::levels::{
    best_price, cancelled, depth, in_rising_order, lemma_best_is, lemma_best_none,
    lemma_position_is, lemma_price_order_holds, lemma_price_order_is, lemma_rest_or_left, position,
    price_order, queue_at, queue_fills, queue_left, queue_rest, queue_traded, rested, rested_all,
    sweep, total, traded, within, Levels, Swept,
};
use crate::types::{
    order_of, row_of, BookResync, Fill, MarketEvent, Order, OrderId, Price, Qty, ResyncRow, Side,
};
use std::collections::{BTreeMap, VecDeque};
use vstd::prelude::*;

verus! {

broadcast use vstd::laws_cmp::group_laws_cmp;

/// A limit order book: the orders resting on each side, by price, oldest
/// first.
pub struct OrderBook {
    pub bids: BTreeMap<Price, VecDeque<Order>>,
    pub asks: BTreeMap<Price, VecDeque<Order>>,
}

/// What an order book holds.
#[verifier::ext_equal]
pub struct BookView {
    pub bids: Levels,
    pub asks: Levels,
}

/// The orders that rows stand for.
pub open spec fn orders_of(rows: Seq<ResyncRow>, side: Side, ts_nanos: u64) -> Seq<Order> {
    rows.map_values(|row: ResyncRow| order_of(row, side, ts_nanos))
}

/// Whether each quantity of a list of levels is one that `Qty` can hold.
pub open spec fn fits(levels: Seq<(Price, nat)>) -> bool {
    forall|i: int| 0 <= i < levels.len() ==> (#[trigger] levels[i]).1 <= u64::MAX
}

/// A list of levels with its quantities as numbers.
pub open spec fn in_lots(levels: Seq<(Price, Qty)>) -> Seq<(Price, nat)> {
    levels.map_values(|level: (Price, Qty)| (level.0, level.1 as nat))
}

/// What submitting a limit order does.
pub struct Submitted {
    /// The fills, in the order in which they happen.
    pub fills: Seq<Fill>,
    /// The book afterwards.
    pub book: BookView,
    /// The quantity that came to rest.
    pub left: nat,
}

impl BookView {
    /// The levels of one side.
    pub open spec fn side(self, side: Side) -> Levels {
        match side {
            Side::Bid => self.bids,
            Side::Ask => self.asks,
        }
    }

    /// Whether each side has finitely many levels.
    pub open spec fn finite(self) -> bool {
        self.bids.dom().finite() && self.asks.dom().finite()
    }

    /// The book without orders.
    pub open spec fn empty() -> BookView {
        BookView { bids: Map::empty(), asks: Map::empty() }
    }

    /// The book with the levels of one side put in place.
    pub open spec fn with_side(self, side: Side, levels: Levels) -> BookView {
        match side {
            Side::Bid => BookView { bids: levels, ..self },
            Side::Ask => BookView { asks: levels, ..self },
        }
    }

    /// The book once `order` rests in it.
    pub open spec fn resting(self, order: Order) -> BookView {
        self.with_side(order.side, rested(self.side(order.side), order.price, order))
    }

    /// The book that the rows of a snapshot stand for.
    pub open spec fn rebuilt(bids: Seq<ResyncRow>, asks: Seq<ResyncRow>, ts_nanos: u64) -> BookView {
        BookView {
            bids: rested_all(Map::empty(), orders_of(bids, Side::Bid, ts_nanos)),
            asks: rested_all(Map::empty(), orders_of(asks, Side::Ask, ts_nanos)),
        }
    }

    /// The book once a market event has been replayed into it.
    pub open spec fn replayed(self, event: MarketEvent) -> BookView {
        match event {
            MarketEvent::Add { order_id, side, price, qty, ts_nanos, is_ours } => self.resting(
                Order { id: order_id, side, price, qty, ts_nanos, is_ours },
            ),
            MarketEvent::Cancel { order_id, side, price, .. } => self.with_side(
                side,
                cancelled(self.side(side), price, order_id),
            ),
            MarketEvent::Trade {
                resting_order_id,
                side_of_resting_order,
                price,
                qty,
                ..
            } => self.with_side(
                side_of_resting_order,
                traded(self.side(side_of_resting_order), price, resting_order_id, qty as nat),
            ),
        }
    }

    /// The book once market events have been replayed into it, in order.
    pub open spec fn replayed_all(self, events: Seq<MarketEvent>) -> BookView
        decreases events.len(),
    {
        if events.len() == 0 {
            self
        } else {
            self.replayed(events[0]).replayed_all(events.drop_first())
        }
    }

    /// What a market order does to the side that it trades against.
    pub open spec fn taken(self, resting_side: Side, qty: nat, ts_nanos: u64) -> Swept {
        sweep(self.side(resting_side), resting_side, None, qty, ts_nanos)
    }

    /// What a limit order does: it takes what its price admits from the other
    /// side, and the rest of it comes to rest on its own.
    pub open spec fn submitted(self, order: Order) -> Submitted {
        let resting_side = order.side.flipped();
        let swept = sweep(
            self.side(resting_side),
            resting_side,
            Some(order.price),
            order.qty as nat,
            order.ts_nanos,
        );
        let book = self.with_side(resting_side, swept.levels);
        Submitted {
            fills: swept.fills,
            book: if swept.left > 0 {
                book.resting(Order { qty: swept.left as u64, ..order })
            } else {
                book
            },
            left: swept.left,
        }
    }
}

/// The levels that a map of queues holds.
pub open spec fn levels_of(book: BTreeMap<Price, VecDeque<Order>>) -> Levels {
    book@.map_values(|queue: VecDeque<Order>| queue@)
}

impl View for OrderBook {
    type V = BookView;

    open spec fn view(&self) -> BookView {
        BookView { bids: levels_of(self.bids), asks: levels_of(self.asks) }
    }
}

/// The least price at which orders rest: the one that comes first when the map is
/// walked.
fn lowest_price(book: &BTreeMap<Price, VecDeque<Order>>) -> (lowest: Option<Price>)
    ensures
        match lowest {
            Some(p) => book@.contains_key(p) && forall|q: Price| #[trigger]
                book@.contains_key(q) ==> p <= q,
            None => forall|q: Price| !#[trigger] book@.contains_key(q),
        },
{
    let ghost entries = vstd::std_specs::iter::IteratorSpec::remaining(&book.iter());
    let ghost keys = entries.map_values(|kv: (&Price, &VecDeque<Order>)| *kv.0);
    for entry in it: book.iter()
        invariant
            it.index() == 0,
            it.seq() == entries,
            keys == entries.map_values(|kv: (&Price, &VecDeque<Order>)| *kv.0),
            vstd::std_specs::btree::increasing_seq(keys),
            forall|p: Price| #[trigger]
                book@.contains_key(p) ==> entries.contains((&p, &book@[p])),
            forall|i: int|
                0 <= i < entries.len() ==> book@.contains_key(*(#[trigger] entries[i]).0),
    {
        let price: Price = *entry.0;
        proof {
            assert(keys[0] == price);
            assert forall|q: Price| #[trigger] book@.contains_key(q) implies price <= q by {
                let i = choose|i: int| 0 <= i < entries.len() && entries[i] == (&q, &book@[q]);
                assert(keys[i] == q);
                if i > 0 {
                    assert(vstd::std_specs::cmp::OrdSpec::cmp_spec(&keys[0], &keys[i]) is Less);
                }
            }
            assert(book@.contains_key(*entries[0].0));
        }
        return Some(price);
    }
    assert forall|q: Price| !#[trigger] book@.contains_key(q) by {
        assert(!entries.contains((&q, &book@[q])));
    }
    None
}

/// The greatest price at which orders rest: the one that comes last when the map
/// is walked.
fn highest_price(book: &BTreeMap<Price, VecDeque<Order>>) -> (highest: Option<Price>)
    ensures
        match highest {
            Some(p) => book@.contains_key(p) && forall|q: Price| #[trigger]
                book@.contains_key(q) ==> q <= p,
            None => forall|q: Price| !#[trigger] book@.contains_key(q),
        },
{
    let ghost entries = vstd::std_specs::iter::IteratorSpec::remaining(&book.iter());
    let ghost keys = entries.map_values(|kv: (&Price, &VecDeque<Order>)| *kv.0);
    let mut highest: Option<Price> = None;
    for entry in it: book.iter()
        invariant
            it.seq() == entries,
            highest == if it.index() == 0 {
                None
            } else {
                Some(keys[it.index() - 1])
            },
            keys == entries.map_values(|kv: (&Price, &VecDeque<Order>)| *kv.0),
            vstd::std_specs::btree::increasing_seq(keys),
            forall|p: Price| #[trigger]
                book@.contains_key(p) ==> entries.contains((&p, &book@[p])),
            forall|i: int|
                0 <= i < entries.len() ==> book@.contains_key(*(#[trigger] entries[i]).0),
    {
        highest = Some(*entry.0);
    }
    proof {
        let last = keys.len() - 1;
        assert forall|q: Price| #[trigger] book@.contains_key(q) implies 0 <= last && q
            <= keys[last] by {
            assert(entries.contains((&q, &book@[q])));
            let i = choose|i: int| 0 <= i < entries.len() && entries[i] == (&q, &book@[q]);
            assert(keys[i] == q);
            assert(i < last ==> vstd::std_specs::cmp::OrdSpec::cmp_spec(
                &keys[i],
                &keys[last],
            ) is Less);
        }
        assert(0 <= last ==> book@.contains_key(*entries[last].0));
    }
    highest
}

/// The price of the level that trades first on the given side.
fn first_price(book: &BTreeMap<Price, VecDeque<Order>>, side: Side) -> (first: Option<Price>)
    ensures
        first == best_price(levels_of(*book), side),
{
    let first = match side {
        Side::Bid => highest_price(book),
        Side::Ask => lowest_price(book),
    };
    proof {
        match first {
            Some(p) => lemma_best_is(levels_of(*book), side, p),
            None => lemma_best_none(levels_of(*book), side),
        }
    }
    first
}

/// Whether a level at `p` is at least as good as `limit` asks.
fn reaches(side: Side, p: Price, limit: Option<Price>) -> (reached: bool)
    ensures
        reached == within(side, p, limit),
{
    match (side, limit) {
        (_, None) => true,
        (Side::Bid, Some(l)) => p >= l,
        (Side::Ask, Some(l)) => p <= l,
    }
}

/// Takes up to `qty` from the front of a queue; gives the quantity that it
/// could not take.
fn take_from_queue(
    queue: &mut VecDeque<Order>,
    side: Side,
    price: Price,
    qty: Qty,
    ts_nanos: u64,
    fills: &mut Vec<Fill>,
) -> (left: Qty)
    ensures
        final(queue)@ == queue_rest(old(queue)@, qty as nat),
        final(fills)@ == old(fills)@ + queue_fills(old(queue)@, side, price, qty as nat, ts_nanos),
        left == queue_left(old(queue)@, qty as nat),
{
    let mut remaining: Qty = qty;
    while remaining > 0 && queue.len() > 0
        invariant
            queue_rest(queue@, remaining as nat) == queue_rest(old(queue)@, qty as nat),
            fills@ + queue_fills(queue@, side, price, remaining as nat, ts_nanos) == old(fills)@
                + queue_fills(old(queue)@, side, price, qty as nat, ts_nanos),
            queue_left(queue@, remaining as nat) == queue_left(old(queue)@, qty as nat),
        decreases queue@.len(), remaining,
    {
        let ghost queue_before = queue@;
        let ghost fills_before = fills@;
        let front = queue.pop_front();
        if let Some(order) = front {
            let traded: Qty = if order.qty <= remaining {
                order.qty
            } else {
                remaining
            };
            fills.push(
                Fill {
                    resting_order_id: order.id,
                    resting_is_ours: order.is_ours,
                    side_of_resting_order: side,
                    price,
                    qty: traded,
                    ts_nanos,
                },
            );
            assert(queue@ =~= queue_before.drop_first());
            if order.qty > traded {
                queue.push_front(Order { qty: order.qty - traded, ..order });
                assert(queue@ =~= queue_rest(queue_before, remaining as nat));
            }
            remaining = remaining - traded;
            proof {
                reveal_with_fuel(queue_fills, 2);
            }
            assert(fills@ =~= fills_before + seq![fills@.last()]);
            assert(fills@ + queue_fills(queue@, side, price, remaining as nat, ts_nanos)
                =~= fills_before + queue_fills(queue_before, side, price, (remaining + traded) as nat, ts_nanos));
        }
    }
    remaining
}

/// A side has finitely many levels.
proof fn lemma_levels_finite(book: BTreeMap<Price, VecDeque<Order>>)
    ensures
        levels_of(book).dom().finite(),
{
    assert(levels_of(book).dom() =~= book@.dom());
}

/// Lets an order for `qty` walk one side, as far as `limit` admits; gives the
/// fills and the quantity that found no counterparty.
fn take_from_side(
    book: &mut BTreeMap<Price, VecDeque<Order>>,
    side: Side,
    limit: Option<Price>,
    qty: Qty,
    ts_nanos: u64,
) -> (taken: (Vec<Fill>, Qty))
    ensures
        ({
            let swept = sweep(levels_of(*old(book)), side, limit, qty as nat, ts_nanos);
            &&& taken.0@ == swept.fills
            &&& taken.1 == swept.left
            &&& levels_of(*final(book)) == swept.levels
        }),
{
    let mut remaining: Qty = qty;
    let mut fills: Vec<Fill> = Vec::new();
    let ghost swept = sweep(levels_of(*book), side, limit, qty as nat, ts_nanos);
    proof {
        lemma_levels_finite(*book);
    }
    while remaining > 0
        invariant
            levels_of(*book).dom().finite(),
            ({
                let further = sweep(levels_of(*book), side, limit, remaining as nat, ts_nanos);
                &&& swept.fills == fills@ + further.fills
                &&& swept.levels == further.levels
                &&& swept.left == further.left
            }),
        ensures
            swept.fills == fills@,
            swept.levels == levels_of(*book),
            swept.left == remaining,
        decreases levels_of(*book).len(), remaining,
    {
        let ghost before = levels_of(*book);
        match first_price(book, side) {
            Some(p) if reaches(side, p, limit) => {
                if let Some(mut queue) = book.remove(&p) {
                    assert(levels_of(*book) =~= before.remove(p));
                    proof {
                        lemma_rest_or_left(queue@, remaining as nat);
                    }
                    remaining = take_from_queue(&mut queue, side, p, remaining, ts_nanos, &mut fills);
                    if queue.len() > 0 {
                        book.insert(p, queue);
                        assert(levels_of(*book) =~= before.insert(p, queue@));
                    }
                }
            },
            _ => {
                break;
            },
        }
    }
    (fills, remaining)
}

/// The prices at which orders rest, in rising order.
fn rising_prices(book: &BTreeMap<Price, VecDeque<Order>>) -> (prices: Vec<Price>)
    ensures
        forall|i: int, j: int| 0 <= i < j < prices@.len() ==> prices@[i] < prices@[j],
        forall|p: Price| #[trigger] book@.contains_key(p) <==> prices@.contains(p),
{
    let mut prices: Vec<Price> = Vec::new();
    for entry in it: book.iter()
        invariant
            prices@.len() == it.index(),
            forall|i: int| 0 <= i < prices@.len() ==> #[trigger] prices@[i] == *it.seq()[i].0,
            it.seq() == vstd::std_specs::iter::IteratorSpec::remaining(&book.iter()),
            vstd::std_specs::btree::increasing_seq(it.seq().map_values(|kv: (&Price, &VecDeque<Order>)| *kv.0)),
    {
        prices.push(*entry.0);
    }
    proof {
        let entries = vstd::std_specs::iter::IteratorSpec::remaining(&book.iter());
        let keys = entries.map_values(|kv: (&Price, &VecDeque<Order>)| *kv.0);
        assert(prices@ =~= keys);
        assert(vstd::std_specs::btree::increasing_seq(keys));
        assert forall|i: int, j: int| 0 <= i < j < prices@.len() implies prices@[i] < prices@[j] by {
            assert(vstd::std_specs::cmp::OrdSpec::cmp_spec(&keys[i], &keys[j]) is Less);
        }
        assert forall|p: Price| #[trigger] book@.contains_key(p) implies prices@.contains(p) by {
            assert(entries.contains((&p, &book@[p])));
            let i = choose|i: int| 0 <= i < entries.len() && entries[i] == (&p, &book@[p]);
            assert(prices@[i] == p);
        }
        assert forall|p: Price| prices@.contains(p) implies #[trigger] book@.contains_key(p) by {
            let i = choose|i: int| 0 <= i < prices@.len() && prices@[i] == p;
            assert(book@.contains_key(*entries[i].0));
        }
    }
    prices
}

/// The prices at which orders rest, best first.
fn prices_in_order(book: &BTreeMap<Price, VecDeque<Order>>, side: Side) -> (prices: Vec<Price>)
    ensures
        prices@ == price_order(levels_of(*book), side),
{
    let rising = rising_prices(book);
    proof {
        lemma_levels_finite(*book);
        assert forall|p: Price| #[trigger] levels_of(*book).contains_key(p) <==> rising@.contains(p) by {
            assert(book@.contains_key(p) <==> rising@.contains(p));
        }
    }
    match side {
        Side::Ask => {
            proof {
                lemma_price_order_is(levels_of(*book), side, rising@);
            }
            rising
        },
        Side::Bid => {
            let mut falling: Vec<Price> = Vec::new();
            let mut k: usize = rising.len();
            while k > 0
                invariant
                    k <= rising@.len(),
                    falling@.len() == rising@.len() - k,
                    forall|i: int|
                        0 <= i < falling@.len() ==> #[trigger] falling@[i] == rising@[rising@.len() - 1 - i],
                decreases k,
            {
                k = k - 1;
                falling.push(rising[k]);
            }
            proof {
                assert forall|p: Price| rising@.contains(p) <==> falling@.contains(p) by {
                    if rising@.contains(p) {
                        let i = choose|i: int| 0 <= i < rising@.len() && rising@[i] == p;
                        assert(falling@[rising@.len() - 1 - i] == p);
                    }
                    if falling@.contains(p) {
                        let i = choose|i: int| 0 <= i < falling@.len() && falling@[i] == p;
                        assert(rising@[rising@.len() - 1 - i] == p);
                    }
                }
                lemma_price_order_is(levels_of(*book), side, falling@);
            }
            falling
        },
    }
}

/// Where the oldest order named `id` stands in a queue.
fn find_order(queue: &VecDeque<Order>, id: OrderId) -> (found: Option<usize>)
    ensures
        match found {
            Some(i) => position(queue@, id) == Some(i as int),
            None => position(queue@, id) is None,
        },
{
    let mut i: usize = 0;
    while i < queue.len()
        invariant
            i <= queue@.len(),
            forall|j: int| 0 <= j < i ==> (#[trigger] queue@[j]).id != id,
        decreases queue@.len() - i,
    {
        if queue[i].id == id {
            proof {
                lemma_position_is(queue@, id, i as int);
            }
            return Some(i);
        }
        i = i + 1;
    }
    None
}

/// The quantity of a whole queue.
fn queue_qty(queue: &VecDeque<Order>) -> (sum: Qty)
    requires
        total(queue@) <= u64::MAX,
    ensures
        sum == total(queue@),
{
    let mut sum: Qty = 0;
    let mut i: usize = 0;
    assert(queue@.skip(0) =~= queue@);
    while i < queue.len()
        invariant
            i <= queue@.len(),
            sum + total(queue@.skip(i as int)) == total(queue@),
            total(queue@) <= u64::MAX,
        decreases queue@.len() - i,
    {
        assert(queue@.skip(i as int).drop_first() =~= queue@.skip(i + 1));
        sum = sum + queue[i].qty;
        i = i + 1;
    }
    sum
}

/// The best `n` levels of a side.
fn top_levels(book: &BTreeMap<Price, VecDeque<Order>>, side: Side, n: usize) -> (top: Vec<
    (Price, Qty),
>)
    requires
        fits(depth(levels_of(*book), side, n as nat)),
    ensures
        in_lots(top@) == depth(levels_of(*book), side, n as nat),
{
    let ghost levels = levels_of(*book);
    let prices = prices_in_order(book, side);
    let mut top: Vec<(Price, Qty)> = Vec::new();
    let mut i: usize = 0;
    proof {
        lemma_levels_finite(*book);
    }
    while i < n && i < prices.len()
        invariant
            i <= n,
            i <= prices@.len(),
            top@.len() == i,
            levels == levels_of(*book),
            levels.dom().finite(),
            prices@ == price_order(levels, side),
            fits(depth(levels, side, n as nat)),
            forall|k: int|
                0 <= k < i ==> (#[trigger] top@[k]).0 == prices@[k] && top@[k].1 == total(
                    levels[prices@[k]],
                ),
        decreases prices@.len() - i,
    {
        let price = prices[i];
        proof {
            lemma_price_order_holds(levels, side, i as int);
            assert(depth(levels, side, n as nat)[i as int].1 <= u64::MAX);
        }
        if let Some(queue) = book.get(&price) {
            top.push((price, queue_qty(queue)));
        }
        i = i + 1;
    }
    assert(in_lots(top@) =~= depth(levels, side, n as nat));
    top
}

/// The rows of a side, by rising price and then by age.
fn rows_of(book: &BTreeMap<Price, VecDeque<Order>>) -> (rows: Vec<ResyncRow>)
    ensures
        rows@ == in_rising_order(levels_of(*book)).map_values(|order: Order| row_of(order)),
{
    let ghost levels = levels_of(*book);
    let ghost mut rest = levels;
    let ghost orders = in_rising_order(levels);
    let prices = prices_in_order(book, Side::Ask);
    let mut rows: Vec<ResyncRow> = Vec::new();
    proof {
        lemma_levels_finite(*book);
    }
    assert(prices@.skip(0) =~= prices@);
    for i in 0..prices.len()
        invariant
            levels == levels_of(*book),
            rest.dom().finite(),
            forall|q: Price| #[trigger]
                rest.contains_key(q) ==> levels.contains_key(q) && rest[q] == levels[q],
            price_order(rest, Side::Ask) == prices@.skip(i as int),
            rows@ + in_rising_order(rest).map_values(|order: Order| row_of(order))
                == orders.map_values(|order: Order| row_of(order)),
    {
        let price = prices[i];
        proof {
            lemma_price_order_holds(rest, Side::Ask, 0);
            assert(price_order(rest, Side::Ask)[0] == price);
            assert(best_price(rest, Side::Ask) == Some(price));
            assert(rest.contains_key(price));
            assert(book@.contains_key(price));
            assert(prices@.skip(i as int).drop_first() =~= prices@.skip(i + 1));
            assert((seq![price] + price_order(rest.remove(price), Side::Ask)).drop_first()
                =~= price_order(rest.remove(price), Side::Ask));
        }
        if let Some(queue) = book.get(&price) {
            let ghost before = rows@;
            let ghost rest_before = rest;
            let ghost rows_at = queue@.map_values(|order: Order| row_of(order));
            let mut k: usize = 0;
            while k < queue.len()
                invariant
                    k <= queue@.len(),
                    rows_at == queue@.map_values(|order: Order| row_of(order)),
                    rows@ == before + rows_at.take(k as int),
                decreases queue@.len() - k,
            {
                let order = queue[k];
                rows.push((order.id, order.price, order.qty, order.is_ours));
                assert(rows_at.take(k + 1) =~= rows_at.take(k as int).push(rows_at[k as int]));
                k = k + 1;
            }
            assert(rows_at.take(k as int) =~= rows_at);
            proof {
                rest = rest.remove(price);
            }
            assert(rest_before[price] == queue@);
            assert(in_rising_order(rest_before) == queue@ + in_rising_order(rest));
            assert(in_rising_order(rest_before).map_values(|order: Order| row_of(order))
                =~= rows_at + in_rising_order(rest).map_values(|order: Order| row_of(order)));
            assert(rows@ + in_rising_order(rest).map_values(|order: Order| row_of(order))
                =~= orders.map_values(|order: Order| row_of(order)));
        }
    }
    assert(rows@ =~= orders.map_values(|order: Order| row_of(order)));
    rows
}

impl Default for OrderBook {
    fn default() -> (book: Self)
        ensures
            book@ == BookView::empty(),
    {
        OrderBook::new()
    }
}

impl OrderBook {
    /// A book has finitely many levels.
    pub proof fn lemma_finite(&self)
        ensures
            self@.finite(),
    {
        lemma_levels_finite(self.bids);
        lemma_levels_finite(self.asks);
    }

    /// An empty book.
    pub fn new() -> (book: Self)
        ensures
            book@ == BookView::empty(),
            book@.sound(),
            book@.uncrossed(),
    {
        let book = OrderBook { bids: BTreeMap::new(), asks: BTreeMap::new() };
        assert(book@ =~= BookView::empty());
        book
    }

    /// The highest price at which someone bids.
    pub fn best_bid(&self) -> (best: Option<Price>)
        ensures
            best == best_price(self@.bids, Side::Bid),
    {
        first_price(&self.bids, Side::Bid)
    }

    /// The lowest price at which someone offers.
    pub fn best_ask(&self) -> (best: Option<Price>)
        ensures
            best == best_price(self@.asks, Side::Ask),
    {
        first_price(&self.asks, Side::Ask)
    }

    /// Whether someone bids as much as someone asks, or more.
    pub fn is_crossed(&self) -> (crossed: bool)
        ensures
            crossed == match (best_price(self@.bids, Side::Bid), best_price(self@.asks, Side::Ask)) {
                (Some(b), Some(a)) => b >= a,
                _ => false,
            },
    {
        match (self.best_bid(), self.best_ask()) {
            (Some(b), Some(a)) => b >= a,
            _ => false,
        }
    }

    /// The price halfway between the best bid and the best ask, in half ticks:
    /// the sum of the two prices.
    pub fn mid_half_ticks(&self) -> (mid: Option<i64>)
        requires
            match (best_price(self@.bids, Side::Bid), best_price(self@.asks, Side::Ask)) {
                (Some(b), Some(a)) => i64::MIN <= b + a <= i64::MAX,
                _ => true,
            },
        ensures
            match (best_price(self@.bids, Side::Bid), best_price(self@.asks, Side::Ask)) {
                (Some(b), Some(a)) => mid is Some && mid->0 == b + a,
                _ => mid is None,
            },
    {
        match (self.best_bid(), self.best_ask()) {
            (Some(b), Some(a)) => Some(b + a),
            _ => None,
        }
    }

    /// The queues of one side.
    fn book_mut(&mut self, side: Side) -> (book: &mut BTreeMap<Price, VecDeque<Order>>)
        ensures
            levels_of(*book) == old(self)@.side(side),
            final(self)@ == old(self)@.with_side(side, levels_of(*final(book))),
    {
        match side {
            Side::Bid => &mut self.bids,
            Side::Ask => &mut self.asks,
        }
    }

    /// Lets an order rest, whether or not it crosses the other side.
    ///
    /// This is how a book is replayed as it was reported: whether the order
    /// crossed was settled by the matching engine, and what it traded comes as
    /// events of its own.
    pub fn insert_resting_order(
        &mut self,
        id: OrderId,
        side: Side,
        price: Price,
        qty: Qty,
        ts_nanos: u64,
        is_ours: bool,
    )
        ensures
            final(self)@ == old(self)@.resting(Order { id, side, price, qty, ts_nanos, is_ours }),
            old(self)@.sound() ==> final(self)@.sound(),
    {
        let order = Order { id, side, price, qty, ts_nanos, is_ours };
        proof {
            if self@.sound() {
                law_rest_keeps_books_sound(self@, order);
            }
        }
        let book = self.book_mut(side);
        let ghost before = levels_of(*book);
        let mut queue = match book.remove(&price) {
            Some(queue) => queue,
            None => VecDeque::new(),
        };
        assert(queue@ =~= queue_at(before, price));
        queue.push_back(order);
        book.insert(price, queue);
        assert(levels_of(*book) =~= rested(before, price, order));
    }

    /// Submits a limit order as an exchange does.
    ///
    /// Where it crosses the other side it trades at once, best price first and
    /// oldest order first, as far as its limit admits. What is left of it
    /// rests. The fills come back in the order in which they happened.
    pub fn submit_limit_order(
        &mut self,
        id: OrderId,
        side: Side,
        price: Price,
        qty: Qty,
        ts_nanos: u64,
        is_ours: bool,
    ) -> (fills: Vec<Fill>)
        ensures
            fills@ == old(self)@.submitted(Order { id, side, price, qty, ts_nanos, is_ours }).fills,
            final(self)@ == old(self)@.submitted(
                Order { id, side, price, qty, ts_nanos, is_ours },
            ).book,
            old(self)@.sound() ==> final(self)@.sound(),
            old(self)@.uncrossed() ==> final(self)@.uncrossed(),
    {
        proof {
            self.lemma_finite();
            law_limit_order_never_crosses(
                self@,
                Order { id, side, price, qty, ts_nanos, is_ours },
            );
        }
        let resting_side = side.opposite();
        let (fills, remaining) = take_from_side(
            self.book_mut(resting_side),
            resting_side,
            Some(price),
            qty,
            ts_nanos,
        );
        if remaining > 0 {
            self.insert_resting_order(id, side, price, remaining, ts_nanos, is_ours);
        }
        fills
    }

    /// Removes the oldest order named `id` at a price; says whether there was
    /// one.
    pub fn cancel_order(&mut self, side: Side, price: Price, id: OrderId) -> (found: bool)
        ensures
            found == position(queue_at(old(self)@.side(side), price), id) is Some,
            final(self)@ == old(self)@.with_side(side, cancelled(old(self)@.side(side), price, id)),
            old(self)@.sound() ==> final(self)@.sound(),
            old(self)@.uncrossed() ==> final(self)@.uncrossed(),
    {
        proof {
            law_cancel_never_crosses(self@, side, price, id);
        }
        let book = self.book_mut(side);
        let ghost before = levels_of(*book);
        let found = match book.get(&price) {
            Some(queue) => find_order(queue, id),
            None => None,
        };
        match found {
            Some(pos) => {
                if let Some(mut queue) = book.remove(&price) {
                    queue.remove(pos);
                    if queue.len() > 0 {
                        book.insert(price, queue);
                    }
                }
                assert(levels_of(*book) =~= cancelled(before, price, id));
                true
            },
            None => {
                assert(queue_at(before, price).len() == 0 || before.contains_key(price));
                false
            },
        }
    }

    /// Trades a market order against the other side, best price first and
    /// oldest order first, until it is filled or nothing is left. The fills
    /// come back in the order in which they happened.
    pub fn execute_market_order(&mut self, aggressor_side: Side, qty: Qty, ts_nanos: u64) -> (fills:
        Vec<Fill>)
        ensures
            fills@ == old(self)@.taken(aggressor_side.flipped(), qty as nat, ts_nanos).fills,
            final(self)@ == old(self)@.with_side(
                aggressor_side.flipped(),
                old(self)@.taken(aggressor_side.flipped(), qty as nat, ts_nanos).levels,
            ),
            old(self)@.sound() ==> final(self)@.sound(),
            old(self)@.uncrossed() ==> final(self)@.uncrossed(),
    {
        proof {
            self.lemma_finite();
            law_market_order_never_crosses(
                self@,
                aggressor_side.flipped(),
                qty as nat,
                ts_nanos,
            );
        }
        let resting_side = aggressor_side.opposite();
        let (fills, _) = take_from_side(
            self.book_mut(resting_side),
            resting_side,
            None,
            qty,
            ts_nanos,
        );
        fills
    }

    /// Applies a trade that was executed elsewhere to a replayed book.
    pub fn apply_trade(&mut self, side: Side, price: Price, id: OrderId, traded_qty: Qty)
        ensures
            final(self)@ == old(self)@.with_side(
                side,
                traded(old(self)@.side(side), price, id, traded_qty as nat),
            ),
            old(self)@.sound() ==> final(self)@.sound(),
            old(self)@.uncrossed() ==> final(self)@.uncrossed(),
    {
        proof {
            law_trade_never_crosses(self@, side, price, id, traded_qty as nat);
        }
        let book = self.book_mut(side);
        let ghost before = levels_of(*book);
        if let Some(mut queue) = book.remove(&price) {
            if let Some(pos) = find_order(&queue, id) {
                let order = queue[pos];
                queue.remove(pos);
                if traded_qty < order.qty {
                    queue.insert(pos, Order { qty: order.qty - traded_qty, ..order });
                }
            }
            assert(queue@ =~= queue_traded(before[price], id, traded_qty as nat));
            if queue.len() > 0 {
                book.insert(price, queue);
            }
        }
        assert(levels_of(*book) =~= traded(before, price, id, traded_qty as nat));
    }

    /// The best `n_levels` of each side, bids first, each with the quantity
    /// that rests there.
    pub fn depth_snapshot(&self, n_levels: usize) -> (snapshot: (Vec<(Price, Qty)>, Vec<(Price, Qty)>))
        requires
            fits(depth(self@.bids, Side::Bid, n_levels as nat)),
            fits(depth(self@.asks, Side::Ask, n_levels as nat)),
        ensures
            in_lots(snapshot.0@) == depth(self@.bids, Side::Bid, n_levels as nat),
            in_lots(snapshot.1@) == depth(self@.asks, Side::Ask, n_levels as nat),
    {
        (top_levels(&self.bids, Side::Bid, n_levels), top_levels(&self.asks, Side::Ask, n_levels))
    }

    /// Every resting order, by rising price and then by age. The sequence
    /// number is for the caller to fill in, who keeps the feed's counter.
    pub fn export_resync(&self) -> (resync: BookResync)
        ensures
            resync.bids@ == in_rising_order(self@.bids).map_values(|order: Order| row_of(order)),
            resync.asks@ == in_rising_order(self@.asks).map_values(|order: Order| row_of(order)),
            resync.seq_at_snapshot == 0,
    {
        BookResync { bids: rows_of(&self.bids), asks: rows_of(&self.asks), seq_at_snapshot: 0 }
    }

    /// Forgets every order and lets those of a snapshot rest in their place.
    pub fn rebuild_from_resync(&mut self, resync: &BookResync, ts_nanos: u64)
        ensures
            final(self)@ == BookView::rebuilt(resync.bids@, resync.asks@, ts_nanos),
            final(self)@.sound(),
    {
        proof {
            law_rebuilt_books_are_sound(resync.bids@, resync.asks@, ts_nanos);
        }
        self.bids.clear();
        self.asks.clear();
        assert(self@ =~= BookView::empty());
        self.rest_rows(&resync.bids, Side::Bid, ts_nanos);
        self.rest_rows(&resync.asks, Side::Ask, ts_nanos);
        assert(self@ =~= BookView::rebuilt(resync.bids@, resync.asks@, ts_nanos));
    }

    /// Lets the order of each row rest, one after another.
    fn rest_rows(&mut self, rows: &Vec<ResyncRow>, side: Side, ts_nanos: u64)
        ensures
            final(self)@ == old(self)@.with_side(
                side,
                rested_all(old(self)@.side(side), orders_of(rows@, side, ts_nanos)),
            ),
    {
        let ghost before = self@;
        let ghost orders = orders_of(rows@, side, ts_nanos);
        assert(self@ =~= before.with_side(side, rested_all(before.side(side), orders.take(0))));
        for i in 0..rows.len()
            invariant
                orders == orders_of(rows@, side, ts_nanos),
                self@ == before.with_side(
                    side,
                    rested_all(before.side(side), orders.take(i as int)),
                ),
        {
            let row = rows[i];
            self.insert_resting_order(row.0, side, row.1, row.2, ts_nanos, row.3);
            assert(orders.take(i + 1).drop_last() =~= orders.take(i as int));
            assert(self@ =~= before.with_side(
                side,
                rested_all(before.side(side), orders.take(i + 1)),
            ));
        }
        assert(orders.take(orders.len() as int) =~= orders);
    }
}

} // verus!
