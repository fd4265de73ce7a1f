//! The values that every part of the engine shares.
//!
//! A price is a whole number of ticks, never a float: a matching engine
//! compares prices for equality and order, and rounding must not decide
//! either. Prices become currency only at the edge of the program.
use std::time::{Duration, SystemTime, SystemTimeError};
use vstd::prelude::*;

verus! {

/// A price in ticks.
pub type Price = i64;

/// A number of lots.
pub type Qty = u64;

/// What names an order for as long as the engine runs.
pub type OrderId = u64;

/// The side of the book that an order belongs to.
#[derive(Debug, Clone, Copy, PartialEq, Eq, Structural)]
pub enum Side {
    Bid,
    Ask,
}

impl Side {
    /// The other side, for use in contracts.
    pub open spec fn flipped(self) -> Side {
        match self {
            Side::Bid => Side::Ask,
            Side::Ask => Side::Bid,
        }
    }

    /// The other side: the one that an order of this side trades against.
    pub fn opposite(self) -> (other: Side)
        ensures
            other == self.flipped(),
    {
        match self {
            Side::Bid => Side::Ask,
            Side::Ask => Side::Bid,
        }
    }
}

/// One resting limit order.
#[derive(Debug, Clone, Copy, PartialEq, Eq, Structural)]
pub struct Order {
    pub id: OrderId,
    pub side: Side,
    pub price: Price,
    pub qty: Qty,
    pub ts_nanos: u64,
    pub is_ours: bool,
}

/// One execution against a resting order.
#[derive(Debug, Clone, Copy, PartialEq, Eq, Structural)]
pub struct Fill {
    pub resting_order_id: OrderId,
    pub resting_is_ours: bool,
    pub side_of_resting_order: Side,
    pub price: Price,
    pub qty: Qty,
    pub ts_nanos: u64,
}

/// Level-3 market data: one order added, cancelled or traded against.
#[derive(Debug, Clone, Copy, PartialEq, Eq, Structural)]
pub enum MarketEvent {
    Add {
        order_id: OrderId,
        side: Side,
        price: Price,
        qty: Qty,
        ts_nanos: u64,
        is_ours: bool,
    },
    Cancel {
        order_id: OrderId,
        side: Side,
        price: Price,
        ts_nanos: u64,
    },
    Trade {
        resting_order_id: OrderId,
        resting_is_ours: bool,
        side_of_resting_order: Side,
        price: Price,
        qty: Qty,
        ts_nanos: u64,
    },
}

/// What one feed datagram carries: an event and its place in the stream.
#[derive(Debug, Clone, Copy, PartialEq, Eq, Structural)]
pub struct FeedPacket {
    pub seq: u64,
    pub event: MarketEvent,
}

/// What the strategy asks of the matching engine.
#[derive(Debug, Clone, Copy, PartialEq, Eq, Structural)]
pub enum StrategyCommand {
    Quote {
        bid_price: Price,
        bid_qty: Qty,
        ask_price: Price,
        ask_qty: Qty,
    },
    CancelAll,
}

/// What a resync tells of an order: its id, price, quantity and whether it is
/// ours.
pub type ResyncRow = (OrderId, Price, Qty, bool);

/// The row that stands for an order.
pub open spec fn row_of(order: Order) -> ResyncRow {
    (order.id, order.price, order.qty, order.is_ours)
}

/// The order that a row stands for, as it rests from `ts_nanos` on.
pub open spec fn order_of(row: ResyncRow, side: Side, ts_nanos: u64) -> Order {
    Order { id: row.0, side, price: row.1, qty: row.2, ts_nanos, is_ours: row.3 }
}

/// Every resting order of the matching engine's book at one moment, for a
/// replayed book to start again from when feed packets were lost.
///
/// `seq_at_snapshot` is the sequence number that the feed had reached: a
/// snapshot older than what a replayed book has already seen would undo
/// part of it.
#[derive(Debug, Clone)]
pub struct BookResync {
    pub bids: Vec<ResyncRow>,
    pub asks: Vec<ResyncRow>,
    pub seq_at_snapshot: u64,
}

impl Default for BookResync {
    fn default() -> (resync: Self)
        ensures
            resync.bids@.len() == 0,
            resync.asks@.len() == 0,
            resync.seq_at_snapshot == 0,
    {
        BookResync { bids: Vec::new(), asks: Vec::new(), seq_at_snapshot: 0 }
    }
}

/// A market event with its place in the feed, as handed to the strategy.
#[derive(Debug, Clone, Copy, PartialEq, Eq, Structural)]
pub struct SeqEvent {
    pub seq: u64,
    pub event: MarketEvent,
}

/// std's word for a clock that stands before the moment it is measured from.
#[verifier::external_type_specification]
#[verifier::external_body]
pub struct ExSystemTimeError(SystemTimeError);

/// How long the Unix epoch has passed, by `SystemTime::elapsed`. It reads the
/// machine's clock: nothing is claimed of what it gives.
#[verifier::external_body]
fn since_epoch() -> (elapsed: Result<Duration, SystemTimeError>) {
    SystemTime::UNIX_EPOCH.elapsed()
}

/// `Duration::as_nanos`: the whole nanoseconds of a length of time. Nothing is
/// claimed of their number, since nothing is known of the length.
pub assume_specification[ Duration::as_nanos ](elapsed: &Duration) -> (nanos: u128)
;

/// A number of nanoseconds as a time stamp: its low 64 bits, which last until
/// the year 2554.
pub fn time_stamp(nanos: u128) -> (stamp: u64)
    ensures
        stamp == nanos % 0x1_0000_0000_0000_0000,
{
    (nanos % 0x1_0000_0000_0000_0000) as u64
}

/// The time stamp of a clock reading, in nanoseconds since the Unix epoch. A
/// clock that stands before the epoch gives no reading, and no stamp.
pub fn stamp_reading(reading: Option<u128>) -> (stamp: Option<u64>)
    ensures
        stamp is Some <==> reading is Some,
        stamp is Some ==> stamp->0 == reading->0 % 0x1_0000_0000_0000_0000,
{
    match reading {
        Some(nanos) => Some(time_stamp(nanos)),
        None => None,
    }
}

/// The time stamp of this moment: `stamp_reading` of what the machine's clock
/// reads. Nothing is claimed of what it reads, so every stamp is possible, and
/// none is too.
pub fn now_nanos() -> (stamp: Option<u64>) {
    let reading = match since_epoch() {
        Ok(elapsed) => Some(elapsed.as_nanos()),
        Err(_) => None,
    };
    stamp_reading(reading)
}

} // verus!
