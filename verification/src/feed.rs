//! The two ends of the market data feed: numbering what is sent, and telling
//! from the numbers what was lost on the way.
use crate::types::{FeedPacket, MarketEvent, SeqEvent};
use vstd::prelude::*;

verus! {

/// Numbers the events that leave the matching engine.
pub struct FeedSender {
    seq: u64,
}

impl View for FeedSender {
    type V = u64;

    /// The number that the next event gets.
    closed spec fn view(&self) -> u64 {
        self.seq
    }
}

impl FeedSender {
    /// A feed that has sent nothing.
    pub fn new() -> (sender: FeedSender)
        ensures
            sender@ == 0,
    {
        FeedSender { seq: 0 }
    }

    /// Numbers an event. One that is `lost` on the way is not sent, but its
    /// number is used up, so that the gap is there to be seen.
    pub fn emit(&mut self, event: MarketEvent, lost: bool) -> (packet: Option<FeedPacket>)
        requires
            old(self)@ < u64::MAX,
        ensures
            final(self)@ == old(self)@ + 1,
            packet == if lost {
                None
            } else {
                Some(FeedPacket { seq: old(self)@, event })
            },
    {
        let packet = FeedPacket { seq: self.seq, event };
        self.seq = self.seq + 1;
        if lost {
            None
        } else {
            Some(packet)
        }
    }

    /// The number that the next event gets, which is how many events there have
    /// been.
    pub fn next_seq(&self) -> (seq: u64)
        ensures
            seq == self@,
    {
        self.seq
    }
}

/// What is known of the feed's losses.
#[derive(Debug, Clone, Copy, PartialEq, Eq, Structural)]
pub struct FeedHealth {
    pub packets_received: u64,
    pub gaps_detected: u64,
    pub events_lost_to_gaps: u64,
}

impl FeedHealth {
    /// Nothing received, nothing lost.
    pub fn new() -> (health: FeedHealth)
        ensures
            health == FeedHealth::fresh(),
    {
        FeedHealth { packets_received: 0, gaps_detected: 0, events_lost_to_gaps: 0 }
    }

    /// Nothing received, nothing lost, for use in contracts.
    pub open spec fn fresh() -> FeedHealth {
        FeedHealth { packets_received: 0, gaps_detected: 0, events_lost_to_gaps: 0 }
    }
}

/// A counter after `n` more, which starts again at zero when its range is used
/// up.
pub open spec fn counted(counter: u64, n: int) -> u64 {
    if counter + n > u64::MAX {
        (counter + n - u64::MAX - 1) as u64
    } else {
        (counter + n) as u64
    }
}

/// Watches the numbers of the packets that arrive.
pub struct FeedHandler {
    expected_seq: Option<u64>,
    health: FeedHealth,
}

/// What a feed handler knows.
pub struct HandlerView {
    /// The number that should come next, once a packet has come.
    pub expected_seq: Option<u64>,
    pub health: FeedHealth,
}

impl HandlerView {
    /// Before the first packet.
    pub open spec fn fresh() -> HandlerView {
        HandlerView { expected_seq: None, health: FeedHealth::fresh() }
    }

    /// Whether a packet is late or comes again.
    pub open spec fn is_stale(self, seq: u64) -> bool {
        self.expected_seq is Some && seq < self.expected_seq->0
    }

    /// How many events a packet shows to be missing.
    pub open spec fn missing(self, seq: u64) -> int {
        if self.expected_seq is Some && seq > self.expected_seq->0 {
            seq - self.expected_seq->0
        } else {
            0
        }
    }

    /// After a packet.
    pub open spec fn received(self, seq: u64) -> HandlerView {
        HandlerView {
            expected_seq: if self.is_stale(seq) {
                self.expected_seq
            } else {
                Some((seq + 1) as u64)
            },
            health: FeedHealth {
                packets_received: counted(self.health.packets_received, 1),
                gaps_detected: if self.missing(seq) > 0 {
                    counted(self.health.gaps_detected, 1)
                } else {
                    self.health.gaps_detected
                },
                events_lost_to_gaps: counted(self.health.events_lost_to_gaps, self.missing(seq)),
            },
        }
    }

    /// After packets with these numbers, in this order.
    pub open spec fn received_all(self, seqs: Seq<u64>) -> HandlerView
        decreases seqs.len(),
    {
        if seqs.len() == 0 {
            self
        } else {
            self.received_all(seqs.drop_last()).received(seqs.last())
        }
    }
}

impl View for FeedHandler {
    type V = HandlerView;

    closed spec fn view(&self) -> HandlerView {
        HandlerView { expected_seq: self.expected_seq, health: self.health }
    }
}

impl FeedHandler {
    /// A handler that has received nothing.
    pub fn new() -> (handler: FeedHandler)
        ensures
            handler@ == HandlerView::fresh(),
    {
        FeedHandler { expected_seq: None, health: FeedHealth::new() }
    }

    /// What is known of the feed's losses so far.
    pub fn health(&self) -> (health: FeedHealth)
        ensures
            health == self@.health,
    {
        self.health
    }

    /// Takes a packet in and hands its event on. A number beyond the expected one
    /// shows a gap. One before it is a packet that is late or comes again: its
    /// event is handed on all the same, but what is expected next stays.
    pub fn on_packet(&mut self, packet: FeedPacket) -> (event: SeqEvent)
        requires
            packet.seq < u64::MAX,
        ensures
            final(self)@ == old(self)@.received(packet.seq),
            event == (SeqEvent { seq: packet.seq, event: packet.event }),
    {
        self.health.packets_received = self.health.packets_received.wrapping_add(1);
        match self.expected_seq {
            None => {
                self.expected_seq = Some(packet.seq + 1);
            },
            Some(expected) => {
                if packet.seq >= expected {
                    if packet.seq > expected {
                        let lost = packet.seq - expected;
                        self.health.gaps_detected = self.health.gaps_detected.wrapping_add(1);
                        self.health.events_lost_to_gaps =
                        self.health.events_lost_to_gaps.wrapping_add(lost);
                    }
                    self.expected_seq = Some(packet.seq + 1);
                }
            },
        }
        SeqEvent { seq: packet.seq, event: packet.event }
    }
}

/// How many of the packets are neither late nor come again.
pub open spec fn in_time(handler: HandlerView, seqs: Seq<u64>) -> nat
    decreases seqs.len(),
{
    if seqs.len() == 0 {
        0
    } else {
        let before = in_time(handler, seqs.drop_last());
        if handler.received_all(seqs.drop_last()).is_stale(seqs.last()) {
            before
        } else {
            before + 1
        }
    }
}

/// A late or repeated packet changes neither what is expected next nor what is
/// counted as lost.
pub proof fn law_stale_packet_rewinds_nothing(handler: HandlerView, seq: u64)
    requires
        handler.is_stale(seq),
    ensures
        handler.received(seq).expected_seq == handler.expected_seq,
        handler.received(seq).health.gaps_detected == handler.health.gaps_detected,
        handler.received(seq).health.events_lost_to_gaps == handler.health.events_lost_to_gaps,
{
}

/// Every number from that of the first packet up to the expected one belongs
/// either to a packet that came in time or to an event that is counted as lost.
pub proof fn law_every_number_is_accounted_for(seqs: Seq<u64>)
    requires
        seqs.len() > 0,
        forall|i: int| 0 <= i < seqs.len() ==> #[trigger] seqs[i] < u64::MAX,
    ensures
        ({
            let after = HandlerView::fresh().received_all(seqs);
            &&& after.expected_seq is Some
            &&& after.expected_seq->0 - seqs[0] == in_time(HandlerView::fresh(), seqs)
                + after.health.events_lost_to_gaps
        }),
    decreases seqs.len(),
{
    reveal_with_fuel(HandlerView::received_all, 2);
    reveal_with_fuel(in_time, 2);
    if seqs.len() > 1 {
        law_every_number_is_accounted_for(seqs.drop_last());
    }
}

/// The numbers of the packets that arrive, of events numbered from `first` on
/// of which some are lost.
pub open spec fn arriving(first: u64, lost: Seq<bool>) -> Seq<u64>
    decreases lost.len(),
{
    if lost.len() == 0 {
        seq![]
    } else if lost.last() {
        arriving(first, lost.drop_last())
    } else {
        arriving(first, lost.drop_last()).push((first + lost.len() - 1) as u64)
    }
}

/// How many events are lost.
pub open spec fn count_lost(lost: Seq<bool>) -> nat
    decreases lost.len(),
{
    if lost.len() == 0 {
        0
    } else {
        count_lost(lost.drop_last()) + if lost.last() {
            1nat
        } else {
            0nat
        }
    }
}

/// What a handler has counted as lost, and what was lost since the last packet
/// came, is what was lost.
proof fn lemma_losses(first: u64, lost: Seq<bool>)
    requires
        lost.len() > 0,
        !lost[0],
        first + lost.len() <= u64::MAX,
    ensures
        ({
            let after = HandlerView::fresh().received_all(arriving(first, lost));
            &&& after.expected_seq is Some
            &&& first < after.expected_seq->0 <= first + lost.len()
            &&& !lost.last() ==> after.expected_seq->0 == first + lost.len()
            &&& after.health.events_lost_to_gaps + (first + lost.len() - after.expected_seq->0)
                == count_lost(lost)
        }),
        count_lost(lost) <= lost.len(),
    decreases lost.len(),
{
    if lost.len() == 1 {
        reveal_with_fuel(arriving, 2);
        reveal_with_fuel(HandlerView::received_all, 2);
        reveal_with_fuel(count_lost, 2);
        assert(arriving(first, lost) =~= seq![first]);
        assert(seq![first].drop_last() =~= seq![]);
    } else {
        lemma_losses(first, lost.drop_last());
        if !lost.last() {
            let before = arriving(first, lost.drop_last());
            let seq = (first + lost.len() - 1) as u64;
            assert(before.push(seq).drop_last() =~= before);
            assert(before.push(seq).last() == seq);
        }
    }
}

/// What is lost on the way is counted: of numbered events of which the first
/// and the last arrive, the handler counts exactly those that do not.
pub proof fn law_losses_are_counted(first: u64, lost: Seq<bool>)
    requires
        lost.len() > 0,
        !lost[0],
        !lost.last(),
        first + lost.len() <= u64::MAX,
    ensures
        HandlerView::fresh().received_all(arriving(first, lost)).health.events_lost_to_gaps
            == count_lost(lost),
        HandlerView::fresh().received_all(arriving(first, lost)).expected_seq == Some(
            (first + lost.len()) as u64,
        ),
{
    lemma_losses(first, lost);
}

} // verus!
