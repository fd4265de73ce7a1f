//! A bounded queue between one producer and one consumer.
//!
//! The slots are allocated once. `head` and `tail` count what was ever taken
//! out and put in; they wrap around at the end of their range, which the
//! number of slots, a power of two, divides. A full queue refuses a value
//! and counts the refusal: the producer is never made to wait for room. The two
//! ends share the queue under a lock, and each waits for it while the other puts
//! a value in or takes one out.
use std::sync::Arc;
use vstd::arithmetic::div_mod::{
    lemma_fundamental_div_mod, lemma_fundamental_div_mod_converse, lemma_mod_bound, lemma_mod_equivalence, lemma_mod_multiples_vanish, lemma_small_mod,
};
use vstd::arithmetic::power2::{
    lemma2_to64, lemma_pow2_adds, lemma_pow2_pos, lemma_pow2_strictly_increases, lemma_pow2_unfold,
    pow2,
};
use vstd::bits::lemma_usize_low_bits_mask_is_mod;
use vstd::prelude::*;
use vstd::rwlock::{RwLock, RwLockPredicate};

verus! {

/// How many values a counter can take.
pub open spec fn counter_range() -> int {
    usize::MAX + 1
}

/// How many values lie between two counters.
pub open spec fn distance(head: usize, tail: usize) -> nat {
    if tail >= head {
        (tail - head) as nat
    } else {
        (tail - head + counter_range()) as nat
    }
}

/// A counter after one more.
pub open spec fn counted(n: usize) -> usize {
    if n == usize::MAX {
        0
    } else {
        (n + 1) as usize
    }
}

/// What a counter shows once it has counted to `n`.
pub open spec fn shown(n: nat) -> usize {
    (n as int % counter_range()) as usize
}

/// The slot of the value that is `i` places behind the oldest one.
pub open spec fn slot_of(head: usize, i: int, capacity: usize) -> int {
    (head + i) % (capacity as int)
}

/// Whether `capacity` is the least power of two that is at least two and at
/// least what was asked for.
pub open spec fn is_rounded_up(requested: nat, capacity: nat) -> bool {
    &&& exists|k: nat| capacity == #[trigger] pow2(k)
    &&& capacity >= 2
    &&& capacity >= requested
    &&& capacity == 2 || capacity < 2 * requested
}

/// What producer and consumer share.
pub struct RingInner<T> {
    buf: Vec<Option<T>>,
    capacity: usize,
    mask: usize,
    head: usize,
    tail: usize,
    dropped: usize,
    accepted: Ghost<Seq<T>>,
    delivered: Ghost<Seq<T>>,
    refused: Ghost<Seq<T>>,
}

/// What a queue holds.
#[verifier::ext_equal]
pub struct RingView<T> {
    /// The values ever put in.
    pub accepted: Seq<T>,
    /// The values ever taken out.
    pub delivered: Seq<T>,
    /// The values put in and not yet taken out, oldest first.
    pub pending: Seq<T>,
    /// How many values there is room for.
    pub capacity: nat,
    /// The values ever refused for want of room.
    pub refused: Seq<T>,
    /// How many values were refused, up to the range of the counter.
    pub dropped: usize,
}

impl<T> RingView<T> {
    /// Whether a queue of so much room can hold this: what was put in is what was
    /// taken out and then what is pending, there is room for that, the refused
    /// values are counted, and none was refused before the room was used up.
    pub open spec fn possible(self, capacity: nat) -> bool {
        &&& self.capacity == capacity
        &&& self.accepted == self.delivered + self.pending
        &&& self.pending.len() <= capacity
        &&& self.dropped == shown(self.refused.len())
        &&& self.refused.len() > 0 ==> self.accepted.len() >= capacity
    }

    /// Whether a value can be put in.
    pub open spec fn has_room(self) -> bool {
        self.pending.len() < self.capacity
    }

    /// The queue after an attempt to put a value in.
    pub open spec fn after_push(self, value: T) -> RingView<T> {
        if self.has_room() {
            RingView {
                accepted: self.accepted.push(value),
                pending: self.pending.push(value),
                ..self
            }
        } else {
            RingView {
                refused: self.refused.push(value),
                dropped: counted(self.dropped),
                ..self
            }
        }
    }

    /// What an attempt to put a value in answers.
    pub open spec fn push_answer(self, value: T) -> Result<(), T> {
        if self.has_room() {
            Ok(())
        } else {
            Err(value)
        }
    }

    /// The queue after an attempt to take a value out.
    pub open spec fn after_pop(self) -> RingView<T> {
        if self.pending.len() > 0 {
            RingView {
                delivered: self.delivered.push(self.pending[0]),
                pending: self.pending.drop_first(),
                ..self
            }
        } else {
            self
        }
    }

    /// What an attempt to take a value out answers.
    pub open spec fn pop_answer(self) -> Option<T> {
        if self.pending.len() > 0 {
            Some(self.pending[0])
        } else {
            None
        }
    }

    /// A value put in an empty queue is not refused, and is the next to come
    /// out; the queue is then empty again.
    pub proof fn law_push_then_pop(self, value: T)
        requires
            self.pending.len() == 0,
            self.capacity > 0,
        ensures
            self.push_answer(value) == Ok::<(), T>(()),
            self.after_push(value).pop_answer() == Some(value),
            self.after_push(value).after_pop().pending == self.pending,
    {
        assert(self.after_push(value).after_pop().pending =~= self.pending);
    }
}

impl<T> RingView<T> {
    /// A value is refused exactly where as many are pending as there is room for.
    /// One that is taken in is the last to come out; one that is refused comes
    /// back, changes nothing that is pending, and is counted.
    pub proof fn law_values_are_refused_only_for_want_of_room(self, value: T)
        ensures
            self.pending.len() < self.capacity ==> {
                let after = self.after_push(value);
                &&& self.push_answer(value) == Ok::<(), T>(())
                &&& after.pending == self.pending + seq![value]
                &&& after.accepted == self.accepted + seq![value]
                &&& after.refused == self.refused
                &&& after.dropped == self.dropped
            },
            self.pending.len() >= self.capacity ==> {
                let after = self.after_push(value);
                &&& self.push_answer(value) == Err::<(), T>(value)
                &&& after.pending == self.pending
                &&& after.accepted == self.accepted
                &&& after.refused == self.refused + seq![value]
                &&& after.dropped == if self.dropped < usize::MAX {
                    self.dropped + 1
                } else {
                    0
                }
            },
            self.after_push(value).delivered == self.delivered,
            self.after_push(value).capacity == self.capacity,
    {
        assert(self.pending.push(value) =~= self.pending + seq![value]);
        assert(self.accepted.push(value) =~= self.accepted + seq![value]);
        assert(self.refused.push(value) =~= self.refused + seq![value]);
    }

    /// What comes out is the oldest value that has not come out yet: of all that
    /// were ever taken in, the one behind those that were delivered.
    pub proof fn law_oldest_value_comes_out(self)
        requires
            self.possible(self.capacity),
        ensures
            ({
                let after = self.after_pop();
                let n = self.delivered.len() as int;
                &&& self.pop_answer() is Some <==> n < self.accepted.len()
                &&& self.pop_answer() is Some ==> {
                    &&& self.pop_answer()->0 == self.accepted[n]
                    &&& after.delivered == self.accepted.take(n + 1)
                    &&& after.pending.len() == self.pending.len() - 1
                }
                &&& self.pop_answer() is None ==> after == self
                &&& after.accepted == self.accepted
                &&& after.refused == self.refused
                &&& after.dropped == self.dropped
                &&& after.capacity == self.capacity
                &&& after.possible(self.capacity)
            }),
    {
        let n = self.delivered.len() as int;
        if self.pending.len() > 0 {
            assert(self.accepted[n] == self.pending[0]);
            assert(self.after_pop().delivered =~= self.accepted.take(n + 1));
            assert(self.after_pop().delivered + self.after_pop().pending =~= self.accepted);
        }
    }
}

/// The room of a queue is the least power of two that is at least two and at
/// least what was asked for.
pub proof fn law_room_is_the_least_power_of_two(requested: nat, capacity: nat)
    requires
        is_rounded_up(requested, capacity),
    ensures
        2 <= capacity,
        requested <= capacity,
        exists|k: nat| capacity == #[trigger] pow2(k),
        forall|k: nat| 2 <= #[trigger] pow2(k) && requested <= pow2(k) ==> capacity <= pow2(k),
{
    let j = choose|j: nat| capacity == #[trigger] pow2(j);
    assert forall|k: nat|
        2 <= #[trigger] pow2(k) && requested <= pow2(k) implies capacity <= pow2(k) by {
        if pow2(k) < capacity {
            if j <= k {
                if j < k {
                    lemma_pow2_strictly_increases(j, k);
                }
            } else {
                lemma_pow2_unfold(j);
                if k < j - 1 {
                    lemma_pow2_strictly_increases(k, (j - 1) as nat);
                }
            }
        }
    }
}

impl<T> View for RingInner<T> {
    type V = RingView<T>;

    closed spec fn view(&self) -> RingView<T> {
        RingView {
            accepted: self.accepted@,
            delivered: self.delivered@,
            pending: Seq::new(
                distance(self.head, self.tail),
                |i: int| self.buf@[slot_of(self.head, i, self.capacity)]->0,
            ),
            capacity: self.capacity as nat,
            refused: self.refused@,
            dropped: self.dropped,
        }
    }
}

/// Two positions less than a whole turn apart have different slots.
proof fn lemma_slots_differ(a: int, b: int, capacity: int)
    requires
        0 <= a < b < a + capacity,
    ensures
        a % capacity != b % capacity,
{
    if a % capacity == b % capacity {
        lemma_mod_equivalence(b, a, capacity);
        lemma_small_mod((b - a) as nat, capacity as nat);
    }
}

/// A power of two that is a counter divides the range of the counters.
proof fn lemma_divides_range(k: nat) -> (turns: int)
    requires
        pow2(k) <= usize::MAX,
    ensures
        k < usize::BITS,
        counter_range() == pow2(k) * turns,
{
    lemma2_to64();
    let bits: nat = if usize::MAX == 0xffff_ffff {
        32
    } else {
        64
    };
    assert(counter_range() == pow2(bits));
    if k >= bits {
        if k > bits {
            lemma_pow2_strictly_increases(bits, k);
        }
    }
    lemma_pow2_adds(k, (bits - k) as nat);
    pow2((bits - k) as nat) as int
}

/// Going once around the counters leads to the same slot.
proof fn lemma_wrap(x: int, k: nat)
    requires
        0 <= x,
        pow2(k) <= usize::MAX,
    ensures
        (x + counter_range()) % (pow2(k) as int) == x % (pow2(k) as int),
{
    let turns = lemma_divides_range(k);
    lemma_pow2_pos(k);
    lemma_mod_multiples_vanish(turns, x, pow2(k) as int);
}

/// A counter that has counted so many counts one more.
proof fn lemma_counted(n: nat)
    ensures
        counted(shown(n)) == shown(n + 1),
{
    let range = counter_range();
    let turns = n as int / range;
    let rest = n as int % range;
    lemma_fundamental_div_mod(n as int, range);
    if rest + 1 < range {
        assert(n + 1 == turns * range + (rest + 1)) by (nonlinear_arith)
            requires
                n == range * turns + rest,
        ;
        lemma_fundamental_div_mod_converse((n + 1) as int, range, turns, rest + 1);
    } else {
        assert(n + 1 == (turns + 1) * range + 0) by (nonlinear_arith)
            requires
                n == range * turns + rest,
                rest + 1 == range,
        ;
        lemma_fundamental_div_mod_converse((n + 1) as int, range, turns + 1, 0);
    }
}

/// The slot of a counter: masking its low bits is taking its remainder.
proof fn lemma_slot(counter: usize, capacity: usize)
    requires
        exists|k: nat| capacity == #[trigger] pow2(k),
    ensures
        counter & ((capacity - 1) as usize) == counter % capacity,
        counter % capacity < capacity,
{
    let k = choose|k: nat| capacity == #[trigger] pow2(k);
    lemma_divides_range(k);
    lemma_usize_low_bits_mask_is_mod(counter, k);
}

/// A slot is one of the slots.
proof fn lemma_slot_in_range(head: usize, i: int, capacity: usize)
    requires
        capacity > 0,
    ensures
        0 <= slot_of(head, i, capacity) < capacity,
{
    lemma_mod_bound(head + i, capacity as int);
}

impl<T> RingInner<T> {
    /// What holds of every queue: the counters are no further apart than there
    /// are slots, each slot between them holds a value, what was put in is what
    /// was taken out and then what is pending, the refused values are counted,
    /// and none was refused before the room was used up.
    pub closed spec fn wf(&self) -> bool {
        &&& exists|k: nat| self.capacity == #[trigger] pow2(k)
        &&& self.capacity >= 2
        &&& self.buf@.len() == self.capacity
        &&& self.mask == self.capacity - 1
        &&& distance(self.head, self.tail) <= self.capacity
        &&& forall|i: int|
            0 <= i < distance(self.head, self.tail) ==> self.buf@[#[trigger] slot_of(
                self.head,
                i,
                self.capacity,
            )] is Some
        &&& self@.accepted == self@.delivered + self@.pending
        &&& self.dropped == shown(self@.refused.len())
        &&& self@.refused.len() > 0 ==> self@.accepted.len() >= self.capacity
    }

    /// Values come out in the order in which they went in, none is lost and none
    /// comes twice: what was ever taken out, followed by what is pending, is
    /// what was ever put in. No more is pending than there is room for, and the
    /// values that were refused are counted.
    pub proof fn law_first_in_first_out(&self)
        requires
            self.wf(),
        ensures
            self@.possible(self@.capacity),
    {
    }
}

impl<T: Copy> RingInner<T> {
    /// Puts a value in. Where there is no room the value comes back, and the
    /// refusal is counted.
    pub fn try_push(&mut self, value: T) -> (pushed: Result<(), T>)
        requires
            old(self).wf(),
        ensures
            final(self).wf(),
            final(self)@ == old(self)@.after_push(value),
            pushed == old(self)@.push_answer(value),
    {
        let tail = self.tail;
        if tail.wrapping_sub(self.head) >= self.capacity {
            proof {
                lemma_counted(self.refused@.len());
            }
            self.dropped = self.dropped.wrapping_add(1);
            self.refused = Ghost(self.refused@.push(value));
            return Err(value);
        }
        proof {
            lemma_slot(tail, self.capacity);
        }
        let idx: usize = tail & self.mask;
        let ghost len = distance(self.head, self.tail);
        proof {
            let k = choose|k: nat| self.capacity == #[trigger] pow2(k);
            if tail < self.head {
                lemma_wrap(tail as int, k);
            }
            assert(slot_of(self.head, len as int, self.capacity) == idx);
            assert forall|i: int| 0 <= i < len implies #[trigger] slot_of(
                self.head,
                i,
                self.capacity,
            ) != idx by {
                lemma_slots_differ(self.head + i, self.head + len, self.capacity as int);
            }
        }
        self.buf[idx] = Some(value);
        self.tail = tail.wrapping_add(1);
        self.accepted = Ghost(self.accepted@.push(value));
        proof {
            assert(distance(self.head, self.tail) == len + 1);
            assert forall|i: int| 0 <= i < len + 1 implies self.buf@[#[trigger] slot_of(
                self.head,
                i,
                self.capacity,
            )] is Some by {
                lemma_slot_in_range(self.head, i, self.capacity);
            }
            assert forall|i: int| 0 <= i < len implies 0 <= #[trigger] slot_of(
                self.head,
                i,
                self.capacity,
            ) < self.capacity by {
                lemma_slot_in_range(self.head, i, self.capacity);
            }
            assert(self@.pending =~= old(self)@.pending.push(value));
            assert(self@.accepted =~= self@.delivered + self@.pending);
        }
        Ok(())
    }

    /// Takes the oldest value out.
    pub fn try_pop(&mut self) -> (popped: Option<T>)
        requires
            old(self).wf(),
        ensures
            final(self).wf(),
            final(self)@ == old(self)@.after_pop(),
            popped == old(self)@.pop_answer(),
    {
        let head = self.head;
        if head == self.tail {
            return None;
        }
        proof {
            lemma_slot(head, self.capacity);
        }
        let idx: usize = head & self.mask;
        let ghost len = distance(self.head, self.tail);
        assert(slot_of(head, 0, self.capacity) == idx);
        let value = self.buf[idx];
        self.head = head.wrapping_add(1);
        self.delivered = Ghost(self.delivered@.push(value->0));
        proof {
            let k = choose|k: nat| self.capacity == #[trigger] pow2(k);
            assert(distance(self.head, self.tail) == len - 1);
            assert forall|i: int| 0 <= i < len - 1 implies #[trigger] slot_of(
                self.head,
                i,
                self.capacity,
            ) == slot_of(head, i + 1, self.capacity) by {
                if self.head == 0 {
                    lemma_wrap(i, k);
                }
            }
            assert(self@.pending =~= old(self)@.pending.drop_first());
            assert(self@.accepted =~= self@.delivered + self@.pending);
        }
        value
    }

    /// How many values were refused.
    pub fn dropped_count(&self) -> (dropped: usize)
        ensures
            dropped == self@.dropped,
    {
        self.dropped
    }
}

/// A queue with room for at least `capacity` values.
pub fn make_inner<T: Copy>(capacity: usize) -> (ring: RingInner<T>)
    requires
        2 * capacity <= counter_range(),
    ensures
        ring.wf(),
        ring@.pending.len() == 0,
        ring@.accepted.len() == 0,
        ring@.delivered.len() == 0,
        ring@.refused.len() == 0,
        ring@.dropped == 0,
        is_rounded_up(capacity as nat, ring@.capacity),
{
    let mut rounded: usize = 2;
    let ghost mut k: nat = 1;
    proof {
        lemma2_to64();
    }
    while rounded < capacity
        invariant
            2 * capacity <= counter_range(),
            rounded == pow2(k),
            rounded >= 2,
            rounded == 2 || rounded < 2 * capacity,
        decreases 2 * capacity - rounded,
    {
        proof {
            lemma_pow2_unfold(k + 1);
            k = k + 1;
        }
        rounded = rounded * 2;
    }
    let mut buf: Vec<Option<T>> = Vec::with_capacity(rounded);
    for i in 0..rounded
        invariant
            buf@.len() == i,
    {
        buf.push(None);
    }
    let ring = RingInner {
        buf,
        capacity: rounded,
        mask: rounded - 1,
        head: 0,
        tail: 0,
        dropped: 0,
        accepted: Ghost(Seq::empty()),
        delivered: Ghost(Seq::empty()),
        refused: Ghost(Seq::empty()),
    };
    assert(ring@.accepted =~= ring@.delivered + ring@.pending);
    ring
}

/// What the lock around a shared queue guards: the queue is as it should be,
/// and its capacity never changes.
pub struct RingGuard {
    pub capacity: nat,
}

impl<T> RwLockPredicate<RingInner<T>> for RingGuard {
    open spec fn inv(self, ring: RingInner<T>) -> bool {
        ring.wf() && ring@.capacity == self.capacity
    }
}

/// The end of a queue that values are put in at.
pub struct Producer<T: Copy> {
    inner: Arc<RwLock<RingInner<T>, RingGuard>>,
}

/// The end of a queue that values are taken out at.
pub struct Consumer<T: Copy> {
    inner: Arc<RwLock<RingInner<T>, RingGuard>>,
}

/// The two ends of a new queue with room for at least `capacity` values.
pub fn channel<T: Copy>(capacity: usize) -> (ends: (Producer<T>, Consumer<T>))
    requires
        2 * capacity <= counter_range(),
    ensures
        is_rounded_up(capacity as nat, ends.0.capacity()),
        ends.1.capacity() == ends.0.capacity(),
        ends.0.shares_with(ends.1),
{
    let ring = make_inner::<T>(capacity);
    let ghost guard = RingGuard { capacity: ring@.capacity };
    let inner = Arc::new(RwLock::new(ring, Ghost(guard)));
    (Producer { inner: inner.clone() }, Consumer { inner })
}

impl<T: Copy> Producer<T> {
    /// How many values the queue has room for.
    pub closed spec fn capacity(&self) -> nat {
        self.inner.pred().capacity
    }

    /// Whether the two are ends of one queue.
    pub closed spec fn shares_with(&self, consumer: Consumer<T>) -> bool {
        self.inner == consumer.inner
    }

    /// Puts a value in, as `RingInner::try_push` does to the queue as it is
    /// found. How it is found depends on the consumer, who may be at work at the
    /// same time: the answer is the right one for some state of the queue.
    pub fn try_push(&self, value: T) -> (pushed: Result<(), T>)
        ensures
            exists|found: RingView<T>| #[trigger]
                found.possible(self.capacity()) && pushed == found.push_answer(value),
    {
        let (mut ring, handle) = self.inner.acquire_write();
        let ghost found = ring@;
        proof {
            ring.law_first_in_first_out();
            assert(found.possible(self.capacity()));
        }
        let pushed = ring.try_push(value);
        handle.release_write(ring);
        pushed
    }

    /// How many values the queue, as it is found, has refused so far, as
    /// `RingInner::dropped_count` counts them. What was done at both ends before
    /// decides how it is found: the count is that of some state of the queue.
    pub fn dropped_count(&self) -> (dropped: usize)
        ensures
            exists|found: RingView<T>| #[trigger]
                found.possible(self.capacity()) && dropped == found.dropped,
    {
        let handle = self.inner.acquire_read();
        let ring = handle.borrow();
        let ghost found = ring@;
        proof {
            ring.law_first_in_first_out();
            assert(found.possible(self.capacity()));
        }
        let dropped = ring.dropped_count();
        handle.release_read();
        dropped
    }
}

impl<T: Copy> Consumer<T> {
    /// How many values the queue has room for.
    pub closed spec fn capacity(&self) -> nat {
        self.inner.pred().capacity
    }

    /// Takes the oldest value out, as `RingInner::try_pop` does of the queue as
    /// it is found. How it is found depends on the producer, who may be at work
    /// at the same time: the answer is the right one for some state of the queue.
    pub fn try_pop(&self) -> (popped: Option<T>)
        ensures
            exists|found: RingView<T>| #[trigger]
                found.possible(self.capacity()) && popped == found.pop_answer(),
    {
        let (mut ring, handle) = self.inner.acquire_write();
        let ghost found = ring@;
        proof {
            ring.law_first_in_first_out();
            assert(found.possible(self.capacity()));
        }
        let popped = ring.try_pop();
        handle.release_write(ring);
        popped
    }

    /// How many values the queue, as it is found, has refused so far, as
    /// `RingInner::dropped_count` counts them. What was done at both ends before
    /// decides how it is found: the count is that of some state of the queue.
    pub fn dropped_count(&self) -> (dropped: usize)
        ensures
            exists|found: RingView<T>| #[trigger]
                found.possible(self.capacity()) && dropped == found.dropped,
    {
        let handle = self.inner.acquire_read();
        let ring = handle.borrow();
        let ghost found = ring@;
        proof {
            ring.law_first_in_first_out();
            assert(found.possible(self.capacity()));
        }
        let dropped = ring.dropped_count();
        handle.release_read();
        dropped
    }
}

} // verus!
