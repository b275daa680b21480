//! Bounded, single-producer/single-consumer ring buffer.
//!
//! This is how threads exchange fixed-size data on the hot path. Properties:
//!
//! - Allocates once in [`channel`]. `push` and `pop` never allocate.
//! - Elements are `Copy`, so slots never need dropping.
//! - Each slot carries a sequence number next to its value. The consumer learns a value is
//!   ready from the slot itself.
//! - Only the producer writes slots. The consumer publishes its read position after every
//!   element, and the producer reads it only when its cached copy says the ring looks full;
//!   "full" is always exact.
//! - A full ring hands the value back to the producer instead of blocking or overwriting.
//!   What to do about back-pressure is the caller's decision.
//!
//! Protocol, for position `p` (a wrapping counter) stored in slot `p % capacity`: the producer
//! writes the value, then stores `seq = p + 1`; the consumer at position `p` takes the value
//! once it sees `seq == p + 1`, then stores `head = p + 1`. The producer reuses a slot only
//! after observing that `head` has passed the slot's previous position.
//!
//! [`Ring`] is that protocol with an exact contract. [`Producer`] and [`Consumer`] share one
//! ring between two threads behind a verified lock.

use crate::counter;
use std::sync::Arc;
use vstd::prelude::*;
use vstd::rwlock::{ReadHandle, RwLock, RwLockPredicate, WriteHandle};

verus! {

/// Cache line size assumed for the payload limit.
pub const CACHE_LINE: usize = 64;

/// Largest value size that still fits a slot in one cache line alongside a 64-bit sequence
/// number.
pub const SINGLE_LINE_PAYLOAD: usize = CACHE_LINE - 8;

/// Error from [`channel`].
#[derive(Clone, Copy, Debug, PartialEq, Eq, Structural)]
pub enum RingError {
    /// Capacity must be a power of two and at least 2.
    InvalidCapacity(usize),
}

/// The ring was full. Carries back the value that was not sent.
#[derive(Clone, Copy, Debug, PartialEq, Eq)]
pub struct Full<T>(pub T);

/// What a ring holds: the elements waiting, oldest first, and how many fit.
#[verifier::ext_equal]
pub struct RingView<T> {
    pub capacity: nat,
    pub queue: Seq<T>,
}

/// Whether a ring can have this capacity.
pub open spec fn valid_capacity(capacity: int) -> bool {
    capacity >= 2 && counter::is_power(capacity)
}

impl<T> RingView<T> {
    /// The ring after sending `value`, and whether there was room.
    pub open spec fn push(self, value: T) -> (RingView<T>, Result<(), Full<T>>) {
        if self.queue.len() < self.capacity {
            (RingView { queue: self.queue.push(value), ..self }, Ok(()))
        } else {
            (self, Err(Full(value)))
        }
    }

    /// The ring after taking the oldest element, and that element.
    pub open spec fn pop(self) -> (RingView<T>, Option<T>) {
        if self.queue.len() == 0 {
            (self, None)
        } else {
            (RingView { queue: self.queue.skip(1), ..self }, Some(self.queue[0]))
        }
    }
}

/// One ring slot: sequence number and value.
struct Slot<T> {
    /// `position + 1` of the value last published here. Written only by the producer.
    seq: usize,
    value: Option<T>,
}

/// Where the two sides of a ring stand, counted from the start without wrapping.
struct Positions {
    /// Elements taken.
    head: nat,
    /// Elements sent.
    tail: nat,
    /// Elements taken when the producer last looked.
    seen: nat,
}

/// A bounded first-in, first-out ring.
pub struct Ring<T> {
    /// Next position the consumer reads, as published. Written only by the consumer.
    head: usize,
    slots: Vec<Slot<T>>,
    mask: usize,
    /// Next position to write.
    write_position: usize,
    /// Last observed consumer `head`. May lag the real value, which only makes the ring look
    /// fuller than it is.
    cached_head: usize,
    /// Next position to read.
    read_position: usize,
    at: Ghost<Positions>,
    queue: Ghost<Seq<T>>,
}

impl<T> View for Ring<T> {
    type V = RingView<T>;

    closed spec fn view(&self) -> RingView<T> {
        RingView { capacity: self.slots@.len(), queue: self.queue@ }
    }
}

/// The sequence number of a slot before position `p` is published in it: that of the lap
/// before, or on the first lap one that looks like no published position.
spec fn stale_seq(p: nat, capacity: nat) -> usize {
    if p >= capacity {
        counter::wrapped((p - capacity + 1) as nat)
    } else if p == 0 {
        usize::MAX
    } else {
        (p - 1) as usize
    }
}

impl<T> Ring<T> {
    /// What the constructor establishes and every method keeps.
    pub closed spec fn wf(self) -> bool {
        let capacity = self.slots@.len();
        let (head, tail, seen) = (self.at@.head, self.at@.tail, self.at@.seen);
        &&& valid_capacity(capacity as int)
        &&& capacity <= usize::MAX
        &&& self.mask == capacity - 1
        &&& seen <= head <= tail
        &&& tail - seen <= capacity
        &&& self.head == counter::wrapped(head)
        &&& self.read_position == counter::wrapped(head)
        &&& self.write_position == counter::wrapped(tail)
        &&& self.cached_head == counter::wrapped(seen)
        &&& self.queue@.len() == tail - head
        &&& forall|p: nat|
            #![trigger self.slots@[(p % capacity) as int]]
            head <= p < tail ==> self.slots@[(p % capacity) as int].seq == counter::wrapped(p + 1)
                && self.slots@[(p % capacity) as int].value == Some(self.queue@[p - head])
        &&& forall|p: nat|
            #![trigger self.slots@[(p % capacity) as int]]
            tail <= p < head + capacity ==> self.slots@[(p % capacity) as int].seq == stale_seq(
                p,
                capacity,
            )
    }

    /// A ring never holds more than fits.
    pub proof fn law_a_ring_never_overfills(self)
        requires
            self.wf(),
        ensures
            self@.queue.len() <= self@.capacity,
            valid_capacity(self@.capacity as int),
    {
    }
}

/// Two positions less than a lap apart use different slots.
proof fn lemma_distinct_slots(p: nat, q: nat, capacity: nat)
    requires
        capacity > 0,
        p < q < p + capacity,
    ensures
        p % capacity != q % capacity,
{
    if p % capacity == q % capacity {
        let (a, b, c) = (p as int, q as int, capacity as int);
        vstd::arithmetic::div_mod::lemma_fundamental_div_mod(a, c);
        vstd::arithmetic::div_mod::lemma_fundamental_div_mod(b, c);
        let k = b / c - a / c;
        assert(b - a == c * k) by (nonlinear_arith)
            requires
                a == c * (a / c) + a % c,
                b == c * (b / c) + b % c,
                a % c == b % c,
                k == b / c - a / c,
        ;
        assert(false) by (nonlinear_arith)
            requires
                b - a == c * k,
                0 < b - a < c,
        ;
    }
}

/// A slot that still has its sequence number of a lap ago does not look published.
proof fn lemma_stale_seq(p: nat, capacity: nat)
    requires
        2 <= capacity <= usize::MAX,
    ensures
        stale_seq(p, capacity) != counter::wrapped(p + 1),
{
    if p >= capacity {
        counter::lemma_distinct(p + 1, (p - capacity + 1) as nat);
    } else {
        assert((p + 1) % counter::modulus() == p + 1) by {
            vstd::arithmetic::div_mod::lemma_small_mod(p + 1, counter::modulus());
        }
    }
}

impl<T: Copy> Ring<T> {
    /// Creates a ring with room for `capacity` elements.
    ///
    /// # Errors
    /// [`RingError::InvalidCapacity`] unless `capacity` is a power of two and at least 2.
    pub fn new(capacity: usize) -> (r: Result<Self, RingError>)
        ensures
            match r {
                Ok(ring) => valid_capacity(capacity as int) && ring.wf() && ring@ == (RingView {
                    capacity: capacity as nat,
                    queue: Seq::<T>::empty(),
                }),
                Err(error) => !valid_capacity(capacity as int) && error
                    == RingError::InvalidCapacity(capacity),
            },
    {
        if capacity < 2 || !counter::is_power_of_two(capacity) {
            return Err(RingError::InvalidCapacity(capacity));
        }
        let mut slots: Vec<Slot<T>> = Vec::with_capacity(capacity);
        let mut position: usize = 0;
        while position < capacity
            invariant
                position <= capacity,
                slots@.len() == position,
                forall|i: int|
                    0 <= i < position ==> (#[trigger] slots@[i]).seq == stale_seq(
                        i as nat,
                        capacity as nat,
                    ),
            decreases capacity - position,
        {
            // Never equal to `position + 1`, so no slot starts out looking published.
            slots.push(Slot { seq: position.wrapping_sub(1), value: None });
            position = position + 1;
        }
        let ring: Ring<T> = Ring {
            head: 0,
            slots,
            mask: capacity - 1,
            write_position: 0,
            cached_head: 0,
            read_position: 0,
            at: Ghost(Positions { head: 0, tail: 0, seen: 0 }),
            queue: Ghost(Seq::empty()),
        };
        proof {
            vstd::arithmetic::div_mod::lemma_small_mod(0, counter::modulus());
            assert forall|p: nat|
                #![trigger ring.slots@[(p % (capacity as nat)) as int]]
                p < capacity implies ring.slots@[(p % (capacity as nat)) as int].seq == stale_seq(
                p,
                capacity as nat,
            ) by {
                vstd::arithmetic::div_mod::lemma_small_mod(p, capacity as nat);
                assert(ring.slots@[p as int].seq == stale_seq(p, capacity as nat));
            }
        }
        Ok(ring)
    }

    /// Number of elements the ring can hold.
    pub fn capacity(&self) -> (r: usize)
        ensures
            r == self@.capacity,
    {
        self.slots.len()
    }

    /// Sends `value`, or returns it in [`Full`] if the ring has no free slot.
    ///
    /// # Errors
    /// [`Full`] when the consumer has not yet made room.
    pub fn push(&mut self, value: T) -> (r: Result<(), Full<T>>)
        requires
            old(self).wf(),
        ensures
            final(self).wf(),
            (final(self)@, r) == old(self)@.push(value),
    {
        let capacity: usize = self.slots.len();
        let ghost (head, tail) = (self.at@.head, self.at@.tail);
        proof {
            counter::lemma_wrapping_sub(tail, self.at@.seen);
        }
        if self.write_position.wrapping_sub(self.cached_head) >= capacity {
            self.cached_head = self.head;
            proof {
                self.at@ = Positions { head, tail, seen: head };
                counter::lemma_wrapping_sub(tail, head);
            }
            if self.write_position.wrapping_sub(self.cached_head) >= capacity {
                return Err(Full(value));
            }
        }
        proof {
            counter::lemma_mask(tail, capacity);
            counter::lemma_wrapping_add(tail, 1);
        }
        let index: usize = self.write_position & self.mask;
        let next: usize = self.write_position.wrapping_add(1);
        self.slots.set(index, Slot { seq: next, value: Some(value) });
        self.write_position = next;
        proof {
            let c = capacity as nat;
            let before = old(self).slots@;
            self.queue@ = self.queue@.push(value);
            self.at@ = Positions { head, tail: tail + 1, seen: self.at@.seen };
            assert forall|p: nat|
                #![trigger self.slots@[(p % c) as int]]
                head <= p < tail + 1 implies self.slots@[(p % c) as int].seq == counter::wrapped(
                p + 1,
            ) && self.slots@[(p % c) as int].value == Some(self.queue@[p - head]) by {
                if p < tail {
                    lemma_distinct_slots(p, tail, c);
                    assert(before[(p % c) as int].seq == counter::wrapped(p + 1));
                }
            }
            assert forall|p: nat|
                #![trigger self.slots@[(p % c) as int]]
                tail + 1 <= p < head + c implies self.slots@[(p % c) as int].seq == stale_seq(
                p,
                c,
            ) by {
                lemma_distinct_slots(tail, p, c);
                assert(before[(p % c) as int].seq == stale_seq(p, c));
            }
        }
        Ok(())
    }

    /// Takes the oldest element, or `None` if the ring is empty.
    pub fn pop(&mut self) -> (r: Option<T>)
        requires
            old(self).wf(),
        ensures
            final(self).wf(),
            (final(self)@, r) == old(self)@.pop(),
    {
        let capacity: usize = self.slots.len();
        let ghost (head, tail) = (self.at@.head, self.at@.tail);
        proof {
            counter::lemma_mask(head, capacity);
            counter::lemma_wrapping_add(head, 1);
            lemma_stale_seq(head, capacity as nat);
        }
        let index: usize = self.read_position & self.mask;
        let next: usize = self.read_position.wrapping_add(1);
        if self.slots[index].seq != next {
            return None;
        }
        let value: Option<T> = self.slots[index].value;
        self.head = next;
        self.read_position = next;
        proof {
            let c = capacity as nat;
            let before = old(self).queue@;
            self.queue@ = before.skip(1);
            self.at@ = Positions { head: head + 1, tail, seen: self.at@.seen };
            assert forall|p: nat|
                #![trigger self.slots@[(p % c) as int]]
                head + 1 <= p < tail implies self.slots@[(p % c) as int].seq == counter::wrapped(
                p + 1,
            ) && self.slots@[(p % c) as int].value == Some(self.queue@[p - (head + 1)]) by {
                assert(old(self).slots@[(p % c) as int].value == Some(before[p - head]));
            }
            assert forall|p: nat|
                #![trigger self.slots@[(p % c) as int]]
                tail <= p < head + 1 + c implies self.slots@[(p % c) as int].seq == stale_seq(
                p,
                c,
            ) by {
                if p == head + c {
                    vstd::arithmetic::div_mod::lemma_mod_add_multiples_vanish(head as int, c as int);
                    assert(p % c == head % c);
                } else {
                    assert(old(self).slots@[(p % c) as int].seq == stale_seq(p, c));
                }
            }
        }
        value
    }

    /// Whether no element is waiting.
    pub fn is_empty(&self) -> (r: bool)
        requires
            self.wf(),
        ensures
            r == (self@.queue.len() == 0),
    {
        let ghost head = self.at@.head;
        proof {
            counter::lemma_mask(head, self.slots.len());
            counter::lemma_wrapping_add(head, 1);
            lemma_stale_seq(head, self.slots@.len());
        }
        let index: usize = self.read_position & self.mask;
        self.slots[index].seq != self.read_position.wrapping_add(1)
    }
}

/// What the lock around a shared ring guards: a well-formed ring of a fixed capacity.
pub struct RingGuard {
    pub capacity: Ghost<nat>,
}

impl<T> RwLockPredicate<Ring<T>> for RingGuard {
    open spec fn inv(self, ring: Ring<T>) -> bool {
        ring.wf() && ring@.capacity == self.capacity@
    }
}

/// Whether `lock` was made around `ring`.
pub open spec fn made_around<T>(lock: RwLock<Ring<T>, RingGuard>, ring: Ring<T>) -> bool {
    call_ensures(RwLock::<Ring<T>, RingGuard>::new, (ring, Ghost(lock.pred())), lock)
}

/// Whether `before` was taken out of `lock`, and `after` put back in its place.
pub open spec fn exchanged<T>(
    lock: RwLock<Ring<T>, RingGuard>,
    before: Ring<T>,
    handle: WriteHandle<'_, Ring<T>, RingGuard>,
    after: Ring<T>,
) -> bool {
    &&& call_ensures(RwLock::<Ring<T>, RingGuard>::acquire_write, (&lock,), (before, handle))
    &&& call_ensures(WriteHandle::<'_, Ring<T>, RingGuard>::release_write, (handle, after), ())
}

/// `Arc::strong_count` of std: how many handles share the value right now. Nothing is claimed
/// of the count, which other threads change.
#[verifier::external_body]
pub(crate) fn sharers<V>(shared: &Arc<V>) -> usize {
    Arc::strong_count(shared)
}

/// Whether one half of a ring is left alone, given how many handles share the ring.
pub fn is_alone(sharers: usize) -> (r: bool)
    ensures
        r == (sharers == 1),
{
    sharers == 1
}

/// Sending half of a ring. Exactly one exists per ring.
pub struct Producer<T> {
    shared: Arc<RwLock<Ring<T>, RingGuard>>,
}

/// Receiving half of a ring. Exactly one exists per ring.
pub struct Consumer<T> {
    shared: Arc<RwLock<Ring<T>, RingGuard>>,
}

/// Creates a ring with room for `capacity` elements.
///
/// # Errors
/// [`RingError::InvalidCapacity`] unless `capacity` is a power of two and at least 2.
pub fn channel<T: Copy + Send>(capacity: usize) -> (r: Result<
    (Producer<T>, Consumer<T>),
    RingError,
>)
    ensures
        match r {
            Ok((producer, consumer)) => {
                &&& valid_capacity(capacity as int)
                &&& producer.ring() == consumer.ring()
                &&& exists|ring: Ring<T>| #[trigger]
                    made_around(producer.ring(), ring) && ring@ == (RingView {
                        capacity: capacity as nat,
                        queue: Seq::<T>::empty(),
                    })
                &&& producer.ring_capacity() == capacity
                &&& consumer.ring_capacity() == capacity
            },
            Err(error) => !valid_capacity(capacity as int) && error == RingError::InvalidCapacity(
                capacity,
            ),
        },
{
    let ring: Ring<T> = Ring::new(capacity)?;
    let guard: Ghost<RingGuard> = Ghost(RingGuard { capacity: Ghost(capacity as nat) });
    let lock: RwLock<Ring<T>, RingGuard> = RwLock::new(ring, guard);
    assert(made_around(lock, ring));
    let shared: Arc<RwLock<Ring<T>, RingGuard>> = Arc::new(lock);
    let producer: Producer<T> = Producer { shared: shared.clone() };
    let consumer: Consumer<T> = Consumer { shared };
    Ok((producer, consumer))
}

impl<T> Producer<T> {
    /// The shared ring.
    pub closed spec fn ring(self) -> RwLock<Ring<T>, RingGuard> {
        *self.shared
    }

    /// How many elements the shared ring can hold.
    pub open spec fn ring_capacity(self) -> nat {
        self.ring().pred().capacity@
    }

    /// Whether `count` is a number of handles that `Arc::strong_count` can find on the shared
    /// ring.
    pub closed spec fn shared_by(self, count: usize) -> bool {
        call_ensures(sharers::<RwLock<Ring<T>, RingGuard>>, (&self.shared,), count)
    }
}

impl<T> Consumer<T> {
    /// The shared ring.
    pub closed spec fn ring(self) -> RwLock<Ring<T>, RingGuard> {
        *self.shared
    }

    /// How many elements the shared ring can hold.
    pub open spec fn ring_capacity(self) -> nat {
        self.ring().pred().capacity@
    }

    /// Whether `count` is a number of handles that `Arc::strong_count` can find on the shared
    /// ring.
    pub closed spec fn shared_by(self, count: usize) -> bool {
        call_ensures(sharers::<RwLock<Ring<T>, RingGuard>>, (&self.shared,), count)
    }
}

impl<T: Copy> Producer<T> {
    /// Sends `value`, or returns it in [`Full`] if the ring has no free slot. Which of the two
    /// depends on how far the consumer is; [`RingView::push`] says what happens to the ring as
    /// the call finds it.
    ///
    /// # Errors
    /// [`Full`] when the consumer has not yet made room.
    pub fn push(&mut self, value: T) -> (r: Result<(), Full<T>>)
        ensures
            final(self).ring() == old(self).ring(),
            exists|before: Ring<T>, handle: WriteHandle<'_, Ring<T>, RingGuard>, after: Ring<T>|
                before.wf() && before@.capacity == old(self).ring_capacity() && #[trigger]
                exchanged(old(self).ring(), before, handle, after) && (after@, r) == before@.push(
                    value,
                ),
    {
        let (mut ring, handle) = self.shared.acquire_write();
        let ghost before = ring;
        let result: Result<(), Full<T>> = ring.push(value);
        handle.release_write(ring);
        assert(exchanged(self.ring(), before, handle, ring));
        result
    }

    /// Number of elements the ring can hold.
    pub fn capacity(&self) -> (r: usize)
        ensures
            r == self.ring_capacity(),
    {
        let handle = self.shared.acquire_read();
        let capacity: usize = handle.borrow().capacity();
        handle.release_read();
        capacity
    }

    /// Whether the consumer has been dropped (for example, its thread exited). Callers should
    /// check this on their slow path and fail closed.
    pub fn is_abandoned(&self) -> (r: bool)
        ensures
            exists|count: usize| #[trigger] self.shared_by(count) && r == (count == 1),
    {
        let count: usize = sharers(&self.shared);
        assert(self.shared_by(count));
        is_alone(count)
    }
}

impl<T: Copy> Consumer<T> {
    /// Takes the oldest element, or `None` if the ring is empty. Which of the two depends on
    /// how far the producer is; [`RingView::pop`] says what happens to the ring as the call
    /// finds it.
    pub fn pop(&mut self) -> (r: Option<T>)
        ensures
            final(self).ring() == old(self).ring(),
            exists|before: Ring<T>, handle: WriteHandle<'_, Ring<T>, RingGuard>, after: Ring<T>|
                before.wf() && before@.capacity == old(self).ring_capacity() && #[trigger]
                exchanged(old(self).ring(), before, handle, after) && (after@, r) == before@.pop(),
    {
        let (mut ring, handle) = self.shared.acquire_write();
        let ghost before = ring;
        let result: Option<T> = ring.pop();
        handle.release_write(ring);
        assert(exchanged(self.ring(), before, handle, ring));
        result
    }

    /// Whether no element is waiting right now. The producer may add one concurrently.
    pub fn is_empty(&self) -> (r: bool)
        ensures
            exists|handle: ReadHandle<'_, Ring<T>, RingGuard>| #[trigger]
                call_ensures(
                    RwLock::<Ring<T>, RingGuard>::acquire_read,
                    (&self.ring(),),
                    handle,
                ) && r == (handle.view()@.queue.len() == 0),
    {
        let handle = self.shared.acquire_read();
        let ring: &Ring<T> = handle.borrow();
        let empty: bool = ring.is_empty();
        assert(call_ensures(
            RwLock::<Ring<T>, RingGuard>::acquire_read,
            (&self.ring(),),
            handle,
        ));
        handle.release_read();
        empty
    }

    /// Whether the producer has been dropped. Elements already sent can still be popped.
    pub fn is_abandoned(&self) -> (r: bool)
        ensures
            exists|count: usize| #[trigger] self.shared_by(count) && r == (count == 1),
    {
        let count: usize = sharers(&self.shared);
        assert(self.shared_by(count));
        is_alone(count)
    }
}

/// What is sent on a ring with room comes out first of what is sent after it: elements leave in
/// the order in which they came.
pub proof fn law_ring_keeps_order<T>(ring: RingView<T>, value: T)
    requires
        ring.queue.len() < ring.capacity,
    ensures
        ring.push(value).0.queue.len() == ring.queue.len() + 1,
        ring.queue.len() == 0 ==> ring.push(value).0.pop() == (ring, Some(value)),
        ring.queue.len() > 0 ==> ring.push(value).0.pop() == (
            ring.pop().0.push(value).0,
            ring.pop().1,
        ),
{
    if ring.queue.len() == 0 {
        assert(ring.queue.push(value).skip(1) =~= ring.queue);
    } else {
        assert(ring.queue.push(value).skip(1) =~= ring.queue.skip(1).push(value));
    }
}

/// Every ring whose capacity is a power of two of at least two can be made, and no other.
pub proof fn law_capacities_are_powers_of_two(capacity: int)
    ensures
        valid_capacity(capacity) <==> capacity >= 2 && exists|k: nat|
            capacity == #[trigger] vstd::arithmetic::power2::pow2(k),
{
}

/// A value is taken whenever there is a free slot and goes behind all that wait. A full ring gives
/// it back and stays as it is. The oldest value comes out whenever there is one, and the others
/// stay in order.
pub proof fn law_values_queue_up<T>(ring: RingView<T>, value: T)
    ensures
        ring.queue.len() < ring.capacity ==> {
            &&& ring.push(value).1 == Ok::<(), Full<T>>(())
            &&& ring.push(value).0.queue == ring.queue + seq![value]
        },
        ring.queue.len() >= ring.capacity ==> ring.push(value) == (
            ring,
            Err::<(), Full<T>>(Full(value)),
        ),
        ring.push(value).0.capacity == ring.capacity,
        ring.queue.len() == 0 ==> ring.pop() == (ring, None::<T>),
        ring.queue.len() > 0 ==> {
            &&& ring.pop().1 is Some
            &&& ring.queue == seq![ring.pop().1->0] + ring.pop().0.queue
        },
        ring.pop().0.capacity == ring.capacity,
{
    assert(ring.queue.push(value) =~= ring.queue + seq![value]);
    if ring.queue.len() > 0 {
        assert(ring.queue =~= seq![ring.queue[0]] + ring.queue.skip(1));
    }
}

} // verus!
