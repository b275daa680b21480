//! Bounded, single-producer/single-consumer ring of variable-length byte records.
//!
//! The fixed-size [`ring`](crate::ring) carries hot-path events between threads. This ring
//! carries byte records of any size up to half its capacity: raw venue messages on their way
//! to the journal, for example. Properties:
//!
//! - Allocates once in [`channel`]. Writing and reading never allocate.
//! - Each record is one contiguous slice, so readers see it without reassembly. A record that
//!   would run past the end of the buffer is written at the start instead, after a wrap marker.
//! - Records are 8-byte aligned: an 8-byte header (length) then the payload, padded to 8.
//! - The producer builds a record through a closure, so it can be made of several parts (for
//!   example a journal header and a message).
//! - A full ring returns an error instead of blocking or overwriting. What to do about it is
//!   the caller's decision.
//! - Each side caches the other side's position and only reads the shared one when its cache
//!   says the ring looks full (producer) or empty (consumer).
//!
//! [`ByteRing`] is the ring with an exact contract. [`ByteProducer`] and [`ByteConsumer`] share
//! one between two threads behind a verified lock.

use crate::counter;
use crate::le;
use crate::ring;
use std::sync::Arc;
use vstd::prelude::*;
use vstd::rwlock::{RwLock, RwLockPredicate, WriteHandle};

verus! {

/// Bytes before each record's payload: a little-endian `u32` length and 4 reserved bytes.
pub const HEADER: usize = 8;

/// Record alignment.
pub const ALIGN: usize = 8;

/// Length value marking "the rest of the buffer is padding; continue at the start".
const WRAP: u32 = 0xffff_ffff;

/// Smallest allowed capacity.
pub const MIN_CAPACITY: usize = 64;

/// Largest allowed capacity.
pub const MAX_CAPACITY: usize = 0x8000_0000;

/// Error from [`channel`].
#[derive(Clone, Copy, Debug, PartialEq, Eq, Structural)]
pub enum BytesRingError {
    /// Capacity must be a power of two, at least [`MIN_CAPACITY`], and addressable by a `u32`.
    InvalidCapacity(usize),
}

/// Why a record was not written.
#[derive(Clone, Copy, Debug, PartialEq, Eq, Structural)]
pub enum WriteError {
    /// The consumer has not freed enough space yet.
    Full,
    /// The record can never fit: it is larger than [`ByteProducer::max_record`].
    TooLarge {
        /// Requested length.
        len: usize,
        /// Largest record this ring accepts.
        max: usize,
    },
}

/// Whether a ring can have this capacity.
pub open spec fn valid_capacity(capacity: int) -> bool {
    MIN_CAPACITY <= capacity <= MAX_CAPACITY && counter::is_power(capacity)
}

/// Bytes that a record of `len` bytes takes: its header, and its payload padded to the
/// alignment.
pub open spec fn record_size(len: int) -> int {
    HEADER + (len + 7) / 8 * 8
}

/// Bytes of padding before a record of `len` bytes that is written at position `at`: records
/// never straddle the end of the buffer.
#[verifier::opaque]
pub open spec fn padding(capacity: int, at: int, len: int) -> int {
    let to_end = capacity - at % capacity;
    if record_size(len) > to_end {
        to_end
    } else {
        0
    }
}

/// Bytes that writing a record of `len` bytes at position `at` uses up.
#[verifier::opaque]
pub open spec fn footprint(capacity: int, at: int, len: int) -> int {
    padding(capacity, at, len) + record_size(len)
}

/// The largest record that a ring accepts.
pub open spec fn largest_record(capacity: int) -> int {
    capacity / 2 - HEADER
}

/// A record and the position at which it was written, counted from the start without wrapping.
#[verifier::ext_equal]
pub struct Placed {
    pub at: nat,
    pub bytes: Seq<u8>,
}

/// What a ring holds: the records waiting, oldest first, and the positions up to which it was
/// read and written.
#[verifier::ext_equal]
pub struct ByteRingView {
    pub capacity: nat,
    pub head: nat,
    pub tail: nat,
    pub records: Seq<Placed>,
}

impl ByteRingView {
    /// Where the record after `records[i]` starts.
    pub open spec fn end(self, i: int) -> int {
        self.records[i].at + footprint(
            self.capacity as int,
            self.records[i].at as int,
            self.records[i].bytes.len() as int,
        )
    }

    /// The records stand end to end between the two positions, which are at most a lap apart.
    pub open spec fn wf(self) -> bool {
        &&& valid_capacity(self.capacity as int)
        &&& self.head <= self.tail <= self.head + self.capacity
        &&& self.head % 8 == 0
        &&& self.tail % 8 == 0
        &&& self.records.len() == 0 ==> self.head == self.tail
        &&& self.records.len() > 0 ==> self.records[0].at == self.head && self.end(
            self.records.len() - 1,
        ) == self.tail
        &&& forall|i: int, j: int|
            #![trigger self.records[i], self.records[j]]
            0 <= i && j == i + 1 && j < self.records.len() ==> self.records[j].at == self.end(i)
        &&& forall|i: int|
            0 <= i < self.records.len() ==> (#[trigger] self.records[i]).bytes.len()
                <= largest_record(self.capacity as int)
    }

    /// The records themselves.
    pub open spec fn contents(self) -> Seq<Seq<u8>> {
        self.records.map_values(|record: Placed| record.bytes)
    }

    /// Why a record of `len` bytes is refused, if it is.
    pub open spec fn write_fault(self, len: int) -> Option<WriteError> {
        let max = largest_record(self.capacity as int);
        if len > max {
            Some(WriteError::TooLarge { len: len as usize, max: max as usize })
        } else if self.capacity - (self.tail - self.head) < footprint(
            self.capacity as int,
            self.tail as int,
            len,
        ) {
            Some(WriteError::Full)
        } else {
            None
        }
    }

    /// The ring after writing a record that is not refused.
    pub open spec fn written(self, bytes: Seq<u8>) -> ByteRingView {
        ByteRingView {
            tail: (self.tail + footprint(
                self.capacity as int,
                self.tail as int,
                bytes.len() as int,
            )) as nat,
            records: self.records.push(Placed { at: self.tail, bytes }),
            ..self
        }
    }

    /// The ring after reading its oldest record.
    pub open spec fn read(self) -> ByteRingView {
        ByteRingView { head: self.end(0) as nat, records: self.records.skip(1), ..self }
    }

    /// The ring without its oldest record, if it has one.
    pub open spec fn discarded(self) -> ByteRingView {
        if self.records.len() > 0 {
            self.read()
        } else {
            self
        }
    }
}

/// Whether `buf` holds the record: its length and its payload, and a wrap marker before them
/// if it was moved to the start.
spec fn stored(buf: Seq<u8>, record: Placed) -> bool {
    let capacity = buf.len() as int;
    let at = record.at as int;
    let skip = padding(capacity, at, record.bytes.len() as int);
    let start = at + skip;
    &&& skip > 0 ==> forall|j: int|
        0 <= j < 4 ==> #[trigger] buf[(at + j) % capacity] == le::le(WRAP as nat, 4)[j]
    &&& forall|j: int|
        0 <= j < 4 ==> #[trigger] buf[(start + j) % capacity] == le::le(record.bytes.len(), 4)[j]
    &&& forall|k: int|
        0 <= k < record.bytes.len() ==> #[trigger] buf[(start + HEADER + k) % capacity]
            == record.bytes[k]
}

/// Whether `result` is something that `read` returns for a record of these bytes.
pub open spec fn gives<R, F: FnOnce(&[u8]) -> R>(read: F, bytes: Seq<u8>, result: R) -> bool {
    exists|record: &[u8]| record@ == bytes && #[trigger] call_ensures(read, (record,), result)
}

/// Where the two sides of a ring stand, counted from the start without wrapping.
struct BytePositions {
    /// Bytes read.
    head: nat,
    /// Bytes written.
    tail: nat,
    /// Bytes read when the producer last looked.
    seen_head: nat,
    /// Bytes written when the consumer last looked.
    seen_tail: nat,
}

/// A bounded first-in, first-out ring of byte records.
pub struct ByteRing {
    /// Next position the consumer reads. Written only by the consumer.
    head: usize,
    /// Next position the producer writes. Written only by the producer.
    tail: usize,
    buf: Vec<u8>,
    mask: usize,
    /// `head` as the producer last saw it.
    cached_head: usize,
    /// `tail` as the consumer last saw it.
    cached_tail: usize,
    at: Ghost<BytePositions>,
    records: Ghost<Seq<Placed>>,
}

impl View for ByteRing {
    type V = ByteRingView;

    closed spec fn view(&self) -> ByteRingView {
        ByteRingView {
            capacity: self.buf@.len(),
            head: self.at@.head,
            tail: self.at@.tail,
            records: self.records@,
        }
    }
}

impl ByteRing {
    /// What the constructor establishes and every method keeps.
    pub closed spec fn wf(self) -> bool {
        &&& self@.wf()
        &&& self.mask == self.buf@.len() - 1
        &&& self.at@.seen_head <= self.at@.head <= self.at@.seen_tail <= self.at@.tail
        &&& self.at@.tail - self.at@.seen_head <= self.buf@.len()
        &&& self.at@.seen_tail == self.at@.head || exists|i: int|
            0 <= i < self.records@.len() && self.at@.seen_tail == #[trigger] self@.end(i)
        &&& self.head == counter::wrapped(self.at@.head)
        &&& self.tail == counter::wrapped(self.at@.tail)
        &&& self.cached_head == counter::wrapped(self.at@.seen_head)
        &&& self.cached_tail == counter::wrapped(self.at@.seen_tail)
        &&& forall|i: int|
            0 <= i < self.records@.len() ==> stored(self.buf@, #[trigger] self.records@[i])
    }

    /// A well-formed ring has a well-formed view.
    pub proof fn lemma_wf(self)
        requires
            self.wf(),
        ensures
            self@.wf(),
    {
    }
}

/// Sizes and positions are multiples of the alignment, and a record takes at most half the
/// ring.
proof fn lemma_footprint(capacity: int, at: int, len: int)
    requires
        valid_capacity(capacity),
        at >= 0,
        at % 8 == 0,
        0 <= len <= largest_record(capacity),
    ensures
        capacity % 8 == 0,
        record_size(len) % 8 == 0,
        HEADER + len <= record_size(len) <= capacity / 2,
        0 <= at % capacity,
        at % capacity + 8 <= capacity,
        padding(capacity, at, len) % 8 == 0,
        0 <= padding(capacity, at, len) < record_size(len),
        (at + padding(capacity, at, len)) % 8 == 0,
        footprint(capacity, at, len) % 8 == 0,
        footprint(capacity, at, len) == padding(capacity, at, len) + record_size(len),
        padding(capacity, at, len) > 0 ==> (at + padding(capacity, at, len)) % capacity == 0
            && padding(capacity, at, len) == capacity - at % capacity,
        padding(capacity, at, len) == 0 ==> (at + padding(capacity, at, len)) % capacity == at
            % capacity,
        (at + padding(capacity, at, len)) % capacity + record_size(len) <= capacity,
{
    reveal(padding);
    reveal(footprint);
    let k = choose|k: nat| capacity == #[trigger] vstd::arithmetic::power2::pow2(k);
    assert(capacity % 16 == 0) by {
        if k < 4 {
            vstd::arithmetic::power2::lemma2_to64();
        } else {
            vstd::arithmetic::power2::lemma_pow2_adds(4, (k - 4) as nat);
            vstd::arithmetic::power2::lemma2_to64();
            let rest = vstd::arithmetic::power2::pow2((k - 4) as nat) as int;
            assert(capacity == 16 * rest);
        }
    }
    let q = at / capacity;
    let r = at % capacity;
    vstd::arithmetic::div_mod::lemma_fundamental_div_mod(at, capacity);
    let c8 = capacity / 8;
    assert(capacity == 8 * c8);
    assert(r % 8 == 0) by {
        let w = c8 * q;
        assert(capacity * q == 8 * w) by (nonlinear_arith)
            requires
                capacity == 8 * c8,
                w == c8 * q,
        ;
    }
    if padding(capacity, at, len) > 0 {
        assert(at + (capacity - r) == (q + 1) * capacity) by (nonlinear_arith)
            requires
                at == capacity * q + r,
        ;
        vstd::arithmetic::div_mod::lemma_mod_multiples_basic(q + 1, capacity);
    }
}

/// Inside a stretch that does not straddle the end, places follow positions.
proof fn lemma_place(capacity: int, start: int, offset: int)
    requires
        capacity > 0,
        start >= 0,
        0 <= offset,
        start % capacity + offset < capacity,
    ensures
        (start + offset) % capacity == start % capacity + offset,
{
    let q = start / capacity;
    let r = start % capacity;
    vstd::arithmetic::div_mod::lemma_fundamental_div_mod(start, capacity);
    assert(start + offset == q * capacity + (r + offset)) by (nonlinear_arith)
        requires
            start == capacity * q + r,
    ;
    vstd::arithmetic::div_mod::lemma_fundamental_div_mod_converse(
        start + offset,
        capacity,
        q,
        r + offset,
    );
}

/// Two positions less than a lap apart use different places.
proof fn lemma_distinct_places(p: int, q: int, capacity: int)
    requires
        capacity > 0,
        0 <= p < q < p + capacity,
    ensures
        p % capacity != q % capacity,
{
    if p % capacity == q % capacity {
        vstd::arithmetic::div_mod::lemma_fundamental_div_mod(p, capacity);
        vstd::arithmetic::div_mod::lemma_fundamental_div_mod(q, capacity);
        let k = q / capacity - p / capacity;
        assert(q - p == capacity * k) by (nonlinear_arith)
            requires
                p == capacity * (p / capacity) + p % capacity,
                q == capacity * (q / capacity) + q % capacity,
                p % capacity == q % capacity,
                k == q / capacity - p / capacity,
        ;
        assert(false) by (nonlinear_arith)
            requires
                q - p == capacity * k,
                0 < q - p < capacity,
        ;
    }
}

impl ByteRingView {
    /// Every record ends at or before the tail and starts at or after the head.
    proof fn lemma_record_bounds(self, i: int)
        requires
            self.wf(),
            0 <= i < self.records.len(),
        ensures
            self.head <= self.records[i].at,
            self.records[i].at % 8 == 0,
            self.end(i) <= self.tail,
            self.records[i].at < self.end(i),
        decreases self.records.len() - i,
    {
        self.lemma_record_start(i);
        lemma_footprint(
            self.capacity as int,
            self.records[i].at as int,
            self.records[i].bytes.len() as int,
        );
        if i + 1 < self.records.len() {
            self.lemma_record_bounds(i + 1);
            assert(self.records[i + 1].at == self.end(i));
        }
    }

    proof fn lemma_record_start(self, i: int)
        requires
            self.wf(),
            0 <= i < self.records.len(),
        ensures
            self.head <= self.records[i].at,
            self.records[i].at % 8 == 0,
        decreases i,
    {
        if i > 0 {
            self.lemma_record_start(i - 1);
            assert(self.records[i].at == self.end(i - 1));
            lemma_footprint(
                self.capacity as int,
                self.records[i - 1].at as int,
                self.records[i - 1].bytes.len() as int,
            );
        }
    }
}

/// Writes a record into the buffer at `start`, with a wrap marker at `index` if it was moved
/// there.
fn place_record<F: FnOnce(&mut [u8])>(
    buf: &mut Vec<u8>,
    index: usize,
    moved: bool,
    start: usize,
    len: usize,
    fill: F,
)
    requires
        start + HEADER + len <= old(buf).len(),
        len <= u32::MAX,
        moved ==> start + HEADER + len <= index && index + 4 <= old(buf)@.len(),
        forall|dst: &mut [u8]| dst@.len() == len ==> #[trigger] call_requires(fill, (dst,)),
        forall|dst: &mut [u8]|
            dst@.len() == len && #[trigger] call_ensures(fill, (dst,), ()) ==> final(dst)@.len()
                == len,
    ensures
        final(buf)@.len() == old(buf)@.len(),
        exists|dst: &mut [u8]|
            dst@.len() == len && #[trigger] call_ensures(fill, (dst,), ()) && final(buf)@.subrange(
                start + HEADER,
                start + HEADER + len,
            ) == final(dst)@ && final(dst)@.len() == len,
        final(buf)@.subrange(start as int, start + 4) == le::le(len as nat, 4),
        moved ==> final(buf)@.subrange(index as int, index + 4) == le::le(WRAP as nat, 4),
        forall|x: int|
            0 <= x < old(buf)@.len() && !(start <= x < start + HEADER + len) && !(moved && index
                <= x < index + 4) ==> #[trigger] final(buf)@[x] == old(buf)@[x],
{
    proof {
        le::lemma_le_len(len as nat, 4);
        le::lemma_le_len(WRAP as nat, 4);
    }
    if moved {
        le::put_le(buf.as_mut_slice(), index, WRAP as u64, 4);
    }
    let ghost marked = buf@;
    let (_, rest) = buf.as_mut_slice().split_at_mut(start + HEADER);
    let (payload, _) = rest.split_at_mut(len);
    fill(payload);
    let ghost filled = buf@;
    le::put_le(buf.as_mut_slice(), start, len as u64, 4);
    proof {
        assert(buf@.subrange(start + HEADER, start + HEADER + len) =~= filled.subrange(
            start + HEADER,
            start + HEADER + len,
        ));
        assert(buf@.subrange(start as int, start + 4) =~= le::le(len as nat, 4));
        if moved {
            assert(marked.subrange(index as int, index + 4) =~= le::le(WRAP as nat, 4));
            assert(buf@.subrange(index as int, index + 4) =~= marked.subrange(
                index as int,
                index + 4,
            ));
        }
    }
}

/// A freshly placed record is stored.
proof fn lemma_stored(buf: Seq<u8>, record: Placed)
    requires
        valid_capacity(buf.len() as int),
        record.at % 8 == 0,
        record.bytes.len() <= largest_record(buf.len() as int),
        ({
            let at = record.at as int;
            let len = record.bytes.len() as int;
            let skip = padding(buf.len() as int, at, len);
            let index = at % buf.len() as int;
            let start = (at + skip) % buf.len() as int;
            &&& buf.subrange(start + HEADER, start + HEADER + len) == record.bytes
            &&& buf.subrange(start, start + 4) == le::le(len as nat, 4)
            &&& skip > 0 ==> buf.subrange(index, index + 4) == le::le(WRAP as nat, 4)
        }),
    ensures
        stored(buf, record),
{
    let capacity = buf.len() as int;
    let at = record.at as int;
    let len = record.bytes.len() as int;
    let skip = padding(capacity, at, len);
    let index = at % capacity;
    lemma_footprint(capacity, at, len);
    let start = (at + skip) % capacity;
    if skip > 0 {
        assert forall|j: int| 0 <= j < 4 implies #[trigger] buf[(at + j) % capacity] == le::le(
            WRAP as nat,
            4,
        )[j] by {
            lemma_place(capacity, at, j);
            assert(buf.subrange(index, index + 4)[j] == buf[index + j]);
        }
    }
    assert forall|j: int| 0 <= j < 4 implies #[trigger] buf[(at + skip + j) % capacity] == le::le(
        len as nat,
        4,
    )[j] by {
        lemma_place(capacity, at + skip, j);
        assert(buf.subrange(start, start + 4)[j] == buf[start + j]);
    }
    assert forall|k: int| 0 <= k < len implies #[trigger] buf[(at + skip + HEADER + k) % capacity]
        == record.bytes[k] by {
        lemma_place(capacity, at + skip, HEADER + k);
        assert(buf.subrange(start + HEADER, start + HEADER + len)[k] == buf[start + HEADER + k]);
    }
}

/// A stored record stays stored while the places of its positions keep their bytes.
proof fn lemma_still_stored(before: Seq<u8>, after: Seq<u8>, record: Placed)
    requires
        valid_capacity(before.len() as int),
        before.len() == after.len(),
        record.at % 8 == 0,
        record.bytes.len() <= largest_record(before.len() as int),
        stored(before, record),
        forall|p: int|
            record.at <= p < record.at + footprint(
                before.len() as int,
                record.at as int,
                record.bytes.len() as int,
            ) ==> after[#[trigger] (p % (before.len() as int))] == before[p % (before.len() as int)],
    ensures
        stored(after, record),
{
    let capacity = before.len() as int;
    let at = record.at as int;
    let len = record.bytes.len() as int;
    let skip = padding(capacity, at, len);
    lemma_footprint(capacity, at, len);
    if skip > 0 {
        assert forall|j: int| 0 <= j < 4 implies #[trigger] after[(at + j) % capacity] == le::le(
            WRAP as nat,
            4,
        )[j] by {
            let p = at + j;
            assert(after[p % capacity] == before[p % capacity]);
        }
    }
    assert forall|j: int| 0 <= j < 4 implies #[trigger] after[(at + skip + j) % capacity] == le::le(
        len as nat,
        4,
    )[j] by {
        let p = at + skip + j;
        assert(after[p % capacity] == before[p % capacity]);
    }
    assert forall|k: int| 0 <= k < len implies #[trigger] after[(at + skip + HEADER + k)
        % capacity] == record.bytes[k] by {
        let p = at + skip + HEADER + k;
        assert(after[p % capacity] == before[p % capacity]);
    }
}

impl ByteRing {
    /// Creates a ring of `capacity` bytes.
    ///
    /// # Errors
    /// [`BytesRingError::InvalidCapacity`] unless `capacity` is a power of two between
    /// [`MIN_CAPACITY`] and [`MAX_CAPACITY`].
    pub fn new(capacity: usize) -> (r: Result<Self, BytesRingError>)
        ensures
            match r {
                Ok(ring) => valid_capacity(capacity as int) && ring.wf() && ring@ == (
                ByteRingView {
                    capacity: capacity as nat,
                    head: 0,
                    tail: 0,
                    records: Seq::empty(),
                }),
                Err(error) => !valid_capacity(capacity as int) && error
                    == BytesRingError::InvalidCapacity(capacity),
            },
    {
        if !counter::is_power_of_two(capacity) || capacity < MIN_CAPACITY || capacity
            > MAX_CAPACITY {
            return Err(BytesRingError::InvalidCapacity(capacity));
        }
        proof {
            vstd::arithmetic::div_mod::lemma_small_mod(0, counter::modulus());
        }
        Ok(
            ByteRing {
                head: 0,
                tail: 0,
                buf: vec![0u8; capacity],
                mask: capacity - 1,
                cached_head: 0,
                cached_tail: 0,
                at: Ghost(BytePositions { head: 0, tail: 0, seen_head: 0, seen_tail: 0 }),
                records: Ghost(Seq::empty()),
            },
        )
    }

    /// Number of bytes in the ring.
    pub fn capacity(&self) -> (r: usize)
        ensures
            r == self@.capacity,
    {
        self.buf.len()
    }

    /// Largest record this ring accepts: half its capacity minus the header, so any record
    /// fits once the consumer catches up, wherever the write position is.
    pub fn max_record(&self) -> (r: usize)
        requires
            self.wf(),
        ensures
            r == largest_record(self@.capacity as int),
    {
        self.buf.len() / 2 - HEADER
    }

    /// Where a `len`-byte record goes: the index at the write position, the bytes skipped there,
    /// and the index at which the record starts.
    ///
    /// # Errors
    /// [`WriteError::Full`] (try later or drop), or [`WriteError::TooLarge`] (never fits).
    fn place_for(&mut self, len: usize) -> (r: Result<(usize, usize, usize), WriteError>)
        requires
            old(self).wf(),
        ensures
            final(self).wf(),
            final(self)@ == old(self)@,
            final(self).buf == old(self).buf,
            final(self).at@.head == old(self).at@.head,
            final(self).at@.tail == old(self).at@.tail,
            final(self).records == old(self).records,
            match r {
                Ok((index, skip, start)) => {
                    let capacity = old(self).buf@.len() as int;
                    let tail = old(self).at@.tail as int;
                    &&& old(self)@.write_fault(len as int) is None
                    &&& index == tail % capacity
                    &&& skip == padding(capacity, tail, len as int)
                    &&& start == (tail + skip) % capacity
                    &&& tail + footprint(capacity, tail, len as int) - final(self).at@.seen_head
                        <= capacity
                },
                Err(error) => old(self)@.write_fault(len as int) == Some(error),
            },
    {
        let max: usize = self.max_record();
        if len > max {
            return Err(WriteError::TooLarge { len, max });
        }
        let ghost (head, tail) = (self.at@.head, self.at@.tail);
        let capacity: usize = self.buf.len();
        proof {
            reveal(padding);
            lemma_footprint(capacity as int, tail as int, len as int);
            counter::lemma_mask(tail, capacity);
            counter::lemma_wrapping_sub(tail, self.at@.seen_head);
        }
        let size: usize = HEADER + (len + (ALIGN - 1)) / ALIGN * ALIGN;
        let index: usize = self.tail & self.mask;
        let to_end: usize = capacity - index;
        // Records never straddle the end: pad to the end and start over at index 0.
        let skip: usize = if size > to_end {
            to_end
        } else {
            0
        };
        let start: usize = if size > to_end {
            0
        } else {
            index
        };
        let needed: usize = skip + size;
        if capacity - self.tail.wrapping_sub(self.cached_head) < needed {
            self.cached_head = self.head;
            proof {
                self.at@ = BytePositions {
                    head,
                    tail,
                    seen_head: head,
                    seen_tail: self.at@.seen_tail,
                };
                counter::lemma_wrapping_sub(tail, head);
            }
            assert(self@ =~= old(self)@);
            if capacity - self.tail.wrapping_sub(self.cached_head) < needed {
                return Err(WriteError::Full);
            }
        }
        Ok((index, skip, start))
    }

    /// Why a `len`-byte record cannot be written now, if it cannot.
    pub fn fault(&mut self, len: usize) -> (r: Option<WriteError>)
        requires
            old(self).wf(),
        ensures
            final(self).wf(),
            final(self)@ == old(self)@,
            r == old(self)@.write_fault(len as int),
    {
        match self.place_for(len) {
            Ok(_) => None,
            Err(error) => Some(error),
        }
    }

    /// Writes a `len`-byte record, letting `fill` write it in place. `fill` must fill the
    /// whole slice it is given.
    ///
    /// # Errors
    /// [`WriteError::Full`] (try later or drop), or [`WriteError::TooLarge`] (never fits).
    pub fn write_with<F: FnOnce(&mut [u8])>(&mut self, len: usize, fill: F) -> (r: Result<
        (),
        WriteError,
    >)
        requires
            old(self).wf(),
            forall|dst: &mut [u8]| dst@.len() == len ==> #[trigger] call_requires(fill, (dst,)),
            forall|dst: &mut [u8]|
                dst@.len() == len && #[trigger] call_ensures(fill, (dst,), ()) ==> final(dst)@.len()
                    == len,
        ensures
            final(self).wf(),
            match r {
                Ok(_) => old(self)@.write_fault(len as int) is None && exists|dst: &mut [u8]|
                    dst@.len() == len && #[trigger] call_ensures(fill, (dst,), ())
                        && final(dst)@.len() == len && final(self)@ == old(self)@.written(
                        final(dst)@,
                    ),
                Err(error) => old(self)@.write_fault(len as int) == Some(error) && final(self)@
                    == old(self)@,
            },
    {
        let (index, skip, start) = match self.place_for(len) {
            Ok(place) => place,
            Err(error) => {
                return Err(error);
            },
        };
        let ghost (head, tail) = (self.at@.head, self.at@.tail);
        let capacity: usize = self.buf.len();
        proof {
            reveal(padding);
            lemma_footprint(capacity as int, tail as int, len as int);
        }
        let needed: usize = skip + (HEADER + (len + (ALIGN - 1)) / ALIGN * ALIGN);
        let ghost before = self.buf@;
        place_record(&mut self.buf, index, skip > 0, start, len, fill);
        proof {
            counter::lemma_wrapping_add(tail, needed);
        }
        self.tail = self.tail.wrapping_add(needed);
        proof {
            let bytes = self.buf@.subrange(start + HEADER, start + HEADER + len);
            let record = Placed { at: tail, bytes };
            lemma_stored(self.buf@, record);
            let view = old(self)@;
            assert forall|i: int| 0 <= i < self.records@.len() implies stored(
                self.buf@,
                #[trigger] self.records@[i],
            ) by {
                let kept = self.records@[i];
                view.lemma_record_bounds(i);
                assert(stored(before, kept));
                assert forall|p: int| kept.at <= p < view.end(i) implies self.buf@[#[trigger] (p
                    % (capacity as int))] == before[p % (capacity as int)] by {
                    lemma_untouched(capacity as int, head as int, tail as int, len as int, p);
                }
                lemma_still_stored(before, self.buf@, kept);
            }
            self.at@ = BytePositions {
                head,
                tail: tail + needed as nat,
                seen_head: self.at@.seen_head,
                seen_tail: self.at@.seen_tail,
            };
            self.records@ = self.records@.push(record);
            assert(self@ =~= view.written(bytes));
            lemma_written_wf(view, bytes);
            if self.at@.seen_tail != head {
                let i = choose|i: int|
                    0 <= i < view.records.len() && self.at@.seen_tail == #[trigger] view.end(i);
                assert(self@.records[i] == view.records[i]);
                assert(self.at@.seen_tail == self@.end(i));
            }
        }
        Ok(())
    }

    /// Writes `bytes` as one record.
    ///
    /// # Errors
    /// As [`write_with`](Self::write_with).
    pub fn push(&mut self, bytes: &[u8]) -> (r: Result<(), WriteError>)
        requires
            old(self).wf(),
        ensures
            final(self).wf(),
            match r {
                Ok(_) => old(self)@.write_fault(bytes@.len() as int) is None && final(self)@
                    == old(self)@.written(bytes@),
                Err(error) => old(self)@.write_fault(bytes@.len() as int) == Some(error)
                    && final(self)@ == old(self)@,
            },
    {
        let fill = |dst: &mut [u8]|
            requires
                dst@.len() == bytes@.len(),
            ensures
                final(dst)@ == bytes@,
            {
                le::put_bytes(dst, 0, bytes);
                assert(dst@ =~= bytes@);
            };
        self.write_with(bytes.len(), fill)
    }

    /// Whether a record waits. Looks at the write position only where the last look at it shows
    /// none.
    fn has_record(&mut self) -> (r: bool)
        requires
            old(self).wf(),
        ensures
            final(self).wf(),
            final(self)@ == old(self)@,
            r == (old(self)@.records.len() > 0),
            r ==> final(self).at@.seen_tail != final(self).at@.head,
    {
        let ghost (head, tail) = (self.at@.head, self.at@.tail);
        let ghost view = self@;
        if self.head == self.cached_tail {
            self.cached_tail = self.tail;
            proof {
                self.at@ = BytePositions {
                    head,
                    tail,
                    seen_head: self.at@.seen_head,
                    seen_tail: tail,
                };
                if head < tail {
                    counter::lemma_distinct(tail, head);
                }
                if view.records.len() > 0 {
                    view.lemma_record_bounds(0);
                    assert(tail == view.end(view.records.len() - 1));
                }
            }
            assert(self@ =~= view);
            if self.head == self.cached_tail {
                return false;
            }
        }
        proof {
            if view.records.len() == 0 {
                assert(head == tail);
            }
        }
        true
    }

    /// Passes the oldest record to `read` and removes it. `None` if the ring is empty.
    pub fn read_with<R, F: FnOnce(&[u8]) -> R>(&mut self, read: F) -> (r: Option<R>)
        requires
            old(self).wf(),
            forall|record: &[u8]| #[trigger] call_requires(read, (record,)),
        ensures
            final(self).wf(),
            r is Some == (old(self)@.records.len() > 0),
            r is Some ==> final(self)@ == old(self)@.read(),
            r is None ==> final(self)@ == old(self)@,
            r matches Some(result) ==> gives(read, old(self)@.records[0].bytes, result),
    {
        let ghost view = self@;
        if !self.has_record() {
            return None;
        }
        let (skip, start, length) = self.front();
        let payload: &[u8] = vstd::slice::slice_subrange(
            self.buf.as_slice(),
            start + HEADER,
            start + HEADER + length,
        );
        assert(payload@ == view.records[0].bytes);
        let result: R = read(payload);
        assert(gives(read, view.records[0].bytes, result));
        let size: usize = HEADER + (length + (ALIGN - 1)) / ALIGN * ALIGN;
        self.advance(skip, size);
        Some(result)
    }

    /// Copies the oldest record into `out`, in place of what was there. `false` if the ring is
    /// empty.
    pub fn peek_into(&mut self, out: &mut Vec<u8>) -> (r: bool)
        requires
            old(self).wf(),
        ensures
            final(self).wf(),
            final(self)@ == old(self)@,
            r == (old(self)@.records.len() > 0),
            r ==> final(out)@ == old(self)@.records[0].bytes,
            !r ==> final(out)@ == old(out)@,
    {
        let ghost view = self@;
        if !self.has_record() {
            return false;
        }
        let (_, start, length) = self.front();
        let payload: &[u8] = vstd::slice::slice_subrange(
            self.buf.as_slice(),
            start + HEADER,
            start + HEADER + length,
        );
        out.clear();
        out.extend_from_slice(payload);
        assert(out@ =~= view.records[0].bytes);
        true
    }

    /// Removes the oldest record. `false` if the ring is empty.
    pub fn discard(&mut self) -> (r: bool)
        requires
            old(self).wf(),
        ensures
            final(self).wf(),
            r == (old(self)@.records.len() > 0),
            final(self)@ == old(self)@.discarded(),
    {
        if !self.has_record() {
            return false;
        }
        let (skip, _, length) = self.front();
        let size: usize = HEADER + (length + (ALIGN - 1)) / ALIGN * ALIGN;
        self.advance(skip, size);
        true
    }

    /// Finds the oldest record: the padding before it, where it starts, and its length.
    fn front(&self) -> (r: (usize, usize, usize))
        requires
            self.wf(),
            self@.records.len() > 0,
        ensures
            r.0 == padding(
                self@.capacity as int,
                self@.head as int,
                self@.records[0].bytes.len() as int,
            ),
            r.1 + HEADER + r.2 <= self.buf.len(),
            r.2 == self@.records[0].bytes.len() <= largest_record(self@.capacity as int),
            self.buf@.subrange(r.1 + HEADER, r.1 + HEADER + r.2) == self@.records[0].bytes,
    {
        let ghost head = self.at@.head;
        let ghost record = self.records@[0];
        let ghost len = record.bytes.len() as int;
        let capacity: usize = self.buf.len();
        let ghost skip = padding(capacity as int, head as int, len);
        proof {
            lemma_footprint(capacity as int, head as int, len);
            assert(stored(self.buf@, record));
            counter::lemma_mask(head, capacity);
            counter::lemma_wrapping_add(head, skip as usize);
            counter::lemma_mask(head + skip as nat, capacity);
            lemma_read_header(self.buf@, record);
            le::lemma_sizes();
        }
        let index: usize = self.head & self.mask;
        let header: u64 = le::get_le(self.buf.as_slice(), index, 4);
        let to_skip: usize = if header == WRAP as u64 {
            capacity - index
        } else {
            0
        };
        let start: usize = self.head.wrapping_add(to_skip) & self.mask;
        let length: usize = le::get_le(self.buf.as_slice(), start, 4) as usize;
        proof {
            assert(start == (head + skip) % (capacity as int));
            assert(length == len);
            let payload = self.buf@.subrange(start + HEADER, start + HEADER + length);
            assert forall|k: int| 0 <= k < len implies payload[k] == record.bytes[k] by {
                lemma_place(capacity as int, head + skip, HEADER + k);
                assert(self.buf@[(head + skip + HEADER + k) % (capacity as int)]
                    == record.bytes[k]);
            }
            assert(payload =~= record.bytes);
        }
        (to_skip, start, length)
    }

    /// Moves the read position past the oldest record.
    fn advance(&mut self, skip: usize, size: usize)
        requires
            old(self).wf(),
            old(self)@.records.len() > 0,
            old(self).at@.seen_tail != old(self).at@.head,
            skip == padding(
                old(self)@.capacity as int,
                old(self)@.head as int,
                old(self)@.records[0].bytes.len() as int,
            ),
            size == record_size(old(self)@.records[0].bytes.len() as int),
        ensures
            final(self).wf(),
            final(self)@ == old(self)@.read(),
    {
        let ghost (head, tail) = (self.at@.head, self.at@.tail);
        let ghost view = self@;
        let ghost end = (head + skip + size) as nat;
        proof {
            lemma_footprint(view.capacity as int, head as int, view.records[0].bytes.len() as int);
            counter::lemma_wrapping_add(head, skip);
            counter::lemma_wrapping_add(head + skip as nat, size);
        }
        self.head = self.head.wrapping_add(skip).wrapping_add(size);
        proof {
            let seen = self.at@.seen_tail;
            let i = choose|i: int| 0 <= i < view.records.len() && seen == #[trigger] view.end(i);
            assert(0 <= i < view.records.len() && seen == view.end(i));
            lemma_read_wf(view);
            if i > 0 {
                view.read().lemma_record_bounds(i - 1);
                assert(view.read().records[i - 1] == view.records[i]);
                assert(seen == view.read().end(i - 1));
            }
            self.at@ = BytePositions {
                head: end,
                tail,
                seen_head: self.at@.seen_head,
                seen_tail: seen,
            };
            self.records@ = self.records@.skip(1);
            assert(self@ =~= view.read());
            assert forall|i: int| 0 <= i < self.records@.len() implies stored(
                self.buf@,
                #[trigger] self.records@[i],
            ) by {
                assert(self.records@[i] == view.records[i + 1]);
            }
        }
    }
}

/// What the header of a stored record reads as: at its position the wrap marker if it was
/// moved, and where it starts its length.
proof fn lemma_read_header(buf: Seq<u8>, record: Placed)
    requires
        valid_capacity(buf.len() as int),
        record.at % 8 == 0,
        record.bytes.len() <= largest_record(buf.len() as int),
        stored(buf, record),
    ensures
        ({
            let capacity = buf.len() as int;
            let at = record.at as int;
            let skip = padding(capacity, at, record.bytes.len() as int);
            let index = at % capacity;
            let start = (at + skip) % capacity;
            &&& start + 4 <= capacity
            &&& index + 4 <= capacity
            &&& skip > 0 ==> le::from_le(buf.subrange(index, index + 4)) == WRAP
            &&& le::from_le(buf.subrange(start, start + 4)) == record.bytes.len()
        }),
{
    let capacity = buf.len() as int;
    let at = record.at as int;
    let skip = padding(capacity, at, record.bytes.len() as int);
    lemma_footprint(capacity, at, record.bytes.len() as int);
    let index = at % capacity;
    let start = (at + skip) % capacity;
    le::lemma_sizes();
    le::lemma_round_trip(WRAP as nat, 4);
    le::lemma_round_trip(record.bytes.len(), 4);
    if skip > 0 {
        assert forall|j: int| 0 <= j < 4 implies buf.subrange(index, index + 4)[j] == le::le(
            WRAP as nat,
            4,
        )[j] by {
            lemma_place(capacity, at, j);
            assert(buf[(at + j) % capacity] == le::le(WRAP as nat, 4)[j]);
        }
        assert(buf.subrange(index, index + 4) =~= le::le(WRAP as nat, 4));
    }
    assert forall|j: int| 0 <= j < 4 implies buf.subrange(start, start + 4)[j] == le::le(
        record.bytes.len(),
        4,
    )[j] by {
        lemma_place(capacity, at + skip, j);
        assert(buf[(at + skip + j) % capacity] == le::le(record.bytes.len(), 4)[j]);
    }
    assert(buf.subrange(start, start + 4) =~= le::le(record.bytes.len(), 4));
}

/// Reading the oldest record keeps the others end to end.
pub proof fn lemma_read_wf(ring: ByteRingView)
    requires
        ring.wf(),
        ring.records.len() > 0,
    ensures
        ring.read().wf(),
        ring.read().contents() == ring.contents().skip(1),
{
    let after = ring.read();
    let n = ring.records.len() as int;
    ring.lemma_record_bounds(0);
    lemma_footprint(
        ring.capacity as int,
        ring.records[0].at as int,
        ring.records[0].bytes.len() as int,
    );
    assert forall|i: int| 0 <= i < n - 1 implies after.end(i) == ring.end(i + 1)
        && after.records[i] == ring.records[i + 1] by {}
    if n > 1 {
        assert(ring.records[1].at == ring.end(0));
        assert(after.end(n - 2) == ring.end(n - 1));
    }
    assert forall|i: int, j: int|
        #![trigger after.records[i], after.records[j]]
        0 <= i && j == i + 1 && j < after.records.len() implies after.records[j].at == after.end(
        i,
    ) by {
        assert(ring.records[j + 1].at == ring.end(i + 1));
    }
    assert forall|i: int| 0 <= i < after.records.len() implies (
    #[trigger] after.records[i]).bytes.len() <= largest_record(after.capacity as int) by {
        assert(after.records[i] == ring.records[i + 1]);
    }
    assert(after.contents() =~= ring.contents().skip(1));
}

/// Writing at the tail leaves the places of unread positions alone.
proof fn lemma_untouched(capacity: int, head: int, tail: int, len: int, p: int)
    requires
        valid_capacity(capacity),
        0 <= head <= p < tail,
        tail % 8 == 0,
        0 <= len <= largest_record(capacity),
        tail + footprint(capacity, tail, len) <= head + capacity,
    ensures
        ({
            let skip = padding(capacity, tail, len);
            let index = tail % capacity;
            let start = (tail + skip) % capacity;
            let x = p % capacity;
            &&& 0 <= x < capacity
            &&& !(start <= x < start + HEADER + len)
            &&& skip > 0 ==> !(index <= x < index + 4)
        }),
{
    let skip = padding(capacity, tail, len);
    let index = tail % capacity;
    lemma_footprint(capacity, tail, len);
    let start = (tail + skip) % capacity;
    let x = p % capacity;
    if start <= x < start + HEADER + len {
        let q = tail + skip + (x - start);
        lemma_place(capacity, tail + skip, x - start);
        lemma_distinct_places(p, q, capacity);
    }
    if skip > 0 && index <= x < index + 4 {
        let q = tail + (x - index);
        lemma_place(capacity, tail, x - index);
        lemma_distinct_places(p, q, capacity);
    }
}

/// Writing a record that is not refused keeps the records end to end.
pub proof fn lemma_written_wf(ring: ByteRingView, bytes: Seq<u8>)
    requires
        ring.wf(),
        ring.write_fault(bytes.len() as int) is None,
    ensures
        ring.written(bytes).wf(),
        ring.written(bytes).contents() == ring.contents().push(bytes),
{
    let after = ring.written(bytes);
    let n = ring.records.len() as int;
    lemma_footprint(ring.capacity as int, ring.tail as int, bytes.len() as int);
    assert forall|i: int| 0 <= i < n implies after.end(i) == ring.end(i) by {
        assert(after.records[i] == ring.records[i]);
    }
    assert(after.records[n] == (Placed { at: ring.tail, bytes }));
    assert forall|i: int, j: int|
        #![trigger after.records[i], after.records[j]]
        0 <= i && j == i + 1 && j < after.records.len() implies after.records[j].at == after.end(
        i,
    ) by {
        assert(after.records[i] == ring.records[i]);
        if j < n {
            assert(after.records[j] == ring.records[j]);
        }
    }
    assert forall|i: int| 0 <= i < after.records.len() implies (
    #[trigger] after.records[i]).bytes.len() <= largest_record(after.capacity as int) by {
        if i < n {
            assert(after.records[i] == ring.records[i]);
        }
    }
    if n > 0 {
        assert(after.records[0] == ring.records[0]);
    }
    assert(after.contents() =~= ring.contents().push(bytes));
}

/// Any record that a ring accepts at all fits once it is empty, wherever the write position
/// is.
pub proof fn law_an_empty_ring_takes_any_record(ring: ByteRingView, len: int)
    requires
        ring.wf(),
        ring.records.len() == 0,
        0 <= len <= largest_record(ring.capacity as int),
    ensures
        ring.write_fault(len) is None,
{
    lemma_footprint(ring.capacity as int, ring.tail as int, len);
}

/// Every capacity that is a power of two from 64 bytes to two gibibytes can be had, and no other.
pub proof fn law_capacities_are_powers_of_two(capacity: int)
    ensures
        valid_capacity(capacity) <==> 64 <= capacity <= 2_147_483_648 && exists|k: nat|
            capacity == #[trigger] vstd::arithmetic::power2::pow2(k),
{
}

/// The bytes that a record of `len` bytes needs at `tail`: eight for its length and itself, up to
/// the next multiple of eight, and the rest of the buffer where it would not end there.
pub open spec fn needed(capacity: int, tail: int, len: int) -> int {
    let size = if len % 8 == 0 {
        8 + len
    } else {
        8 + len + 8 - len % 8
    };
    let to_end = capacity - tail % capacity;
    if size <= to_end {
        size
    } else {
        to_end + size
    }
}

/// A record is too large exactly when it is longer than half the ring less eight bytes, and the
/// error names both lengths. Any other is refused exactly when the bytes it needs are not free.
/// One that is accepted uses up those bytes and goes behind all that wait.
pub proof fn law_records_are_refused_only_for_their_length_or_want_of_room(
    ring: ByteRingView,
    bytes: Seq<u8>,
)
    requires
        ring.wf(),
        bytes.len() <= usize::MAX,
    ensures
        ({
            let len = bytes.len() as int;
            let fault = ring.write_fault(len);
            let free = ring.capacity - (ring.tail - ring.head);
            let need = needed(ring.capacity as int, ring.tail as int, len);
            let written = ring.written(bytes);
            &&& len > ring.capacity as int / 2 - 8 ==> fault == Some(
                WriteError::TooLarge { len: len as usize, max: (ring.capacity / 2 - 8) as usize },
            )
            &&& len <= ring.capacity as int / 2 - 8 && free < need ==> fault == Some(
                WriteError::Full,
            )
            &&& len <= ring.capacity as int / 2 - 8 && free >= need ==> fault is None
            &&& written.tail == ring.tail + need
            &&& written.head == ring.head
            &&& written.capacity == ring.capacity
            &&& written.contents() == ring.contents() + seq![bytes]
        }),
{
    reveal(footprint);
    reveal(padding);
    let len = bytes.len() as int;
    assert(ring.tail as int % ring.capacity as int == (ring.tail % ring.capacity) as int);
    assert(0 <= ring.tail as int % ring.capacity as int) by (nonlinear_arith)
        requires
            ring.capacity > 0,
    ;
    assert(ring.written(bytes).contents() =~= ring.contents() + seq![bytes]);
}

/// The oldest record goes and nothing else does, and a ring that is read to the end has all its
/// room back.
pub proof fn law_reading_gives_the_room_back(ring: ByteRingView)
    requires
        ring.wf(),
    ensures
        ring.records.len() == 0 ==> ring.discarded() == ring && ring.head == ring.tail,
        ring.records.len() > 0 ==> {
            &&& ring.discarded() == ring.read()
            &&& ring.read().contents() == ring.contents().skip(1)
            &&& ring.read().tail == ring.tail
            &&& ring.read().capacity == ring.capacity
            &&& ring.read().head == ring.head + needed(
                ring.capacity as int,
                ring.head as int,
                ring.records[0].bytes.len() as int,
            )
        },
        ring.records.len() == 1 ==> ring.read().head == ring.tail,
{
    reveal(footprint);
    reveal(padding);
    if ring.records.len() > 0 {
        assert(ring.read().contents() =~= ring.contents().skip(1));
    }
    assert(0 <= ring.head as int % ring.capacity as int <= ring.capacity) by (nonlinear_arith)
        requires
            ring.capacity > 0,
    ;
}

/// Records come out intact and in the order in which they went in.
pub proof fn law_records_keep_order(ring: ByteRingView, bytes: Seq<u8>)
    requires
        ring.wf(),
    ensures
        ring.write_fault(bytes.len() as int) is None ==> ring.written(bytes).wf() && ring.written(
            bytes,
        ).contents() == ring.contents().push(bytes),
        ring.records.len() > 0 ==> ring.read().wf() && ring.contents() == seq![
            ring.records[0].bytes,
        ] + ring.read().contents(),
{
    if ring.write_fault(bytes.len() as int) is None {
        lemma_written_wf(ring, bytes);
    }
    if ring.records.len() > 0 {
        lemma_read_wf(ring);
        assert(ring.contents() =~= seq![ring.records[0].bytes] + ring.contents().skip(1));
    }
}

/// Bytes that the records take, without padding between them.
pub open spec fn used(records: Seq<Placed>) -> int
    decreases records.len(),
{
    if records.len() == 0 {
        0
    } else {
        used(records.drop_last()) + record_size(records.last().bytes.len() as int)
    }
}

/// Whether `skipped` bytes of padding lie before the end of the buffer that positions between
/// `head` and `end` cross.
spec fn crossed(capacity: int, head: int, end: int, skipped: int, lap: int) -> bool {
    &&& head < lap * capacity <= end
    &&& skipped <= lap * capacity - head
    &&& skipped < capacity / 2
}

impl ByteRingView {
    /// The first `n` records are padded at most once.
    proof fn lemma_padded_once(self, n: int) -> (r: (int, int))
        requires
            self.wf(),
            0 <= n <= self.records.len(),
        ensures
            ({
                let end = if n == 0 {
                    self.head as int
                } else {
                    self.end(n - 1)
                };
                &&& end - self.head == used(self.records.take(n)) + r.0
                &&& r.0 == 0 || crossed(self.capacity as int, self.head as int, end, r.0, r.1)
            }),
        decreases n,
    {
        if n == 0 {
            assert(self.records.take(0) =~= Seq::<Placed>::empty());
            (0, 0)
        } else {
            let (skipped, lap) = self.lemma_padded_once(n - 1);
            let record = self.records[n - 1];
            let capacity = self.capacity as int;
            let at = record.at as int;
            let len = record.bytes.len() as int;
            self.lemma_record_bounds(n - 1);
            lemma_footprint(capacity, at, len);
            assert(self.records.take(n).drop_last() =~= self.records.take(n - 1));
            if n > 1 {
                assert(self.records[n - 1].at == self.end(n - 2));
            }
            let skip = padding(capacity, at, len);
            if skip == 0 {
                (skipped, lap)
            } else {
                let next = (at + skip) / capacity;
                vstd::arithmetic::div_mod::lemma_fundamental_div_mod(at + skip, capacity);
                assert(at + skip == next * capacity) by (nonlinear_arith)
                    requires
                        at + skip == capacity * next,
                ;
                if skipped != 0 {
                    lemma_next_lap(capacity, lap, next, at, at + skip);
                }
                (skip, next)
            }
        }
    }
}

/// The end of the buffer after another one is at least a lap later.
proof fn lemma_next_lap(capacity: int, lap: int, next: int, at: int, then_at: int)
    requires
        capacity > 0,
        lap * capacity <= at < then_at,
        then_at == next * capacity,
    ensures
        then_at >= lap * capacity + capacity,
{
    assert(next > lap) by (nonlinear_arith)
        requires
            lap * capacity < next * capacity,
            capacity > 0,
    ;
    assert(next * capacity >= lap * capacity + capacity) by (nonlinear_arith)
        requires
            next >= lap + 1,
            capacity > 0,
    ;
}

/// A ring is full only when the waiting records and the new one take more than half of it.
pub proof fn law_full_means_more_than_half_used(ring: ByteRingView, len: int)
    requires
        ring.wf(),
        len >= 0,
        ring.write_fault(len) == Some(WriteError::Full),
    ensures
        used(ring.records) + record_size(len) > ring.capacity / 2,
{
    let capacity = ring.capacity as int;
    let (head, tail) = (ring.head as int, ring.tail as int);
    let n = ring.records.len() as int;
    let (skipped, lap) = ring.lemma_padded_once(n);
    assert(ring.records.take(n) =~= ring.records);
    lemma_footprint(capacity, tail, len);
    let skip = padding(capacity, tail, len);
    if skip > 0 && skipped != 0 {
        let next = (tail + skip) / capacity;
        vstd::arithmetic::div_mod::lemma_fundamental_div_mod(tail + skip, capacity);
        assert(tail + skip == next * capacity) by (nonlinear_arith)
            requires
                tail + skip == capacity * next,
        ;
        lemma_next_lap(capacity, lap, next, tail, tail + skip);
    }
}

/// What the lock around a shared ring guards: a well-formed ring of a fixed capacity.
pub struct ByteRingGuard {
    pub capacity: Ghost<nat>,
}

impl RwLockPredicate<ByteRing> for ByteRingGuard {
    open spec fn inv(self, ring: ByteRing) -> bool {
        ring.wf() && ring@.capacity == self.capacity@
    }
}

/// Whether `lock` was made around `ring`.
pub open spec fn made_around(lock: RwLock<ByteRing, ByteRingGuard>, ring: ByteRing) -> bool {
    call_ensures(RwLock::<ByteRing, ByteRingGuard>::new, (ring, Ghost(lock.pred())), lock)
}

/// Whether `before` was taken out of `lock`, and `after` put back in its place.
pub open spec fn exchanged(
    lock: RwLock<ByteRing, ByteRingGuard>,
    before: ByteRing,
    handle: WriteHandle<'_, ByteRing, ByteRingGuard>,
    after: ByteRing,
) -> bool {
    &&& call_ensures(RwLock::<ByteRing, ByteRingGuard>::acquire_write, (&lock,), (before, handle))
    &&& call_ensures(WriteHandle::<'_, ByteRing, ByteRingGuard>::release_write, (handle, after), ())
}

/// Writing half. Exactly one exists per ring.
pub struct ByteProducer {
    shared: Arc<RwLock<ByteRing, ByteRingGuard>>,
    /// Where a record is built before it goes into the ring.
    scratch: Vec<u8>,
}

/// Reading half. Exactly one exists per ring.
pub struct ByteConsumer {
    shared: Arc<RwLock<ByteRing, ByteRingGuard>>,
    /// The record that was read last.
    scratch: Vec<u8>,
}

/// Creates a ring of `capacity` bytes.
///
/// # Errors
/// [`BytesRingError::InvalidCapacity`] unless `capacity` is a power of two between
/// [`MIN_CAPACITY`] and [`MAX_CAPACITY`].
pub fn channel(capacity: usize) -> (r: Result<(ByteProducer, ByteConsumer), BytesRingError>)
    ensures
        match r {
            Ok((producer, consumer)) => {
                &&& valid_capacity(capacity as int)
                &&& producer.ring() == consumer.ring()
                &&& exists|ring: ByteRing| #[trigger]
                    made_around(producer.ring(), ring) && ring.wf() && ring@ == (ByteRingView {
                        capacity: capacity as nat,
                        head: 0,
                        tail: 0,
                        records: Seq::empty(),
                    })
                &&& producer.ring_capacity() == capacity
                &&& consumer.ring_capacity() == capacity
            },
            Err(error) => !valid_capacity(capacity as int) && error
                == BytesRingError::InvalidCapacity(capacity),
        },
{
    let ring: ByteRing = ByteRing::new(capacity)?;
    let guard: Ghost<ByteRingGuard> = Ghost(ByteRingGuard { capacity: Ghost(capacity as nat) });
    let max: usize = ring.max_record();
    let lock: RwLock<ByteRing, ByteRingGuard> = RwLock::new(ring, guard);
    assert(made_around(lock, ring));
    let shared: Arc<RwLock<ByteRing, ByteRingGuard>> = Arc::new(lock);
    let producer: ByteProducer = ByteProducer {
        shared: shared.clone(),
        scratch: Vec::with_capacity(max),
    };
    let consumer: ByteConsumer = ByteConsumer { shared, scratch: Vec::with_capacity(max) };
    Ok((producer, consumer))
}

impl ByteProducer {
    /// The shared ring.
    pub closed spec fn ring(self) -> RwLock<ByteRing, ByteRingGuard> {
        *self.shared
    }

    /// How many bytes the shared ring has.
    pub open spec fn ring_capacity(self) -> nat {
        self.ring().pred().capacity@
    }

    /// Whether `count` is a number of handles that `Arc::strong_count` can find on the shared
    /// ring.
    pub closed spec fn shared_by(self, count: usize) -> bool {
        call_ensures(ring::sharers::<RwLock<ByteRing, ByteRingGuard>>, (&self.shared,), count)
    }

    /// Whether `ring` is a state that the shared ring can be in.
    pub open spec fn admits(self, ring: ByteRing) -> bool {
        self.ring().inv(ring)
    }

    /// Takes the ring out of the lock.
    pub(crate) fn take_ring(&self) -> (r: (ByteRing, WriteHandle<'_, ByteRing, ByteRingGuard>))
        ensures
            call_ensures(RwLock::<ByteRing, ByteRingGuard>::acquire_write, (&self.ring(),), r),
            self.admits(r.0),
            r.0.wf(),
            r.0@.capacity == self.ring_capacity(),
            r.1.rwlock() == self.ring(),
    {
        self.shared.acquire_write()
    }

    /// Largest record this ring accepts: half its capacity minus the header, so any record
    /// fits once the consumer catches up, wherever the write position is.
    pub fn max_record(&self) -> (r: usize)
        ensures
            r == largest_record(self.ring_capacity() as int),
    {
        let handle = self.shared.acquire_read();
        let max: usize = handle.borrow().max_record();
        handle.release_read();
        max
    }

    /// Writes a `len`-byte record, which `fill` builds. `fill` must fill the whole slice it is
    /// given; it runs only if there is room, and nothing is visible to the consumer until it
    /// returns. No lock is held while it runs. Whether there is room depends on how far the
    /// consumer is; [`ByteRingView::write_fault`] and [`ByteRingView::written`] say what happens
    /// to the ring as the call finds it.
    ///
    /// # Errors
    /// [`WriteError::Full`] (try later or drop), or [`WriteError::TooLarge`] (never fits).
    pub fn write_with<F: FnOnce(&mut [u8])>(&mut self, len: usize, fill: F) -> (r: Result<
        (),
        WriteError,
    >)
        requires
            forall|dst: &mut [u8]| dst@.len() == len ==> #[trigger] call_requires(fill, (dst,)),
            forall|dst: &mut [u8]|
                dst@.len() == len && #[trigger] call_ensures(fill, (dst,), ()) ==> final(dst)@.len()
                    == len,
        ensures
            final(self).ring() == old(self).ring(),
            exists|
                before: ByteRing,
                handle: WriteHandle<'_, ByteRing, ByteRingGuard>,
                after: ByteRing,
            |
                before.wf() && before@.capacity == old(self).ring_capacity() && #[trigger]
                exchanged(old(self).ring(), before, handle, after) && (match r {
                    Ok(_) => before@.write_fault(len as int) is None && exists|dst: &mut [u8]|
                        dst@.len() == len && #[trigger] call_ensures(fill, (dst,), ())
                            && final(dst)@.len() == len && after@ == before@.written(final(dst)@),
                    Err(error) => before@.write_fault(len as int) == Some(error) && after@
                        == before@,
                }),
    {
        let (mut ring, handle) = self.shared.acquire_write();
        let ghost before = ring;
        let fault: Option<WriteError> = ring.fault(len);
        handle.release_write(ring);
        assert(exchanged(self.ring(), before, handle, ring));
        if let Some(error) = fault {
            return Err(error);
        }
        self.scratch.resize(len, 0);
        fill(self.scratch.as_mut_slice());
        // The consumer only makes more room, so the record still fits.
        let (mut ring, handle) = self.shared.acquire_write();
        let ghost before = ring;
        let result: Result<(), WriteError> = ring.push(self.scratch.as_slice());
        handle.release_write(ring);
        assert(exchanged(self.ring(), before, handle, ring));
        result
    }

    /// Writes `bytes` as one record.
    ///
    /// # Errors
    /// As [`write_with`](Self::write_with).
    pub fn push(&mut self, bytes: &[u8]) -> (r: Result<(), WriteError>)
        ensures
            final(self).ring() == old(self).ring(),
            exists|
                before: ByteRing,
                handle: WriteHandle<'_, ByteRing, ByteRingGuard>,
                after: ByteRing,
            |
                before.wf() && before@.capacity == old(self).ring_capacity() && #[trigger]
                exchanged(old(self).ring(), before, handle, after) && (match r {
                    Ok(_) => before@.write_fault(bytes@.len() as int) is None && after@
                        == before@.written(bytes@),
                    Err(error) => before@.write_fault(bytes@.len() as int) == Some(error) && after@
                        == before@,
                }),
    {
        let (mut ring, handle) = self.shared.acquire_write();
        let ghost before = ring;
        let result: Result<(), WriteError> = ring.push(bytes);
        handle.release_write(ring);
        assert(exchanged(self.ring(), before, handle, ring));
        result
    }

    /// Whether the consumer has been dropped.
    pub fn is_abandoned(&self) -> (r: bool)
        ensures
            exists|count: usize| #[trigger] self.shared_by(count) && r == (count == 1),
    {
        let count: usize = ring::sharers(&self.shared);
        assert(self.shared_by(count));
        ring::is_alone(count)
    }
}

impl ByteConsumer {
    /// The shared ring.
    pub closed spec fn ring(self) -> RwLock<ByteRing, ByteRingGuard> {
        *self.shared
    }

    /// How many bytes the shared ring has.
    pub open spec fn ring_capacity(self) -> nat {
        self.ring().pred().capacity@
    }

    /// Whether `count` is a number of handles that `Arc::strong_count` can find on the shared
    /// ring.
    pub closed spec fn shared_by(self, count: usize) -> bool {
        call_ensures(ring::sharers::<RwLock<ByteRing, ByteRingGuard>>, (&self.shared,), count)
    }

    /// Passes the oldest record to `read` and then removes it: its room is free once `read` has
    /// returned. `None` if the ring is empty. No lock is held while `read` runs. Whether there is
    /// a record depends on how far the producer is; [`ByteRingView::discarded`] says what happens
    /// to the ring as the call finds it afterwards. Only this half removes records, so the oldest
    /// one is then still the one that was read.
    pub fn read_with<R, F: FnOnce(&[u8]) -> R>(&mut self, read: F) -> (r: Option<R>)
        requires
            forall|record: &[u8]| #[trigger] call_requires(read, (record,)),
        ensures
            final(self).ring() == old(self).ring(),
            exists|
                before: ByteRing,
                handle: WriteHandle<'_, ByteRing, ByteRingGuard>,
                same: ByteRing,
            |
                before.wf() && before@.capacity == old(self).ring_capacity() && #[trigger]
                exchanged(old(self).ring(), before, handle, same) && same@ == before@ && (match r {
                    Some(result) => before@.records.len() > 0 && gives(
                        read,
                        before@.records[0].bytes,
                        result,
                    ),
                    None => before@.records.len() == 0,
                }),
            r is Some ==> exists|
                later: ByteRing,
                handle: WriteHandle<'_, ByteRing, ByteRingGuard>,
                after: ByteRing,
            |
                later.wf() && later@.capacity == old(self).ring_capacity() && #[trigger] exchanged(
                    old(self).ring(),
                    later,
                    handle,
                    after,
                ) && after@ == later@.discarded(),
    {
        let (mut ring, handle) = self.shared.acquire_write();
        let ghost before = ring;
        let found: bool = ring.peek_into(&mut self.scratch);
        handle.release_write(ring);
        assert(exchanged(old(self).ring(), before, handle, ring));
        if !found {
            return None;
        }
        let record: &[u8] = self.scratch.as_slice();
        let result: R = read(record);
        assert(gives(read, before@.records[0].bytes, result));
        let (mut ring, handle) = self.shared.acquire_write();
        let ghost later = ring;
        let _ = ring.discard();
        handle.release_write(ring);
        assert(exchanged(old(self).ring(), later, handle, ring));
        Some(result)
    }

    /// Whether the producer has been dropped. Records already written can still be read.
    pub fn is_abandoned(&self) -> (r: bool)
        ensures
            exists|count: usize| #[trigger] self.shared_by(count) && r == (count == 1),
    {
        let count: usize = ring::sharers(&self.shared);
        assert(self.shared_by(count));
        ring::is_alone(count)
    }
}

} // verus!
