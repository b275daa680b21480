//! Hot-path side of the journal: copies records into the ring and never waits for the disk.

use crate::bytes_ring::{
    self, ByteProducer, ByteRing, ByteRingGuard, ByteRingView, WriteError,
};
use crate::journal::health::JournalShared;
use crate::journal::layout::{self, Kind, RecordHeader, MAX_PAYLOAD, RECORD_HEADER_LEN};
use crate::le;
use std::sync::Arc;
use vstd::prelude::*;
use vstd::rwlock::WriteHandle;

verus! {

/// The pieces of a payload, one after the other.
pub open spec fn joined(parts: Seq<&[u8]>) -> Seq<u8>
    decreases parts.len(),
{
    if parts.len() == 0 {
        Seq::empty()
    } else {
        joined(parts.drop_last()) + parts.last()@
    }
}

/// A record as it goes into the ring: its header, with no checksums yet, and its payload.
pub open spec fn plain_record(header: RecordHeader, payload: Seq<u8>) -> Seq<u8> {
    layout::header_bytes(header, payload.len() as u32) + payload
}

/// The record that stands for `gap` dropped ones. It has the times of the record after it.
pub open spec fn gap_record(header: RecordHeader, gap: u64) -> Seq<u8> {
    plain_record(RecordHeader { kind: Kind(layout::GAP), ..header }, le::le(gap as nat, 8))
}

/// Whether a record with a payload of `len` bytes can never be accepted.
pub open spec fn never_fits(capacity: int, len: int) -> bool {
    len > MAX_PAYLOAD || RECORD_HEADER_LEN + len > bytes_ring::largest_record(capacity)
}

/// What the producer has after a record was offered.
pub struct Offered {
    /// The ring.
    pub ring: ByteRingView,
    /// Records dropped since the last one that got through.
    pub gap: u64,
    /// Whether the record was accepted.
    pub accepted: bool,
}

/// What offering a record does. One that can never fit is dropped before anything else is
/// written, so a run of them produces one gap record with the full count; otherwise a gap is
/// marked before the record that follows it.
pub open spec fn offered(
    ring: ByteRingView,
    gap: u64,
    header: RecordHeader,
    payload: Seq<u8>,
) -> Offered {
    if never_fits(ring.capacity as int, payload.len() as int) {
        Offered { ring, gap: gap.saturating_add(1), accepted: false }
    } else if gap > 0 && ring.write_fault(RECORD_HEADER_LEN + 8) is Some {
        Offered { ring, gap: gap.saturating_add(1), accepted: false }
    } else {
        let marked = if gap > 0 {
            ring.written(gap_record(header, gap))
        } else {
            ring
        };
        if marked.write_fault(RECORD_HEADER_LEN + payload.len()) is Some {
            Offered { ring: marked, gap: 1, accepted: false }
        } else {
            Offered { ring: marked.written(plain_record(header, payload)), gap: 0, accepted: true }
        }
    }
}

/// How many bytes the pieces have together, up to the largest count.
fn joined_len(parts: &[&[u8]]) -> (r: usize)
    ensures
        r == if joined(parts@).len() > usize::MAX {
            usize::MAX as int
        } else {
            joined(parts@).len() as int
        },
{
    let mut total: usize = 0;
    let mut i: usize = 0;
    assert(parts@.take(0) =~= Seq::<&[u8]>::empty());
    while i < parts.len()
        invariant
            i <= parts.len(),
            total == if joined(parts@.take(i as int)).len() > usize::MAX {
                usize::MAX as int
            } else {
                joined(parts@.take(i as int)).len() as int
            },
        decreases parts.len() - i,
    {
        assert(parts@.take(i + 1).drop_last() =~= parts@.take(i as int));
        let part: &[u8] = parts[i];
        total = total.saturating_add(part.len());
        i = i + 1;
    }
    assert(parts@.take(i as int) =~= parts@);
    total
}

/// The start of some pieces is no longer than all of them.
proof fn lemma_joined_grows(parts: Seq<&[u8]>, i: int)
    requires
        0 <= i <= parts.len(),
    ensures
        joined(parts.take(i)).len() <= joined(parts).len(),
    decreases parts.len() - i,
{
    if i < parts.len() {
        lemma_joined_grows(parts, i + 1);
        assert(parts.take(i + 1).drop_last() =~= parts.take(i));
    } else {
        assert(parts.take(i) =~= parts);
    }
}

/// Writes a record into the room for it.
fn fill_record(dst: &mut [u8], header: RecordHeader, parts: &[&[u8]])
    requires
        old(dst)@.len() == RECORD_HEADER_LEN + joined(parts@).len(),
        joined(parts@).len() <= MAX_PAYLOAD,
    ensures
        final(dst)@ == plain_record(header, joined(parts@)),
        final(dst)@.len() == old(dst)@.len(),
{
    let len: usize = dst.len() - RECORD_HEADER_LEN;
    let ghost first = layout::header_bytes(header, len as u32);
    layout::encode_record_header(header, len as u32, dst);
    proof {
        layout::lemma_header_len(header, len as u32);
        assert(first.take(32) =~= first);
    }
    let mut at: usize = RECORD_HEADER_LEN;
    let mut i: usize = 0;
    assert(parts@.take(0) =~= Seq::<&[u8]>::empty());
    assert(dst@.take(at as int) =~= first + joined(parts@.take(0)));
    while i < parts.len()
        invariant
            i <= parts.len(),
            first.len() == RECORD_HEADER_LEN,
            dst@.len() == old(dst)@.len() == RECORD_HEADER_LEN + joined(parts@).len(),
            at == RECORD_HEADER_LEN + joined(parts@.take(i as int)).len(),
            at <= dst.len(),
            dst@.take(at as int) == first + joined(parts@.take(i as int)),
        decreases parts.len() - i,
    {
        let part: &[u8] = parts[i];
        proof {
            assert(parts@.take(i + 1).drop_last() =~= parts@.take(i as int));
            lemma_joined_grows(parts@, i + 1);
        }
        let ghost before = dst@;
        le::put_bytes(dst, at, part);
        assert(dst@.take(at + part@.len()) =~= before.take(at as int) + part@);
        at = at + part.len();
        assert(dst@.take(at as int) =~= first + joined(parts@.take(i + 1)));
        i = i + 1;
    }
    assert(parts@.take(i as int) =~= parts@);
    assert(dst@.take(at as int) =~= dst@);
}

/// Writes the record that stands for `gap` dropped ones into the room for it.
fn fill_gap(dst: &mut [u8], header: RecordHeader, gap: u64)
    requires
        old(dst)@.len() == RECORD_HEADER_LEN + 8,
    ensures
        final(dst)@ == gap_record(header, gap),
        final(dst)@.len() == old(dst)@.len(),
{
    let marker: RecordHeader = RecordHeader { kind: Kind::gap(), ..header };
    let ghost first = layout::header_bytes(marker, 8);
    proof {
        layout::lemma_header_len(marker, 8);
        le::lemma_le_len(gap as nat, 8);
        assert(first.take(32) =~= first);
    }
    layout::encode_record_header(marker, 8, dst);
    le::put_le(dst, RECORD_HEADER_LEN, gap, 8);
    assert(dst@ =~= gap_record(header, gap));
}

/// Writes the record that stands for `gap` dropped ones.
fn write_gap(ring: &mut ByteRing, header: RecordHeader, gap: u64) -> (r: bool)
    requires
        old(ring).wf(),
    ensures
        final(ring).wf(),
        r == (old(ring)@.write_fault(RECORD_HEADER_LEN + 8) is None),
        r ==> final(ring)@ == old(ring)@.written(gap_record(header, gap)),
        !r ==> final(ring)@ == old(ring)@,
{
    let fill = |dst: &mut [u8]|
        requires
            dst@.len() == RECORD_HEADER_LEN + 8,
        ensures
            final(dst)@ == gap_record(header, gap),
            final(dst)@.len() == RECORD_HEADER_LEN + 8,
        {
            fill_gap(dst, header, gap);
        };
    match ring.write_with(RECORD_HEADER_LEN + 8, fill) {
        Ok(_) => true,
        Err(_) => false,
    }
}

/// Appends a record whose payload is the concatenation of `parts`. `gap` counts the records
/// dropped since the last one that got through.
pub fn append_record(
    ring: &mut ByteRing,
    gap: &mut u64,
    header: RecordHeader,
    parts: &[&[u8]],
) -> (r: bool)
    requires
        old(ring).wf(),
    ensures
        final(ring).wf(),
        ({
            let after = offered(old(ring)@, *old(gap), header, joined(parts@));
            final(ring)@ == after.ring && *final(gap) == after.gap && r == after.accepted
        }),
{
    let len: usize = joined_len(parts);
    if len > MAX_PAYLOAD || RECORD_HEADER_LEN + len > ring.max_record() {
        *gap = gap.saturating_add(1);
        return false;
    }
    let ghost payload = joined(parts@);
    if *gap > 0 {
        if !write_gap(ring, header, *gap) {
            *gap = gap.saturating_add(1);
            return false;
        }
        *gap = 0;
    }
    let ghost marked = ring@;
    let fill = |dst: &mut [u8]|
        requires
            dst@.len() == RECORD_HEADER_LEN + len,
            len == joined(parts@).len() <= MAX_PAYLOAD,
        ensures
            final(dst)@ == plain_record(header, joined(parts@)),
            final(dst)@.len() == RECORD_HEADER_LEN + len,
        {
            fill_record(dst, header, parts);
        };
    let written: Result<(), WriteError> = ring.write_with(RECORD_HEADER_LEN + len, fill);
    match written {
        Ok(_) => true,
        Err(_) => {
            *gap = 1;
            false
        },
    }
}

/// Hot-path side of the journal.
pub struct JournalProducer {
    ring: ByteProducer,
    /// Records dropped since the last one that got through; reported as a gap record next.
    pending_gap: u64,
    shared: Arc<JournalShared>,
}

impl JournalProducer {
    /// Records dropped since the last one that got through.
    pub closed spec fn pending_gap(self) -> u64 {
        self.pending_gap
    }

    /// The ring that the writer empties.
    pub closed spec fn ring(self) -> ByteProducer {
        self.ring
    }

    /// The counters and flags shared with the other sides of the journal.
    pub closed spec fn shared(self) -> Arc<JournalShared> {
        self.shared
    }

    /// A producer into this ring that has dropped nothing yet.
    pub fn new(ring: ByteProducer, shared: Arc<JournalShared>) -> (r: Self)
        ensures
            r.ring() == ring,
            r.shared() == shared,
            r.pending_gap() == 0,
    {
        JournalProducer { ring, pending_gap: 0, shared }
    }

    /// Appends a record whose payload is the concatenation of `parts`. Never waits for the
    /// disk. Returns `false` if the record was dropped (ring full or record too large); the
    /// drop is counted, reflected in the journal's health, and marked in the journal by a gap
    /// record as soon as there is room. Whether there is room depends on how far the writer is;
    /// [`append_record`] says what happens to the ring as the call finds it.
    pub fn append(&mut self, header: RecordHeader, parts: &[&[u8]]) -> (r: bool)
        ensures
            final(self).ring() == old(self).ring(),
            final(self).shared() == old(self).shared(),
            exists|
                before: ByteRing,
                handle: WriteHandle<'_, ByteRing, ByteRingGuard>,
                after: ByteRing,
            |
                before.wf() && before@.capacity == old(self).ring().ring_capacity() && #[trigger]
                bytes_ring::exchanged(old(self).ring().ring(), before, handle, after) && offered(
                    before@,
                    old(self).pending_gap(),
                    header,
                    joined(parts@),
                ) == (Offered { ring: after@, gap: final(self).pending_gap(), accepted: r }),
            !r ==> old(self).shared().noted_drop(),
    {
        let mut gap: u64 = self.pending_gap;
        let (mut ring, handle) = self.ring.take_ring();
        let ghost before = ring;
        let accepted: bool = append_record(&mut ring, &mut gap, header, parts);
        handle.release_write(ring);
        self.pending_gap = gap;
        if !accepted {
            self.shared.note_drop();
        }
        assert(bytes_ring::exchanged(old(self).ring().ring(), before, handle, ring));
        accepted
    }
}

/// How many offered records a record in the ring stands for: one, or as many as a gap record
/// counts.
pub open spec fn stands_for(record: Seq<u8>) -> nat {
    if layout::field(record, 0, 2) == layout::GAP {
        le::from_le(record.skip(RECORD_HEADER_LEN as int))
    } else {
        1
    }
}

/// How many offered records these stand for together.
pub open spec fn stand_for(records: Seq<Seq<u8>>) -> nat
    decreases records.len(),
{
    if records.len() == 0 {
        0
    } else {
        stand_for(records.drop_last()) + stands_for(records.last())
    }
}

/// What a record in the ring stands for.
proof fn lemma_stands_for(header: RecordHeader, payload: Seq<u8>, gap: u64)
    ensures
        header.kind.0 != layout::GAP ==> stands_for(plain_record(header, payload)) == 1,
        stands_for(gap_record(header, gap)) == gap,
{
    let marker = RecordHeader { kind: Kind(layout::GAP), ..header };
    layout::lemma_header_len(header, payload.len() as u32);
    layout::lemma_header_len(marker, 8);
    le::lemma_sizes();
    le::lemma_le_len(header.kind.0 as nat, 2);
    le::lemma_le_len(layout::GAP as nat, 2);
    le::lemma_le_len(gap as nat, 8);
    le::lemma_round_trip(header.kind.0 as nat, 2);
    le::lemma_round_trip(layout::GAP as nat, 2);
    le::lemma_round_trip(gap as nat, 8);
    let plain = plain_record(header, payload);
    let mark = gap_record(header, gap);
    assert(plain.subrange(0, 2) =~= le::le(header.kind.0 as nat, 2));
    assert(mark.subrange(0, 2) =~= le::le(layout::GAP as nat, 2));
    assert(mark.skip(32) =~= le::le(gap as nat, 8));
}

/// No record is lost silently: whatever happens to a record that is offered, the records that
/// go into the ring and the count that is still to be marked stand for it and for all that
/// were dropped before it. Nothing that was in the ring changes, and a record that is accepted
/// comes last.
pub proof fn law_no_record_is_lost_silently(
    ring: ByteRingView,
    gap: u64,
    header: RecordHeader,
    payload: Seq<u8>,
)
    requires
        header.kind.0 != layout::GAP,
        gap < u64::MAX,
    ensures
        ({
            let after = offered(ring, gap, header, payload);
            let before = ring.contents();
            let now = after.ring.contents();
            &&& before.len() <= now.len()
            &&& now.take(before.len() as int) == before
            &&& stand_for(now.skip(before.len() as int)) + after.gap == gap + 1
            &&& after.accepted ==> after.gap == 0 && now.last() == plain_record(header, payload)
        }),
{
    let after = offered(ring, gap, header, payload);
    let before = ring.contents();
    let now = after.ring.contents();
    let n = before.len() as int;
    let new = now.skip(n);
    lemma_stands_for(header, payload, gap);
    reveal_with_fuel(stand_for, 3);
    assert(now.take(n) =~= before);
    if new.len() == 1 {
        assert(new.drop_last() =~= Seq::<Seq<u8>>::empty());
    } else if new.len() == 2 {
        assert(new.drop_last() =~= seq![gap_record(header, gap)]);
        assert(seq![gap_record(header, gap)].drop_last() =~= Seq::<Seq<u8>>::empty());
    } else {
        assert(new =~= Seq::<Seq<u8>>::empty());
    }
}

/// What is offered is accepted whenever it can be: its payload is at most 16 MiB, it and its
/// header take at most half the ring without a record's own header, a pending gap can be marked
/// and there is room after that. It is dropped only for one of these reasons. What is accepted
/// comes last, right after the mark of the gap if there is one.
pub proof fn law_records_are_dropped_only_for_want_of_room(
    ring: ByteRingView,
    gap: u64,
    header: RecordHeader,
    payload: Seq<u8>,
)
    requires
        ring.wf(),
    ensures
        ({
            let after = offered(ring, gap, header, payload);
            let size = 32 + payload.len() as int;
            let possible = payload.len() <= 16_777_216 && size <= ring.capacity as int / 2 - 8;
            let mark = gap_record(header, gap);
            let record = plain_record(header, payload);
            &&& mark.len() == 40
            &&& gap == 0 ==> (after.accepted <==> possible && ring.write_fault(size) is None)
            &&& gap > 0 ==> (after.accepted <==> possible && ring.write_fault(40) is None
                && ring.written(mark).write_fault(size) is None)
            &&& after.accepted && gap == 0 ==> after.ring.contents() == ring.contents().push(record)
            &&& after.accepted && gap > 0 ==> after.ring.contents() == ring.contents().push(
                mark,
            ).push(record)
            &&& after.accepted ==> after.gap == 0
            &&& !after.accepted && (gap == 0 || !possible || ring.write_fault(40) is Some)
                ==> after.ring == ring && (gap < u64::MAX ==> after.gap == gap + 1)
        }),
{
    layout::lemma_header_len(header, payload.len() as u32);
    layout::lemma_header_len(RecordHeader { kind: Kind(layout::GAP), ..header }, 8);
    le::lemma_le_len(gap as nat, 8);
    let mark = gap_record(header, gap);
    let record = plain_record(header, payload);
    let after = offered(ring, gap, header, payload);
    if after.accepted {
        if gap == 0 {
            assert(after.ring.contents() =~= ring.contents().push(record));
        } else {
            assert(after.ring.contents() =~= ring.contents().push(mark).push(record));
        }
    }
}

/// An empty ring accepts every record that can be accepted at all.
pub proof fn law_an_empty_ring_accepts_what_it_can(
    ring: ByteRingView,
    header: RecordHeader,
    payload: Seq<u8>,
)
    requires
        ring.wf(),
        ring.records.len() == 0,
        payload.len() <= 16_777_216,
        32 + payload.len() <= ring.capacity / 2 - 8,
    ensures
        offered(ring, 0, header, payload).accepted,
{
    bytes_ring::law_an_empty_ring_takes_any_record(ring, 32 + payload.len() as int);
}

/// The mark of a gap says how many records are missing, with the source and times of the record
/// that follows.
pub proof fn law_a_gap_says_how_many_are_missing(header: RecordHeader, gap: u64)
    ensures
        layout::read_header(gap_record(header, gap)) == (RecordHeader {
            kind: Kind(0x0001),
            ..header
        }),
        le::from_le(gap_record(header, gap).skip(32)) == gap,
{
    let marker = RecordHeader { kind: Kind(layout::GAP), ..header };
    lemma_stands_for(header, Seq::empty(), gap);
    layout::lemma_header_len(marker, 8);
    le::lemma_sizes();
    le::lemma_le_len(marker.kind.0 as nat, 2);
    le::lemma_le_len(marker.source as nat, 2);
    le::lemma_le_len(8, 4);
    le::lemma_le_len(marker.mono.0 as nat, 8);
    le::lemma_le_len(marker.wall.0 as nat, 8);
    le::lemma_le_len(gap as nat, 8);
    le::lemma_round_trip(marker.kind.0 as nat, 2);
    le::lemma_round_trip(marker.source as nat, 2);
    le::lemma_round_trip(marker.mono.0 as nat, 8);
    le::lemma_round_trip(marker.wall.0 as nat, 8);
    le::lemma_round_trip(gap as nat, 8);
    let mark = gap_record(header, gap);
    assert(mark.subrange(0, 2) =~= le::le(marker.kind.0 as nat, 2));
    assert(mark.subrange(2, 4) =~= le::le(marker.source as nat, 2));
    assert(mark.subrange(8, 16) =~= le::le(marker.mono.0 as nat, 8));
    assert(mark.subrange(16, 24) =~= le::le(marker.wall.0 as nat, 8));
    assert(mark.skip(32) =~= le::le(gap as nat, 8));
}

/// A payload that is given in parts is the parts one after the other, in order and with nothing
/// between them.
pub proof fn law_parts_are_joined_in_order(first: Seq<&[u8]>, then: Seq<&[u8]>)
    ensures
        joined(first + then) == joined(first) + joined(then),
        first.len() == 1 ==> joined(first) == first[0]@,
        first.len() == 0 ==> joined(first).len() == 0,
    decreases then.len(),
{
    if first.len() == 1 {
        assert(joined(first.drop_last()) =~= Seq::<u8>::empty());
        assert(joined(first) =~= first[0]@);
    }
    if then.len() == 0 {
        assert(first + then =~= first);
        assert(joined(first) + joined(then) =~= joined(first));
    } else {
        law_parts_are_joined_in_order(first, then.drop_last());
        assert((first + then).drop_last() =~= first + then.drop_last());
        assert(joined(first + then) =~= joined(first) + joined(then));
    }
}

} // verus!
