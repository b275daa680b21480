//! What the writer promises of the files it writes.

use crate::journal::layout;
use crate::journal::producer;
use crate::journal::reader_laws::{self, Entry};
use crate::journal::writer_loop::{Event, Order, Phase, WriterLoop};
use std::time::Duration;
use vstd::prelude::*;

verus! {

/// The records of a pass, as the ring hands them out.
pub open spec fn ring_records(entries: Seq<Entry>, records: Seq<&[u8]>) -> bool {
    &&& records.len() == entries.len()
    &&& forall|i: int|
        0 <= i < records.len() ==> (#[trigger] records[i])@ == producer::plain_record(
            entries[i].header,
            entries[i].payload,
        )
}

/// A loop that takes the records of a pass one after the other, each write succeeding: the loop
/// after them and the bytes written.
pub open spec fn drained(
    state: WriterLoop,
    records: Seq<&[u8]>,
    flush_every: Duration,
    sync_every: Duration,
) -> (WriterLoop, Seq<u8>)
    decreases records.len(),
{
    if records.len() == 0 {
        (state, Seq::empty())
    } else {
        let (writing, order) = state.next(Event::Record(records[0]), flush_every, sync_every);
        let bytes = match order {
            Order::Write(bytes) => bytes,
            _ => Seq::empty(),
        };
        let written = writing.next(Event::Done(true), flush_every, sync_every).0;
        let (last, rest) = drained(written, records.skip(1), flush_every, sync_every);
        (last, bytes + rest)
    }
}

/// A pass over the ring appends to the current segment exactly the records that it found, in
/// order and each once, in the form in which the reader gives them back, and goes on taking
/// records after that.
pub proof fn law_a_pass_writes_every_record(
    state: WriterLoop,
    entries: Seq<Entry>,
    records: Seq<&[u8]>,
    flush_every: Duration,
    sync_every: Duration,
)
    requires
        state.phase == Phase::TakingRecord,
        !state.writer.failed,
        reader_laws::storable(entries),
        ring_records(entries, records),
    ensures
        ({
            let (last, bytes) = drained(state, records, flush_every, sync_every);
            &&& bytes == reader_laws::stored(entries)
            &&& last.phase == Phase::TakingRecord
            &&& !last.writer.failed
            &&& last.writer.index == state.writer.index
            &&& last.stopping == state.stopping
            &&& last.wrote_any == (state.wrote_any || entries.len() > 0)
        }),
    decreases entries.len(),
{
    if entries.len() > 0 {
        let entry = entries[0];
        let record = records[0];
        assert(record@ == producer::plain_record(entry.header, entry.payload));
        reader_laws::law_written_records_are_read(entry.header, entry.payload);
        layout::lemma_header_len(entry.header, entry.payload.len() as u32);
        let (writing, order) = state.next(Event::Record(record), flush_every, sync_every);
        assert(order == Order::Write(entry.bytes()));
        let written = writing.next(Event::Done(true), flush_every, sync_every).0;
        assert forall|i: int| 0 <= i < records.skip(1).len() implies (
        #[trigger] records.skip(1)[i])@ == producer::plain_record(
            entries.skip(1)[i].header,
            entries.skip(1)[i].payload,
        ) by {
            assert(records.skip(1)[i] == records[i + 1]);
        }
        law_a_pass_writes_every_record(
            written,
            entries.skip(1),
            records.skip(1),
            flush_every,
            sync_every,
        );
    }
}

} // verus!
