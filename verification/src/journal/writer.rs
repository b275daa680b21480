//! Writing the journal: what the background writer puts into its segment files, and when.
//!
//! The writer thread takes records from the ring and hands each to [`JournalWriter::take`]. It
//! performs the file operations; every decision is made here.

use crate::journal::layout;
use crate::le;
use crate::time;
use std::time::Duration;
use vstd::prelude::*;

verus! {

/// Journal settings.
#[derive(Debug)]
pub struct JournalConfig {
    /// Directory holding the segment files. Created if missing. Existing segments are never
    /// overwritten: numbering continues after the highest one present.
    pub dir: String,
    /// Size of the in-memory ring between producer and writer. Bounds how much a slow disk can
    /// fall behind before records are dropped, and (at half) the largest record.
    pub ring_bytes: usize,
    /// Start a new segment once the current one reaches this size.
    pub segment_bytes: u64,
    /// Flush buffered writes to the OS at least this often.
    pub flush_every: Duration,
    /// Ask the OS to persist to disk (`fsync`) at least this often, and at segment ends.
    pub sync_every: Duration,
}

impl Clone for JournalConfig {
    fn clone(&self) -> (r: Self)
        ensures
            r.dir@ == self.dir@,
            r.ring_bytes == self.ring_bytes,
            r.segment_bytes == self.segment_bytes,
            r.flush_every == self.flush_every,
            r.sync_every == self.sync_every,
    {
        JournalConfig {
            dir: self.dir.clone(),
            ring_bytes: self.ring_bytes,
            segment_bytes: self.segment_bytes,
            flush_every: self.flush_every,
            sync_every: self.sync_every,
        }
    }
}

impl JournalConfig {
    /// Defaults: 64 MiB ring, 128 MiB segments, flush every 100 ms, fsync every second.
    pub fn new(dir: String) -> (r: Self)
        ensures
            r.dir == dir,
            r.ring_bytes == 64 * 1024 * 1024,
            r.segment_bytes == 128 * 1024 * 1024,
            time::span_nanos(r.flush_every) == 100_000_000,
            time::span_nanos(r.sync_every) == 1_000_000_000,
    {
        JournalConfig {
            dir,
            ring_bytes: 0x400_0000,
            segment_bytes: 0x800_0000,
            flush_every: Duration::from_nanos(100_000_000),
            sync_every: Duration::from_nanos(1_000_000_000),
        }
    }
}

/// Counters from a finished journal.
#[derive(Clone, Copy, Debug, PartialEq, Eq, Structural)]
pub struct JournalStats {
    /// Records written to disk.
    pub records: u64,
    /// Bytes written to disk, including headers.
    pub bytes: u64,
    /// Segment files written.
    pub segments: u32,
    /// Records dropped by producers (ring full or record too large).
    pub dropped: u64,
    /// Records lost after a write error.
    pub lost_after_failure: u64,
}

impl Default for JournalStats {
    fn default() -> (r: Self)
        ensures
            r == (JournalStats {
                records: 0,
                bytes: 0,
                segments: 0,
                dropped: 0,
                lost_after_failure: 0,
            }),
    {
        JournalStats { records: 0, bytes: 0, segments: 0, dropped: 0, lost_after_failure: 0 }
    }
}

/// A record from the ring with these two checksums filled in.
pub open spec fn framed_with(record: Seq<u8>, crc: u32, header_crc: u32) -> Seq<u8> {
    layout::before_crc(record) + le::le(crc as nat, 4) + le::le(header_crc as nat, 4)
        + layout::payload_of(record)
}

/// What is written for a record from the ring: its bytes with both checksums filled in.
pub open spec fn framed(record: Seq<u8>) -> Seq<u8> {
    let crc = layout::record_crc(record);
    framed_with(record, crc, layout::header_crc(record, crc))
}

/// A record with a whole header is written as it stands with its checksums filled in.
pub proof fn law_framed_records_are_sealed(record: Seq<u8>)
    requires
        record.len() >= layout::RECORD_HEADER_LEN,
    ensures
        framed(record) == layout::sealed(record),
        framed(record).len() == record.len(),
{
    let crc = layout::record_crc(record);
    le::lemma_le_len(crc as nat, 4);
    le::lemma_le_len(layout::header_crc(record, crc) as nat, 4);
    assert(framed(record) =~= layout::sealed(record));
}

/// Appends the last four bytes of `value`.
fn push_le(out: &mut Vec<u8>, value: u32)
    ensures
        final(out)@ == old(out)@ + le::le(value as nat, 4),
{
    out.push((value % 256) as u8);
    out.push((value / 256 % 256) as u8);
    out.push((value / 256 / 256 % 256) as u8);
    out.push((value / 256 / 256 / 256 % 256) as u8);
    proof {
        reveal_with_fuel(le::le, 5);
        assert(out@ =~= old(out)@ + le::le(value as nat, 4));
    }
}

/// What is written for a record from the ring, given its two checksums.
pub fn frame_with(record: &[u8], crc: u32, header_crc: u32) -> (r: Vec<u8>)
    ensures
        r@ == framed_with(record@, crc, header_crc),
{
    let mut out: Vec<u8> = Vec::new();
    out.extend_from_slice(layout::head_part(record));
    push_le(&mut out, crc);
    push_le(&mut out, header_crc);
    out.extend_from_slice(layout::payload_part(record));
    assert(out@ =~= framed_with(record@, crc, header_crc));
    out
}

/// What is written for a record from the ring.
pub fn frame(record: &[u8]) -> (r: Vec<u8>)
    ensures
        r@ == framed(record@),
{
    let crc: u32 = layout::record_checksum(record);
    let header_crc: u32 = layout::header_checksum(record, crc);
    frame_with(record, crc, header_crc)
}

/// What the writer does after one pass over the ring.
#[derive(Clone, Copy, Debug, PartialEq, Eq, Structural)]
pub enum Rest {
    /// Everything is written and it was asked to stop.
    Stop,
    /// There was work, so there may be more.
    Continue,
    /// Nothing to do: sleep instead of spinning a core.
    Sleep,
}

/// What the writer does after one pass over the ring.
pub fn rest_after(stopping: bool, wrote_any: bool) -> (r: Rest)
    ensures
        r == if wrote_any {
            Rest::Continue
        } else if stopping {
            Rest::Stop
        } else {
            Rest::Sleep
        },
{
    if wrote_any {
        Rest::Continue
    } else if stopping {
        Rest::Stop
    } else {
        Rest::Sleep
    }
}

/// Whether something that is done every `every` is due after `elapsed`.
pub fn is_due(elapsed: Duration, every: Duration) -> (r: bool)
    ensures
        r == (time::span_nanos(elapsed) >= time::span_nanos(every)),
{
    elapsed.as_nanos() >= every.as_nanos()
}

/// Everything the writer keeps except the ring and the open file.
#[derive(Clone, Copy, Debug, PartialEq, Eq, Structural)]
pub struct JournalWriter {
    /// Index of the current segment.
    pub index: u32,
    /// Bytes in the current segment.
    pub segment_len: u64,
    /// Size at which a segment is full.
    pub limit: u64,
    /// Counters so far.
    pub stats: JournalStats,
    /// Whether a write failed. Nothing is written after that.
    pub failed: bool,
}

impl JournalWriter {
    /// A writer whose first segment has just been created with its file header.
    pub fn new(index: u32, limit: u64) -> (r: Self)
        ensures
            r == (JournalWriter {
                index,
                segment_len: layout::FILE_HEADER_LEN as u64,
                limit,
                stats: JournalStats {
                    records: 0,
                    bytes: 0,
                    segments: 1,
                    dropped: 0,
                    lost_after_failure: 0,
                },
                failed: false,
            }),
    {
        JournalWriter {
            index,
            segment_len: layout::FILE_HEADER_LEN as u64,
            limit,
            stats: JournalStats { segments: 1, ..JournalStats::default() },
            failed: false,
        }
    }

    /// Takes one record from the ring. Returns the bytes to write, or `None` after a failure,
    /// when the record is counted as lost.
    pub fn take(&mut self, record: &[u8]) -> (r: Option<Vec<u8>>)
        ensures
            match r {
                Some(bytes) => !old(self).failed && bytes@ == framed(record@) && *final(self)
                    == *old(self),
                None => old(self).failed && *final(self) == (JournalWriter {
                    stats: JournalStats {
                        lost_after_failure: old(self).stats.lost_after_failure.saturating_add(1),
                        ..old(self).stats
                    },
                    ..*old(self)
                }),
            },
    {
        if self.failed {
            self.stats.lost_after_failure = self.stats.lost_after_failure.saturating_add(1);
            return None;
        }
        Some(frame(record))
    }

    /// Counts a record of `len` bytes that was written.
    pub fn wrote(&mut self, len: usize)
        ensures
            *final(self) == (JournalWriter {
                segment_len: old(self).segment_len.saturating_add(len as u64),
                stats: JournalStats {
                    records: old(self).stats.records.saturating_add(1),
                    bytes: old(self).stats.bytes.saturating_add(len as u64),
                    ..old(self).stats
                },
                ..*old(self)
            }),
    {
        self.segment_len = self.segment_len.saturating_add(len as u64);
        self.stats.bytes = self.stats.bytes.saturating_add(len as u64);
        self.stats.records = self.stats.records.saturating_add(1);
    }

    /// Notes that a file operation failed. Returns whether it is the first one, whose error is
    /// the one to report.
    pub fn fail(&mut self) -> (r: bool)
        ensures
            r == !old(self).failed,
            *final(self) == (JournalWriter { failed: true, ..*old(self) }),
    {
        let first: bool = !self.failed;
        self.failed = true;
        first
    }

    /// Whether the current segment is full and the next one is to be started.
    pub fn is_segment_full(&self) -> (r: bool)
        ensures
            r == (!self.failed && self.segment_len >= self.limit),
    {
        !self.failed && self.segment_len >= self.limit
    }

    /// Index of the segment after the current one.
    pub fn next_index(&self) -> (r: u32)
        ensures
            r == self.index.saturating_add(1),
    {
        self.index.saturating_add(1)
    }

    /// Notes that the next segment was created with its file header.
    pub fn rotated(&mut self)
        ensures
            *final(self) == (JournalWriter {
                index: old(self).index.saturating_add(1),
                segment_len: layout::FILE_HEADER_LEN as u64,
                stats: JournalStats {
                    segments: old(self).stats.segments.saturating_add(1),
                    ..old(self).stats
                },
                ..*old(self)
            }),
    {
        self.index = self.index.saturating_add(1);
        self.segment_len = layout::FILE_HEADER_LEN as u64;
        self.stats.segments = self.stats.segments.saturating_add(1);
    }

    /// The final counters, unless a file operation failed.
    pub fn finish(&self, dropped: u64) -> (r: Option<JournalStats>)
        ensures
            r == if self.failed {
                None
            } else {
                Some(JournalStats { dropped, ..self.stats })
            },
    {
        if self.failed {
            None
        } else {
            Some(JournalStats { dropped, ..self.stats })
        }
    }
}

} // verus!
