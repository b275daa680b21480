//! What the on-disk format promises as a whole.

use crate::journal::crc;
use crate::journal::layout::{self, Decoded, FormatError, RecordHeader};
use crate::le;
use crate::time::WallTime;
use vstd::prelude::*;

verus! {

/// A complete record as it stands on disk.
pub open spec fn record_bytes(header: RecordHeader, payload: Seq<u8>) -> Seq<u8> {
    layout::sealed(layout::header_bytes(header, payload.len() as u32) + payload)
}

/// The layout of a complete record.
proof fn lemma_layout(header: RecordHeader, payload: Seq<u8>)
    requires
        payload.len() <= 16_777_216,
    ensures
        ({
            let plain = layout::header_bytes(header, payload.len() as u32) + payload;
            let r = record_bytes(header, payload);
            let crc = layout::record_crc(plain);
            &&& layout::header_bytes(header, payload.len() as u32).len() == 32
            &&& plain.len() == 32 + payload.len()
            &&& r.len() == 32 + payload.len()
            &&& r.take(24) == plain.take(24)
            &&& r.subrange(24, 28) == le::le(crc as nat, 4)
            &&& r.subrange(28, 32) == le::le(layout::header_crc(plain, crc) as nat, 4)
            &&& r.skip(32) == payload
            &&& r.subrange(0, 2) == le::le(header.kind.0 as nat, 2)
            &&& r.subrange(2, 4) == le::le(header.source as nat, 2)
            &&& r.subrange(4, 8) == le::le(payload.len(), 4)
            &&& r.subrange(8, 16) == le::le(header.mono.0 as nat, 8)
            &&& r.subrange(16, 24) == le::le(header.wall.0 as nat, 8)
        }),
{
    let len = payload.len() as u32;
    le::lemma_le_len(header.kind.0 as nat, 2);
    le::lemma_le_len(header.source as nat, 2);
    le::lemma_le_len(len as nat, 4);
    le::lemma_le_len(header.mono.0 as nat, 8);
    le::lemma_le_len(header.wall.0 as nat, 8);
    le::lemma_le_len(0, 4);
    let plain = layout::header_bytes(header, len) + payload;
    let r = record_bytes(header, payload);
    let crc = layout::record_crc(plain);
    le::lemma_le_len(crc as nat, 4);
    le::lemma_le_len(layout::header_crc(plain, crc) as nat, 4);
    assert(r.take(24) =~= plain.take(24));
    assert(r.subrange(24, 28) =~= le::le(crc as nat, 4));
    assert(r.subrange(28, 32) =~= le::le(layout::header_crc(plain, crc) as nat, 4));
    assert(r.skip(32) =~= payload);
    assert(r.subrange(0, 2) =~= le::le(header.kind.0 as nat, 2));
    assert(r.subrange(2, 4) =~= le::le(header.source as nat, 2));
    assert(r.subrange(4, 8) =~= le::le(payload.len(), 4));
    assert(r.subrange(8, 16) =~= le::le(header.mono.0 as nat, 8));
    assert(r.subrange(16, 24) =~= le::le(header.wall.0 as nat, 8));
}

/// A complete record is its header and its payload.
pub proof fn lemma_record_len(header: RecordHeader, payload: Seq<u8>)
    requires
        payload.len() <= 16_777_216,
    ensures
        record_bytes(header, payload).len() == layout::RECORD_HEADER_LEN + payload.len(),
{
    lemma_layout(header, payload);
}

/// What the fields of a complete record hold.
pub(crate) proof fn lemma_record_fields(header: RecordHeader, payload: Seq<u8>)
    requires
        payload.len() <= 16_777_216,
    ensures
        ({
            let bytes = record_bytes(header, payload);
            &&& layout::field(bytes, 0, 2) == header.kind.0
            &&& layout::field(bytes, 2, 2) == header.source
            &&& layout::field(bytes, 4, 4) == payload.len()
            &&& layout::field(bytes, 8, 8) == header.mono.0
            &&& layout::field(bytes, 16, 8) == header.wall.0
            &&& layout::field(bytes, 24, 4) == crc::crc32(bytes.take(24) + payload)
            &&& layout::field(bytes, 28, 4) == crc::crc32(bytes.take(28))
            &&& bytes.skip(32) == payload
        }),
{
    let plain = layout::header_bytes(header, payload.len() as u32) + payload;
    let bytes = record_bytes(header, payload);
    lemma_layout(header, payload);
    lemma_fields(header, payload, bytes);
    lemma_header_crc(bytes);
    assert(layout::payload_of(plain) =~= payload);
    le::lemma_sizes();
    le::lemma_round_trip(header.kind.0 as nat, 2);
    le::lemma_round_trip(header.source as nat, 2);
    le::lemma_round_trip(header.mono.0 as nat, 8);
    le::lemma_round_trip(header.wall.0 as nat, 8);
}

/// A file header has its fixed length.
pub proof fn lemma_file_header_len(segment: u32, created: WallTime)
    ensures
        layout::file_header(segment, created).len() == layout::FILE_HEADER_LEN,
{
    le::lemma_le_len(layout::VERSION as nat, 4);
    le::lemma_le_len(segment as nat, 4);
    le::lemma_le_len(created.0 as nat, 8);
    le::lemma_le_len(0, 8);
}

/// What the fields of a complete record, or of anything that starts like one, read as.
proof fn lemma_fields(header: RecordHeader, payload: Seq<u8>, bytes: Seq<u8>)
    requires
        payload.len() <= 16_777_216,
        bytes.len() >= 32,
        bytes.take(32) == record_bytes(header, payload).take(32),
    ensures
        ({
            let plain = layout::header_bytes(header, payload.len() as u32) + payload;
            let crc = layout::record_crc(plain);
            &&& layout::field(bytes, 4, 4) == payload.len()
            &&& layout::field(bytes, 24, 4) == crc
            &&& layout::field(bytes, 28, 4) == layout::header_crc(bytes, crc)
            &&& layout::before_crc(bytes) == layout::before_crc(plain)
            &&& layout::read_header(bytes) == header
        }),
{
    let plain = layout::header_bytes(header, payload.len() as u32) + payload;
    let r = record_bytes(header, payload);
    let crc = layout::record_crc(plain);
    lemma_layout(header, payload);
    le::lemma_sizes();
    le::lemma_round_trip(header.kind.0 as nat, 2);
    le::lemma_round_trip(header.source as nat, 2);
    le::lemma_round_trip(payload.len(), 4);
    le::lemma_round_trip(header.mono.0 as nat, 8);
    le::lemma_round_trip(header.wall.0 as nat, 8);
    le::lemma_round_trip(crc as nat, 4);
    le::lemma_round_trip(layout::header_crc(plain, crc) as nat, 4);
    assert forall|a: int, b: int| 0 <= a <= b <= 32 implies #[trigger] bytes.subrange(a, b)
        == r.subrange(a, b) by {
        assert(bytes.subrange(a, b) =~= bytes.take(32).subrange(a, b));
        assert(r.subrange(a, b) =~= r.take(32).subrange(a, b));
    }
    assert(bytes.take(24) =~= bytes.subrange(0, 24));
    assert(r.take(24) =~= r.subrange(0, 24));
    assert(bytes.subrange(4, 8) == r.subrange(4, 8));
    assert(bytes.subrange(24, 28) == r.subrange(24, 28));
    assert(bytes.subrange(28, 32) == r.subrange(28, 32));
    assert(bytes.subrange(0, 2) == r.subrange(0, 2));
    assert(bytes.subrange(2, 4) == r.subrange(2, 4));
    assert(bytes.subrange(8, 16) == r.subrange(8, 16));
    assert(bytes.subrange(16, 24) == r.subrange(16, 24));
}

/// A sealed record reads back as its header and payload, whatever follows it.
pub proof fn law_records_round_trip(
    header: RecordHeader,
    payload: Seq<u8>,
    rest: Seq<u8>,
    offset: u64,
)
    requires
        payload.len() <= 16_777_216,
    ensures
        layout::read_record(record_bytes(header, payload) + rest, offset) == Ok::<
            Decoded,
            FormatError,
        >(Decoded::Record { header, len: (32 + payload.len() as int) as usize }),
        (record_bytes(header, payload) + rest).subrange(32, 32 + payload.len() as int) == payload,
{
    let r = record_bytes(header, payload);
    let bytes = r + rest;
    let total = 32 + payload.len() as int;
    lemma_layout(header, payload);
    assert(bytes.take(32) =~= r.take(32));
    lemma_fields(header, payload, bytes);
    assert(bytes.take(total) =~= r);
    assert(bytes.subrange(32, total) =~= r.skip(32));
    let plain = layout::header_bytes(header, payload.len() as u32) + payload;
    assert(plain.skip(32) =~= payload);
    assert(layout::before_crc(r) =~= layout::before_crc(plain));
}

/// A record cut short anywhere is incomplete, never an error.
pub proof fn law_short_records_are_incomplete(
    header: RecordHeader,
    payload: Seq<u8>,
    cut: int,
    offset: u64,
)
    requires
        payload.len() <= 16_777_216,
        0 <= cut < 32 + payload.len(),
    ensures
        layout::read_record(record_bytes(header, payload).take(cut), offset) == Ok::<
            Decoded,
            FormatError,
        >(Decoded::Incomplete),
{
    let r = record_bytes(header, payload);
    lemma_layout(header, payload);
    if cut >= 32 {
        assert(r.take(cut).take(32) =~= r.take(32));
        lemma_fields(header, payload, r.take(cut));
    }
}

/// Damage to a record is refused wherever the checksum tells the damaged bytes apart: damage to
/// the header, its length included, by the header checksum before anything else is trusted,
/// and damage to the payload by the record checksum. Damage to the header checksum itself is
/// always refused.
pub proof fn law_damage_is_refused(
    header: RecordHeader,
    payload: Seq<u8>,
    damaged: Seq<u8>,
    offset: u64,
)
    requires
        payload.len() <= 16_777_216,
        damaged.len() == 32 + payload.len(),
    ensures
        ({
            let good = record_bytes(header, payload);
            &&& damaged.skip(28) == good.skip(28) && crc::crc32(damaged.take(28))
                != crc::crc32(good.take(28)) ==> layout::read_record(damaged, offset) == Err::<
                Decoded,
                FormatError,
            >(FormatError::HeaderChecksum { offset })
            &&& damaged.take(28) == good.take(28) && damaged.subrange(28, 32) != good.subrange(
                28,
                32,
            ) ==> layout::read_record(damaged, offset) == Err::<Decoded, FormatError>(
                FormatError::HeaderChecksum { offset },
            )
            &&& damaged.take(32) == good.take(32) && crc::crc32(
                damaged.take(24) + damaged.skip(32),
            ) != crc::crc32(good.take(24) + good.skip(32)) ==> layout::read_record(
                damaged,
                offset,
            ) == Err::<Decoded, FormatError>(FormatError::Checksum { offset })
        }),
{
    let good = record_bytes(header, payload);
    let plain = layout::header_bytes(header, payload.len() as u32) + payload;
    lemma_layout(header, payload);
    lemma_fields(header, payload, good);
    le::lemma_sizes();
    // The header checksum of any buffer covers its first 28 bytes.
    lemma_header_crc(good);
    lemma_header_crc(damaged);
    le::lemma_from_le(good.subrange(28, 32));
    le::lemma_from_le(damaged.subrange(28, 32));
    if damaged.skip(28) == good.skip(28) {
        assert(damaged.subrange(28, 32) =~= damaged.skip(28).take(4));
        assert(good.subrange(28, 32) =~= good.skip(28).take(4));
    }
    if damaged.take(32) == good.take(32) {
        lemma_fields(header, payload, damaged);
        let total = 32 + payload.len() as int;
        assert(damaged.take(total) =~= damaged);
        assert(plain.skip(32) =~= payload);
        assert(plain.take(24) =~= good.take(24));
    }
}

/// A record with any one byte changed, wherever it is, is refused: never taken for a record,
/// and never mistaken for one that was cut short.
pub proof fn law_a_changed_byte_is_refused(
    header: RecordHeader,
    payload: Seq<u8>,
    at: int,
    byte: u8,
    offset: u64,
)
    requires
        payload.len() <= 16_777_216,
        0 <= at < 32 + payload.len(),
        byte != record_bytes(header, payload)[at],
    ensures
        layout::read_record(record_bytes(header, payload).update(at, byte), offset) == Err::<
            Decoded,
            FormatError,
        >(
            if at < 32 {
                FormatError::HeaderChecksum { offset }
            } else {
                FormatError::Checksum { offset }
            },
        ),
{
    let good = record_bytes(header, payload);
    let damaged = good.update(at, byte);
    lemma_layout(header, payload);
    law_damage_is_refused(header, payload, damaged, offset);
    if at < 28 {
        assert(damaged.take(28) =~= good.take(28).update(at, byte));
        assert(damaged.skip(28) =~= good.skip(28));
        crc::law_a_changed_byte_changes_the_checksum(good.take(28), at, byte);
    } else if at < 32 {
        assert(damaged.take(28) =~= good.take(28));
        assert(damaged.subrange(28, 32)[at - 28] != good.subrange(28, 32)[at - 28]);
    } else {
        let covered = good.take(24) + good.skip(32);
        assert(damaged.take(32) =~= good.take(32));
        assert(damaged.take(24) + damaged.skip(32) =~= covered.update(at - 8, byte));
        crc::law_a_changed_byte_changes_the_checksum(covered, at - 8, byte);
    }
}

/// The header checksum that a buffer of at least a header calls for.
proof fn lemma_header_crc(bytes: Seq<u8>)
    requires
        bytes.len() >= 32,
    ensures
        layout::header_crc(bytes, layout::field(bytes, 24, 4) as u32) == crc::crc32(
            bytes.take(28),
        ),
{
    le::lemma_sizes();
    le::lemma_from_le(bytes.subrange(24, 28));
    assert(bytes.take(24) + bytes.subrange(24, 28) =~= bytes.take(28));
}

/// A segment file header reads back as its segment index, whatever follows it.
pub proof fn law_file_headers_round_trip(segment: u32, created: WallTime, rest: Seq<u8>)
    ensures
        layout::read_file_header(layout::file_header(segment, created) + rest) == Ok::<
            u32,
            FormatError,
        >(segment),
        layout::file_header(segment, created).len() == layout::FILE_HEADER_LEN,
{
    let h = layout::file_header(segment, created);
    le::lemma_sizes();
    le::lemma_round_trip(layout::VERSION as nat, 4);
    le::lemma_round_trip(segment as nat, 4);
    le::lemma_le_len(created.0 as nat, 8);
    le::lemma_le_len(0, 8);
    let bytes = h + rest;
    assert(bytes.take(8) =~= layout::magic_bytes());
    assert(bytes.subrange(8, 12) =~= le::le(layout::VERSION as nat, 4));
    assert(bytes.subrange(12, 16) =~= le::le(segment as nat, 4));
}

} // verus!
