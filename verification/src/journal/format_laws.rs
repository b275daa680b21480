//! Where everything stands in a journal's files, and what is made of bytes that were found there.

use crate::journal::crc;
use crate::journal::layout::{self, Decoded, FormatError, RecordHeader};
use crate::journal::layout_laws;
use crate::journal::reader::{Given, ReadError, ReaderView};
use crate::le;
use crate::time::WallTime;
use vstd::prelude::*;

verus! {

/// The number that the `width` bytes at `at` spell, least significant first.
pub open spec fn spelled(bytes: Seq<u8>, at: int, width: nat) -> nat
    decreases width,
{
    if width == 0 {
        0
    } else {
        bytes[at] as nat + 256 * spelled(bytes, at + 1, (width - 1) as nat)
    }
}

/// A field of a buffer is the number that its bytes spell.
proof fn lemma_field(bytes: Seq<u8>, at: int, width: nat)
    requires
        0 <= at <= at + width <= bytes.len(),
    ensures
        layout::field(bytes, at, width as int) == spelled(bytes, at, width),
    decreases width,
{
    let part = bytes.subrange(at, at + width);
    if width > 0 {
        lemma_field(bytes, at + 1, (width - 1) as nat);
        assert(part.skip(1) =~= bytes.subrange(at + 1, at + width));
    }
}

/// A record on disk is its kind, source, payload length, monotonic time and wall time, each at
/// its place and least significant byte first, then the checksum of these and the payload, then
/// the checksum of all that, then the payload.
pub proof fn law_where_a_record_holds_what(header: RecordHeader, payload: Seq<u8>)
    requires
        payload.len() <= 16_777_216,
    ensures
        ({
            let bytes = layout_laws::record_bytes(header, payload);
            &&& bytes.len() == 32 + payload.len()
            &&& spelled(bytes, 0, 2) == header.kind.0
            &&& spelled(bytes, 2, 2) == header.source
            &&& spelled(bytes, 4, 4) == payload.len()
            &&& spelled(bytes, 8, 8) == header.mono.0
            &&& spelled(bytes, 16, 8) == header.wall.0
            &&& spelled(bytes, 24, 4) == crc::crc32(bytes.take(24) + payload)
            &&& spelled(bytes, 28, 4) == crc::crc32(bytes.take(28))
            &&& bytes.skip(32) == payload
        }),
{
    let bytes = layout_laws::record_bytes(header, payload);
    layout_laws::lemma_record_len(header, payload);
    layout_laws::lemma_record_fields(header, payload);
    lemma_field(bytes, 0, 2);
    lemma_field(bytes, 2, 2);
    lemma_field(bytes, 4, 4);
    lemma_field(bytes, 8, 8);
    lemma_field(bytes, 16, 8);
    lemma_field(bytes, 24, 4);
    lemma_field(bytes, 28, 4);
}

/// A segment file starts with its eight letters, the version of the format, the number of the
/// segment, the time at which it was created and eight zeros.
pub proof fn law_where_a_file_header_holds_what(segment: u32, created: WallTime)
    ensures
        ({
            let bytes = layout::file_header(segment, created);
            &&& bytes.len() == 32
            &&& bytes.take(8) == seq![0x42u8, 0x4f, 0x57, 0x53, 0x54, 0x4a, 0x4e, 0x4c]
            &&& spelled(bytes, 8, 4) == 1
            &&& spelled(bytes, 12, 4) == segment
            &&& spelled(bytes, 16, 8) == created.0
            &&& spelled(bytes, 24, 8) == 0
        }),
{
    let bytes = layout::file_header(segment, created);
    le::lemma_sizes();
    le::lemma_round_trip(layout::VERSION as nat, 4);
    le::lemma_round_trip(segment as nat, 4);
    le::lemma_round_trip(created.0 as nat, 8);
    le::lemma_round_trip(0, 8);
    assert(bytes.take(8) =~= seq![0x42u8, 0x4f, 0x57, 0x53, 0x54, 0x4a, 0x4e, 0x4c]);
    assert(bytes.subrange(8, 12) =~= le::le(layout::VERSION as nat, 4));
    assert(bytes.subrange(12, 16) =~= le::le(segment as nat, 4));
    assert(bytes.subrange(16, 24) =~= le::le(created.0 as nat, 8));
    assert(bytes.subrange(24, 32) =~= le::le(0, 8));
    lemma_field(bytes, 8, 4);
    lemma_field(bytes, 12, 4);
    lemma_field(bytes, 16, 8);
    lemma_field(bytes, 24, 8);
}

/// A file counts as a segment exactly when it has a whole header with the eight letters and the
/// version of the format. Nothing else is accepted, and its number is the one it states.
pub proof fn law_segments_are_told_by_their_header(bytes: Seq<u8>)
    ensures
        ({
            let good = bytes.len() >= 32 && bytes.take(8) == seq![
                0x42u8,
                0x4f,
                0x57,
                0x53,
                0x54,
                0x4a,
                0x4e,
                0x4c,
            ] && spelled(bytes, 8, 4) == 1;
            &&& good ==> layout::read_file_header(bytes) == Ok::<u32, FormatError>(
                spelled(bytes, 12, 4) as u32,
            )
            &&& !good ==> layout::read_file_header(bytes) == Err::<u32, FormatError>(
                FormatError::BadFileHeader,
            )
        }),
{
    if bytes.len() >= 32 {
        lemma_field(bytes, 8, 4);
        lemma_field(bytes, 12, 4);
        assert(layout::magic_bytes() =~= seq![
            0x42u8,
            0x4f,
            0x57,
            0x53,
            0x54,
            0x4a,
            0x4e,
            0x4c,
        ]);
    }
}

/// Bytes are taken for a record in this order: the header must be there, then its checksum must
/// be that of the bytes before it, then the length that it states must be one that a record can
/// have, then the payload must be there, then the checksum of the whole must be right.
pub proof fn law_records_are_told_by_their_checksums(bytes: Seq<u8>, offset: u64)
    ensures
        ({
            let read = layout::read_record(bytes, offset);
            let len = spelled(bytes, 4, 4) as int;
            let sealed = spelled(bytes, 28, 4) == crc::crc32(bytes.take(28));
            let whole = spelled(bytes, 24, 4) == crc::crc32(
                bytes.take(24) + bytes.subrange(32, 32 + len),
            );
            if bytes.len() < 32 {
                read == Ok::<Decoded, FormatError>(Decoded::Incomplete)
            } else if !sealed {
                read == Err::<Decoded, FormatError>(FormatError::HeaderChecksum { offset })
            } else if len > 16_777_216 {
                read == Err::<Decoded, FormatError>(
                    FormatError::TooLarge { offset, len: len as u64 },
                )
            } else if bytes.len() < 32 + len {
                read == Ok::<Decoded, FormatError>(Decoded::Incomplete)
            } else if !whole {
                read == Err::<Decoded, FormatError>(FormatError::Checksum { offset })
            } else {
                &&& read is Ok
                &&& read->Ok_0 is Record
                &&& read->Ok_0->len == 32 + len
                &&& read->Ok_0->header.kind.0 == spelled(bytes, 0, 2)
                &&& read->Ok_0->header.source == spelled(bytes, 2, 2)
                &&& read->Ok_0->header.mono.0 == spelled(bytes, 8, 8)
                &&& read->Ok_0->header.wall.0 == spelled(bytes, 16, 8)
            }
        }),
{
    if bytes.len() >= 32 {
        lemma_field(bytes, 0, 2);
        lemma_field(bytes, 2, 2);
        lemma_field(bytes, 4, 4);
        lemma_field(bytes, 8, 8);
        lemma_field(bytes, 16, 8);
        lemma_field(bytes, 24, 4);
        lemma_field(bytes, 28, 4);
        le::lemma_sizes();
        le::lemma_from_le(bytes.subrange(0, 2));
        le::lemma_from_le(bytes.subrange(2, 4));
        le::lemma_from_le(bytes.subrange(4, 8));
        le::lemma_from_le(bytes.subrange(8, 16));
        le::lemma_from_le(bytes.subrange(16, 24));
        le::lemma_from_le(bytes.subrange(24, 28));
        assert(bytes.take(24) + bytes.subrange(24, 28) =~= bytes.take(28));
        let len = spelled(bytes, 4, 4) as int;
        if bytes.len() >= 32 + len {
            let record = bytes.take(32 + len);
            assert(record.take(24) =~= bytes.take(24));
            assert(record.skip(32) =~= bytes.subrange(32, 32 + len));
        }
    }
}

/// What the bytes of a record spell is not changed by what follows it.
proof fn lemma_spelled_of_a_part(bytes: Seq<u8>, rest: Seq<u8>, at: int, width: nat)
    requires
        0 <= at <= at + width <= bytes.len(),
    ensures
        spelled(bytes + rest, at, width) == spelled(bytes, at, width),
    decreases width,
{
    if width > 0 {
        lemma_spelled_of_a_part(bytes, rest, at + 1, (width - 1) as nat);
    }
}

/// A reader that comes to a record of which one byte was changed, wherever in the journal it
/// stands, gives an error that names the file and the place, and neither the record nor anything
/// after it.
pub proof fn law_a_changed_byte_ends_the_reading(
    reader: ReaderView,
    header: RecordHeader,
    payload: Seq<u8>,
    at: int,
    byte: u8,
    after: Seq<u8>,
)
    requires
        payload.len() <= 16_777_216,
        0 <= at < 32 + payload.len(),
        byte != layout_laws::record_bytes(header, payload)[at],
        reader.pos <= reader.data.len() <= u64::MAX,
        reader.data.skip(reader.pos as int) == layout_laws::record_bytes(header, payload).update(
            at,
            byte,
        ) + after,
    ensures
        reader.given() == Given::Failed(
            ReadError::Corrupt {
                file: reader.files[reader.next_file - 1],
                error: if at < 32 {
                    FormatError::HeaderChecksum { offset: reader.pos as u64 }
                } else {
                    FormatError::Checksum { offset: reader.pos as u64 }
                },
            },
        ),
        reader.stepped() == reader,
{
    let offset = reader.pos as u64;
    let good = layout_laws::record_bytes(header, payload);
    let bad = good.update(at, byte);
    let found = bad + after;
    law_where_a_record_holds_what(header, payload);
    layout_laws::law_a_changed_byte_is_refused(header, payload, at, byte, offset);
    law_records_are_told_by_their_checksums(bad, offset);
    law_records_are_told_by_their_checksums(found, offset);
    lemma_spelled_of_a_part(bad, after, 4, 4);
    lemma_spelled_of_a_part(bad, after, 24, 4);
    lemma_spelled_of_a_part(bad, after, 28, 4);
    assert(found.take(28) =~= bad.take(28));
    assert(found.take(24) =~= bad.take(24));
    if at >= 32 {
        let len = spelled(bad, 4, 4) as int;
        assert(len == payload.len()) by {
            lemma_spelled_of_a_part(good.take(32), good.skip(32), 4, 4);
            lemma_spelled_of_a_part(good.take(32), bad.skip(32), 4, 4);
            assert(good.take(32) + good.skip(32) =~= good);
            assert(good.take(32) + bad.skip(32) =~= bad);
        }
        assert(found.subrange(32, 32 + len) =~= bad.subrange(32, 32 + len));
    }
}

/// A file that is asked for and turns out not to be a segment is named in the error. A segment is
/// read from behind its header on.
pub proof fn law_other_files_are_not_read(reader: ReaderView, data: Seq<u8>)
    ensures
        ({
            let good = data.len() >= 32 && data.take(8) == seq![
                0x42u8,
                0x4f,
                0x57,
                0x53,
                0x54,
                0x4a,
                0x4e,
                0x4c,
            ] && spelled(data, 8, 4) == 1;
            &&& good ==> {
                &&& reader.supply_fault(data) is None
                &&& reader.supplied(data).pos == 32
                &&& reader.supplied(data).data == data
                &&& reader.supplied(data).next_file == reader.next_file + 1
                &&& reader.supplied(data).torn_tail == reader.torn_tail
                &&& reader.supplied(data).files == reader.files
            }
            &&& !good ==> reader.supply_fault(data) == Some(
                ReadError::Corrupt {
                    file: reader.files[reader.next_file as int],
                    error: FormatError::BadFileHeader,
                },
            )
        }),
{
    law_segments_are_told_by_their_header(data);
}

/// Whether a field of a record header ends here, or its first one starts.
pub open spec fn is_field_end(at: int) -> bool {
    at == 0 || at == 2 || at == 4 || at == 8 || at == 16 || at == 24 || at == 28 || at == 32
}

/// A buffer that is too short for a record header gets the fields that it has whole room for, and
/// nothing of the first that it has not.
pub proof fn law_short_buffers_get_whole_fields(room: int, end: int)
    requires
        room >= 0,
    ensures
        is_field_end(layout::whole_fields(room)),
        layout::whole_fields(room) <= room,
        is_field_end(end) && end <= room ==> end <= layout::whole_fields(room),
{
}

/// Sealing a record fills in its two checksums where it has room for them and changes nothing else.
pub proof fn law_sealing_touches_only_the_checksums(record: Seq<u8>, i: int)
    requires
        0 <= i < record.len(),
    ensures
        layout::sealed(record).len() == record.len(),
        i < 24 || i >= 32 ==> layout::sealed(record)[i] == record[i],
        record.len() < 28 ==> layout::sealed(record) == record,
        record.len() < 32 && i >= 28 ==> layout::sealed(record)[i] == record[i],
        28 <= record.len() < 32 ==> spelled(layout::sealed(record), 24, 4) == crc::crc32(
            record.take(24),
        ),
        record.len() >= 32 ==> spelled(layout::sealed(record), 24, 4) == crc::crc32(
            record.take(24) + record.skip(32),
        ),
        record.len() >= 32 ==> spelled(layout::sealed(record), 28, 4) == crc::crc32(
            layout::sealed(record).take(28),
        ),
{
    let crc = layout::record_crc(record);
    let check = layout::header_crc(record, crc);
    let sealed = layout::sealed(record);
    le::lemma_le_len(crc as nat, 4);
    le::lemma_le_len(check as nat, 4);
    le::lemma_sizes();
    le::lemma_round_trip(crc as nat, 4);
    le::lemma_round_trip(check as nat, 4);
    if record.len() >= 28 {
        assert(sealed.subrange(24, 28) =~= le::le(crc as nat, 4));
        lemma_field(sealed, 24, 4);
        if record.len() < 32 {
            assert(layout::before_crc(record) + layout::payload_of(record) =~= record.take(24));
        } else {
            assert(sealed.subrange(28, 32) =~= le::le(check as nat, 4));
            lemma_field(sealed, 28, 4);
            assert(sealed.take(28) =~= layout::before_crc(record) + le::le(crc as nat, 4));
        }
    }
}

} // verus!
