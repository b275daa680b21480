//! On-disk format. All integers are little-endian.
//!
//! A journal is a directory of segment files, read in file-name order. Each segment is:
//!
//! ```text
//! file header (32 bytes)
//!   magic      8   b"BOWSTJNL"
//!   version    4   1
//!   segment    4   index of this segment, from 0
//!   created    8   wall-clock nanoseconds when the segment was opened
//!   reserved   8   zero
//! records, back to back:
//!   kind       2   what the payload is (see `Kind`)
//!   source     2   which component or instrument produced it
//!   length     4   payload bytes
//!   mono       8   monotonic receive time, nanoseconds
//!   wall       8   wall-clock receive time, nanoseconds since the Unix epoch
//!   crc        4   CRC-32 of the 24 header bytes before it and the payload
//!   header_crc 4   CRC-32 of the 28 header bytes before it
//!   payload    length bytes
//! ```
//!
//! The header has its own checksum, so a damaged length is detected before it is trusted: a
//! record is only "incomplete" when its header is intact and the file really ends early.
//!
//! A crash can leave the last record of the last segment incomplete. Readers accept that one
//! torn record and nothing else: a bad checksum or a short record anywhere else is corruption.

use crate::journal::crc;
use crate::le;
use crate::text;
use crate::time::{MonoTime, WallTime};
use vstd::prelude::*;

verus! {

/// Current format version.
pub const VERSION: u32 = 1;

/// File header length.
pub const FILE_HEADER_LEN: usize = 32;

/// Record header length.
pub const RECORD_HEADER_LEN: usize = 32;

/// Largest payload a record may carry (16 MiB). Bounds memory when reading hostile files.
pub const MAX_PAYLOAD: usize = 0x100_0000;

/// Byte offset of the record checksum inside a record header.
pub const CRC_AT: usize = 24;

/// Byte offset of the header checksum inside a record header.
pub const HEADER_CRC_AT: usize = 28;

/// File magic: the ASCII letters `BOWSTJNL`.
pub open spec fn magic_bytes() -> Seq<u8> {
    seq![66, 79, 87, 83, 84, 74, 78, 76]
}

/// File magic.
pub fn magic() -> (r: [u8; 8])
    ensures
        r@ == magic_bytes(),
{
    let bytes: [u8; 8] = [66, 79, 87, 83, 84, 74, 78, 76];
    assert(bytes@ =~= magic_bytes());
    bytes
}

/// The number of the kind of record that marks dropped ones.
pub const GAP: u16 = 0x0001;

/// What a record's payload is. A single registry, so kinds never collide across crates.
#[derive(Clone, Copy, Debug, PartialEq, Eq, Hash, PartialOrd, Ord, Structural)]
pub struct Kind(pub u16);

impl Kind {
    /// Journal-internal: records were dropped before this point. Payload: `u64` count.
    pub fn gap() -> (r: Self)
        ensures
            r.0 == GAP,
    {
        Kind(GAP)
    }

    /// A process or session started. Payload: UTF-8 description (version, configuration).
    pub fn session_start() -> (r: Self)
        ensures
            r.0 == 0x0002,
    {
        Kind(0x0002)
    }

    /// A raw market-data message exactly as received. Source: venue ID.
    pub fn md_message() -> (r: Self)
        ensures
            r.0 == 0x0100,
    {
        Kind(0x0100)
    }

    /// A raw REST depth snapshot at the moment it was applied. Payload: instrument ID (`u32`)
    /// then the raw response body. Source: venue ID.
    pub fn md_snapshot() -> (r: Self)
        ensures
            r.0 == 0x0101,
    {
        Kind(0x0101)
    }

    /// A market-data status change. Payload: UTF-8 text. Source: venue ID.
    pub fn md_status() -> (r: Self)
        ensures
            r.0 == 0x0102,
    {
        Kind(0x0102)
    }

    /// The market-data connection ended and every book was reset. No payload. Source: venue ID.
    pub fn md_reset() -> (r: Self)
        ensures
            r.0 == 0x0103,
    {
        Kind(0x0103)
    }

    /// Verification of one instrument's book started: its deltas now also feed a verification
    /// book. Payload: instrument ID (`u32`). Source: venue ID.
    pub fn md_verify_start() -> (r: Self)
        ensures
            r.0 == 0x0104,
    {
        Kind(0x0104)
    }

    /// A raw REST depth snapshot loaded into the verification book. Payload: instrument ID
    /// (`u32`) then the raw response body. Source: venue ID.
    pub fn md_verify_snapshot() -> (r: Self)
        ensures
            r.0 == 0x0105,
    {
        Kind(0x0105)
    }
}

/// A record's header fields (the checksum is handled by the writer and reader).
#[derive(Clone, Copy, Debug, PartialEq, Eq, Structural)]
pub struct RecordHeader {
    /// Payload type.
    pub kind: Kind,
    /// Producing component or venue.
    pub source: u16,
    /// Monotonic receive time.
    pub mono: MonoTime,
    /// Wall-clock receive time.
    pub wall: WallTime,
}

/// Malformed journal data.
#[derive(Clone, Copy, Debug, PartialEq, Eq, Structural)]
pub enum FormatError {
    /// Not a journal file, or an unsupported version.
    BadFileHeader,
    /// A record's checksum does not match its contents.
    Checksum {
        /// Offset of the record in its segment.
        offset: u64,
    },
    /// A record declares a payload larger than [`MAX_PAYLOAD`].
    TooLarge {
        /// Offset of the record in its segment.
        offset: u64,
        /// Declared length.
        len: u64,
    },
    /// A record header's own checksum does not match: the header (including its length)
    /// cannot be trusted.
    HeaderChecksum {
        /// Offset of the record in its segment.
        offset: u64,
    },
}

/// Result of decoding the record at the start of a buffer.
#[derive(Clone, Copy, Debug, PartialEq, Eq, Structural)]
pub enum Decoded {
    /// A complete, valid record: its header and the length of header plus payload.
    Record {
        /// Header fields.
        header: RecordHeader,
        /// Total bytes the record occupies (header plus payload).
        len: usize,
    },
    /// The buffer ends before the record does (a torn tail if at the end of the journal).
    Incomplete,
}

/// The integer of `width` bytes that `bytes` hold at `at`.
pub open spec fn field(bytes: Seq<u8>, at: int, width: int) -> nat {
    le::from_le(bytes.subrange(at, at + width))
}

/// The header bytes before the record checksum; nothing of a buffer too short to have them.
pub open spec fn before_crc(record: Seq<u8>) -> Seq<u8> {
    if record.len() >= CRC_AT {
        record.take(CRC_AT as int)
    } else {
        Seq::empty()
    }
}

/// The bytes after a record header.
pub open spec fn payload_of(record: Seq<u8>) -> Seq<u8> {
    if record.len() >= RECORD_HEADER_LEN {
        record.skip(RECORD_HEADER_LEN as int)
    } else {
        Seq::empty()
    }
}

/// CRC-32 of a record without its two checksum fields.
pub open spec fn record_crc(record: Seq<u8>) -> u32 {
    crc::crc32(before_crc(record) + payload_of(record))
}

/// CRC-32 of the header bytes before the header checksum.
pub open spec fn header_crc(first_24: Seq<u8>, crc: u32) -> u32 {
    crc::crc32(before_crc(first_24) + le::le(crc as nat, 4))
}

/// The segment file header.
pub open spec fn file_header(segment: u32, created: WallTime) -> Seq<u8> {
    magic_bytes() + le::le(VERSION as nat, 4) + le::le(segment as nat, 4) + le::le(
        created.0 as nat,
        8,
    ) + le::le(0, 8)
}

/// What a segment file header says.
pub open spec fn read_file_header(bytes: Seq<u8>) -> Result<u32, FormatError> {
    if bytes.len() < FILE_HEADER_LEN || bytes.take(8) != magic_bytes() || field(bytes, 8, 4)
        != VERSION {
        Err(FormatError::BadFileHeader)
    } else {
        Ok(field(bytes, 12, 4) as u32)
    }
}

/// A record header with zero checksums.
pub open spec fn header_bytes(header: RecordHeader, payload_len: u32) -> Seq<u8> {
    le::le(header.kind.0 as nat, 2) + le::le(header.source as nat, 2) + le::le(
        payload_len as nat,
        4,
    ) + le::le(header.mono.0 as nat, 8) + le::le(header.wall.0 as nat, 8) + le::le(0, 4) + le::le(
        0,
        4,
    )
}

/// A record header has its fixed length.
pub proof fn lemma_header_len(header: RecordHeader, payload_len: u32)
    ensures
        header_bytes(header, payload_len).len() == RECORD_HEADER_LEN,
{
    le::lemma_le_len(header.kind.0 as nat, 2);
    le::lemma_le_len(header.source as nat, 2);
    le::lemma_le_len(payload_len as nat, 4);
    le::lemma_le_len(header.mono.0 as nat, 8);
    le::lemma_le_len(header.wall.0 as nat, 8);
    le::lemma_le_len(0, 4);
}

/// How many bytes the header fields that fit whole in `room` bytes take together.
pub open spec fn whole_fields(room: int) -> int {
    if room >= 32 {
        32
    } else if room >= 28 {
        28
    } else if room >= 24 {
        24
    } else if room >= 16 {
        16
    } else if room >= 8 {
        8
    } else if room >= 4 {
        4
    } else if room >= 2 {
        2
    } else {
        0
    }
}

/// A record with these two checksums filled in, as far as it has room for them.
pub open spec fn sealed_with(record: Seq<u8>, crc: u32, check: u32) -> Seq<u8> {
    if record.len() < HEADER_CRC_AT {
        record
    } else if record.len() < RECORD_HEADER_LEN {
        record.take(CRC_AT as int) + le::le(crc as nat, 4) + record.skip(HEADER_CRC_AT as int)
    } else {
        record.take(CRC_AT as int) + le::le(crc as nat, 4) + le::le(check as nat, 4) + record.skip(
            RECORD_HEADER_LEN as int,
        )
    }
}

/// A record with both of its own checksums filled in, as far as it has room for them.
pub open spec fn sealed(record: Seq<u8>) -> Seq<u8> {
    let crc = record_crc(record);
    sealed_with(record, crc, header_crc(record, crc))
}

/// The header fields that a record starts with.
pub open spec fn read_header(bytes: Seq<u8>) -> RecordHeader {
    RecordHeader {
        kind: Kind(field(bytes, 0, 2) as u16),
        source: field(bytes, 2, 2) as u16,
        mono: MonoTime(field(bytes, 8, 8) as u64),
        wall: WallTime(field(bytes, 16, 8) as u64),
    }
}

/// How many bytes the record at the start of `bytes` takes, by its own header.
pub open spec fn record_len(bytes: Seq<u8>) -> nat {
    RECORD_HEADER_LEN as nat + field(bytes, 4, 4)
}

/// What the record at the start of `bytes` is, where `header_check` is the checksum of its
/// header and `record_check` that of the whole record. The header is checked before its
/// length is trusted, and the length before the payload is looked at.
pub open spec fn read_with(
    bytes: Seq<u8>,
    offset: u64,
    header_check: u32,
    record_check: u32,
) -> Result<Decoded, FormatError> {
    let len = field(bytes, 4, 4);
    if bytes.len() < RECORD_HEADER_LEN {
        Ok(Decoded::Incomplete)
    } else if header_check != field(bytes, HEADER_CRC_AT as int, 4) {
        Err(FormatError::HeaderChecksum { offset })
    } else if len > MAX_PAYLOAD {
        Err(FormatError::TooLarge { offset, len: len as u64 })
    } else if bytes.len() < record_len(bytes) {
        Ok(Decoded::Incomplete)
    } else if record_check != field(bytes, CRC_AT as int, 4) {
        Err(FormatError::Checksum { offset })
    } else {
        Ok(Decoded::Record { header: read_header(bytes), len: record_len(bytes) as usize })
    }
}

/// What the record at the start of `bytes` is, by the checksums of what is there.
pub open spec fn read_record(bytes: Seq<u8>, offset: u64) -> Result<Decoded, FormatError> {
    read_with(
        bytes,
        offset,
        header_crc(bytes, field(bytes, CRC_AT as int, 4) as u32),
        record_crc(bytes.take(record_len(bytes) as int)),
    )
}

/// The integer of `width` bytes at `at`.
fn read_field(bytes: &[u8], at: usize, width: usize) -> (r: u64)
    requires
        at + width <= bytes@.len(),
        width <= 8,
    ensures
        r == field(bytes@, at as int, width as int),
        r < le::pow256(width as nat),
{
    proof {
        le::lemma_from_le(bytes@.subrange(at as int, at + width));
    }
    le::get_le(bytes, at, width)
}

/// Encodes a segment file header.
pub fn encode_file_header(segment: u32, created: WallTime) -> (r: [u8; 32])
    ensures
        r@ == file_header(segment, created),
{
    let mut out: Vec<u8> = vec![0u8; FILE_HEADER_LEN];
    let magic: [u8; 8] = magic();
    le::put_bytes(out.as_mut_slice(), 0, magic.as_slice());
    le::put_le(out.as_mut_slice(), 8, VERSION as u64, 4);
    le::put_le(out.as_mut_slice(), 12, segment as u64, 4);
    le::put_le(out.as_mut_slice(), 16, created.0, 8);
    le::put_le(out.as_mut_slice(), 24, 0, 8);
    proof {
        le::lemma_le_len(VERSION as nat, 4);
        le::lemma_le_len(segment as nat, 4);
        le::lemma_le_len(created.0 as nat, 8);
        le::lemma_le_len(0, 8);
        assert(out@ =~= file_header(segment, created));
    }
    let mut header: [u8; 32] = [0;32];
    let mut i: usize = 0;
    while i < FILE_HEADER_LEN
        invariant
            i <= FILE_HEADER_LEN,
            out@.len() == FILE_HEADER_LEN,
            forall|k: int| 0 <= k < i ==> #[trigger] header@[k] == out@[k],
        decreases FILE_HEADER_LEN - i,
    {
        header[i] = out[i];
        i = i + 1;
    }
    assert(header@ =~= out@);
    header
}

/// Decodes a segment file header, returning its segment index.
///
/// # Errors
/// [`FormatError::BadFileHeader`].
pub fn decode_file_header(bytes: &[u8]) -> (r: Result<u32, FormatError>)
    ensures
        r == read_file_header(bytes@),
{
    if bytes.len() < FILE_HEADER_LEN {
        return Err(FormatError::BadFileHeader);
    }
    let magic: [u8; 8] = magic();
    let start: &[u8] = vstd::slice::slice_subrange(bytes, 0, 8);
    assert(start@ =~= bytes@.take(8));
    proof {
        le::lemma_sizes();
    }
    if !text::same_bytes(start, magic.as_slice()) || read_field(bytes, 8, 4) != VERSION as u64 {
        return Err(FormatError::BadFileHeader);
    }
    Ok(read_field(bytes, 12, 4) as u32)
}

/// Writes `width` bytes of a header at `at`, if they fit.
fn put_field(out: &mut [u8], at: usize, value: u64, width: usize)
    requires
        at + width <= RECORD_HEADER_LEN,
    ensures
        final(out)@ == (if at + width <= old(out)@.len() {
            old(out)@.take(at as int) + le::le(value as nat, width as nat) + old(out)@.skip(
                at + width,
            )
        } else {
            old(out)@
        }),
        final(out)@.len() == old(out)@.len(),
{
    proof {
        le::lemma_le_len(value as nat, width as nat);
    }
    if at + width <= out.len() {
        le::put_le(out, at, value, width);
    }
}

/// Writes a record header with zero checksums into `out` (at least
/// [`RECORD_HEADER_LEN`] bytes; a shorter buffer gets the fields that fit whole). The writer
/// fills in the checksums with [`seal`].
pub fn encode_record_header(header: RecordHeader, payload_len: u32, out: &mut [u8])
    ensures
        final(out)@ == header_bytes(header, payload_len).take(whole_fields(old(out)@.len() as int))
            + old(out)@.skip(whole_fields(old(out)@.len() as int)),
{
    put_field(out, 0, header.kind.0 as u64, 2);
    put_field(out, 2, header.source as u64, 2);
    put_field(out, 4, payload_len as u64, 4);
    put_field(out, 8, header.mono.0, 8);
    put_field(out, 16, header.wall.0, 8);
    put_field(out, 24, 0, 4);
    put_field(out, 28, 0, 4);
    proof {
        le::lemma_le_len(header.kind.0 as nat, 2);
        le::lemma_le_len(header.source as nat, 2);
        le::lemma_le_len(payload_len as nat, 4);
        le::lemma_le_len(header.mono.0 as nat, 8);
        le::lemma_le_len(header.wall.0 as nat, 8);
        le::lemma_le_len(0, 4);
        let w = whole_fields(old(out)@.len() as int);
        assert(out@ =~= header_bytes(header, payload_len).take(w) + old(out)@.skip(w));
    }
}

/// The part of a slice that [`before_crc`] names.
pub(crate) fn head_part(record: &[u8]) -> (r: &[u8])
    ensures
        r@ == before_crc(record@),
        r@.len() <= CRC_AT,
{
    let end: usize = if record.len() >= CRC_AT {
        CRC_AT
    } else {
        0
    };
    let part: &[u8] = vstd::slice::slice_subrange(record, 0, end);
    assert(part@ =~= before_crc(record@));
    part
}

/// The part of a slice that [`payload_of`] names.
pub(crate) fn payload_part(record: &[u8]) -> (r: &[u8])
    ensures
        r@ == payload_of(record@),
        r@.len() <= record@.len(),
{
    let start: usize = if record.len() >= RECORD_HEADER_LEN {
        RECORD_HEADER_LEN
    } else {
        record.len()
    };
    let part: &[u8] = vstd::slice::slice_subrange(record, start, record.len());
    assert(part@ =~= payload_of(record@));
    part
}

/// CRC-32 of a complete record (header plus payload), excluding the checksum fields
/// themselves.
pub fn record_checksum(record: &[u8]) -> (r: u32)
    ensures
        r == record_crc(record@),
{
    let head: &[u8] = head_part(record);
    let payload: &[u8] = payload_part(record);
    assert(head@.len() + payload@.len() <= record.len());
    crc::crc32_of(head, payload)
}

/// CRC-32 of the first 28 header bytes (everything before the header checksum), given the
/// first 24 bytes and the record checksum separately so a writer need not copy the header.
pub fn header_checksum(first_24: &[u8], record_crc: u32) -> (r: u32)
    ensures
        r == header_crc(first_24@, record_crc),
{
    let mut crc: [u8; 4] = [0;4];
    crc[0] = (record_crc % 256) as u8;
    crc[1] = (record_crc / 256 % 256) as u8;
    crc[2] = (record_crc / 256 / 256 % 256) as u8;
    crc[3] = (record_crc / 256 / 256 / 256 % 256) as u8;
    proof {
        reveal_with_fuel(le::le, 5);
        assert(crc@ =~= le::le(record_crc as nat, 4));
    }
    crc::crc32_of(head_part(first_24), crc.as_slice())
}

/// Stores the two checksums of a complete record (header plus payload).
pub fn seal_with(record: &mut [u8], crc: u32, check: u32)
    ensures
        final(record)@ == sealed_with(old(record)@, crc, check),
{
    proof {
        le::lemma_le_len(crc as nat, 4);
        le::lemma_le_len(check as nat, 4);
    }
    if record.len() >= HEADER_CRC_AT {
        le::put_le(record, CRC_AT, crc as u64, 4);
    }
    if record.len() >= RECORD_HEADER_LEN {
        le::put_le(record, HEADER_CRC_AT, check as u64, 4);
    }
    assert(record@ =~= sealed_with(old(record)@, crc, check));
}

/// Computes and stores both checksums of a complete record (header plus payload).
pub fn seal(record: &mut [u8])
    ensures
        final(record)@ == sealed(old(record)@),
{
    let crc: u32 = record_checksum(record);
    let check: u32 = header_checksum(record, crc);
    seal_with(record, crc, check);
}

/// Decodes the record at the start of `bytes`, given the checksum of its header and that of
/// the whole record. `offset` is used for errors only.
///
/// # Errors
/// [`FormatError`] for a header or record checksum that is not the one stored, or an
/// oversized length.
pub fn decode_with(bytes: &[u8], offset: u64, header_check: u32, record_check: u32) -> (r: Result<
    Decoded,
    FormatError,
>)
    ensures
        r == read_with(bytes@, offset, header_check, record_check),
{
    if bytes.len() < RECORD_HEADER_LEN {
        return Ok(Decoded::Incomplete);
    }
    proof {
        le::lemma_sizes();
    }
    if header_check as u64 != read_field(bytes, HEADER_CRC_AT, 4) {
        return Err(FormatError::HeaderChecksum { offset });
    }
    let payload_len: u64 = read_field(bytes, 4, 4);
    if payload_len > MAX_PAYLOAD as u64 {
        return Err(FormatError::TooLarge { offset, len: payload_len });
    }
    let total: usize = RECORD_HEADER_LEN + payload_len as usize;
    if bytes.len() < total {
        return Ok(Decoded::Incomplete);
    }
    if record_check as u64 != read_field(bytes, CRC_AT, 4) {
        return Err(FormatError::Checksum { offset });
    }
    let header: RecordHeader = RecordHeader {
        kind: Kind(read_field(bytes, 0, 2) as u16),
        source: read_field(bytes, 2, 2) as u16,
        mono: MonoTime(read_field(bytes, 8, 8)),
        wall: WallTime(read_field(bytes, 16, 8)),
    };
    Ok(Decoded::Record { header, len: total })
}

/// Decodes and verifies the record at the start of `bytes`. `offset` is used for errors only.
///
/// # Errors
/// [`FormatError`] for a bad header or record checksum, or an oversized length.
pub fn decode_record(bytes: &[u8], offset: u64) -> (r: Result<Decoded, FormatError>)
    ensures
        r == read_record(bytes@, offset),
{
    if bytes.len() < RECORD_HEADER_LEN {
        return Ok(Decoded::Incomplete);
    }
    proof {
        le::lemma_sizes();
    }
    let header_check: u32 = header_checksum(bytes, read_field(bytes, CRC_AT, 4) as u32);
    let header_good: bool = header_check as u64 == read_field(bytes, HEADER_CRC_AT, 4);
    let payload_len: u64 = read_field(bytes, 4, 4);
    // Until the header is known to be good and the record complete, its checksum is not asked for.
    let mut record_check: u32 = 0;
    if header_good && payload_len <= MAX_PAYLOAD as u64 {
        let total: usize = RECORD_HEADER_LEN + payload_len as usize;
        if total <= bytes.len() {
            let record: &[u8] = vstd::slice::slice_subrange(bytes, 0, total);
            assert(record@ =~= bytes@.take(total as int));
            record_check = record_checksum(record);
        }
    }
    decode_with(bytes, offset, header_check, record_check)
}

} // verus!
