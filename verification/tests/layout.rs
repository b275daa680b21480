//! The journal's on-disk format.

use bowst::journal::layout::{
    decode_file_header, decode_record, decode_with, encode_file_header, encode_record_header,
    header_checksum, magic, record_checksum, seal, seal_with, Decoded, FormatError, Kind,
    RecordHeader, RECORD_HEADER_LEN,
};
use bowst::time::{MonoTime, WallTime};

fn record(kind: u16, payload: &[u8]) -> Vec<u8> {
    let mut out = vec![0_u8; RECORD_HEADER_LEN + payload.len()];
    let header = RecordHeader {
        kind: Kind(kind),
        source: 7,
        mono: MonoTime::from_nanos(11),
        wall: WallTime::from_nanos(22),
    };
    encode_record_header(header, u32::try_from(payload.len()).unwrap(), &mut out);
    out[RECORD_HEADER_LEN..].copy_from_slice(payload);
    seal(&mut out);
    out
}

#[test]
fn file_header_round_trips() {
    let header = encode_file_header(42, WallTime::from_nanos(9));
    assert_eq!(decode_file_header(&header), Ok(42));
    let mut bad = header;
    bad[0] = b'X';
    assert_eq!(decode_file_header(&bad), Err(FormatError::BadFileHeader));
    let mut future = header;
    future[8] = 2;
    assert_eq!(decode_file_header(&future), Err(FormatError::BadFileHeader));
    assert_eq!(
        decode_file_header(&header[..31]),
        Err(FormatError::BadFileHeader)
    );
}

#[test]
fn records_round_trip_and_detect_corruption() {
    let bytes = record(0x0100, b"payload");
    let Ok(Decoded::Record { header, len }) = decode_record(&bytes, 0) else {
        panic!("expected a record");
    };
    assert_eq!(
        (header.kind, header.source, len),
        (Kind(0x0100), 7, bytes.len())
    );
    assert_eq!((header.mono.as_nanos(), header.wall.as_nanos()), (11, 22));

    // Any single-bit flip anywhere is detected; a flipped length is caught by the header
    // checksum rather than mistaken for a truncated record.
    for flip in 0..bytes.len() {
        for bit in 0..8 {
            let mut corrupt = bytes.clone();
            corrupt[flip] ^= 1 << bit;
            assert!(
                decode_record(&corrupt, 5).is_err(),
                "flip at byte {flip} bit {bit}"
            );
        }
    }
}

#[test]
fn short_buffers_are_incomplete_not_errors() {
    let bytes = record(1, b"abc");
    for cut in [0, 10, RECORD_HEADER_LEN, bytes.len() - 1] {
        assert_eq!(
            decode_record(&bytes[..cut], 0),
            Ok(Decoded::Incomplete),
            "cut {cut}"
        );
    }
}

#[test]
fn rejects_oversized_lengths_before_reading_them() {
    let mut bytes = record(1, b"");
    bytes[4..8].copy_from_slice(&u32::MAX.to_le_bytes());
    // Re-seal so both checksums are valid: the length itself must be rejected.
    seal(&mut bytes);
    assert!(matches!(
        decode_record(&bytes, 0),
        Err(FormatError::TooLarge { .. })
    ));
}

#[test]
fn checksums_are_crc32_without_the_checksum_fields() {
    let mut bytes = vec![0_u8; RECORD_HEADER_LEN];
    bytes.extend_from_slice(b"123456789");
    assert_eq!(record_checksum(&bytes), 0x5781_1705);
    assert_eq!(header_checksum(&bytes, 0x5781_1705), 0x7950_5f73);
    bytes[24..32].copy_from_slice(&[9; 8]);
    assert_eq!(record_checksum(&bytes), 0x5781_1705);
    seal(&mut bytes);
    assert_eq!(bytes[24..28], 0x5781_1705_u32.to_le_bytes());
    assert_eq!(bytes[28..32], 0x7950_5f73_u32.to_le_bytes());
}

#[test]
fn records_are_judged_by_the_checksums_given() {
    let mut bytes = record(3, b"abc");
    seal_with(&mut bytes, 0x0102_0304, 0x0506_0708);
    assert_eq!(bytes[24..32], [4, 3, 2, 1, 8, 7, 6, 5]);
    assert_eq!(
        decode_with(&bytes, 9, 0x0506_0709, 0x0102_0304),
        Err(FormatError::HeaderChecksum { offset: 9 })
    );
    assert_eq!(
        decode_with(&bytes, 9, 0x0506_0708, 0),
        Err(FormatError::Checksum { offset: 9 })
    );
    assert_eq!(
        decode_with(&bytes[..34], 9, 0x0506_0708, 0),
        Ok(Decoded::Incomplete)
    );
    let Ok(Decoded::Record { header, len }) = decode_with(&bytes, 9, 0x0506_0708, 0x0102_0304)
    else {
        panic!("expected a record");
    };
    assert_eq!((header.kind, len), (Kind(3), 35));
    // A short buffer takes the checksums it has room for.
    let mut short = [0_u8; 30];
    seal_with(&mut short, 0x0102_0304, 0x0506_0708);
    assert_eq!(short[24..], [4, 3, 2, 1, 0, 0]);
}

#[test]
fn flipped_bytes_are_told_apart() {
    let mut bytes = record(3, b"abc");
    bytes[0] ^= 1;
    assert_eq!(
        decode_record(&bytes, 40),
        Err(FormatError::HeaderChecksum { offset: 40 })
    );
    bytes[0] ^= 1;
    bytes[33] ^= 1;
    assert_eq!(
        decode_record(&bytes, 40),
        Err(FormatError::Checksum { offset: 40 })
    );
}

#[test]
fn kinds_have_fixed_numbers() {
    assert_eq!(&magic(), b"BOWSTJNL");
    let kinds = [
        Kind::gap(),
        Kind::session_start(),
        Kind::md_message(),
        Kind::md_snapshot(),
        Kind::md_status(),
        Kind::md_reset(),
        Kind::md_verify_start(),
        Kind::md_verify_snapshot(),
    ];
    assert_eq!(kinds.map(|kind| kind.0), [1, 2, 256, 257, 258, 259, 260, 261]);
}
