//! The queue of byte records.

use bowst::bytes_ring::{channel, ByteConsumer, ByteRing, WriteError};

fn pop(rx: &mut ByteConsumer) -> Option<Vec<u8>> {
    rx.read_with(|record: &[u8]| record.to_vec())
}

#[test]
fn bytes_ring_rejects_invalid_capacity() {
    for capacity in [0, 32, 100, 3 << 20] {
        assert!(channel(capacity).is_err(), "{capacity}");
    }
}

#[test]
fn round_trips_records_of_any_length() {
    let (mut tx, mut rx) = channel(256).unwrap();
    assert_eq!(tx.max_record(), 120);
    for len in [0, 1, 7, 8, 9, 120] {
        let record: Vec<u8> = (0..len).map(|i| u8::try_from(i % 251).unwrap()).collect();
        tx.push(&record).unwrap();
        assert_eq!(pop(&mut rx), Some(record));
    }
    assert_eq!(pop(&mut rx), None);
    assert_eq!(
        tx.push(&[0; 121]),
        Err(WriteError::TooLarge { len: 121, max: 120 })
    );
}

#[test]
fn wraps_records_to_the_start_instead_of_splitting_them() {
    let (mut tx, mut rx) = channel(64).unwrap();
    // 24-byte records (8 header + 16) at 0, 24 and 48: the third leaves a 16-byte tail
    // that cannot hold the next one, so it goes to the start after a wrap marker.
    for round in 0..20_u8 {
        tx.push(&[round; 16]).unwrap();
        assert_eq!(pop(&mut rx), Some(vec![round; 16]));
    }
}

#[test]
fn reports_full_and_recovers() {
    let (mut tx, mut rx) = channel(64).unwrap();
    tx.push(&[1; 24]).unwrap();
    tx.push(&[2; 24]).unwrap();
    assert_eq!(tx.push(&[3; 8]), Err(WriteError::Full));
    assert_eq!(pop(&mut rx), Some(vec![1; 24]));
    tx.push(&[3; 8]).unwrap();
    assert_eq!(pop(&mut rx), Some(vec![2; 24]));
    assert_eq!(pop(&mut rx), Some(vec![3; 8]));
}

#[test]
fn builds_records_from_parts_in_place() {
    let (mut tx, mut rx) = channel(128).unwrap();
    tx.write_with(11, |dst: &mut [u8]| {
        dst[..5].copy_from_slice(b"head:");
        dst[5..].copy_from_slice(b"body!!");
    })
    .unwrap();
    assert_eq!(pop(&mut rx), Some(b"head:body!!".to_vec()));
}

#[test]
fn long_runs_of_records_pass_through() {
    let (mut tx, mut rx) = channel(4096).unwrap();
    let record = [5_u8; 459];
    for _ in 0..10_000 {
        tx.write_with(record.len() + 8, |dst: &mut [u8]| {
            dst[..8].copy_from_slice(&42_u64.to_le_bytes());
            dst[8..].copy_from_slice(&record);
        })
        .unwrap();
        assert_eq!(rx.read_with(|read: &[u8]| read.len()), Some(467));
    }
}

#[test]
fn closures_may_use_the_other_half() {
    let (mut tx, mut rx) = channel(256).unwrap();
    tx.push(b"first").unwrap();
    tx.write_with(3, |dst: &mut [u8]| {
        assert_eq!(pop(&mut rx), Some(b"first".to_vec()));
        assert_eq!(pop(&mut rx), None);
        dst.copy_from_slice(b"two");
    })
    .unwrap();
    let read = rx.read_with(|record: &[u8]| {
        tx.push(record).unwrap();
        record.len()
    });
    assert_eq!(read, Some(3));
    assert_eq!(pop(&mut rx), Some(b"two".to_vec()));
}

#[test]
fn a_ring_says_why_a_record_does_not_fit() {
    let mut ring = ByteRing::new(64).unwrap();
    assert_eq!(ring.fault(25), Some(WriteError::TooLarge { len: 25, max: 24 }));
    assert_eq!(ring.fault(24), None);
    ring.push(&[1; 24]).unwrap();
    ring.push(&[2; 24]).unwrap();
    assert_eq!(ring.fault(0), Some(WriteError::Full));
    let mut record = vec![9];
    assert!(ring.peek_into(&mut record));
    assert_eq!(record, [1; 24]);
    assert_eq!(ring.fault(0), Some(WriteError::Full));
    assert!(ring.discard());
    assert_eq!(ring.fault(24), None);
    assert!(ring.peek_into(&mut record));
    assert!(ring.discard());
    assert!(!ring.discard());
    assert!(!ring.peek_into(&mut record));
    assert_eq!(record, [2; 24]);
}

#[test]
fn room_is_free_once_the_record_was_read() {
    let (mut tx, mut rx) = channel(64).unwrap();
    tx.push(&[1; 24]).unwrap();
    tx.push(&[2; 24]).unwrap();
    let inside = rx.read_with(|_: &[u8]| tx.push(&[3; 24]));
    assert_eq!(inside, Some(Err(WriteError::Full)));
    tx.push(&[3; 24]).unwrap();
    assert_eq!(pop(&mut rx), Some(vec![2; 24]));
    assert_eq!(pop(&mut rx), Some(vec![3; 24]));
}
