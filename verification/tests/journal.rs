//! Writing a journal and reading it back, with the files held in memory.

use bowst::bytes_ring::{channel, ByteConsumer};
use bowst::journal::health::{health_of, JournalHandle, JournalHealth, JournalShared};
use bowst::journal::layout::{encode_file_header, FormatError, Kind, RecordHeader};
use bowst::journal::producer::JournalProducer;
use bowst::journal::reader::{JournalReader, ReadError, Step};
use bowst::journal::segments::{
    next_segment_index, reading_order, segment_index, segment_name, MissingSegment,
};
use bowst::journal::writer::{
    frame, is_due, rest_after, JournalConfig, JournalStats, JournalWriter, Rest,
};
use bowst::time::{MonoTime, WallTime};
use std::sync::Arc;
use std::time::Duration;

/// Files by name, in the order in which they were created.
#[derive(Default)]
struct Disk {
    files: Vec<(String, Vec<u8>)>,
}

impl Disk {
    fn names(&self) -> Vec<String> {
        self.files.iter().map(|(name, _)| name.clone()).collect()
    }

    fn create(&mut self, index: u32) {
        let name = segment_name(index);
        assert!(!self.names().contains(&name));
        let header = encode_file_header(index, WallTime::from_nanos(5));
        self.files.push((name, header.to_vec()));
    }

    fn append(&mut self, bytes: &[u8]) {
        self.files.last_mut().unwrap().1.extend_from_slice(bytes);
    }
}

/// Everything between a producer and the files.
struct Journal {
    ring: ByteConsumer,
    shared: Arc<JournalShared>,
    writer: JournalWriter,
}

fn open(disk: &mut Disk, config: &JournalConfig) -> (JournalProducer, JournalHandle, Journal) {
    let (tx, rx) = channel(config.ring_bytes).unwrap();
    let first = next_segment_index(&disk.names());
    disk.create(first);
    let shared = Arc::new(JournalShared::new());
    let journal = Journal {
        ring: rx,
        shared: shared.clone(),
        writer: JournalWriter::new(first, config.segment_bytes),
    };
    (
        JournalProducer::new(tx, shared.clone()),
        JournalHandle::new(shared),
        journal,
    )
}

impl Journal {
    /// One pass of the writer over the ring.
    fn drain(&mut self, disk: &mut Disk) -> bool {
        let mut wrote_any = false;
        while let Some(record) = self.ring.read_with(|record: &[u8]| record.to_vec()) {
            wrote_any = true;
            if let Some(bytes) = self.writer.take(&record) {
                disk.append(&bytes);
                self.writer.wrote(record.len());
            }
        }
        if self.writer.is_segment_full() {
            disk.create(self.writer.next_index());
            self.writer.rotated();
        }
        wrote_any
    }

    fn finish(mut self, disk: &mut Disk) -> Option<JournalStats> {
        while self.drain(disk) {}
        self.writer.finish(self.shared.dropped())
    }
}

fn header(kind: Kind, i: u64) -> RecordHeader {
    RecordHeader {
        kind,
        source: 3,
        mono: MonoTime::from_nanos(1_000 + i),
        wall: WallTime::from_nanos(2_000 + i),
    }
}

fn payload(i: u64) -> Vec<u8> {
    let len = usize::try_from(i * 37 % 1_500).unwrap();
    let start = usize::try_from(i).unwrap();
    (0..len)
        .map(|j| u8::try_from((start + j) % 251).unwrap())
        .collect()
}

/// (kind, source, mono, wall, payload) of one record.
type Row = (u16, u16, u64, u64, Vec<u8>);

fn read_all(disk: &Disk) -> Result<(Vec<Row>, bool), ReadError> {
    let mut reader = JournalReader::open(&disk.names())?;
    let mut out = Vec::new();
    loop {
        let wanted = match reader.next_record()? {
            Step::Record(record) => {
                let h = record.header;
                out.push((
                    h.kind.0,
                    h.source,
                    h.mono.as_nanos(),
                    h.wall.as_nanos(),
                    record.payload.to_vec(),
                ));
                continue;
            }
            Step::Load(file) => file,
            Step::End => break,
        };
        reader.supply(disk.files[wanted].1.clone())?;
    }
    Ok((out, reader.torn_tail()))
}

fn write_records(disk: &mut Disk, config: &JournalConfig, count: u64) {
    let (mut producer, handle, mut journal) = open(disk, config);
    for i in 0..count {
        let body = payload(i);
        // Two parts: exercises building one record from pieces.
        let (a, b) = body.split_at(body.len() / 2);
        assert!(producer.append(header(Kind::md_message(), i), &[a, b]));
        journal.drain(disk);
    }
    assert_eq!(handle.health(), JournalHealth::Healthy);
    let stats = journal.finish(disk).unwrap();
    assert_eq!(stats.records, count);
    assert_eq!(stats.dropped, 0);
}

fn config() -> JournalConfig {
    JournalConfig::new("journal".to_owned())
}

#[test]
fn round_trips_every_record_in_order() {
    let mut disk = Disk::default();
    write_records(&mut disk, &config(), 2_000);
    let (records, torn) = read_all(&disk).unwrap();
    assert!(!torn);
    assert_eq!(records.len(), 2_000);
    for (i, (kind, source, mono, wall, body)) in records.into_iter().enumerate() {
        let i = u64::try_from(i).unwrap();
        assert_eq!(
            (kind, source, mono, wall),
            (Kind::md_message().0, 3, 1_000 + i, 2_000 + i)
        );
        assert_eq!(body, payload(i));
    }
}

#[test]
fn rotates_segments_and_reads_across_them() {
    let mut disk = Disk::default();
    let mut config = config();
    config.segment_bytes = 64 * 1024;
    write_records(&mut disk, &config, 3_000);
    assert!(disk.files.len() > 5, "{:?}", disk.names());
    let (records, torn) = read_all(&disk).unwrap();
    assert!(!torn);
    assert_eq!(records.len(), 3_000);
    assert_eq!(records[2_999].4, payload(2_999));
}

#[test]
fn a_torn_final_record_is_tolerated_and_reported() {
    let mut disk = Disk::default();
    write_records(&mut disk, &config(), 100);
    let last = &mut disk.files.last_mut().unwrap().1;
    // Simulate a crash mid-write of the final record.
    last.truncate(last.len() - 10);
    let (records, torn) = read_all(&disk).unwrap();
    assert!(torn);
    assert_eq!(records.len(), 99);
}

#[test]
fn truncation_before_the_end_is_an_error() {
    let mut disk = Disk::default();
    let mut config = config();
    config.segment_bytes = 32 * 1024;
    write_records(&mut disk, &config, 1_000);
    let first = &mut disk.files[0].1;
    first.truncate(first.len() - 10);
    assert!(matches!(
        read_all(&disk),
        Err(ReadError::Truncated { file: 0, .. })
    ));
}

#[test]
fn flipped_bits_are_reported_as_corruption() {
    let mut disk = Disk::default();
    write_records(&mut disk, &config(), 100);
    let bytes = &mut disk.files[0].1;
    let middle = bytes.len() / 2;
    bytes[middle] ^= 0x40;
    assert!(matches!(
        read_all(&disk),
        Err(ReadError::Corrupt { file: 0, .. })
    ));
}

#[test]
fn a_missing_segment_is_reported() {
    let mut disk = Disk::default();
    let mut config = config();
    config.segment_bytes = 32 * 1024;
    write_records(&mut disk, &config, 1_000);
    assert!(disk.files.len() >= 3);
    disk.files.remove(1);
    assert!(matches!(
        read_all(&disk),
        Err(ReadError::MissingSegment {
            expected: 1,
            found: 2
        })
    ));
}

#[test]
fn dropped_records_are_counted_and_marked_with_a_gap() {
    let mut disk = Disk::default();
    let mut config = config();
    config.ring_bytes = 4_096; // Largest record: 2,040 bytes including its header.
    let (mut producer, handle, journal) = open(&mut disk, &config);
    assert!(producer.append(header(Kind::md_message(), 0), &[b"before"]));
    assert!(
        !producer.append(header(Kind::md_message(), 1), &[&[0; 3_000]]),
        "too large"
    );
    assert!(
        !producer.append(header(Kind::md_message(), 2), &[&[0; 3_000]]),
        "too large"
    );
    assert_eq!(handle.health(), JournalHealth::Degraded { dropped: 2 });
    assert!(producer.append(header(Kind::md_message(), 3), &[b"after"]));
    let stats = journal.finish(&mut disk).unwrap();
    assert_eq!((stats.records, stats.dropped), (3, 2));

    let (records, _) = read_all(&disk).unwrap();
    let kinds: Vec<_> = records.iter().map(|r| r.0).collect();
    assert_eq!(
        kinds,
        [
            Kind::md_message().0,
            Kind::gap().0,
            Kind::md_message().0
        ]
    );
    assert_eq!(
        records[1].4,
        2_u64.to_le_bytes(),
        "gap carries the dropped count"
    );
    assert_eq!(records[2].4, b"after");
}

#[test]
fn a_second_run_never_overwrites_the_first() {
    let mut disk = Disk::default();
    write_records(&mut disk, &config(), 10);
    write_records(&mut disk, &config(), 10);
    assert_eq!(disk.files.len(), 2);
    let (records, _) = read_all(&disk).unwrap();
    assert_eq!(records.len(), 20);
}

#[test]
fn a_full_ring_drops_records_until_there_is_room() {
    let mut disk = Disk::default();
    let mut config = config();
    config.ring_bytes = 256; // Largest record: 120 bytes including its header.
    let (mut producer, handle, mut journal) = open(&mut disk, &config);
    let body = [7_u8; 80];
    assert!(producer.append(header(Kind::md_message(), 0), &[&body]));
    assert!(producer.append(header(Kind::md_message(), 1), &[&body]));
    assert!(!producer.append(header(Kind::md_message(), 2), &[&body]));
    assert!(!producer.append(header(Kind::md_message(), 3), &[&body]));
    assert_eq!(handle.health(), JournalHealth::Degraded { dropped: 2 });
    journal.drain(&mut disk);
    assert!(producer.append(header(Kind::md_message(), 4), &[&body]));
    journal.finish(&mut disk).unwrap();
    let (records, _) = read_all(&disk).unwrap();
    let kinds: Vec<_> = records.iter().map(|r| (r.0, r.2)).collect();
    assert_eq!(
        kinds,
        [(0x0100, 1_000), (0x0100, 1_001), (0x0001, 1_004), (0x0100, 1_004)]
    );
    assert_eq!(records[2].4, 2_u64.to_le_bytes());
}

#[test]
fn a_bad_file_header_is_corruption() {
    let mut disk = Disk::default();
    write_records(&mut disk, &config(), 1);
    disk.files[0].1[3] ^= 1;
    assert_eq!(
        read_all(&disk),
        Err(ReadError::Corrupt {
            file: 0,
            error: FormatError::BadFileHeader
        })
    );
}

#[test]
fn unreadable_files_are_passed_over() {
    let mut disk = Disk::default();
    write_records(&mut disk, &config(), 1);
    write_records(&mut disk, &config(), 2);
    let mut reader = JournalReader::open(&disk.names()).unwrap();
    assert_eq!(reader.next_record(), Ok(Step::Load(0)));
    reader.pass_over();
    assert_eq!(reader.next_record(), Ok(Step::Load(1)));
    reader.supply(disk.files[1].1.clone()).unwrap();
    assert!(matches!(reader.next_record(), Ok(Step::Record(_))));
}

#[test]
fn segments_are_named_and_ordered_by_index() {
    assert_eq!(segment_name(7), "journal-00000007.bjl");
    assert_eq!(segment_name(123_456_789), "journal-123456789.bjl");
    assert_eq!(segment_index("journal-00000007.bjl"), Some(7));
    assert_eq!(segment_index("journal-7.bjl"), Some(7));
    assert_eq!(segment_index("journal-4294967295.bjl"), Some(u32::MAX));
    assert_eq!(segment_index("journal-4294967296.bjl"), None);
    assert_eq!(segment_index("journal-.bjl"), None);
    assert_eq!(segment_index("journal-00000007.tmp"), None);
    assert_eq!(segment_index("notes.txt"), None);
    let names = |names: &[&str]| -> Vec<String> { names.iter().map(|n| (*n).to_owned()).collect() };
    let listing = names(&[
        "journal-00000002.bjl",
        "README",
        "journal-00000001.bjl",
        "journal-00000003.bjl",
    ]);
    assert_eq!(reading_order(&listing), Ok(vec![2, 0, 3]));
    assert_eq!(next_segment_index(&listing), 4);
    assert_eq!(next_segment_index(&[]), 0);
    assert_eq!(
        reading_order(&names(&["journal-00000009.bjl", "journal-00000001.bjl"])),
        Err(MissingSegment {
            expected: 2,
            found: 9
        })
    );
}

#[test]
fn nothing_is_written_after_a_failure() {
    let mut writer = JournalWriter::new(4, 100);
    let record = frame(&[0; 40]);
    assert_eq!(record.len(), 40);
    assert!(writer.take(&record).is_some());
    writer.wrote(40);
    assert!(!writer.is_segment_full());
    writer.wrote(40);
    assert!(writer.is_segment_full());
    assert_eq!(writer.next_index(), 5);
    assert!(writer.fail());
    assert!(!writer.fail());
    assert!(!writer.is_segment_full());
    assert_eq!(writer.take(&record), None);
    assert_eq!(writer.stats.lost_after_failure, 1);
    assert_eq!(writer.finish(0), None);
}

#[test]
fn the_writer_rests_only_when_idle() {
    assert_eq!(rest_after(false, true), Rest::Continue);
    assert_eq!(rest_after(true, true), Rest::Continue);
    assert_eq!(rest_after(true, false), Rest::Stop);
    assert_eq!(rest_after(false, false), Rest::Sleep);
    let config = config();
    assert!(!is_due(Duration::from_millis(99), config.flush_every));
    assert!(is_due(Duration::from_millis(100), config.flush_every));
    assert!(is_due(Duration::from_secs(1), config.sync_every));
    assert_eq!(config.ring_bytes, 64 << 20);
    assert_eq!(config.segment_bytes, 128 << 20);
}

#[test]
fn health_follows_drops_and_failures() {
    assert_eq!(health_of(false, 0), JournalHealth::Healthy);
    assert_eq!(health_of(false, 7), JournalHealth::Degraded { dropped: 7 });
    assert_eq!(health_of(true, 7), JournalHealth::Failed);
    let shared = Arc::new(JournalShared::new());
    let handle = JournalHandle::new(shared.clone());
    assert_eq!(handle.health(), JournalHealth::Healthy);
    shared.note_failure();
    assert_eq!(handle.health(), JournalHealth::Failed);
    assert!(!shared.stopping());
    handle.ask_to_stop();
    assert!(shared.stopping());
}
