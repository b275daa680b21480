//! What reading a journal back promises as a whole.

use crate::journal::layout::{self, RecordHeader};
use crate::journal::layout_laws;
use crate::journal::producer;
use crate::journal::reader::{Given, ReadError, ReaderView};
use crate::journal::writer;
use crate::time::WallTime;
use vstd::prelude::*;

verus! {

/// A record that was journaled.
#[verifier::ext_equal]
pub struct Entry {
    pub header: RecordHeader,
    pub payload: Seq<u8>,
}

impl Entry {
    /// The record as it stands on disk.
    pub open spec fn bytes(self) -> Seq<u8> {
        layout_laws::record_bytes(self.header, self.payload)
    }
}

/// Whether each of these can be journaled.
pub open spec fn storable(entries: Seq<Entry>) -> bool {
    forall|i: int|
        0 <= i < entries.len() ==> (#[trigger] entries[i]).payload.len() <= 16_777_216
}

/// Records as they stand one after the other on disk.
pub open spec fn stored(entries: Seq<Entry>) -> Seq<u8>
    decreases entries.len(),
{
    if entries.len() == 0 {
        Seq::empty()
    } else {
        entries[0].bytes() + stored(entries.skip(1))
    }
}

/// A segment file.
#[verifier::ext_equal]
pub struct SegmentFile {
    pub index: u32,
    pub created: WallTime,
    pub entries: Seq<Entry>,
}

impl SegmentFile {
    /// Its contents.
    pub open spec fn bytes(self) -> Seq<u8> {
        layout::file_header(self.index, self.created) + stored(self.entries)
    }
}

/// All the records of some segments.
pub open spec fn all_entries(segments: Seq<SegmentFile>) -> Seq<Entry>
    decreases segments.len(),
{
    if segments.len() == 0 {
        Seq::empty()
    } else {
        segments[0].entries + all_entries(segments.skip(1))
    }
}

/// How reading a journal ends.
pub enum Ending {
    /// At its end, with a torn final record or not.
    Complete { torn_tail: bool },
    /// With an error.
    Failed(ReadError),
}

/// What reading to the end gives.
#[verifier::ext_equal]
pub struct Replay {
    pub entries: Seq<Entry>,
    pub ending: Ending,
}

/// What a reader gives when it is driven to the end, each file that it asks for being supplied
/// from `contents`.
#[verifier::opaque]
pub open spec fn replay(reader: ReaderView, contents: Seq<Seq<u8>>) -> Replay
    decreases reader.files.len() - reader.next_file, reader.data.len() - reader.pos,
{
    match reader.given() {
        Given::Record { header, payload } => {
            let rest = replay(reader.stepped(), contents);
            Replay { entries: seq![Entry { header, payload }] + rest.entries, ..rest }
        },
        Given::Load(file) => match reader.supply_fault(contents[file as int]) {
            None => replay(reader.supplied(contents[file as int]), contents),
            Some(error) => Replay { entries: Seq::empty(), ending: Ending::Failed(error) },
        },
        Given::End => Replay {
            entries: Seq::empty(),
            ending: Ending::Complete { torn_tail: reader.stepped().torn_tail },
        },
        Given::Failed(error) => Replay { entries: Seq::empty(), ending: Ending::Failed(error) },
    }
}

/// Reading from a record on gives it and what is read from the one after it.
proof fn lemma_replay_record(reader: ReaderView, contents: Seq<Seq<u8>>, entry: Entry)
    requires
        reader.given() == (Given::Record { header: entry.header, payload: entry.payload }),
    ensures
        replay(reader, contents) == (Replay {
            entries: seq![entry] + replay(reader.stepped(), contents).entries,
            ..replay(reader.stepped(), contents)
        }),
{
    reveal(replay);
}

/// A step over a whole record gives it.
proof fn lemma_reads_entry(reader: ReaderView, entry: Entry, after: Seq<u8>)
    requires
        entry.payload.len() <= 16_777_216,
        reader.pos <= reader.data.len(),
        reader.data.skip(reader.pos as int) == entry.bytes() + after,
    ensures
        reader.given() == (Given::Record { header: entry.header, payload: entry.payload }),
        reader.stepped() == (ReaderView { pos: (reader.data.len() - after.len()) as nat, ..reader }),
        reader.stepped().data.skip(reader.data.len() - after.len()) == after,
{
    let here = reader.data.skip(reader.pos as int);
    let total = 32 + entry.payload.len() as int;
    layout_laws::law_records_round_trip(entry.header, entry.payload, after, reader.pos as u64);
    layout_laws::lemma_record_len(entry.header, entry.payload);
    assert(here.len() == total + after.len());
    assert(reader.data.subrange(reader.pos + 32int, reader.pos + total) =~= here.subrange(
        32,
        total,
    ));
    assert(here.skip(total) =~= after);
    assert(reader.data.skip(reader.pos + total) =~= here.skip(total));
}

/// Reading past whole records gives each of them, whatever follows.
#[verifier::rlimit(40)]
proof fn lemma_reads_entries(
    reader: ReaderView,
    contents: Seq<Seq<u8>>,
    entries: Seq<Entry>,
    tail: Seq<u8>,
)
    requires
        storable(entries),
        reader.pos <= reader.data.len(),
        reader.data.skip(reader.pos as int) == stored(entries) + tail,
    ensures
        ({
            let end = ReaderView { pos: (reader.data.len() - tail.len()) as nat, ..reader };
            replay(reader, contents) == (Replay {
                entries: entries + replay(end, contents).entries,
                ..replay(end, contents)
            })
        }),
    decreases entries.len(),
{
    let end = ReaderView { pos: (reader.data.len() - tail.len()) as nat, ..reader };
    if entries.len() == 0 {
        assert(end == reader);
        assert(entries + replay(end, contents).entries =~= replay(end, contents).entries);
    } else {
        let entry = entries[0];
        let rest = entries.skip(1);
        let after = stored(rest) + tail;
        assert(reader.data.skip(reader.pos as int) =~= entry.bytes() + after);
        lemma_reads_entry(reader, entry, after);
        lemma_replay_record(reader, contents, entry);
        lemma_reads_entries(reader.stepped(), contents, rest, tail);
        assert(seq![entry] + (rest + replay(end, contents).entries) =~= entries + replay(
            end,
            contents,
        ).entries);
    }
}

/// Reading a segment up to some point gives its records up to there.
proof fn lemma_reads_segment(
    reader: ReaderView,
    contents: Seq<Seq<u8>>,
    segment: SegmentFile,
    tail: Seq<u8>,
)
    requires
        storable(segment.entries),
        reader.pos >= reader.data.len(),
        reader.next_file < reader.files.len(),
        contents[reader.files[reader.next_file as int] as int] == segment.bytes() + tail,
    ensures
        ({
            let data = segment.bytes() + tail;
            let end = ReaderView {
                next_file: reader.next_file + 1,
                data,
                pos: segment.bytes().len(),
                ..reader
            };
            replay(reader, contents) == (Replay {
                entries: segment.entries + replay(end, contents).entries,
                ..replay(end, contents)
            })
        }),
{
    let data = segment.bytes() + tail;
    let rest = stored(segment.entries) + tail;
    let head = layout::file_header(segment.index, segment.created);
    layout_laws::law_file_headers_round_trip(segment.index, segment.created, rest);
    assert(data =~= head + rest);
    let loaded = reader.supplied(data);
    assert(reader.supply_fault(data) is None);
    layout_laws::lemma_file_header_len(segment.index, segment.created);
    assert(loaded.data.skip(32) =~= rest);
    assert(replay(reader, contents) == replay(loaded, contents)) by {
        reveal(replay);
    }
    lemma_reads_entries(loaded, contents, segment.entries, tail);
}

/// Whether the files that are still to be read hold these segments.
pub open spec fn holds(
    reader: ReaderView,
    contents: Seq<Seq<u8>>,
    segments: Seq<SegmentFile>,
) -> bool {
    &&& segments.len() == reader.files.len() - reader.next_file
    &&& forall|k: int|
        0 <= k < segments.len() ==> storable((#[trigger] segments[k]).entries)
            && contents[reader.files[reader.next_file + k] as int] == segments[k].bytes()
}

/// Reading the files that are left gives the records of their segments.
proof fn lemma_reads_segments(
    reader: ReaderView,
    contents: Seq<Seq<u8>>,
    segments: Seq<SegmentFile>,
)
    requires
        reader.pos >= reader.data.len(),
        holds(reader, contents, segments),
        reader.next_file <= reader.files.len(),
    ensures
        replay(reader, contents) == (Replay {
            entries: all_entries(segments),
            ending: Ending::Complete { torn_tail: reader.torn_tail },
        }),
    decreases segments.len(),
{
    if segments.len() == 0 {
        reveal(replay);
    } else {
        let segment = segments[0];
        let rest = segments.skip(1);
        assert(storable(segments[0].entries));
        assert(segment.bytes() + Seq::<u8>::empty() =~= segment.bytes());
        lemma_reads_segment(reader, contents, segment, Seq::empty());
        let end = ReaderView {
            next_file: reader.next_file + 1,
            data: segment.bytes(),
            pos: segment.bytes().len(),
            ..reader
        };
        assert forall|k: int| 0 <= k < rest.len() implies storable((#[trigger] rest[k]).entries)
            && contents[end.files[end.next_file + k] as int] == rest[k].bytes() by {
            assert(rest[k] == segments[k + 1]);
        }
        lemma_reads_segments(end, contents, rest);
    }
}

/// A journal gives back every record that was written, in order and once, across all of its
/// segments.
pub proof fn law_journals_read_back(
    files: Seq<usize>,
    contents: Seq<Seq<u8>>,
    segments: Seq<SegmentFile>,
)
    requires
        holds(ReaderView::at_start(files), contents, segments),
    ensures
        replay(ReaderView::at_start(files), contents) == (Replay {
            entries: all_entries(segments),
            ending: Ending::Complete { torn_tail: false },
        }),
{
    lemma_reads_segments(ReaderView::at_start(files), contents, segments);
}

/// What happens at a record that is cut short.
proof fn lemma_cut_record(reader: ReaderView, contents: Seq<Seq<u8>>, entry: Entry, cut: int)
    requires
        entry.payload.len() <= 16_777_216,
        0 < cut < entry.bytes().len(),
        reader.pos < reader.data.len(),
        reader.data.skip(reader.pos as int) == entry.bytes().take(cut),
    ensures
        replay(reader, contents) == (Replay {
            entries: Seq::empty(),
            ending: if reader.next_file < reader.files.len() {
                Ending::Failed(
                    ReadError::Truncated {
                        file: reader.files[reader.next_file - 1],
                        offset: reader.pos as u64,
                    },
                )
            } else {
                Ending::Complete { torn_tail: true }
            },
        }),
{
    reveal(replay);
    layout_laws::lemma_record_len(entry.header, entry.payload);
    layout_laws::law_short_records_are_incomplete(
        entry.header,
        entry.payload,
        cut,
        reader.pos as u64,
    );
}

/// The start of a journal: its first segments whole, and after them one whose last record is
/// cut short.
pub open spec fn cut_after(
    files: Seq<usize>,
    contents: Seq<Seq<u8>>,
    segments: Seq<SegmentFile>,
    last: SegmentFile,
    entry: Entry,
    cut: int,
) -> bool {
    &&& segments.len() < files.len()
    &&& forall|k: int|
        0 <= k < segments.len() ==> storable((#[trigger] segments[k]).entries)
            && contents[files[k] as int] == segments[k].bytes()
    &&& storable(last.entries)
    &&& entry.payload.len() <= 16_777_216
    &&& 0 < cut < entry.bytes().len()
    &&& contents[files[segments.len() as int] as int] == last.bytes() + entry.bytes().take(cut)
}

/// Reading up to a record that is cut short.
proof fn lemma_reads_to_cut(
    reader: ReaderView,
    contents: Seq<Seq<u8>>,
    segments: Seq<SegmentFile>,
    last: SegmentFile,
    entry: Entry,
    cut: int,
)
    requires
        reader.pos >= reader.data.len(),
        reader.next_file <= reader.files.len(),
        cut_after(reader.files.skip(reader.next_file as int), contents, segments, last, entry, cut),
    ensures
        ({
            let at = reader.next_file + segments.len();
            replay(reader, contents) == (Replay {
                entries: all_entries(segments) + last.entries,
                ending: if at + 1 < reader.files.len() {
                    Ending::Failed(
                        ReadError::Truncated {
                            file: reader.files[at as int],
                            offset: last.bytes().len() as u64,
                        },
                    )
                } else {
                    Ending::Complete { torn_tail: true }
                },
            })
        }),
    decreases segments.len(),
{
    let left = reader.files.skip(reader.next_file as int);
    assert(left[0] == reader.files[reader.next_file as int]);
    if segments.len() == 0 {
        let tail = entry.bytes().take(cut);
        lemma_reads_segment(reader, contents, last, tail);
        let end = ReaderView {
            next_file: reader.next_file + 1,
            data: last.bytes() + tail,
            pos: last.bytes().len(),
            ..reader
        };
        assert(end.data.skip(end.pos as int) =~= tail);
        lemma_cut_record(end, contents, entry, cut);
        assert(last.entries + Seq::<Entry>::empty() =~= all_entries(segments) + last.entries);
    } else {
        let segment = segments[0];
        let rest = segments.skip(1);
        assert(storable(segments[0].entries));
        assert(segment.bytes() + Seq::<u8>::empty() =~= segment.bytes());
        lemma_reads_segment(reader, contents, segment, Seq::empty());
        let end = ReaderView {
            next_file: reader.next_file + 1,
            data: segment.bytes(),
            pos: segment.bytes().len(),
            ..reader
        };
        let fewer = end.files.skip(end.next_file as int);
        assert forall|k: int| 0 <= k < rest.len() implies storable((#[trigger] rest[k]).entries)
            && contents[fewer[k] as int] == rest[k].bytes() by {
            assert(rest[k] == segments[k + 1]);
            assert(fewer[k] == left[k + 1]);
        }
        assert(fewer[rest.len() as int] == left[segments.len() as int]);
        lemma_reads_to_cut(end, contents, rest, last, entry, cut);
        assert(segment.entries + (all_entries(rest) + last.entries) =~= all_entries(segments)
            + last.entries);
    }
}

/// A crash that leaves the final record of the final segment incomplete loses that record
/// alone, and is reported.
pub proof fn law_a_torn_tail_loses_one_record(
    files: Seq<usize>,
    contents: Seq<Seq<u8>>,
    segments: Seq<SegmentFile>,
    last: SegmentFile,
    entry: Entry,
    cut: int,
)
    requires
        cut_after(files, contents, segments, last, entry, cut),
        segments.len() + 1 == files.len(),
    ensures
        replay(ReaderView::at_start(files), contents) == (Replay {
            entries: all_entries(segments) + last.entries,
            ending: Ending::Complete { torn_tail: true },
        }),
{
    assert(files.skip(0) =~= files);
    lemma_reads_to_cut(ReaderView::at_start(files), contents, segments, last, entry, cut);
}

/// A record that is cut short anywhere but in the final segment is an error that names its file
/// and its place, after every record before it.
pub proof fn law_truncation_before_the_end_is_an_error(
    files: Seq<usize>,
    contents: Seq<Seq<u8>>,
    segments: Seq<SegmentFile>,
    last: SegmentFile,
    entry: Entry,
    cut: int,
)
    requires
        cut_after(files, contents, segments, last, entry, cut),
        segments.len() + 1 < files.len(),
    ensures
        replay(ReaderView::at_start(files), contents) == (Replay {
            entries: all_entries(segments) + last.entries,
            ending: Ending::Failed(
                ReadError::Truncated {
                    file: files[segments.len() as int],
                    offset: last.bytes().len() as u64,
                },
            ),
        }),
{
    assert(files.skip(0) =~= files);
    lemma_reads_to_cut(ReaderView::at_start(files), contents, segments, last, entry, cut);
}

/// What the writer puts on disk for an accepted record is what the reader gives back for it.
pub proof fn law_written_records_are_read(header: RecordHeader, payload: Seq<u8>)
    requires
        payload.len() <= 16_777_216,
    ensures
        writer::framed(producer::plain_record(header, payload)) == (Entry {
            header,
            payload,
        }).bytes(),
{
    layout::lemma_header_len(header, payload.len() as u32);
    writer::law_framed_records_are_sealed(producer::plain_record(header, payload));
}

/// A reader that has come to the end stays there, with everything read. It was torn there exactly
/// when something was left that was not read.
pub proof fn law_the_end_is_the_end(reader: ReaderView)
    requires
        reader.wf(),
        reader.given() is End,
    ensures
        ({
            let ended = reader.stepped();
            &&& ended.given() is End
            &&& ended.stepped() == ended
            &&& ended.pos >= ended.data.len()
            &&& ended.data == reader.data
            &&& ended.files == reader.files
            &&& ended.next_file == reader.next_file == reader.files.len()
            &&& ended.torn_tail == (reader.torn_tail || reader.pos < reader.data.len())
        }),
{
}

/// Each record moves the reader past its bytes, by the length that its header gives, and nothing
/// else. A file that is asked for is the next one, once the one before it is read to its end.
pub proof fn law_readers_go_on_record_by_record(reader: ReaderView)
    requires
        reader.wf(),
    ensures
        reader.given() matches Given::Record { payload, .. } ==> reader.stepped() == (ReaderView {
            pos: reader.pos + 32 + payload.len(),
            ..reader
        }) && reader.pos + 32 + payload.len() <= reader.data.len(),
        reader.given() matches Given::Load(file) ==> reader.pos >= reader.data.len() && (
        reader.next_file < reader.files.len() && file == reader.files[reader.next_file as int])
            && reader.stepped() == reader,
        reader.given() is Failed ==> reader.stepped() == reader && reader.pos < reader.data.len(),
{
}

} // verus!
