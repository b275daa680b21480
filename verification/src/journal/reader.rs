//! Reading a journal back, for replay and post-mortems.
//!
//! The reader decides which file comes next and what its bytes mean; whoever drives it lists
//! the directory and reads the files it asks for.

use crate::journal::layout::{self, Decoded, FormatError, RecordHeader, RECORD_HEADER_LEN};
use crate::journal::segments;
use vstd::prelude::*;

verus! {

/// One record read from a journal. The payload borrows the reader's buffer.
#[derive(Clone, Copy, Debug, PartialEq, Eq)]
pub struct Record<'a> {
    /// Header fields.
    pub header: RecordHeader,
    /// Payload bytes.
    pub payload: &'a [u8],
}

/// A journal that cannot be read. Files are named by their place in the listing.
#[derive(Clone, Copy, Debug, PartialEq, Eq, Structural)]
pub enum ReadError {
    /// Corruption: a bad header or checksum.
    Corrupt {
        /// Segment file.
        file: usize,
        /// What is wrong.
        error: FormatError,
    },
    /// A record is cut short somewhere other than the very end of the journal.
    Truncated {
        /// Segment file.
        file: usize,
        /// Offset of the truncated record.
        offset: u64,
    },
    /// Segment numbers are missing: a file was lost.
    MissingSegment {
        /// The next index expected.
        expected: u32,
        /// The index found instead.
        found: u32,
    },
}

/// What the reader has for its caller.
#[derive(Clone, Copy, Debug, PartialEq, Eq)]
pub enum Step<'a> {
    /// The next record.
    Record(Record<'a>),
    /// This file of the listing is to be read and given to [`JournalReader::supply`].
    Load(usize),
    /// The end of the journal.
    End,
}

/// What a reader holds.
#[verifier::ext_equal]
pub struct ReaderView {
    /// The segment files, by their place in the listing, in reading order.
    pub files: Seq<usize>,
    /// How many of them were loaded.
    pub next_file: nat,
    /// Contents of the current one.
    pub data: Seq<u8>,
    /// How far it was read.
    pub pos: nat,
    /// Whether the journal ended with one incomplete record.
    pub torn_tail: bool,
}

/// What a step gives.
#[verifier::ext_equal]
pub enum Given {
    Record { header: RecordHeader, payload: Seq<u8> },
    Load(usize),
    End,
    Failed(ReadError),
}

impl ReaderView {
    /// A reader at the start of these files.
    pub open spec fn at_start(files: Seq<usize>) -> ReaderView {
        ReaderView { files, next_file: 0, data: Seq::empty(), pos: 0, torn_tail: false }
    }

    /// Something is only ever read from a file that was loaded.
    pub open spec fn wf(self) -> bool {
        &&& self.next_file <= self.files.len()
        &&& self.data.len() > 0 ==> self.next_file > 0
    }

    /// What the next step gives.
    pub open spec fn given(self) -> Given {
        let file = self.files[self.next_file - 1];
        let offset = self.pos as u64;
        if self.pos >= self.data.len() {
            if self.next_file < self.files.len() {
                Given::Load(self.files[self.next_file as int])
            } else {
                Given::End
            }
        } else {
            match layout::read_record(self.data.skip(self.pos as int), offset) {
                Ok(Decoded::Record { header, len }) => Given::Record {
                    header,
                    payload: self.data.subrange(self.pos + RECORD_HEADER_LEN, self.pos + len),
                },
                Ok(Decoded::Incomplete) => if self.next_file < self.files.len() {
                    Given::Failed(ReadError::Truncated { file, offset })
                } else {
                    Given::End
                },
                Err(error) => Given::Failed(ReadError::Corrupt { file, error }),
            }
        }
    }

    /// The reader after that step.
    pub open spec fn stepped(self) -> ReaderView {
        match self.given() {
            Given::Record { payload, .. } => ReaderView {
                pos: self.pos + RECORD_HEADER_LEN as nat + payload.len(),
                ..self
            },
            Given::End => if self.pos < self.data.len() {
                ReaderView { torn_tail: true, pos: self.data.len(), ..self }
            } else {
                self
            },
            _ => self,
        }
    }

    /// What is wrong with the contents of the next file, if anything is.
    pub open spec fn supply_fault(self, data: Seq<u8>) -> Option<ReadError> {
        match layout::read_file_header(data) {
            Ok(_) => None,
            Err(error) => Some(
                ReadError::Corrupt { file: self.files[self.next_file as int], error },
            ),
        }
    }

    /// The reader with the contents of the next file.
    pub open spec fn supplied(self, data: Seq<u8>) -> ReaderView {
        ReaderView {
            next_file: self.next_file + 1,
            data,
            pos: if self.supply_fault(data) is None {
                layout::FILE_HEADER_LEN as nat
            } else {
                self.pos
            },
            ..self
        }
    }
}

/// Reads every record of a journal in order, verifying each checksum.
///
/// A crash can leave the final record of the final segment incomplete; that one torn record is
/// skipped and reported by [`torn_tail`](Self::torn_tail). Any other damage is an error.
#[derive(Debug)]
pub struct JournalReader {
    files: Vec<usize>,
    next_file: usize,
    data: Vec<u8>,
    pos: usize,
    torn_tail: bool,
}

impl View for JournalReader {
    type V = ReaderView;

    closed spec fn view(&self) -> ReaderView {
        ReaderView {
            files: self.files@,
            next_file: self.next_file as nat,
            data: self.data@,
            pos: self.pos as nat,
            torn_tail: self.torn_tail,
        }
    }
}

impl JournalReader {
    /// A reader of the segments among the files of a directory, listed by name.
    ///
    /// # Errors
    /// [`ReadError::MissingSegment`] for the first segment that is not followed by the next
    /// one.
    pub fn open(names: &[String]) -> (r: Result<Self, ReadError>)
        ensures
            match r {
                Ok(reader) => {
                    &&& reader@ == ReaderView::at_start(reader@.files)
                    &&& segments::complete(names@, reader@.files)
                },
                Err(error) => exists|missing: segments::MissingSegment|
                    #[trigger] segments::first_missing(names@, missing) && error
                        == (ReadError::MissingSegment {
                        expected: missing.expected,
                        found: missing.found,
                    }),
            },
    {
        match segments::reading_order(names) {
            Ok(files) => Ok(
                JournalReader { files, next_file: 0, data: Vec::new(), pos: 0, torn_tail: false },
            ),
            Err(missing) => Err(
                ReadError::MissingSegment { expected: missing.expected, found: missing.found },
            ),
        }
    }

    /// Whether the journal ended with one incomplete record (an unclean shutdown).
    pub fn torn_tail(&self) -> (r: bool)
        ensures
            r == self@.torn_tail,
    {
        self.torn_tail
    }

    /// Takes the contents of the file that [`next_record`](Self::next_record) asked for.
    ///
    /// # Errors
    /// [`ReadError::Corrupt`] if its file header is not one of a segment.
    pub fn supply(&mut self, data: Vec<u8>) -> (r: Result<(), ReadError>)
        requires
            old(self)@.wf(),
            old(self)@.next_file < old(self)@.files.len(),
        ensures
            final(self)@.wf(),
            final(self)@ == old(self)@.supplied(data@),
            match r {
                Ok(_) => old(self)@.supply_fault(data@) is None,
                Err(error) => old(self)@.supply_fault(data@) == Some(error),
            },
    {
        let file: usize = self.files[self.next_file];
        let header: Result<u32, FormatError> = layout::decode_file_header(data.as_slice());
        assert(self.next_file < self.files.len());
        self.next_file = self.next_file + 1;
        self.data = data;
        match header {
            Ok(_) => {
                self.pos = layout::FILE_HEADER_LEN;
                Ok(())
            },
            Err(error) => Err(ReadError::Corrupt { file, error }),
        }
    }

    /// Passes over the file that [`next_record`](Self::next_record) asked for, which could not
    /// be read.
    pub fn pass_over(&mut self)
        requires
            old(self)@.wf(),
            old(self)@.next_file < old(self)@.files.len(),
        ensures
            final(self)@.wf(),
            final(self)@ == (ReaderView { next_file: old(self)@.next_file + 1, ..old(self)@ }),
    {
        assert(self.next_file < self.files.len());
        self.next_file = self.next_file + 1;
    }

    /// The next record, the file to load before there can be one, or the end of the journal.
    /// Exhausted and empty (header-only) segments are skipped.
    ///
    /// # Errors
    /// [`ReadError`] for corruption, or truncation before the end.
    pub fn next_record(&mut self) -> (r: Result<Step<'_>, ReadError>)
        requires
            old(self)@.wf(),
        ensures
            final(self)@.wf(),
            final(self)@ == old(self)@.stepped(),
            match r {
                Ok(Step::Record(record)) => old(self)@.given() == (Given::Record {
                    header: record.header,
                    payload: record.payload@,
                }),
                Ok(Step::Load(file)) => old(self)@.given() == Given::Load(file),
                Ok(Step::End) => old(self)@.given() == Given::End,
                Err(error) => old(self)@.given() == Given::Failed(error),
            },
    {
        if self.pos >= self.data.len() {
            if self.next_file < self.files.len() {
                return Ok(Step::Load(self.files[self.next_file]));
            }
            return Ok(Step::End);
        }
        let start: usize = self.pos;
        let offset: u64 = start as u64;
        let file: usize = self.files[self.next_file - 1];
        let rest: &[u8] = vstd::slice::slice_subrange(
            self.data.as_slice(),
            start,
            self.data.len(),
        );
        assert(rest@ =~= self.data@.skip(start as int));
        match layout::decode_record(rest, offset) {
            Ok(Decoded::Record { header, len }) => {
                let end: usize = start + len;
                self.pos = end;
                let payload: &[u8] = vstd::slice::slice_subrange(
                    self.data.as_slice(),
                    start + RECORD_HEADER_LEN,
                    end,
                );
                Ok(Step::Record(Record { header, payload }))
            },
            Ok(Decoded::Incomplete) => {
                if self.next_file < self.files.len() {
                    return Err(ReadError::Truncated { file, offset });
                }
                self.torn_tail = true;
                self.pos = self.data.len();
                Ok(Step::End)
            },
            Err(error) => Err(ReadError::Corrupt { file, error }),
        }
    }
}

} // verus!
