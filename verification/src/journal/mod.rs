//! Append-only binary event journal.
//!
//! Every inbound venue message, applied snapshot and status change is journaled with its
//! receive timestamps, so any session can be replayed exactly for post-mortems and regression
//! tests. The hot thread only copies bytes into a ring ([`JournalProducer`]); a background
//! thread checksums them and writes rotated segment files.
//!
//! - [`crc`], [`layout`]: the checksum, the on-disk format and a pure record decoder.
//! - [`producer`], [`health`]: the hot-path side and what it drops.
//! - [`writer`], [`writer_loop`], [`segments`]: the background writer and its files.
//! - [`reader`]: reading back, with checksum verification.
//!
//! The journal never blocks the hot path. If the writer falls behind, records are dropped,
//! counted, and marked in the journal by a gap record, and [`JournalHealth`] turns `Degraded`;
//! if disk writes fail it turns `Failed`.

pub mod crc;
pub mod format_laws;
pub mod health;
pub mod layout;
pub mod layout_laws;
pub mod producer;
pub mod reader;
pub mod reader_laws;
pub mod segments;
pub mod writer;
pub mod writer_laws;
pub mod writer_loop;
pub mod writer_step_laws;

pub use health::{JournalHandle, JournalHealth};
pub use producer::JournalProducer;
pub use reader::{JournalReader, ReadError, Record};
pub use writer::{JournalConfig, JournalStats};
