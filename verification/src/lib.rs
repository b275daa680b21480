//! Core of a market maker: exact fixed-point money, level-2 order books, bounded queues, an
//! append-only journal, latency telemetry and the decisions of the market-data tool.
//!
//! Every item is verified: contracts state what each function returns or changes, and the
//! public proof functions state the properties that span several of them.

pub mod ascii;
pub mod book;
pub mod bytes_ring;
pub mod counter;
pub mod event;
pub mod fixed;
pub mod fixed_laws;
pub mod fixed_step_laws;
pub mod ids;
pub mod instrument;
pub mod journal;
pub mod le;
pub mod md;
pub mod messages;
pub mod messages_laws;
pub mod ring;
pub mod telemetry;
pub mod text;
pub mod time;
pub mod units;
