//! What the market-data tool decides and prints: its arguments, its board of live books, its
//! metrics and its final verdict. The session with the venue, the terminal and the sockets are
//! the tool's own.

pub mod args;
pub mod board;
pub mod lines;
pub mod lines_laws;
pub mod metrics;
pub mod metrics_laws;
pub mod metrics_lines_laws;
pub mod session;
pub mod show;
pub mod verdict;
