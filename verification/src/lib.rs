//! Watchdog core: exact parsing of human-written byte-size strings, discovery
//! of a process tree inside a point-in-time process snapshot, aggregation of a
//! memory metric over that tree, and the per-cycle decision of the watchdog
//! loop that enforces a memory ceiling on a watched process.

pub mod chars;
pub mod digits;
pub mod parser;
pub mod process;
pub mod units;
pub mod watchdog;
