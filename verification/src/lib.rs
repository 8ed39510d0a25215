//! Storage engine for a time-partitioned, append-only event log.
//!
//! Records are stored one per line in date-partitioned files. The engine
//! provides buffered forward and reverse line scanners, a byte-offset binary
//! search over a sorted partition file, a partition-key filename codec, an
//! append/rotate writer and a multi-file reader. All file contents are
//! handled as plain byte vectors; the surrounding application performs the
//! actual file and directory operations.

pub mod date;
pub mod events;
pub mod filepath;
pub mod read;
pub mod readline;
pub mod search;
pub mod text;
pub mod util;
pub mod write;
