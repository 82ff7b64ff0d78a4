//! A store of log entries with a plain-text file form.
//!
//! `entry` holds the codec between an entry and its line, `analyzer` the
//! store and its queries, `stats` the count of entries by level, and
//! `storage` the file form of a whole store. `text` holds the character
//! and string primitives they share, and `clock` reads the time for new
//! entries.

pub mod analyzer;
pub mod clock;
pub mod entry;
pub mod stats;
pub mod storage;
pub mod text;

pub use analyzer::LogAnalyzer;
pub use entry::LogEntry;
