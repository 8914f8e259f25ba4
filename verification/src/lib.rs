//! An append-optimised store for timestamped 64-bit values: the codec, the
//! block-framed log, the in-memory table, the sorted on-disk table format,
//! the file naming scheme and the engine that ties them together.
//!
//! The library performs no I/O. Files are byte strings: the caller reads them
//! and hands them in, and writes out what the library produces.

pub mod block_storage;
pub mod db;
pub mod decimal;
pub mod error;
pub mod filemanager;
pub mod format;
pub mod log;
pub mod memtable;
pub mod pattern;
pub mod table;
