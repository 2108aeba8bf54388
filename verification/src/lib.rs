//! An embedded, ordered key-value storage engine: byte codecs, checksums,
//! the write-ahead log, the memtable and its skiplist, write batches, and
//! the manifest records that bootstrap a database on open.

pub mod error;
pub mod slice;
pub mod coding;
pub mod util;
pub mod env;
pub mod log_format;
pub mod log_writer;
pub mod log_reader;
pub mod comparator;
pub mod dbformat;
pub mod random;
pub mod filename;
pub mod skiplist;
pub mod memtable;
pub mod write_batch;
pub mod version_edit;
pub mod version_set;
pub mod options;
pub mod db;
