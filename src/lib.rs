//! The on-disk formats and commit rules of an LSM-tree storage engine:
//! varints and fixed-width integers, Murmur3 and a Bloom filter, sorted
//! table blocks and tables, the write-ahead log, the manifest log and the
//! commit sequencer.
pub mod error;
pub mod varint;
pub mod fixedint;
pub mod bytes;
pub mod block_format;
pub mod block;
pub mod bitvec;
pub mod murmur3;
pub mod filter;
pub mod string;
pub mod manifest;
pub mod handle;
pub mod options;
pub mod stats;
pub mod table;
pub mod crc32;
pub mod wal;
pub mod wal_entry;
pub mod db;
