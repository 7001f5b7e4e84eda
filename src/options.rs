//! Tuning options of the engine.
use vstd::prelude::*;

verus! {

#[derive(Debug, Clone, Copy, PartialEq, Eq, Structural)]
pub struct DbOptions {
    /// Entries per restart point in data blocks.
    pub sst_block_restart_interval: usize,
    /// Entries per restart point in the index block.
    pub sst_index_restart_interval: usize,
    /// Byte budget of a data block.
    pub sst_block_size: usize,
    /// Physical block size of the write-ahead log.
    pub wal_block_size: usize,
}

impl Default for DbOptions {
    fn default() -> (r: Self)
        ensures
            r.sst_block_restart_interval == 16,
            r.sst_index_restart_interval == 16,
            r.sst_block_size == 4096,
            r.wal_block_size == 32768,
    {
        Self {
            sst_block_restart_interval: 16,
            sst_index_restart_interval: 16,
            sst_block_size: 4 * 1024,
            wal_block_size: 32 * 1024,
        }
    }
}

} // verus!
