//! Counters gathered while a sorted table is written.
use vstd::prelude::*;

verus! {

#[derive(Debug, Clone, Copy, PartialEq, Eq, Structural)]
pub struct SstStats {
    pub data_size: usize,
    pub index_size: usize,
    pub filter_size: usize,
    pub raw_key_size: usize,
    pub raw_value_size: usize,
    pub data_block_count: usize,
    pub entries_count: usize,
}

/// `a + b`, or `usize::MAX` where the sum does not fit.
pub open spec fn sat_add(a: usize, b: usize) -> usize {
    if a + b > usize::MAX {
        usize::MAX
    } else {
        (a + b) as usize
    }
}

impl Default for SstStats {
    fn default() -> (r: Self)
        ensures
            r.data_size == 0 && r.index_size == 0 && r.filter_size == 0,
            r.raw_key_size == 0 && r.raw_value_size == 0,
            r.data_block_count == 0 && r.entries_count == 0,
    {
        Self {
            data_size: 0,
            index_size: 0,
            filter_size: 0,
            raw_key_size: 0,
            raw_value_size: 0,
            data_block_count: 0,
            entries_count: 0,
        }
    }
}

impl SstStats {
    /// Counts one entry and its key and value bytes, saturating.
    pub fn add_entry(&mut self, key: &[u8], value: &[u8])
        ensures
            *final(self) == (SstStats {
                entries_count: sat_add(old(self).entries_count, 1),
                raw_key_size: sat_add(old(self).raw_key_size, key@.len() as usize),
                raw_value_size: sat_add(old(self).raw_value_size, value@.len() as usize),
                ..*old(self)
            }),
    {
        self.entries_count = self.entries_count.saturating_add(1);
        self.raw_key_size = self.raw_key_size.saturating_add(key.len());
        self.raw_value_size = self.raw_value_size.saturating_add(value.len());
    }

    /// Counts one data block of `block_size` bytes, saturating.
    pub fn add_data_block(&mut self, block_size: usize)
        ensures
            *final(self) == (SstStats {
                data_block_count: sat_add(old(self).data_block_count, 1),
                data_size: sat_add(old(self).data_size, block_size),
                ..*old(self)
            }),
    {
        self.data_block_count = self.data_block_count.saturating_add(1);
        self.data_size = self.data_size.saturating_add(block_size);
    }

    pub fn set_index_size(&mut self, index_size: usize)
        ensures
            *final(self) == (SstStats { index_size, ..*old(self) }),
    {
        self.index_size = index_size;
    }

    pub fn set_filter_size(&mut self, filter_size: usize)
        ensures
            *final(self) == (SstStats { filter_size, ..*old(self) }),
    {
        self.filter_size = filter_size;
    }
}

} // verus!
