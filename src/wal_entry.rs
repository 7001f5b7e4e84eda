//! The payload of a write-ahead log record: a committed batch.
use vstd::prelude::*;

use crate::fixedint::{le_bytes, write_fixed_u32, write_fixed_u64, write_fixed_u8};
use crate::string::{lp_bytes, write_bytes};

verus! {

/// The kinds of batch entries: 1 puts a key, 2 deletes one.
pub enum WalEntryType {
    Put,
    Delete,
}

pub enum WalEntry {
    Put { key: Vec<u8>, value: Vec<u8> },
    Delete { key: Vec<u8> },
}

/// The bytes of one entry: its type byte, the key, and for a set the value,
/// both length-prefixed.
pub open spec fn wal_entry_bytes(e: WalEntry) -> Seq<u8> {
    match e {
        WalEntry::Put { key, value } => seq![1u8] + lp_bytes(key@) + lp_bytes(value@),
        WalEntry::Delete { key } => seq![2u8] + lp_bytes(key@),
    }
}

/// The entries' bytes one after another.
pub open spec fn wal_entries_bytes(es: Seq<WalEntry>) -> Seq<u8>
    decreases es.len(),
{
    if es.len() == 0 {
        seq![]
    } else {
        wal_entries_bytes(es.drop_last()) + wal_entry_bytes(es.last())
    }
}

/// The payload of a batch: its sequence number (8 bytes), its entry count
/// (4 bytes), then the entries.
pub open spec fn wal_request_bytes(seq_num: u64, es: Seq<WalEntry>) -> Seq<u8> {
    le_bytes(seq_num as nat, 8) + le_bytes(es.len(), 4) + wal_entries_bytes(es)
}

impl WalEntry {
    fn get_type(&self) -> (r: u8)
        ensures
            r == wal_entry_bytes(*self)[0],
    {
        match self {
            WalEntry::Put { .. } => 1,
            WalEntry::Delete { .. } => 2,
        }
    }

    pub fn write(&self, out: &mut Vec<u8>)
        ensures
            final(out)@ == old(out)@ + wal_entry_bytes(*self),
    {
        let ghost start = out@;
        let t = self.get_type();
        write_fixed_u8(t, out);
        proof {
            assert(le_bytes(t as nat / 256, 0) =~= Seq::<u8>::empty());
            assert((t as nat % 256) as u8 == t);
            assert(le_bytes(t as nat, 1) =~= seq![t]);
        }
        match self {
            WalEntry::Put { key, value } => {
                write_bytes(key.as_slice(), out);
                write_bytes(value.as_slice(), out);
            },
            WalEntry::Delete { key } => {
                write_bytes(key.as_slice(), out);
            },
        }
        assert(out@ =~= start + wal_entry_bytes(*self));
    }
}

/// A batch handed to the log: its sequence number and entries.
pub struct WalRequest {
    pub seq_num: u64,
    pub entries: Vec<WalEntry>,
}

impl WalRequest {
    pub fn new(seq_num: u64, entries: Vec<WalEntry>) -> (r: Self)
        ensures
            r.seq_num == seq_num,
            r.entries == entries,
    {
        Self { seq_num, entries }
    }

    /// The record payload of the batch.
    pub fn to_vec(&self) -> (r: Vec<u8>)
        requires
            self.entries@.len() <= u32::MAX,
        ensures
            r@ == wal_request_bytes(self.seq_num, self.entries@),
    {
        let mut out: Vec<u8> = Vec::new();
        write_fixed_u64(self.seq_num, &mut out);
        write_fixed_u32(self.entries.len() as u32, &mut out);
        let ghost head = out@;
        let mut i: usize = 0;
        assert(self.entries@.take(0) =~= Seq::<WalEntry>::empty());
        while i < self.entries.len()
            invariant
                i <= self.entries@.len(),
                out@ == head + wal_entries_bytes(self.entries@.take(i as int)),
            decreases self.entries@.len() - i,
        {
            self.entries[i].write(&mut out);
            proof {
                let t = self.entries@.take(i + 1);
                assert(t.drop_last() =~= self.entries@.take(i as int));
            }
            i = i + 1;
        }
        assert(self.entries@.take(i as int) =~= self.entries@);
        assert(out@ =~= wal_request_bytes(self.seq_num, self.entries@));
        out
    }
}

} // verus!
