//! Sorted tables: data blocks, a filter block, an index block, a meta-index
//! block and a fixed footer, built in memory and read back from a file image.
use vstd::prelude::*;

use crate::block::{block_len, filter_from, find_entry, opt_view, pairs_view, SstBlockReader, SstBlockWriter};
use crate::block_format::{
    block_entries, block_image, entries_fit, entries_from, find_value, keys_ascending, lemma_block_round_trip,
    lemma_entries_from_below, lemma_entries_from_concat, lemma_find_value, KeyValue,
};
use crate::bytes::{bytes_eq, bytes_lt, copy_range, extend_from_range, lex_lt};
use crate::error::StorageError;
use crate::filter::{filter_contains, SstFilter};
use crate::fixedint::{
    le_bytes, le_value, lemma_le_value_bound, pow256, read_fixed_u64, write_fixed_u64,
};
use crate::handle::{handle_at, handle_bytes, lemma_handle_round_trip, SstBlockHandle};
use crate::filter::filter_added;
use crate::varint::varint_encode;
use crate::options::DbOptions;
use crate::stats::SstStats;

verus! {

/// The last eight bytes of every table.
pub const SST_MAGIC: u64 = 0x78e50942a7d0c7be;

/// The footer: the meta-index handle padded to 20 bytes, then the magic.
pub const FOOTER_LEN: usize = 28;

/// How many hash functions a filter read back from a table is probed with.
pub const FILTER_FUNCTIONS: u32 = 7;

/// The meta-index key of the filter block: "filter".
pub open spec fn filter_name() -> Seq<u8> {
    seq![102u8, 105u8, 108u8, 116u8, 101u8, 114u8]
}

/// The meta-index key of the index block: "index".
pub open spec fn index_name() -> Seq<u8> {
    seq![105u8, 110u8, 100u8, 101u8, 120u8]
}

fn filter_key() -> (r: Vec<u8>)
    ensures
        r@ == filter_name(),
{
    let r: Vec<u8> = vec![102u8, 105u8, 108u8, 116u8, 101u8, 114u8];
    assert(r@ =~= filter_name());
    r
}

fn index_key() -> (r: Vec<u8>)
    ensures
        r@ == index_name(),
{
    let r: Vec<u8> = vec![105u8, 110u8, 100u8, 101u8, 120u8];
    assert(r@ =~= index_name());
    r
}

/// The bytes of `f` that handle `h` points at, where they lie within `f`.
pub open spec fn block_at(f: Seq<u8>, h: SstBlockHandle) -> Option<Seq<u8>> {
    if h.offset + h.size <= f.len() {
        Some(f.subrange(h.offset as int, h.offset + h.size))
    } else {
        None
    }
}

/// The index entries with their values read as block handles.
pub open spec fn index_handles(es: Seq<KeyValue>) -> Option<Seq<(Seq<u8>, SstBlockHandle)>>
    decreases es.len(),
{
    if es.len() == 0 {
        Some(seq![])
    } else {
        match index_handles(es.drop_last()) {
            Some(r) => match handle_at(es.last().1, 0) {
                Some((h, _)) => Some(r.push((es.last().0, h))),
                None => None,
            },
            None => None,
        }
    }
}

/// Where the meta-index handle stands in a table of `len` bytes.
pub open spec fn footer_start(len: nat) -> nat {
    (len - FOOTER_LEN) as nat
}

/// The meta-index handle of table `f`, where the footer holds the magic.
pub open spec fn table_meta_handle(f: Seq<u8>) -> Option<SstBlockHandle> {
    if f.len() >= FOOTER_LEN && le_value(f.subrange(f.len() - 8, f.len() as int)) == SST_MAGIC {
        match handle_at(f, footer_start(f.len())) {
            Some((h, _)) => Some(h),
            None => None,
        }
    } else {
        None
    }
}

/// The handle stored under `name` in a meta-index block's entries.
pub open spec fn meta_handle_of(me: Seq<KeyValue>, name: Seq<u8>) -> Option<SstBlockHandle> {
    match find_value(me, name) {
        Some(v) => match handle_at(v, 0) {
            Some((h, _)) => Some(h),
            None => None,
        },
        None => None,
    }
}

/// The filter block and the index block's entries of table `f`.
pub open spec fn table_parts(f: Seq<u8>) -> Option<(Seq<u8>, Seq<KeyValue>)> {
    match table_meta_handle(f) {
        Some(mh) => match block_at(f, mh) {
            Some(mb) => match block_entries(mb) {
                Some(me) => match (meta_handle_of(me, filter_name()), meta_handle_of(me, index_name())) {
                    (Some(fh), Some(ih)) => match (block_at(f, fh), block_at(f, ih)) {
                        (Some(fb), Some(ib)) => if 0 < fb.len() && 8 * fb.len() <= usize::MAX {
                            match block_entries(ib) {
                                Some(ie) => Some((fb, ie)),
                                None => None,
                            }
                        } else {
                            None
                        },
                        _ => None,
                    },
                    _ => None,
                },
                None => None,
            },
            None => None,
        },
        None => None,
    }
}

/// The filter bits and the index of table `f`: what opening it yields.
pub open spec fn table_at(f: Seq<u8>) -> Option<(Seq<u8>, Seq<(Seq<u8>, SstBlockHandle)>)> {
    match table_parts(f) {
        Some((fb, ie)) => match index_handles(ie) {
            Some(idx) => Some((fb, idx)),
            None => None,
        },
        None => None,
    }
}

/// How many leading index entries have a first key not above `key`.
pub open spec fn partition(idx: Seq<(Seq<u8>, SstBlockHandle)>, key: Seq<u8>) -> nat
    decreases idx.len(),
{
    if idx.len() == 0 || lex_lt(key, idx[0].0) {
        0
    } else {
        1 + partition(idx.drop_first(), key)
    }
}

/// A point lookup with a filter of bits `bits` probed `k` times: `None`
/// where a block it reads is corrupt, else the value found, if any.
pub open spec fn table_get(
    bits: Seq<u8>,
    k: u32,
    idx: Seq<(Seq<u8>, SstBlockHandle)>,
    f: Seq<u8>,
    key: Seq<u8>,
) -> Option<Option<Seq<u8>>> {
    if !filter_contains(bits, k, key) {
        Some(None)
    } else {
        let p = partition(idx, key);
        if p == 0 {
            Some(None)
        } else {
            match block_at(f, idx[p - 1].1) {
                Some(b) => match block_entries(b) {
                    Some(es) => Some(find_value(es, key)),
                    None => None,
                },
                None => None,
            }
        }
    }
}

/// The entries of blocks `start..` of the index, each block's entries
/// filtered to keys not below `from`, one block after another.
pub open spec fn table_entries_from(
    idx: Seq<(Seq<u8>, SstBlockHandle)>,
    f: Seq<u8>,
    from: Seq<u8>,
    start: int,
) -> Option<Seq<KeyValue>>
    decreases idx.len() - start,
{
    if start >= idx.len() {
        Some(seq![])
    } else {
        match block_at(f, idx[start].1) {
            Some(b) => match block_entries(b) {
                Some(es) => match table_entries_from(idx, f, from, start + 1) {
                    Some(rest) => Some(entries_from(es, from) + rest),
                    None => None,
                },
                None => None,
            },
            None => None,
        }
    }
}

/// The block where a scan from `from` starts: the last one whose first key
/// is not above `from`, or the first.
pub open spec fn scan_start(idx: Seq<(Seq<u8>, SstBlockHandle)>, from: Seq<u8>) -> int {
    let p = partition(idx, from);
    if p == 0 {
        0
    } else {
        p - 1
    }
}

pub open spec fn index_view(v: Seq<(Vec<u8>, SstBlockHandle)>) -> Seq<(Seq<u8>, SstBlockHandle)> {
    v.map_values(|e: (Vec<u8>, SstBlockHandle)| (e.0@, e.1))
}

/// An opened table: its filter and index held in memory. Blocks are read
/// from the table's bytes, passed to each lookup.
pub struct SstTable {
    pub filter: SstFilter,
    pub index: Vec<(Vec<u8>, SstBlockHandle)>,
}

/// Whether the first keys of `index` ascend strictly.
fn index_ascends(index: &Vec<(Vec<u8>, SstBlockHandle)>) -> (r: bool)
    ensures
        r == first_keys_ascending(index_view(index@)),
{
    let ghost idx = index_view(index@);
    let mut j: usize = 1;
    while j < index.len()
        invariant
            1 <= j,
            idx == index_view(index@),
            forall|m: int| 0 < m < j && m < idx.len() ==> lex_lt(#[trigger] idx[m - 1].0, idx[m].0),
        decreases index@.len() - j,
    {
        proof {
            assert(idx[j - 1].0 == index@[j - 1].0@);
            assert(idx[j as int].0 == index@[j as int].0@);
        }
        if !bytes_lt(index[j - 1].0.as_slice(), index[j].0.as_slice()) {
            return false;
        }
        j = j + 1;
    }
    true
}

/// The value stored with `key` in the data block `block`, read on its own
/// from where a handle points.
pub fn get_in_block(block: Vec<u8>, key: &[u8]) -> (r: Result<Option<Vec<u8>>, StorageError>)
    ensures
        match block_entries(block@) {
            Some(es) => r matches Ok(v) && opt_view(v) == find_value(es, key@),
            None => r == Err::<Option<Vec<u8>>, StorageError>(StorageError::Corrupt),
        },
{
    let reader = match SstBlockReader::new(block) {
        Ok(r) => r,
        Err(e) => return Err(e),
    };
    match reader.iter() {
        Ok(all) => Ok(find_entry(&all, key)),
        Err(e) => Err(e),
    }
}

/// The bytes of `f` that `h` points at; `Corrupt` where they run past its end.
fn block_from_handle(f: &[u8], h: &SstBlockHandle) -> (r: Result<Vec<u8>, StorageError>)
    ensures
        match block_at(f@, *h) {
            Some(b) => r matches Ok(v) && v@ == b,
            None => r == Err::<Vec<u8>, StorageError>(StorageError::Corrupt),
        },
{
    if h.offset > f.len() as u64 || h.size > f.len() as u64 - h.offset {
        return Err(StorageError::Corrupt);
    }
    let start = h.offset as usize;
    let end = start + h.size as usize;
    Ok(copy_range(f, start, end))
}

/// Decodes the handle at the front of `v`.
fn handle_of(v: &[u8]) -> (r: Result<SstBlockHandle, StorageError>)
    ensures
        match handle_at(v@, 0) {
            Some((h, _)) => r == Ok::<SstBlockHandle, StorageError>(h),
            None => r == Err::<SstBlockHandle, StorageError>(StorageError::Corrupt),
        },
{
    let mut pos: usize = 0;
    SstBlockHandle::read_from(v, &mut pos)
}

/// The entries of the block at `h` in `f`.
fn entries_at_handle(f: &[u8], h: &SstBlockHandle) -> (r: Result<Vec<(Vec<u8>, Vec<u8>)>, StorageError>)
    ensures
        match block_at(f@, *h) {
            Some(b) => match block_entries(b) {
                Some(es) => r matches Ok(v) && pairs_view(v@) == es,
                None => r matches Err(e) && e == StorageError::Corrupt,
            },
            None => r matches Err(e) && e == StorageError::Corrupt,
        },
{
    let block = match block_from_handle(f, h) {
        Ok(b) => b,
        Err(e) => return Err(e),
    };
    let reader = match SstBlockReader::new(block) {
        Ok(r) => r,
        Err(e) => return Err(e),
    };
    reader.iter()
}

/// The handle stored under `name` among the meta-index entries `me`.
fn find_handle(me: &Vec<(Vec<u8>, Vec<u8>)>, name: &[u8]) -> (r: Result<SstBlockHandle, StorageError>)
    ensures
        match meta_handle_of(pairs_view(me@), name@) {
            Some(h) => r == Ok::<SstBlockHandle, StorageError>(h),
            None => r matches Err(e) && e == StorageError::Corrupt,
        },
{
    let ghost es = pairs_view(me@);
    let mut i: usize = 0;
    assert(es.subrange(0, es.len() as int) =~= es);
    while i < me.len()
        invariant
            i <= me@.len(),
            es == pairs_view(me@),
            find_value(es, name@) == find_value(es.subrange(i as int, es.len() as int), name@),
        decreases me@.len() - i,
    {
        let ghost t = es.subrange(i as int, es.len() as int);
        proof {
            assert(t[0] == es[i as int]);
            assert(es[i as int] == (me@[i as int].0@, me@[i as int].1@));
        }
        if bytes_eq(me[i].0.as_slice(), name) {
            return handle_of(me[i].1.as_slice());
        }
        proof {
            assert(t.drop_first() =~= es.subrange(i + 1, es.len() as int));
        }
        i = i + 1;
    }
    Err(StorageError::Corrupt)
}

impl SstTable {
    pub open spec fn wf(&self) -> bool {
        &&& self.filter.wf()
        &&& first_keys_ascending(index_view(self.index@))
    }

    /// Whether the table's filter is well formed and its index ascends, as
    /// lookups require.
    pub fn check(&self) -> (r: bool)
        ensures
            r == self.wf(),
    {
        let n = self.filter.bitvec.data.len();
        let bits_ok = n <= usize::MAX / 8 && self.filter.bitvec.len == n * 8;
        let probes_ok = self.filter.num_functions == 0 || self.filter.bitvec.len > 0;
        bits_ok && probes_ok && index_ascends(&self.index)
    }

    pub fn new(filter: SstFilter, index: Vec<(Vec<u8>, SstBlockHandle)>) -> (r: Self)
        ensures
            r.filter == filter,
            r.index == index,
    {
        Self { filter, index }
    }

    /// Reads the footer, the meta-index, the filter block and the index
    /// block's entries of the table whose bytes are `f`.
    #[verifier::rlimit(100)]
    fn read_parts(f: &[u8]) -> (r: Result<(Vec<u8>, Vec<(Vec<u8>, Vec<u8>)>), StorageError>)
        ensures
            match table_parts(f@) {
                Some((fb, ie)) => r matches Ok((b, v)) && b@ == fb && pairs_view(v@) == ie,
                None => r matches Err(e) && e == StorageError::Corrupt,
            },
    {
        let len = f.len();
        if len < FOOTER_LEN {
            return Err(StorageError::Corrupt);
        }
        let mut mpos = len - 8;
        let magic = match read_fixed_u64(f, &mut mpos) {
            Ok(m) => m,
            Err(e) => return Err(e),
        };
        if magic != SST_MAGIC {
            return Err(StorageError::Corrupt);
        }
        let mut pos = len - FOOTER_LEN;
        let meta_handle = match SstBlockHandle::read_from(f, &mut pos) {
            Ok(h) => h,
            Err(e) => return Err(e),
        };
        proof {
            lemma_le_value_bound(f@.subrange(len - 8, len as int));
            reveal_with_fuel(pow256, 9);
            assert(pow256(8) == 0x1_0000_0000_0000_0000nat);
            assert(table_meta_handle(f@) == Some(meta_handle));
        }
        let meta = match entries_at_handle(f, &meta_handle) {
            Ok(m) => m,
            Err(e) => return Err(e),
        };
        let fkey = filter_key();
        let ikey = index_key();
        let filter_handle = match find_handle(&meta, fkey.as_slice()) {
            Ok(h) => h,
            Err(e) => return Err(e),
        };
        let index_handle = match find_handle(&meta, ikey.as_slice()) {
            Ok(h) => h,
            Err(e) => return Err(e),
        };
        let filter_block = match block_from_handle(f, &filter_handle) {
            Ok(b) => b,
            Err(e) => return Err(e),
        };
        if filter_block.len() == 0 || filter_block.len() > usize::MAX / 8 {
            return Err(StorageError::Corrupt);
        }
        let index_entries = match entries_at_handle(f, &index_handle) {
            Ok(v) => v,
            Err(e) => return Err(e),
        };
        Ok((filter_block, index_entries))
    }

    /// Opens the table whose bytes are `f`: checks the footer's magic, reads
    /// the meta-index, then the filter and the index.
    pub fn open(f: &[u8]) -> (r: Result<Self, StorageError>)
        ensures
            match table_at(f@) {
                Some((bits, idx)) => if first_keys_ascending(idx) {
                    r matches Ok(t) && t.wf() && t.filter.num_functions == FILTER_FUNCTIONS && t.filter.bitvec.data@ == bits
                        && index_view(t.index@) == idx
                } else {
                    r == Err::<Self, StorageError>(StorageError::Corrupt)
                },
                None => r matches Err(e) && e == StorageError::Corrupt,
            },
    {
        let (filter_block, index_entries) = match Self::read_parts(f) {
            Ok(p) => p,
            Err(e) => return Err(e),
        };
        let filter = SstFilter::from_data(filter_block.as_slice(), FILTER_FUNCTIONS);
        let ghost ie = pairs_view(index_entries@);
        let mut index: Vec<(Vec<u8>, SstBlockHandle)> = Vec::new();
        let mut i: usize = 0;
        let ghost fb = filter_block@;
        proof {
            assert(ie.take(0) =~= Seq::<KeyValue>::empty());
            assert(index_view(index@) =~= Seq::<(Seq<u8>, SstBlockHandle)>::empty());
            assert(table_at(f@) == match index_handles(ie) {
                Some(idx) => Some((fb, idx)),
                None => None::<(Seq<u8>, Seq<(Seq<u8>, SstBlockHandle)>)>,
            });
        }
        while i < index_entries.len()
            invariant
                i <= index_entries@.len(),
                ie == pairs_view(index_entries@),
                filter.wf(),
                filter.num_functions == FILTER_FUNCTIONS,
                filter.bitvec.data@ == fb,
                table_at(f@) == match index_handles(ie) {
                    Some(idx) => Some((fb, idx)),
                    None => None::<(Seq<u8>, Seq<(Seq<u8>, SstBlockHandle)>)>,
                },
                index_handles(ie.take(i as int)) == Some(index_view(index@)),
            decreases index_entries@.len() - i,
        {
            let h = match handle_of(index_entries[i].1.as_slice()) {
                Ok(h) => h,
                Err(e) => {
                    proof {
                        let t = ie.take(i + 1);
                        assert(t.drop_last() =~= ie.take(i as int));
                        assert(t.last() == ie[i as int]);
                        lemma_index_handles_prefix(ie, i + 1);
                    }
                    return Err(e);
                },
            };
            let k = copy_range(index_entries[i].0.as_slice(), 0, index_entries[i].0.len());
            let ghost before = index@;
            index.push((k, h));
            proof {
                let t = ie.take(i + 1);
                assert(t.drop_last() =~= ie.take(i as int));
                assert(t.last() == ie[i as int]);
                assert(ie[i as int] == (index_entries@[i as int].0@, index_entries@[i as int].1@));
                assert(k@ =~= index_entries@[i as int].0@);
                assert(index_view(index@) =~= index_view(before).push((k@, h)));
            }
            i = i + 1;
        }
        proof {
            assert(ie.take(ie.len() as int) =~= ie);
        }
        if !index_ascends(&index) {
            return Err(StorageError::Corrupt);
        }
        Ok(Self { filter, index })
    }

    /// How many leading index entries have a first key not above `key`,
    /// found by bisecting the index.
    fn partition_point(&self, key: &[u8]) -> (r: usize)
        requires
            first_keys_ascending(index_view(self.index@)),
        ensures
            r == partition(index_view(self.index@), key@),
            r <= self.index@.len(),
    {
        let ghost idx = index_view(self.index@);
        let mut lo: usize = 0;
        let mut hi: usize = self.index.len();
        while lo < hi
            invariant
                lo <= hi <= self.index@.len(),
                idx == index_view(self.index@),
                first_keys_ascending(idx),
                forall|j: int| 0 <= j < lo ==> !lex_lt(key@, #[trigger] idx[j].0),
                forall|j: int| hi <= j < idx.len() ==> lex_lt(key@, #[trigger] idx[j].0),
            decreases hi - lo,
        {
            let mid = lo + (hi - lo) / 2;
            proof {
                assert(idx[mid as int].0 == self.index@[mid as int].0@);
            }
            if bytes_lt(key, self.index[mid].0.as_slice()) {
                proof {
                    assert forall|j: int| mid <= j < idx.len() implies lex_lt(key@, #[trigger] idx[j].0) by {
                        if j > mid {
                            lemma_first_keys_ascending(idx, mid as int, j);
                            crate::bytes::lemma_lex_lt_transitive(key@, idx[mid as int].0, idx[j].0);
                        }
                    }
                }
                hi = mid;
            } else {
                proof {
                    let km = idx[mid as int].0;
                    crate::bytes::lemma_lex_lt_total(km, key@);
                    assert forall|j: int| 0 <= j < mid + 1 implies !lex_lt(key@, #[trigger] idx[j].0) by {
                        if j < mid {
                            lemma_first_keys_ascending(idx, j, mid as int);
                            if km != key@ {
                                crate::bytes::lemma_lex_lt_transitive(idx[j].0, km, key@);
                                crate::bytes::lemma_lex_lt_asymmetric(idx[j].0, key@);
                            } else {
                                crate::bytes::lemma_lex_lt_asymmetric(idx[j].0, key@);
                            }
                        }
                    }
                }
                lo = mid + 1;
            }
        }
        proof {
            lemma_partition_exact(idx, key@, lo as nat);
        }
        lo
    }

    /// The block that may hold `key`: none where the filter rules `key` out
    /// or its first key is above `key`.
    pub fn block_for(&self, key: &[u8]) -> (r: Option<SstBlockHandle>)
        requires
            self.wf(),
        ensures
            ({
                let idx = index_view(self.index@);
                let p = partition(idx, key@);
                if !filter_contains(self.filter.bitvec.data@, self.filter.num_functions, key@) || p == 0 {
                    r is None
                } else {
                    r == Some(idx[p - 1].1)
                }
            }),
    {
        if !self.filter.may_contain(key) {
            return None;
        }
        let p = self.partition_point(key);
        if p == 0 {
            return None;
        }
        proof {
            assert(index_view(self.index@)[p - 1].1 == self.index@[p - 1].1);
        }
        Some(self.index[p - 1].1)
    }

    /// The value stored with `key` in the table whose bytes are `f`.
    pub fn get(&self, f: &[u8], key: &[u8]) -> (r: Result<Option<Vec<u8>>, StorageError>)
        requires
            self.wf(),
        ensures
            match table_get(self.filter.bitvec.data@, self.filter.num_functions, index_view(self.index@), f@, key@) {
                Some(o) => r matches Ok(v) && opt_view(v) == o,
                None => r matches Err(e) && e == StorageError::Corrupt,
            },
    {
        if !self.filter.may_contain(key) {
            return Ok(None);
        }
        let p = self.partition_point(key);
        if p == 0 {
            return Ok(None);
        }
        let handle = self.index[p - 1].1;
        let block = match block_from_handle(f, &handle) {
            Ok(b) => b,
            Err(e) => return Err(e),
        };
        let reader = match SstBlockReader::new(block) {
            Ok(r) => r,
            Err(e) => return Err(e),
        };
        match reader.iter() {
            Ok(all) => Ok(find_entry(&all, key)),
            Err(e) => Err(e),
        }
    }

    /// The entries of the table whose bytes are `f`, from the block covering
    /// `from` on, each block's entries limited to keys not below `from`.
    pub fn iter_from(&self, f: &[u8], from: &[u8]) -> (r: Result<Vec<(Vec<u8>, Vec<u8>)>, StorageError>)
        requires
            self.wf(),
        ensures
            match table_entries_from(index_view(self.index@), f@, from@, scan_start(index_view(self.index@), from@)) {
                Some(es) => r matches Ok(v) && pairs_view(v@) == es,
                None => r matches Err(e) && e == StorageError::Corrupt,
            },
    {
        let p = self.partition_point(from);
        let start: usize = if p == 0 {
            0
        } else {
            p - 1
        };
        self.scan(f, from, start)
    }

    /// Every entry of the table whose bytes are `f`, in order.
    pub fn iter(&self, f: &[u8]) -> (r: Result<Vec<(Vec<u8>, Vec<u8>)>, StorageError>)
        ensures
            match table_entries_from(index_view(self.index@), f@, seq![], 0) {
                Some(es) => r matches Ok(v) && pairs_view(v@) == es,
                None => r matches Err(e) && e == StorageError::Corrupt,
            },
    {
        let empty: Vec<u8> = Vec::new();
        assert(empty@ =~= Seq::<u8>::empty());
        self.scan(f, empty.as_slice(), 0)
    }

    fn scan(&self, f: &[u8], from: &[u8], start: usize) -> (r: Result<Vec<(Vec<u8>, Vec<u8>)>, StorageError>)
        requires
            start <= self.index@.len(),
        ensures
            match table_entries_from(index_view(self.index@), f@, from@, start as int) {
                Some(es) => r matches Ok(v) && pairs_view(v@) == es,
                None => r matches Err(e) && e == StorageError::Corrupt,
            },
    {
        let ghost idx = index_view(self.index@);
        let mut out: Vec<(Vec<u8>, Vec<u8>)> = Vec::new();
        let mut i: usize = start;
        proof {
            assert(pairs_view(out@) + table_entries_from(idx, f@, from@, start as int).unwrap_or(seq![]) =~= table_entries_from(idx, f@, from@, start as int).unwrap_or(seq![]));
        }
        while i < self.index.len()
            invariant
                start <= i <= self.index@.len(),
                idx == index_view(self.index@),
                table_entries_from(idx, f@, from@, start as int) == match table_entries_from(idx, f@, from@, i as int) {
                    Some(rest) => Some(pairs_view(out@) + rest),
                    None => None::<Seq<KeyValue>>,
                },
            decreases self.index@.len() - i,
        {
            let handle = self.index[i].1;
            proof {
                assert(idx[i as int].1 == handle);
            }
            let block = match block_from_handle(f, &handle) {
                Ok(b) => b,
                Err(e) => return Err(e),
            };
            let reader = match SstBlockReader::new(block) {
                Ok(r) => r,
                Err(e) => return Err(e),
            };
            let all = match reader.iter() {
                Ok(v) => v,
                Err(e) => return Err(e),
            };
            let part = filter_from(all, from);
            let ghost before = out@;
            let mut part = part;
            let ghost pv = pairs_view(part@);
            out.append(&mut part);
            proof {
                assert(pairs_view(out@) =~= pairs_view(before) + pv);
                match table_entries_from(idx, f@, from@, i + 1) {
                    Some(rest) => {
                        assert(pairs_view(before) + (pv + rest) =~= pairs_view(out@) + rest);
                    },
                    None => {},
                }
            }
            i = i + 1;
        }
        proof {
            assert(pairs_view(out@) + Seq::<KeyValue>::empty() =~= pairs_view(out@));
        }
        Ok(out)
    }
}

proof fn lemma_index_handles_prefix(ie: Seq<KeyValue>, n: int)
    requires
        0 <= n <= ie.len(),
        index_handles(ie.take(n)) is None,
    ensures
        index_handles(ie) is None,
    decreases ie.len() - n,
{
    if n < ie.len() {
        let t = ie.take(n + 1);
        assert(t.drop_last() =~= ie.take(n));
        lemma_index_handles_prefix(ie, n + 1);
    } else {
        assert(ie.take(n) =~= ie);
    }
}

/// `partition` counts the leading run of first keys not above `key`.
proof fn lemma_partition_exact(idx: Seq<(Seq<u8>, SstBlockHandle)>, key: Seq<u8>, i: nat)
    requires
        i <= idx.len(),
        forall|j: int| 0 <= j < i ==> !lex_lt(key, #[trigger] idx[j].0),
        i < idx.len() ==> lex_lt(key, idx[i as int].0),
    ensures
        partition(idx, key) == i,
    decreases i,
{
    if i > 0 {
        let t = idx.drop_first();
        assert(!lex_lt(key, idx[0].0));
        assert forall|j: int| 0 <= j < i - 1 implies !lex_lt(key, #[trigger] t[j].0) by {
            assert(t[j] == idx[j + 1]);
        }
        if i < idx.len() {
            assert(t[i - 1] == idx[i as int]);
        }
        lemma_partition_exact(t, key, (i - 1) as nat);
    }
}

} // verus!

verus! {

/// Index entries as stored in the index block: first key, encoded handle.
pub open spec fn index_block_entries(idx: Seq<(Seq<u8>, SstBlockHandle)>) -> Seq<KeyValue> {
    idx.map_values(|e: (Seq<u8>, SstBlockHandle)| (e.0, handle_bytes(e.1)))
}

proof fn lemma_index_handles_round_trip(idx: Seq<(Seq<u8>, SstBlockHandle)>)
    ensures
        index_handles(index_block_entries(idx)) == Some(idx),
    decreases idx.len(),
{
    if idx.len() > 0 {
        let es = index_block_entries(idx);
        assert(es.drop_last() =~= index_block_entries(idx.drop_last()));
        lemma_index_handles_round_trip(idx.drop_last());
        lemma_handle_round_trip(idx.last().1, Seq::<u8>::empty());
        assert(handle_bytes(idx.last().1) + Seq::<u8>::empty() =~= handle_bytes(idx.last().1));
        assert(idx.drop_last().push((idx.last().0, idx.last().1)) =~= idx);
    }
}

/// Writes a sorted table into memory, block by block.
pub struct SstTableWriter {
    data: Vec<u8>,
    options: DbOptions,
    block_writer: SstBlockWriter,
    filter: SstFilter,
    index: Vec<(Vec<u8>, SstBlockHandle)>,
    stats: SstStats,
    last_key: Option<Vec<u8>>,
    entries: Ghost<Seq<KeyValue>>,
    chunks: Ghost<Seq<Seq<KeyValue>>>,
}

/// The entries of data blocks one after another.
pub open spec fn flatten(cs: Seq<Seq<KeyValue>>) -> Seq<KeyValue>
    decreases cs.len(),
{
    if cs.len() == 0 {
        seq![]
    } else {
        cs[0] + flatten(cs.drop_first())
    }
}

proof fn lemma_flatten_push(cs: Seq<Seq<KeyValue>>, c: Seq<KeyValue>)
    ensures
        flatten(cs.push(c)) == flatten(cs) + c,
    decreases cs.len(),
{
    if cs.len() == 0 {
        assert(cs.push(c).drop_first() =~= Seq::<Seq<KeyValue>>::empty());
        assert(cs.push(c)[0] == c);
        assert(flatten(Seq::<Seq<KeyValue>>::empty()) == Seq::<KeyValue>::empty());
        assert(c + Seq::<KeyValue>::empty() =~= c);
        assert(Seq::<KeyValue>::empty() + c =~= c);
    } else {
        assert(cs.push(c)[0] == cs[0]);
        assert(cs.push(c).drop_first() =~= cs.drop_first().push(c));
        lemma_flatten_push(cs.drop_first(), c);
        assert(cs[0] + (flatten(cs.drop_first()) + c) =~= (cs[0] + flatten(cs.drop_first())) + c);
    }
}

/// Data block `c` is stored in `d` where index entry `e` says, under its first key.
pub open spec fn chunk_stored(d: Seq<u8>, e: (Seq<u8>, SstBlockHandle), c: Seq<KeyValue>, every: nat) -> bool {
    &&& c.len() > 0
    &&& entries_fit(c)
    &&& block_image(c, every).len() <= u32::MAX
    &&& e.0 == c[0].0
    &&& e.1.size == block_image(c, every).len()
    &&& e.1.offset + e.1.size <= d.len()
    &&& d.subrange(e.1.offset as int, e.1.offset + e.1.size) == block_image(c, every)
}

proof fn lemma_entries_from_empty(es: Seq<KeyValue>)
    ensures
        entries_from(es, seq![]) == es,
    decreases es.len(),
{
    if es.len() > 0 {
        lemma_entries_from_empty(es.drop_last());
        assert(!lex_lt(es.last().0, seq![]));
        assert(es.drop_last().push(es.last()) =~= es);
    }
}

/// Scanning the blocks `start..` of a table visits the entries of those
/// data blocks in order.
#[verifier::spinoff_prover]
#[verifier::rlimit(100)]
proof fn lemma_table_scan(idx: Seq<(Seq<u8>, SstBlockHandle)>, f: Seq<u8>, cs: Seq<Seq<KeyValue>>, every: nat, start: int)
    requires
        0 <= start <= idx.len(),
        idx.len() == cs.len(),
        forall|j: int| 0 <= j < cs.len() ==> chunk_stored(f, #[trigger] idx[j], cs[j], every),
    ensures
        table_entries_from(idx, f, seq![], start) == Some(flatten(cs.subrange(start, cs.len() as int))),
    decreases idx.len() - start,
{
    if start == idx.len() {
        assert(cs.subrange(start, cs.len() as int) =~= Seq::<Seq<KeyValue>>::empty());
    } else {
        lemma_table_scan(idx, f, cs, every, start + 1);
        assert(chunk_stored(f, idx[start], cs[start], every));
        lemma_block_round_trip(cs[start], every);
        lemma_entries_from_empty(cs[start]);
        let s = cs.subrange(start, cs.len() as int);
        assert(s.drop_first() =~= cs.subrange(start + 1, cs.len() as int));
        assert(s[0] == cs[start]);
    }
}

/// `x` sorts before `y` or equals it.
pub open spec fn lex_le(x: Seq<u8>, y: Seq<u8>) -> bool {
    x == y || lex_lt(x, y)
}

/// Data blocks in key order: each ascending, each key below every later
/// block's first key and not below any earlier block's first key.
pub open spec fn chunks_sorted(cs: Seq<Seq<KeyValue>>) -> bool {
    &&& forall|j: int| 0 <= j < cs.len() ==> keys_ascending(#[trigger] cs[j]) && cs[j].len() > 0
    &&& forall|j: int, j2: int, m: int|
        0 <= j < j2 < cs.len() && 0 <= m < cs[j].len() ==> lex_lt(#[trigger] cs[j][m].0, #[trigger] cs[j2][0].0)
    &&& forall|j2: int, j: int, m: int|
        0 <= j2 <= j < cs.len() && 0 <= m < cs[j].len() ==> lex_le(#[trigger] cs[j2][0].0, #[trigger] cs[j][m].0)
}

proof fn lemma_partition_bound(idx: Seq<(Seq<u8>, SstBlockHandle)>, key: Seq<u8>)
    ensures
        partition(idx, key) <= idx.len(),
    decreases idx.len(),
{
    if idx.len() > 0 {
        lemma_partition_bound(idx.drop_first(), key);
    }
}

/// The entry at position `i` of the flattened blocks, located in its block.
proof fn lemma_flatten_locate(cs: Seq<Seq<KeyValue>>, i: int) -> (r: (int, int))
    requires
        0 <= i < flatten(cs).len(),
    ensures
        0 <= r.0 < cs.len(),
        0 <= r.1 < cs[r.0].len(),
        flatten(cs)[i] == cs[r.0][r.1],
    decreases cs.len(),
{
    let t = cs.drop_first();
    if i < cs[0].len() {
        (0, i)
    } else {
        let (j, m) = lemma_flatten_locate(t, i - cs[0].len());
        assert(t[j] == cs[j + 1]);
        (j + 1, m)
    }
}

/// Every entry of a block appears in the flattened blocks.
proof fn lemma_flatten_contains(cs: Seq<Seq<KeyValue>>, j: int, m: int) -> (i: int)
    requires
        0 <= j < cs.len(),
        0 <= m < cs[j].len(),
    ensures
        0 <= i < flatten(cs).len(),
        flatten(cs)[i] == cs[j][m],
    decreases cs.len(),
{
    let t = cs.drop_first();
    if j == 0 {
        m
    } else {
        assert(t[j - 1] == cs[j]);
        let i2 = lemma_flatten_contains(t, j - 1, m);
        cs[0].len() + i2
    }
}

/// Closing the current block as the next data block keeps the blocks in order.
proof fn lemma_push_chunk_sorted(cs: Seq<Seq<KeyValue>>, b: Seq<KeyValue>)
    requires
        chunks_sorted(cs),
        b.len() > 0,
        keys_ascending(b),
        forall|j: int, m: int, i: int|
            0 <= j < cs.len() && 0 <= m < cs[j].len() && 0 <= i < b.len() ==> lex_lt(#[trigger] cs[j][m].0, #[trigger] b[i].0),
    ensures
        chunks_sorted(cs.push(b)),
{
    let c2 = cs.push(b);
    let n = cs.len() as int;
    assert forall|j: int| 0 <= j < c2.len() implies keys_ascending(#[trigger] c2[j]) && c2[j].len() > 0 by {
        if j < n {
            assert(c2[j] == cs[j]);
        }
    }
    assert forall|j: int, j2: int, m: int|
        0 <= j < j2 < c2.len() && 0 <= m < c2[j].len() implies lex_lt(#[trigger] c2[j][m].0, #[trigger] c2[j2][0].0) by {
        assert(c2[j] == cs[j]);
        if j2 < n {
            assert(c2[j2] == cs[j2]);
        } else {
            assert(c2[j2] == b);
        }
    }
    assert forall|j2: int, j: int, m: int|
        0 <= j2 <= j < c2.len() && 0 <= m < c2[j].len() implies lex_le(#[trigger] c2[j2][0].0, #[trigger] c2[j][m].0) by {
        if j < n {
            assert(c2[j] == cs[j] && c2[j2] == cs[j2]);
        } else {
            assert(c2[j] == b);
            if j2 < n {
                assert(c2[j2] == cs[j2]);
                assert(lex_lt(cs[j2][0].0, b[m].0));
            } else {
                assert(c2[j2] == b);
                if m > 0 {
                    assert(lex_lt(b[0].0, b[m].0));
                }
            }
        }
    }
}

/// A point lookup finds a stored key, where the filter reports it.
#[verifier::rlimit(100)]
proof fn lemma_table_lookup_found(
    bits: Seq<u8>,
    kf: u32,
    idx: Seq<(Seq<u8>, SstBlockHandle)>,
    f: Seq<u8>,
    cs: Seq<Seq<KeyValue>>,
    every: nat,
    j: int,
    m: int,
)
    requires
        idx.len() == cs.len(),
        forall|j: int| 0 <= j < cs.len() ==> chunk_stored(f, #[trigger] idx[j], cs[j], every),
        chunks_sorted(cs),
        0 <= j < cs.len(),
        0 <= m < cs[j].len(),
        filter_contains(bits, kf, cs[j][m].0),
    ensures
        table_get(bits, kf, idx, f, cs[j][m].0) == Some(Some(cs[j][m].1)),
{
    let key = cs[j][m].0;
    assert forall|j2: int| 0 <= j2 < j + 1 implies !lex_lt(key, #[trigger] idx[j2].0) by {
        assert(chunk_stored(f, idx[j2], cs[j2], every));
        assert(lex_le(cs[j2][0].0, cs[j][m].0));
        if cs[j2][0].0 == key {
            crate::bytes::lemma_lex_lt_irreflexive(key);
        } else {
            crate::bytes::lemma_lex_lt_asymmetric(cs[j2][0].0, key);
        }
    }
    if j + 1 < idx.len() {
        assert(chunk_stored(f, idx[j + 1], cs[j + 1], every));
        assert(lex_lt(cs[j][m].0, cs[j + 1][0].0));
    }
    lemma_partition_exact(idx, key, (j + 1) as nat);
    assert(chunk_stored(f, idx[j], cs[j], every));
    lemma_block_round_trip(cs[j], every);
    assert(keys_ascending(cs[j]));
    lemma_find_value(cs[j], key);
    assert(find_value(cs[j], key) == Some(cs[j][m].1));
}

/// A point lookup of a key that no data block holds finds nothing.
#[verifier::rlimit(100)]
proof fn lemma_table_lookup_absent(
    bits: Seq<u8>,
    kf: u32,
    idx: Seq<(Seq<u8>, SstBlockHandle)>,
    f: Seq<u8>,
    cs: Seq<Seq<KeyValue>>,
    every: nat,
    key: Seq<u8>,
)
    requires
        idx.len() == cs.len(),
        forall|j: int| 0 <= j < cs.len() ==> chunk_stored(f, #[trigger] idx[j], cs[j], every),
        chunks_sorted(cs),
        forall|j: int, m: int| 0 <= j < cs.len() && 0 <= m < cs[j].len() ==> cs[j][m].0 != key,
    ensures
        table_get(bits, kf, idx, f, key) == Some(None::<Seq<u8>>),
{
    lemma_partition_bound(idx, key);
    let p = partition(idx, key);
    if filter_contains(bits, kf, key) && p > 0 {
        let j = p - 1;
        assert(chunk_stored(f, idx[j], cs[j], every));
        lemma_block_round_trip(cs[j], every);
        assert(keys_ascending(cs[j]));
        lemma_find_value(cs[j], key);
        assert forall|m: int| 0 <= m < cs[j].len() implies cs[j][m].0 != key by {
        }
        assert(find_value(cs[j], key) is None);
    }
}

/// Point lookups on a finished table, its filter probed as it was built:
/// every entry is found, and keys never added are not found.
proof fn lemma_table_lookups(
    bits: Seq<u8>,
    idx: Seq<(Seq<u8>, SstBlockHandle)>,
    f: Seq<u8>,
    cs: Seq<Seq<KeyValue>>,
    every: nat,
    kf: u32,
)
    requires
        idx.len() == cs.len(),
        forall|j: int| 0 <= j < cs.len() ==> chunk_stored(f, #[trigger] idx[j], cs[j], every),
        chunks_sorted(cs),
        forall|i: int| 0 <= i < flatten(cs).len() ==> filter_contains(bits, kf, #[trigger] flatten(cs)[i].0),
    ensures
        forall|i: int|
            0 <= i < flatten(cs).len() ==> table_get(bits, kf, idx, f, #[trigger] flatten(cs)[i].0) == Some(
                Some(flatten(cs)[i].1),
            ),
        forall|k: Seq<u8>|
            (forall|i: int| 0 <= i < flatten(cs).len() ==> flatten(cs)[i].0 != k) ==> #[trigger] table_get(
                bits,
                kf,
                idx,
                f,
                k,
            ) == Some(None::<Seq<u8>>),
{
    let fl = flatten(cs);
    assert forall|i: int| 0 <= i < fl.len() implies table_get(bits, kf, idx, f, #[trigger] fl[i].0) == Some(Some(fl[i].1)) by {
        let (j, m) = lemma_flatten_locate(cs, i);
        assert(filter_contains(bits, kf, fl[i].0));
        lemma_table_lookup_found(bits, kf, idx, f, cs, every, j, m);
    }
    assert forall|k: Seq<u8>| (forall|i: int| 0 <= i < fl.len() ==> fl[i].0 != k) implies #[trigger] table_get(bits, kf, idx, f, k) == Some(None::<Seq<u8>>) by {
        assert forall|j: int, m: int| 0 <= j < cs.len() && 0 <= m < cs[j].len() implies cs[j][m].0 != k by {
            let i = lemma_flatten_contains(cs, j, m);
            assert(fl[i].0 != k);
        }
        lemma_table_lookup_absent(bits, kf, idx, f, cs, every, k);
    }
}

/// The entries of blocks `start..` not below `from`, block after block.
pub open spec fn chunks_from(cs: Seq<Seq<KeyValue>>, from: Seq<u8>, start: int) -> Seq<KeyValue>
    decreases cs.len() - start,
{
    if start >= cs.len() {
        seq![]
    } else {
        entries_from(cs[start], from) + chunks_from(cs, from, start + 1)
    }
}

/// Filtering the flattened blocks `start..` is filtering each block.
proof fn lemma_chunks_from(cs: Seq<Seq<KeyValue>>, from: Seq<u8>, start: int)
    requires
        0 <= start <= cs.len(),
    ensures
        entries_from(flatten(cs.subrange(start, cs.len() as int)), from) == chunks_from(cs, from, start),
    decreases cs.len() - start,
{
    let s = cs.subrange(start, cs.len() as int);
    if start == cs.len() {
        assert(s =~= Seq::<Seq<KeyValue>>::empty());
    } else {
        lemma_chunks_from(cs, from, start + 1);
        assert(s.drop_first() =~= cs.subrange(start + 1, cs.len() as int));
        assert(s[0] == cs[start]);
        lemma_entries_from_concat(cs[start], flatten(s.drop_first()), from);
    }
}

/// Leading index entries counted by `partition` have first keys not above `key`.
proof fn lemma_partition_prefix_keys(idx: Seq<(Seq<u8>, SstBlockHandle)>, key: Seq<u8>)
    ensures
        forall|j: int| 0 <= j < partition(idx, key) ==> !lex_lt(key, #[trigger] idx[j].0),
    decreases idx.len(),
{
    if idx.len() > 0 && !lex_lt(key, idx[0].0) {
        let t = idx.drop_first();
        lemma_partition_prefix_keys(t, key);
        lemma_partition_bound(t, key);
        assert forall|j: int| 0 <= j < partition(idx, key) implies !lex_lt(key, #[trigger] idx[j].0) by {
            if j > 0 {
                assert(idx[j] == t[j - 1]);
            }
        }
    }
}

/// Blocks before the one where a scan from `from` starts hold only keys below `from`.
proof fn lemma_chunks_from_start(
    idx: Seq<(Seq<u8>, SstBlockHandle)>,
    f: Seq<u8>,
    cs: Seq<Seq<KeyValue>>,
    every: nat,
    from: Seq<u8>,
    start: int,
)
    requires
        idx.len() == cs.len(),
        forall|j: int| 0 <= j < cs.len() ==> chunk_stored(f, #[trigger] idx[j], cs[j], every),
        chunks_sorted(cs),
        0 <= start <= scan_start(idx, from),
    ensures
        chunks_from(cs, from, start) == chunks_from(cs, from, scan_start(idx, from)),
    decreases scan_start(idx, from) - start,
{
    let s = scan_start(idx, from);
    if start < s {
        lemma_chunks_from_start(idx, f, cs, every, from, start + 1);
        lemma_partition_prefix_keys(idx, from);
        lemma_partition_bound(idx, from);
        // Block start + 1 begins at or below `from`; every key of block start is below it.
        assert(!lex_lt(from, idx[start + 1].0));
        assert(chunk_stored(f, idx[start + 1], cs[start + 1], every));
        let first = cs[start + 1][0].0;
        crate::bytes::lemma_lex_lt_total(first, from);
        assert forall|i: int| 0 <= i < cs[start].len() implies lex_lt(#[trigger] cs[start][i].0, from) by {
            assert(lex_lt(cs[start][i].0, first));
            if first != from {
                crate::bytes::lemma_lex_lt_transitive(cs[start][i].0, first, from);
            }
        }
        lemma_entries_from_below(cs[start], from);
        assert(Seq::<KeyValue>::empty() + chunks_from(cs, from, start + 1) =~= chunks_from(cs, from, start + 1));
    }
}

/// Scanning the blocks `start..` of a table with a lower bound visits the
/// entries of those blocks not below it.
#[verifier::spinoff_prover]
#[verifier::rlimit(100)]
proof fn lemma_table_scan_from(idx: Seq<(Seq<u8>, SstBlockHandle)>, f: Seq<u8>, cs: Seq<Seq<KeyValue>>, every: nat, from: Seq<u8>, start: int)
    requires
        0 <= start <= idx.len(),
        idx.len() == cs.len(),
        forall|j: int| 0 <= j < cs.len() ==> chunk_stored(f, #[trigger] idx[j], cs[j], every),
    ensures
        table_entries_from(idx, f, from, start) == Some(chunks_from(cs, from, start)),
    decreases idx.len() - start,
{
    if start < idx.len() {
        lemma_table_scan_from(idx, f, cs, every, from, start + 1);
        assert(chunk_stored(f, idx[start], cs[start], every));
        lemma_block_round_trip(cs[start], every);
    }
}

/// A scan from `from` on a finished table yields the added entries not
/// below `from`, in order.
proof fn lemma_table_iter_from(
    idx: Seq<(Seq<u8>, SstBlockHandle)>,
    f: Seq<u8>,
    cs: Seq<Seq<KeyValue>>,
    every: nat,
    from: Seq<u8>,
)
    requires
        idx.len() == cs.len(),
        forall|j: int| 0 <= j < cs.len() ==> chunk_stored(f, #[trigger] idx[j], cs[j], every),
        chunks_sorted(cs),
    ensures
        table_entries_from(idx, f, from, scan_start(idx, from)) == Some(entries_from(flatten(cs), from)),
{
    lemma_partition_bound(idx, from);
    lemma_table_scan_from(idx, f, cs, every, from, scan_start(idx, from));
    lemma_chunks_from_start(idx, f, cs, every, from, 0);
    lemma_chunks_from(cs, from, 0);
    assert(cs.subrange(0, cs.len() as int) =~= cs);
}

/// The data blocks written before the filter block scan back from the
/// finished file.
proof fn lemma_scan_written(d0: Seq<u8>, f: Seq<u8>, idx: Seq<(Seq<u8>, SstBlockHandle)>, cs: Seq<Seq<KeyValue>>, every: nat)
    requires
        d0.len() <= f.len(),
        f.subrange(0, d0.len() as int) == d0,
        idx.len() == cs.len(),
        forall|j: int| 0 <= j < cs.len() ==> chunk_stored(d0, #[trigger] idx[j], cs[j], every),
    ensures
        table_entries_from(idx, f, seq![], 0) == Some(flatten(cs)),
        forall|j: int| 0 <= j < cs.len() ==> chunk_stored(f, #[trigger] idx[j], cs[j], every),
{
    assert forall|j: int| 0 <= j < cs.len() implies chunk_stored(f, #[trigger] idx[j], cs[j], every) by {
        assert(chunk_stored(d0, idx[j], cs[j], every));
        let h = idx[j].1;
        assert(f.subrange(h.offset as int, h.offset + h.size) =~= d0.subrange(h.offset as int, h.offset + h.size));
    }
    lemma_table_scan(idx, f, cs, every, 0);
    assert(cs.subrange(0, cs.len() as int) =~= cs);
}

/// The most bytes a key and value of one entry may take together.
pub const MAX_ENTRY_LEN: usize = 0xffff_ff00;

impl SstTableWriter {
    /// The entries added so far, in order.
    pub closed spec fn entries(&self) -> Seq<KeyValue> {
        self.entries@
    }

    /// The filter's bits and probe count.
    pub closed spec fn filter(&self) -> SstFilter {
        self.filter
    }

    /// Entries per restart point of the index block.
    pub closed spec fn index_every(&self) -> nat {
        self.options.sst_index_restart_interval as nat
    }

    /// The index as it stands once the current data block is closed.
    pub closed spec fn finished_index(&self) -> Seq<(Seq<u8>, SstBlockHandle)> {
        let b = self.block_writer.entries();
        if b.len() > 0 {
            index_view(self.index@).push(
                (
                    b[0].0,
                    SstBlockHandle {
                        offset: self.data@.len() as u64,
                        size: block_len(b, self.block_writer.restart_every()) as u64,
                    },
                ),
            )
        } else {
            index_view(self.index@)
        }
    }

    pub closed spec fn wf(&self) -> bool {
        &&& self.block_writer.wf()
        &&& self.block_writer.restart_every() == self.options.sst_block_restart_interval
        &&& self.options.sst_index_restart_interval > 0
        &&& self.filter.wf()
        &&& self.filter.bitvec.data@.len() > 0
        &&& (self.block_writer.entries().len() > 0 ==> (self.last_key matches Some(k) && self.block_writer.entries().last().0 == k@))
        &&& (self.entries@.len() == 0 <==> self.last_key is None)
        &&& (self.last_key matches Some(k) ==> k@ == self.entries@.last().0)
        &&& (self.entries@.len() > 0 ==> self.index@.len() > 0 || self.block_writer.entries().len() > 0)
        &&& index_view(self.index@).len() == self.chunks@.len()
        &&& forall|j: int| 0 <= j < self.chunks@.len() ==> chunk_stored(
            self.data@,
            #[trigger] index_view(self.index@)[j],
            self.chunks@[j],
            self.options.sst_block_restart_interval as nat,
        )
        &&& self.entries@ == flatten(self.chunks@) + self.block_writer.entries()
        &&& self.keys_ordered()
        &&& forall|i: int| 0 <= i < self.entries@.len() ==> filter_contains(
            self.filter.bitvec.data@,
            self.filter.num_functions,
            #[trigger] self.entries@[i].0,
        )
    }

    /// The finished blocks and the current one hold their keys in order, none
    /// above the last key added.
    closed spec fn keys_ordered(&self) -> bool {
        let cs = self.chunks@;
        let b = self.block_writer.entries();
        &&& chunks_sorted(cs)
        &&& keys_ascending(b)
        &&& forall|j: int, m: int, i: int|
            0 <= j < cs.len() && 0 <= m < cs[j].len() && 0 <= i < b.len() ==> lex_lt(#[trigger] cs[j][m].0, #[trigger] b[i].0)
        &&& (self.last_key is None ==> cs.len() == 0 && b.len() == 0)
        &&& (self.last_key matches Some(l) ==> {
            &&& forall|j: int, m: int| 0 <= j < cs.len() && 0 <= m < cs[j].len() ==> lex_le(#[trigger] cs[j][m].0, l@)
            &&& forall|i: int| 0 <= i < b.len() ==> lex_le(#[trigger] b[i].0, l@)
        })
    }

    /// A writer with the given options and a filter of `filter_bits` bits
    /// probed `filter_functions` times.
    pub fn new(options: DbOptions, filter_bits: usize, filter_functions: u32) -> (r: Self)
        requires
            options.sst_block_restart_interval > 0,
            options.sst_index_restart_interval > 0,
            0 < filter_bits <= usize::MAX - 7,
        ensures
            r.wf(),
            r.entries() == Seq::<KeyValue>::empty(),
            r.filter().num_functions == filter_functions,
            r.filter().bitvec.data@.len() == (filter_bits + 7) / 8,
    {
        Self {
            data: Vec::new(),
            options,
            block_writer: SstBlockWriter::new(options.sst_block_restart_interval),
            filter: SstFilter::new(filter_bits, filter_functions),
            index: Vec::new(),
            stats: SstStats::default(),
            last_key: None,
            entries: Ghost(Seq::empty()),
            chunks: Ghost(Seq::empty()),
        }
    }

    /// Adds an entry. Keys must ascend strictly and a key and value may take
    /// `MAX_ENTRY_LEN` bytes together; otherwise `Invariant`, and nothing changes.
    pub fn add(&mut self, key: &[u8], value: &[u8]) -> (r: Result<(), StorageError>)
        requires
            old(self).wf(),
        ensures
            final(self).wf(),
            r is Ok == ((old(self).entries().len() == 0 || lex_lt(old(self).entries().last().0, key@))
                && key@.len() + value@.len() <= MAX_ENTRY_LEN),
            r is Ok ==> final(self).entries() == old(self).entries().push((key@, value@)),
            r is Ok ==> filter_added(old(self).filter().bitvec.data@, final(self).filter().bitvec.data@, old(self).filter().num_functions, key@),
            r is Ok ==> final(self).filter().num_functions == old(self).filter().num_functions,
            r is Err ==> r == Err::<(), StorageError>(StorageError::Invariant) && *final(self) == *old(self),
    {
        match &self.last_key {
            Some(lk) => {
                if !bytes_lt(lk.as_slice(), key) {
                    return Err(StorageError::Invariant);
                }
            },
            None => {},
        }
        if key.len() > MAX_ENTRY_LEN || value.len() > MAX_ENTRY_LEN - key.len() {
            return Err(StorageError::Invariant);
        }
        let ghost had_last = self.last_key is Some;
        let ghost prev_last: Seq<u8> = if self.last_key is Some {
            self.last_key.unwrap()@
        } else {
            seq![]
        };
        self.stats.add_entry(key, value);
        if !self.block_writer.is_empty() {
            let cur = self.block_writer.len();
            if cur as u64 + key.len() as u64 + value.len() as u64 + 34 > u32::MAX as u64
                || self.block_writer.estimate_after_append(key, value) > self.options.sst_block_size {
                self.process_block();
            }
        }
        proof {
            self.block_writer.lemma_wf();
            if self.block_writer.entries().len() == 0 {
                assert(block_len(self.block_writer.entries(), self.block_writer.restart_every()) == 8) by {
                    crate::block_format::lemma_u32s_len(crate::block_format::restart_offsets(Seq::<KeyValue>::empty(), self.block_writer.restart_every()));
                    crate::fixedint::lemma_le_bytes_len(1, 4);
                }
            }
        }
        self.block_writer.append(key, value);
        let ghost filter_before = self.filter.bitvec.data@;
        self.filter.add(key);
        self.last_key = Some(copy_range(key, 0, key.len()));
        let ghost old_entries = self.entries@;
        self.entries = Ghost(self.entries@.push((key@, value@)));
        proof {
            assert(self.last_key.unwrap()@ =~= key@);
            assert(self.entries@ =~= flatten(self.chunks@) + self.block_writer.entries());
            let cs = self.chunks@;
            let b = self.block_writer.entries();
            let ob = b.drop_last();
            assert(b == ob.push((key@, value@)));
            // Every earlier key sorts below the new one.
            if had_last {
                assert(lex_lt(prev_last, key@));
                assert forall|x: Seq<u8>| #[trigger] lex_le(x, prev_last) implies lex_lt(x, key@) by {
                    if x != prev_last {
                        crate::bytes::lemma_lex_lt_transitive(x, prev_last, key@);
                    }
                }
            } else {
                assert(cs.len() == 0 && ob.len() == 0);
            }
            assert forall|i: int, j: int| 0 <= i < j < b.len() implies lex_lt(#[trigger] b[i].0, #[trigger] b[j].0) by {
                if j < ob.len() {
                    assert(b[i] == ob[i] && b[j] == ob[j]);
                } else {
                    assert(b[i] == ob[i]);
                    assert(lex_le(ob[i].0, prev_last));
                }
            }
            assert forall|j: int, m: int, i: int|
                0 <= j < cs.len() && 0 <= m < cs[j].len() && 0 <= i < b.len() implies lex_lt(#[trigger] cs[j][m].0, #[trigger] b[i].0) by {
                if i < ob.len() {
                    assert(b[i] == ob[i]);
                } else {
                    assert(lex_le(cs[j][m].0, prev_last));
                }
            }
            assert forall|j: int, m: int| 0 <= j < cs.len() && 0 <= m < cs[j].len() implies lex_le(#[trigger] cs[j][m].0, key@) by {
                assert(lex_le(cs[j][m].0, prev_last));
            }
            assert forall|i: int| 0 <= i < b.len() implies lex_le(#[trigger] b[i].0, key@) by {
                if i < ob.len() {
                    assert(b[i] == ob[i]);
                    assert(lex_le(ob[i].0, prev_last));
                }
            }
            assert forall|i: int| 0 <= i < self.entries@.len() implies filter_contains(
                self.filter.bitvec.data@,
                self.filter.num_functions,
                #[trigger] self.entries@[i].0,
            ) by {
                if i < old_entries.len() {
                    assert(self.entries@[i] == old_entries[i]);
                    crate::filter::lemma_filter_keeps(filter_before, self.filter.bitvec.data@, self.filter.num_functions, key@, old_entries[i].0);
                } else {
                    crate::filter::lemma_filter_keeps(filter_before, self.filter.bitvec.data@, self.filter.num_functions, key@, key@);
                }
            }
        }
        Ok(())
    }

    /// Closes the current data block: its bytes go to the output and its
    /// first key and handle to the index.
    fn process_block(&mut self)
        requires
            old(self).wf(),
            old(self).block_writer.entries().len() > 0,
        ensures
            final(self).wf(),
            final(self).block_writer.entries().len() == 0,
            final(self).entries() == old(self).entries(),
            final(self).filter == old(self).filter,
            final(self).last_key == old(self).last_key,
            final(self).options == old(self).options,
            index_view(final(self).index@) == old(self).finished_index(),
    {
        proof {
            self.block_writer.lemma_wf();
        }
        let ghost every = self.options.sst_block_restart_interval as nat;
        let ghost chunk = self.block_writer.entries();
        let ghost old_data = self.data@;
        let ghost old_idx = index_view(self.index@);
        let mut prev = SstBlockWriter::new(self.options.sst_block_restart_interval);
        std::mem::swap(&mut prev, &mut self.block_writer);
        let (first_key, block) = prev.finalize();
        let handle = SstBlockHandle { offset: self.data.len() as u64, size: block.len() as u64 };
        let ghost e = (first_key@, handle);
        self.index.push((first_key, handle));
        self.stats.add_data_block(block.len());
        extend_from_range(&mut self.data, block.as_slice(), 0, block.len());
        self.chunks = Ghost(self.chunks@.push(chunk));
        proof {
            assert(block@.subrange(0, block@.len() as int) =~= block@);
            assert(index_view(self.index@) =~= old_idx.push(e));
            assert forall|j: int| 0 <= j < self.chunks@.len() implies chunk_stored(
                self.data@,
                #[trigger] index_view(self.index@)[j],
                self.chunks@[j],
                every,
            ) by {
                if j < old_idx.len() {
                    let h = old_idx[j].1;
                    assert(self.data@.subrange(h.offset as int, h.offset + h.size) =~= old_data.subrange(h.offset as int, h.offset + h.size));
                } else {
                    assert(self.data@.subrange(old_data.len() as int, (old_data.len() + block@.len()) as int) =~= block@);
                }
            }
            lemma_flatten_push(old(self).chunks@, chunk);
            assert(self.entries@ =~= flatten(self.chunks@) + self.block_writer.entries());
            lemma_push_chunk_sorted(old(self).chunks@, chunk);
            if self.last_key is Some {
                let l = self.last_key.unwrap()@;
                let cs = self.chunks@;
                assert forall|j: int, m: int| 0 <= j < cs.len() && 0 <= m < cs[j].len() implies lex_le(#[trigger] cs[j][m].0, l) by {
                    if j < old(self).chunks@.len() {
                        assert(cs[j] == old(self).chunks@[j]);
                    } else {
                        assert(cs[j] == chunk);
                    }
                }
            }
        }
    }

    /// Writes the last data block, the filter block, the index block, the
    /// meta-index block and the footer. Returns the table's bytes and the
    /// table opened over them. A writer without entries gives `Invariant`,
    /// as does an index block that would outgrow 32-bit offsets.
    #[verifier::spinoff_prover]
    #[verifier::rlimit(100)]
    pub fn finish(self) -> (r: Result<(Vec<u8>, SstTable), StorageError>)
        requires
            self.wf(),
        ensures
            r is Ok <==> self.entries().len() > 0 && index_fits(self.finished_index(), self.index_every()),
            r matches Ok((f, t)) ==> {
                &&& table_at(f@) == Some((t.filter.bitvec.data@, index_view(t.index@)))
                &&& t.filter == self.filter()
                &&& footer_layout(f@)
                &&& meta_index_layout(f@)
                &&& t.wf()
                &&& table_entries_from(index_view(t.index@), f@, seq![], 0) == Some(self.entries())
                &&& forall|i: int|
                    0 <= i < self.entries().len() ==> table_get(
                        t.filter.bitvec.data@,
                        t.filter.num_functions,
                        index_view(t.index@),
                        f@,
                        #[trigger] self.entries()[i].0,
                    ) == Some(Some(self.entries()[i].1))
                &&& forall|from: Seq<u8>|
                    #[trigger] table_entries_from(index_view(t.index@), f@, from, scan_start(index_view(t.index@), from))
                        == Some(entries_from(self.entries(), from))
                &&& forall|k: Seq<u8>|
                    (forall|i: int| 0 <= i < self.entries().len() ==> self.entries()[i].0 != k) ==> #[trigger] table_get(
                        t.filter.bitvec.data@,
                        t.filter.num_functions,
                        index_view(t.index@),
                        f@,
                        k,
                    ) == Some(None::<Seq<u8>>)
            },
    {
        if self.last_key.is_none() {
            return Err(StorageError::Invariant);
        }
        let mut w = self;
        if !w.block_writer.is_empty() {
            w.process_block();
        }
        proof {
            let idx = index_view(w.index@);
            let cs = w.chunks@;
            let every = w.options.sst_block_restart_interval as nat;
            assert forall|i: int, j: int| 0 <= i < j < idx.len() implies lex_lt(#[trigger] idx[i].0, #[trigger] idx[j].0) by {
                assert(chunk_stored(w.data@, idx[i], cs[i], every));
                assert(chunk_stored(w.data@, idx[j], cs[j], every));
                assert(lex_lt(cs[i][0].0, cs[j][0].0));
            }
        }
        let ghost d0 = w.data@;
        let filter_offset = w.data.len() as u64;
        let filter_len = w.filter.bitvec.data.len();
        extend_from_range(&mut w.data, w.filter.bitvec.data.as_slice(), 0, filter_len);
        let filter_handle = SstBlockHandle { offset: filter_offset, size: filter_len as u64 };
        w.stats.set_filter_size(filter_len);
        let ghost d1 = w.data@;
        let index_block = match index_block(&w.index, w.options.sst_index_restart_interval) {
            Ok(b) => b,
            Err(e) => return Err(e),
        };
        let index_offset = w.data.len() as u64;
        let index_len = index_block.len();
        extend_from_range(&mut w.data, index_block.as_slice(), 0, index_len);
        let index_handle = SstBlockHandle { offset: index_offset, size: index_len as u64 };
        w.stats.set_index_size(index_len);
        let ghost d2 = w.data@;
        let meta_block = match meta_block(filter_handle, index_handle) {
            Ok(b) => b,
            Err(e) => return Err(e),
        };
        let meta_offset = w.data.len() as u64;
        let meta_len = meta_block.len();
        extend_from_range(&mut w.data, meta_block.as_slice(), 0, meta_len);
        let meta_handle = SstBlockHandle { offset: meta_offset, size: meta_len as u64 };
        let ghost d3 = w.data@;
        let footer = footer(meta_handle);
        extend_from_range(&mut w.data, footer.as_slice(), 0, footer.len());
        proof {
            let fb = w.filter.bitvec.data@;
            assert(w.data@ =~= d0 + fb + index_block@ + meta_block@ + footer@);
            lemma_table_layout(w.data@, d0, fb, index_block@, meta_block@, footer@, filter_handle, index_handle, meta_handle, index_view(w.index@));
            assert(w.data@.subrange(0, d0.len() as int) =~= d0);
            lemma_scan_written(d0, w.data@, index_view(w.index@), w.chunks@, w.options.sst_block_restart_interval as nat);
            assert(w.entries@ =~= flatten(w.chunks@));
            lemma_table_lookups(
                w.filter.bitvec.data@,
                index_view(w.index@),
                w.data@,
                w.chunks@,
                w.options.sst_block_restart_interval as nat,
                w.filter.num_functions,
            );
            assert forall|from: Seq<u8>|
                #[trigger] table_entries_from(index_view(w.index@), w.data@, from, scan_start(index_view(w.index@), from))
                    == Some(entries_from(w.entries@, from)) by {
                lemma_table_iter_from(index_view(w.index@), w.data@, w.chunks@, w.options.sst_block_restart_interval as nat, from);
            }
        }
        let table = SstTable::new(w.filter, w.index);
        Ok((w.data, table))
    }
}

/// The meta-index of `f` holds exactly "filter" and "index", with the handles
/// of the filter block and the index block.
pub open spec fn meta_index_layout(f: Seq<u8>) -> bool {
    table_meta_handle(f) matches Some(mh) && block_at(f, mh) matches Some(mb) && block_entries(mb) matches Some(me) && {
        &&& me.len() == 2
        &&& me[0].0 == filter_name()
        &&& me[1].0 == index_name()
        &&& handle_at(me[0].1, 0) is Some
        &&& handle_at(me[1].1, 0) is Some
    }
}

/// The footer of `f`: the magic in its last eight bytes, and before it the
/// meta-index handle, which ends where the footer starts, padded with zeros
/// to 20 bytes.
pub open spec fn footer_layout(f: Seq<u8>) -> bool {
    &&& f.len() >= FOOTER_LEN
    &&& f.subrange(f.len() - 8, f.len() as int) == le_bytes(SST_MAGIC as nat, 8)
    &&& handle_at(f, footer_start(f.len())) matches Some((mh, q)) && {
        &&& mh.offset + mh.size == footer_start(f.len())
        &&& q <= f.len() - 8
        &&& forall|i: int| q <= i < f.len() - 8 ==> f[i] == 0
    }
}

/// A file laid out as data, filter, index block, meta-index block and
/// footer opens to that filter and index.
#[verifier::spinoff_prover]
#[verifier::rlimit(100)]
proof fn lemma_table_layout(
    f: Seq<u8>,
    d0: Seq<u8>,
    fb: Seq<u8>,
    ib: Seq<u8>,
    mb: Seq<u8>,
    ft: Seq<u8>,
    fh: SstBlockHandle,
    ih: SstBlockHandle,
    mh: SstBlockHandle,
    idx: Seq<(Seq<u8>, SstBlockHandle)>,
)
    requires
        f == d0 + fb + ib + mb + ft,
        fh.offset == d0.len() && fh.size == fb.len(),
        ih.offset == d0.len() + fb.len() && ih.size == ib.len(),
        mh.offset == d0.len() + fb.len() + ib.len() && mh.size == mb.len(),
        0 < fb.len(),
        8 * fb.len() <= usize::MAX,
        ft.len() == FOOTER_LEN,
        le_value(ft.subrange(20, 28)) == SST_MAGIC,
        handle_at(ft, 0) is Some,
        handle_at(ft, 0).unwrap().0 == mh,
        handle_at(ft, 0).unwrap().1 <= 20,
        forall|i: int| handle_at(ft, 0).unwrap().1 <= i < 20 ==> ft[i] == 0,
        ft.subrange(20, 28) == le_bytes(SST_MAGIC as nat, 8),
        block_entries(mb) == Some(seq![(filter_name(), handle_bytes(fh)), (index_name(), handle_bytes(ih))]),
        meta_handle_of(block_entries(mb).unwrap(), filter_name()) == Some(fh),
        meta_handle_of(block_entries(mb).unwrap(), index_name()) == Some(ih),
        block_entries(ib) == Some(index_block_entries(idx)),
    ensures
        table_at(f) == Some((fb, idx)),
        footer_layout(f),
        meta_index_layout(f),
{
    assert(f.subrange(f.len() - 8, f.len() as int) =~= ft.subrange(20, 28));
    let base = footer_start(f.len());
    assert forall|i: int| 0 <= i < FOOTER_LEN implies f[base + i] == ft[i] by {
        assert(f.subrange(base as int, f.len() as int)[i] == f[base + i]);
    }
    assert(f.subrange(footer_start(f.len()) as int, f.len() as int) =~= ft);
    lemma_handle_at_shift(f, footer_start(f.len()), ft);
    assert(table_meta_handle(f) == Some(mh));
    assert(f.subrange(mh.offset as int, mh.offset + mh.size) =~= mb);
    assert(block_at(f, mh) == Some(mb));
    assert(f.subrange(fh.offset as int, fh.offset + fh.size) =~= fb);
    assert(block_at(f, fh) == Some(fb));
    assert(f.subrange(ih.offset as int, ih.offset + ih.size) =~= ib);
    assert(block_at(f, ih) == Some(ib));
    lemma_index_handles_round_trip(idx);
    assert(table_parts(f) == Some((fb, index_block_entries(idx))));
    lemma_handle_round_trip(fh, Seq::<u8>::empty());
    lemma_handle_round_trip(ih, Seq::<u8>::empty());
    assert(handle_bytes(fh) + Seq::<u8>::empty() =~= handle_bytes(fh));
    assert(handle_bytes(ih) + Seq::<u8>::empty() =~= handle_bytes(ih));
}

/// Whether an entry of `a` and `b` bytes fits a block of `cur` bytes.
fn entry_fits(cur: usize, a: usize, b: usize) -> (r: bool)
    ensures
        r == (cur + a + b + 34 <= u32::MAX),
{
    let limit: u64 = u32::MAX as u64 - 34;
    cur as u64 <= limit && a as u64 <= limit - cur as u64 && b as u64 <= limit - cur as u64 - a as u64
}

/// First keys of the index ascend strictly.
pub open spec fn first_keys_ascending(idx: Seq<(Seq<u8>, SstBlockHandle)>) -> bool {
    forall|i: int| 0 < i < idx.len() ==> lex_lt(#[trigger] idx[i - 1].0, idx[i].0)
}

proof fn lemma_first_keys_ascending(idx: Seq<(Seq<u8>, SstBlockHandle)>, i: int, j: int)
    requires
        first_keys_ascending(idx),
        0 <= i < j < idx.len(),
    ensures
        lex_lt(idx[i].0, idx[j].0),
    decreases j - i,
{
    assert(lex_lt(idx[j - 1].0, idx[j].0));
    if i < j - 1 {
        lemma_first_keys_ascending(idx, i, j - 1);
        crate::bytes::lemma_lex_lt_transitive(idx[i].0, idx[j - 1].0, idx[j].0);
    }
}

/// Each entry of the index block fits the block's 32-bit offsets when it is added.
pub open spec fn index_fits(idx: Seq<(Seq<u8>, SstBlockHandle)>, every: nat) -> bool {
    forall|i: int|
        0 <= i < idx.len() ==> block_len(index_block_entries(idx.take(i)), every) + (#[trigger] idx[i]).0.len()
            + handle_bytes(idx[i].1).len() + 34 <= u32::MAX
}

/// A block of one entry takes its key and value and at most 38 bytes more.
proof fn lemma_single_entry_len(k: Seq<u8>, v: Seq<u8>, every: nat)
    requires
        k.len() <= u64::MAX,
        v.len() <= u64::MAX,
    ensures
        block_len(seq![(k, v)], every) <= k.len() + v.len() + 38,
{
    let es = seq![(k, v)];
    assert(es.drop_last() =~= Seq::<KeyValue>::empty());
    let rs = crate::block_format::restart_offsets(es, every);
    assert(crate::block_format::restart_offsets(Seq::<KeyValue>::empty(), every) =~= seq![0nat]);
    assert(!crate::block_format::is_restart(0, every));
    assert(rs =~= seq![0nat]);
    assert(crate::block_format::encode_data(Seq::<KeyValue>::empty(), every) =~= Seq::<u8>::empty());
    assert(crate::block_format::encode_data(es, every) =~= crate::block_format::entry_at(es, 0, every));
    crate::block_format::lemma_u32s_len(rs);
    crate::fixedint::lemma_le_bytes_len(1, 4);
    crate::bytes::lemma_common_prefix(Seq::<u8>::empty(), k);
    let sh = crate::block_format::shared_at(es, 0, every);
    assert(sh == 0);
    assert(k.subrange(0, k.len() as int) =~= k);
    crate::varint::lemma_varint_u64_round_trip(0, seq![]);
    crate::varint::lemma_varint_u64_round_trip(k.len() as u64, seq![]);
    crate::varint::lemma_varint_u64_round_trip(v.len() as u64, seq![]);
    assert(varint_encode(0) + Seq::<u8>::empty() =~= varint_encode(0));
    assert(varint_encode(k.len()) + Seq::<u8>::empty() =~= varint_encode(k.len()));
    assert(varint_encode(v.len()) + Seq::<u8>::empty() =~= varint_encode(v.len()));
}

proof fn lemma_handle_bytes_len(h: SstBlockHandle)
    ensures
        handle_bytes(h).len() <= 20,
{
    crate::varint::lemma_varint_u64_round_trip(h.offset, seq![]);
    crate::varint::lemma_varint_u64_round_trip(h.size, seq![]);
    assert(varint_encode(h.offset as nat) + Seq::<u8>::empty() =~= varint_encode(h.offset as nat));
    assert(varint_encode(h.size as nat) + Seq::<u8>::empty() =~= varint_encode(h.size as nat));
}

/// The index block over `index`: each block's first key with its encoded handle.
#[verifier::spinoff_prover]
#[verifier::rlimit(100)]
fn index_block(index: &Vec<(Vec<u8>, SstBlockHandle)>, every: usize) -> (r: Result<Vec<u8>, StorageError>)
    requires
        every > 0,
        first_keys_ascending(index_view(index@)),
    ensures
        r is Ok <==> index@.len() > 0 && index_fits(index_view(index@), every as nat),
        r matches Ok(b) ==> block_entries(b@) == Some(index_block_entries(index_view(index@))),
{
    let mut ib = SstBlockWriter::new(every);
    let ghost idx = index_view(index@);
    let mut i: usize = 0;
    while i < index.len()
        invariant
            i <= index@.len(),
            idx == index_view(index@),
            ib.wf(),
            ib.restart_every() == every,
            ib.entries() == index_block_entries(idx.take(i as int)),
            first_keys_ascending(idx),
            forall|i2: int|
                0 <= i2 < i ==> block_len(index_block_entries(idx.take(i2)), every as nat) + (#[trigger] idx[i2]).0.len()
                    + handle_bytes(idx[i2].1).len() + 34 <= u32::MAX,
        decreases index@.len() - i,
    {
        let v = index[i].1.to_value();
        let k = index[i].0.as_slice();
        proof {
            assert(idx[i as int] == (index@[i as int].0@, index@[i as int].1));
        }
        proof {
            if i > 0 {
                assert(idx[i - 1] == (index@[i - 1].0@, index@[i - 1].1));
                assert(lex_lt(idx[i - 1].0, idx[i as int].0));
            }
        }
        if i > 0 && !bytes_lt(index[i - 1].0.as_slice(), k) {
            return Err(StorageError::Invariant);
        }
        if !entry_fits(ib.len(), k.len(), v.len()) {
            return Err(StorageError::Invariant);
        }
        proof {
            if i > 0 {
                assert(idx[i - 1] == (index@[i - 1].0@, index@[i - 1].1));
                assert(ib.entries().last() == index_block_entries(idx.take(i as int))[i - 1]);
            }
        }
        ib.append(k, v.as_slice());
        proof {
            assert(index_block_entries(idx.take(i + 1)) =~= index_block_entries(idx.take(i as int)).push((k@, v@)));
        }
        i = i + 1;
    }
    proof {
        assert(idx.take(i as int) =~= idx);
        ib.lemma_wf();
        if i > 0 {
            assert(ib.entries().len() > 0);
        }
    }
    if ib.is_empty() {
        return Err(StorageError::Invariant);
    }
    let ghost ie = ib.entries();
    let ghost ie_every = ib.restart_every();
    let (_, block) = ib.finalize();
    proof {
        lemma_block_round_trip(ie, ie_every);
    }
    Ok(block)
}

/// The meta-index block: "filter" and "index" with their handles.
#[verifier::spinoff_prover]
#[verifier::rlimit(100)]
fn meta_block(filter_handle: SstBlockHandle, index_handle: SstBlockHandle) -> (r: Result<Vec<u8>, StorageError>)
    ensures
        r is Ok,
        r matches Ok(b) ==> {
            &&& block_entries(b@) == Some(seq![(filter_name(), handle_bytes(filter_handle)), (index_name(), handle_bytes(index_handle))])
            &&& meta_handle_of(block_entries(b@).unwrap(), filter_name()) == Some(filter_handle)
            &&& meta_handle_of(block_entries(b@).unwrap(), index_name()) == Some(index_handle)
        },
{
    let mut mb = SstBlockWriter::new(usize::MAX);
    let fkey = filter_key();
    let ikey = index_key();
    let fval = filter_handle.to_value();
    let ival = index_handle.to_value();
    proof {
        crate::varint::lemma_varint_u64_round_trip(filter_handle.offset, seq![]);
        crate::varint::lemma_varint_u64_round_trip(filter_handle.size, seq![]);
        crate::varint::lemma_varint_u64_round_trip(index_handle.offset, seq![]);
        crate::varint::lemma_varint_u64_round_trip(index_handle.size, seq![]);
        assert(varint_encode(filter_handle.offset as nat) + Seq::<u8>::empty() =~= varint_encode(filter_handle.offset as nat));
        assert(varint_encode(filter_handle.size as nat) + Seq::<u8>::empty() =~= varint_encode(filter_handle.size as nat));
        assert(varint_encode(index_handle.offset as nat) + Seq::<u8>::empty() =~= varint_encode(index_handle.offset as nat));
        assert(varint_encode(index_handle.size as nat) + Seq::<u8>::empty() =~= varint_encode(index_handle.size as nat));
        mb.lemma_wf();
        lemma_handle_bytes_len(filter_handle);
        lemma_handle_bytes_len(index_handle);
        crate::block_format::lemma_u32s_len(crate::block_format::restart_offsets(Seq::<KeyValue>::empty(), usize::MAX as nat));
        crate::fixedint::lemma_le_bytes_len(1, 4);
        assert(block_len(mb.entries(), mb.restart_every()) == 8);
    }
    if !entry_fits(mb.len(), fkey.len(), fval.len()) {
        return Err(StorageError::Invariant);
    }
    mb.append(fkey.as_slice(), fval.as_slice());
    proof {
        mb.lemma_wf();
        assert(fkey@[0] == 102u8);
        assert(ikey@[0] == 105u8);
        crate::bytes::lemma_common_prefix(fkey@, ikey@);
        assert(lex_lt(fkey@, ikey@));
        assert(mb.entries() =~= seq![(fkey@, fval@)]);
        lemma_single_entry_len(fkey@, fval@, usize::MAX as nat);
    }
    if !entry_fits(mb.len(), ikey.len(), ival.len()) {
        return Err(StorageError::Invariant);
    }
    mb.append(ikey.as_slice(), ival.as_slice());
    proof {
        mb.lemma_wf();
    }
    let ghost me = mb.entries();
    let ghost every = mb.restart_every();
    let (_, block) = mb.finalize();
    proof {
        lemma_block_round_trip(me, every);
        assert(me =~= seq![(filter_name(), handle_bytes(filter_handle)), (index_name(), handle_bytes(index_handle))]);
        assert(me[0].0 != index_name()) by {
            assert(me[0].0[0] != index_name()[0]);
        }
        assert(me.drop_first()[0] == me[1]);
        lemma_handle_round_trip(filter_handle, Seq::<u8>::empty());
        lemma_handle_round_trip(index_handle, Seq::<u8>::empty());
        assert(handle_bytes(filter_handle) + Seq::<u8>::empty() =~= handle_bytes(filter_handle));
        assert(handle_bytes(index_handle) + Seq::<u8>::empty() =~= handle_bytes(index_handle));
        assert(find_value(me, filter_name()) == Some(handle_bytes(filter_handle)));
        assert(find_value(me.drop_first(), index_name()) == Some(handle_bytes(index_handle)));
        assert(find_value(me, index_name()) == Some(handle_bytes(index_handle)));
        assert(meta_handle_of(me, filter_name()) == Some(filter_handle));
        assert(meta_handle_of(me, index_name()) == Some(index_handle));
    }
    Ok(block)
}

/// The footer: the meta-index handle, zeros up to 20 bytes, then the magic.
fn footer(meta_handle: SstBlockHandle) -> (r: Vec<u8>)
    ensures
        r@.len() == FOOTER_LEN,
        le_value(r@.subrange(20, 28)) == SST_MAGIC,
        r@.subrange(20, 28) == le_bytes(SST_MAGIC as nat, 8),
        handle_at(r@, 0) is Some,
        handle_at(r@, 0).unwrap().0 == meta_handle,
        handle_at(r@, 0).unwrap().1 <= 20,
        forall|i: int| handle_at(r@, 0).unwrap().1 <= i < 20 ==> r@[i] == 0,
{
    let mut footer: Vec<u8> = Vec::new();
    meta_handle.write(&mut footer);
    proof {
        crate::varint::lemma_varint_u64_round_trip(meta_handle.offset, seq![]);
        crate::varint::lemma_varint_u64_round_trip(meta_handle.size, seq![]);
        assert(varint_encode(meta_handle.offset as nat) + Seq::<u8>::empty() =~= varint_encode(meta_handle.offset as nat));
        assert(varint_encode(meta_handle.size as nat) + Seq::<u8>::empty() =~= varint_encode(meta_handle.size as nat));
    }
    let ghost hb = footer@;
    proof {
        lemma_handle_bytes_len(meta_handle);
    }
    while footer.len() < 20
        invariant
            hb.len() <= footer@.len() <= 20,
            footer@.subrange(0, hb.len() as int) == hb,
            forall|i: int| hb.len() <= i < footer@.len() ==> footer@[i] == 0,
        decreases 20 - footer@.len(),
    {
        footer.push(0u8);
        assert(footer@.subrange(0, hb.len() as int) =~= hb);
    }
    let ghost padded = footer@;
    write_fixed_u64(SST_MAGIC, &mut footer);
    proof {
        reveal_with_fuel(crate::fixedint::pow256, 9);
        crate::fixedint::lemma_le_round_trip(SST_MAGIC as nat, 8);
        assert(footer@.subrange(20, 28) =~= le_bytes(SST_MAGIC as nat, 8));
        let rest = footer@.subrange(hb.len() as int, footer@.len() as int);
        assert(footer@ =~= hb + rest);
        lemma_handle_round_trip(meta_handle, rest);
        assert forall|i: int| hb.len() <= i < 20 implies footer@[i] == padded[i] by {
        }
    }
    footer
}

/// Reading a handle at position `p` of `d` looks only at the bytes from `p`.
proof fn lemma_handle_at_shift(d: Seq<u8>, p: nat, s: Seq<u8>)
    requires
        p <= d.len(),
        d.subrange(p as int, d.len() as int) == s,
        handle_at(s, 0) is Some,
    ensures
        handle_at(d, p) == match handle_at(s, 0) {
            Some((h, n)) => Some((h, p + n)),
            None => None::<(SstBlockHandle, nat)>,
        },
{
    let (o, n1) = crate::manifest::u64_at(s, 0).unwrap();
    assert(s.subrange(0, s.len() as int) =~= s);
    crate::varint::lemma_varint_decode_bounds(s);
    assert(d.subrange((p + n1) as int, d.len() as int) =~= s.subrange(n1 as int, s.len() as int));
}

} // verus!
