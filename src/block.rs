//! Writing and reading the data blocks of sorted tables.
use vstd::prelude::*;

use crate::block_format::{
    block_data, block_entries, block_image, block_layout_ok, block_restart_count, block_restarts,
    data_end, entries_from, decode_entries, encode_data, restart_key, seek, seek_entries,
    entries_fit, entry_at, find_value, is_restart, last_key, lemma_encode_data_len, lemma_u32s_len,
    parse_entry, prev_key, restart_offsets, shared_at, stored_restart, u32s_bytes, KeyValue,
};
use crate::bytes::{
    bytes_eq, bytes_lt, common_prefix_len, copy_range, extend_from_range, lex_lt,
    slice_shared_offset,
};
use crate::error::StorageError;
use crate::fixedint::{
    lemma_le_bytes_len, lemma_le_value_bound, pow256, read_fixed_u32, write_fixed_u32,
};
use crate::varint::{
    len_varint_usize, lemma_varint_u64_round_trip, read_varint_u64, varint_encode,
    write_varint_usize,
};

verus! {

/// Builds one data block from entries given in ascending key order.
pub struct SstBlockWriter {
    restart_every: usize,
    buffer: Vec<u8>,
    restarts: Vec<u32>,
    estimate: usize,
    counter: usize,
    first_key: Option<Vec<u8>>,
    last_key: Vec<u8>,
    entries: Ghost<Seq<KeyValue>>,
}

/// The byte length of a finalized block holding `es`.
pub open spec fn block_len(es: Seq<KeyValue>, every: nat) -> nat {
    block_image(es, every).len()
}

impl SstBlockWriter {
    /// The entries appended so far, in order.
    pub closed spec fn entries(&self) -> Seq<KeyValue> {
        self.entries@
    }

    /// Every how many entries a restart point is placed.
    pub closed spec fn restart_every(&self) -> nat {
        self.restart_every as nat
    }

    pub closed spec fn wf(&self) -> bool {
        let es = self.entries@;
        let every = self.restart_every as nat;
        let rs = restart_offsets(es, every);
        &&& self.restart_every > 0
        &&& entries_fit(es)
        &&& self.buffer@ == encode_data(es, every)
        &&& self.restarts@.len() == rs.len()
        &&& forall|j: int| 0 <= j < rs.len() ==> #[trigger] self.restarts@[j] as nat == rs[j]
        &&& self.estimate == self.buffer@.len() + 4 * rs.len() + 4
        &&& self.estimate <= u32::MAX
        &&& self.counter == (if es.len() == 0 {
            0
        } else {
            ((es.len() - 1) as nat % every) + 1
        })
        &&& self.last_key@ == last_key(es, seq![])
        &&& (es.len() == 0 <==> self.first_key is None)
        &&& (self.first_key matches Some(k) ==> k@ == es[0].0)
    }

    /// A writer that places a restart point every `restart_every` entries.
    pub fn new(restart_every: usize) -> (r: Self)
        requires
            restart_every > 0,
        ensures
            r.wf(),
            r.entries() == Seq::<KeyValue>::empty(),
            r.restart_every() == restart_every,
            block_len(r.entries(), r.restart_every()) == 8,
    {
        let mut restarts: Vec<u32> = Vec::new();
        restarts.push(0);
        let r = Self {
            restart_every,
            buffer: Vec::new(),
            restarts,
            estimate: 8,
            counter: 0,
            first_key: None,
            last_key: Vec::new(),
            entries: Ghost(Seq::empty()),
        };
        proof {
            r.lemma_estimate();
        }
        r
    }

    proof fn lemma_estimate(&self)
        requires
            self.wf(),
        ensures
            self.estimate == block_len(self.entries(), self.restart_every()),
    {
        let rs = restart_offsets(self.entries@, self.restart_every as nat);
        lemma_u32s_len(rs);
        lemma_le_bytes_len(rs.len(), 4);
    }

    /// What a well-formed writer guarantees of its entries.
    pub proof fn lemma_wf(&self)
        requires
            self.wf(),
        ensures
            entries_fit(self.entries()),
            block_len(self.entries(), self.restart_every()) <= u32::MAX,
            self.restart_every() > 0,
    {
        self.lemma_estimate();
    }

    /// The length the block would have if finalized now.
    pub fn len(&self) -> (r: usize)
        requires
            self.wf(),
        ensures
            r == block_len(self.entries(), self.restart_every()),
            r <= u32::MAX,
    {
        proof {
            self.lemma_estimate();
        }
        self.estimate
    }

    /// Whether no entry has been appended.
    pub fn is_empty(&self) -> (r: bool)
        requires
            self.wf(),
        ensures
            r == (self.entries().len() == 0),
    {
        proof {
            lemma_encode_data_len(self.entries@, self.restart_every as nat);
        }
        self.buffer.len() == 0
    }

    /// The length the finalized block would have after appending `key` and
    /// `value`.
    pub fn estimate_after_append(&self, key: &[u8], value: &[u8]) -> (r: usize)
        requires
            self.wf(),
            block_len(self.entries(), self.restart_every()) + key@.len() + value@.len() + 34 <= u32::MAX,
        ensures
            r == block_len(self.entries().push((key@, value@)), self.restart_every()),
    {
        proof {
            self.lemma_estimate();
        }
        let restart = self.counter >= self.restart_every;
        let shared: usize = if restart {
            0
        } else {
            slice_shared_offset(self.last_key.as_slice(), key)
        };
        proof {
            crate::bytes::lemma_common_prefix(self.last_key@, key@);
        }
        let non_shared = key.len() - shared;
        let mut estimate = self.estimate;
        if restart {
            estimate = estimate + 4;
        }
        estimate = estimate + len_varint_usize(shared) + len_varint_usize(non_shared) + len_varint_usize(
            value.len(),
        );
        estimate = estimate + non_shared + value.len();
        proof {
            let es = self.entries@;
            let every = self.restart_every as nat;
            let es2 = es.push((key@, value@));
            self.lemma_restart_step(key@, value@);
            let rs2 = restart_offsets(es2, every);
            lemma_u32s_len(rs2);
            lemma_le_bytes_len(rs2.len(), 4);
            assert(es2.drop_last() =~= es);
        }
        estimate
    }

    proof fn lemma_restart_step(&self, key: Seq<u8>, value: Seq<u8>)
        requires
            self.wf(),
        ensures
            ({
                let es = self.entries@;
                let every = self.restart_every as nat;
                let es2 = es.push((key, value));
                &&& (self.counter >= self.restart_every) == is_restart(es.len(), every)
                &&& shared_at(es2, es.len() as int, every) == (if self.counter >= self.restart_every {
                    0
                } else {
                    common_prefix_len(self.last_key@, key)
                })
                &&& restart_offsets(es2, every) == (if self.counter >= self.restart_every {
                    restart_offsets(es, every).push(encode_data(es, every).len())
                } else {
                    restart_offsets(es, every)
                })
                &&& encode_data(es2, every) == encode_data(es, every) + entry_at(es2, es.len() as int, every)
                &&& (if is_restart(es.len(), every) {
                    0
                } else {
                    self.counter
                }) + 1 == (es.len() % every) + 1
            }),
    {
        let es = self.entries@;
        let every = self.restart_every as nat;
        let n = es.len();
        let es2 = es.push((key, value));
        assert(es2.drop_last() =~= es);
        if n > 0 {
            let q = ((n - 1) as nat / every) as int;
            let r = ((n - 1) as nat % every) as int;
            vstd::arithmetic::div_mod::lemma_fundamental_div_mod((n - 1) as int, every as int);
            if r + 1 == every {
                assert(n == (q + 1) * every + 0) by (nonlinear_arith)
                    requires
                        n - 1 == every * q + r,
                        r + 1 == every,
                ;
                vstd::arithmetic::div_mod::lemma_fundamental_div_mod_converse_mod(
                    n as int,
                    every as int,
                    q + 1,
                    0,
                );
            } else {
                assert(n == q * every + (r + 1)) by (nonlinear_arith)
                    requires
                        n - 1 == every * q + r,
                ;
                vstd::arithmetic::div_mod::lemma_fundamental_div_mod_converse_mod(
                    n as int,
                    every as int,
                    q,
                    r + 1,
                );
            }
        } else {
            assert(0nat % every == 0);
        }
        assert(prev_key(es2, n as int) == last_key(es, seq![]));
    }

    /// Appends an entry whose key sorts after every key appended before.
    #[verifier::rlimit(100)]
    pub fn append(&mut self, key: &[u8], value: &[u8])
        requires
            old(self).wf(),
            old(self).entries().len() == 0 || lex_lt(old(self).entries().last().0, key@),
            block_len(old(self).entries(), old(self).restart_every()) + key@.len() + value@.len() + 34
                <= u32::MAX,
        ensures
            final(self).wf(),
            final(self).entries() == old(self).entries().push((key@, value@)),
            final(self).restart_every() == old(self).restart_every(),
    {
        proof {
            self.lemma_estimate();
            self.lemma_restart_step(key@, value@);
            crate::bytes::lemma_common_prefix(self.last_key@, key@);
            lemma_varint_u64_round_trip(key@.len() as u64, seq![]);
            lemma_varint_u64_round_trip(value@.len() as u64, seq![]);
        }
        let ghost es = self.entries@;
        let ghost every = self.restart_every as nat;
        let ghost es2 = es.push((key@, value@));
        if self.first_key.is_none() {
            self.first_key = Some(copy_range(key, 0, key.len()));
        }
        let restart = self.counter >= self.restart_every;
        let shared: usize = if restart {
            self.restarts.push(self.buffer.len() as u32);
            self.estimate = self.estimate + 4;
            self.counter = 0;
            0
        } else {
            slice_shared_offset(self.last_key.as_slice(), key)
        };
        self.last_key = copy_range(key, 0, key.len());
        let non_shared = key.len() - shared;
        let curr_size = self.buffer.len();
        proof {
            lemma_varint_u64_round_trip(shared as u64, seq![]);
            lemma_varint_u64_round_trip(non_shared as u64, seq![]);
            assert(varint_encode(shared as nat) + seq![] =~= varint_encode(shared as nat));
            assert(varint_encode(non_shared as nat) + seq![] =~= varint_encode(non_shared as nat));
            assert(varint_encode(key@.len()) + seq![] =~= varint_encode(key@.len()));
            assert(varint_encode(value@.len()) + seq![] =~= varint_encode(value@.len()));
        }
        write_varint_usize(shared, &mut self.buffer);
        write_varint_usize(non_shared, &mut self.buffer);
        write_varint_usize(value.len(), &mut self.buffer);
        extend_from_range(&mut self.buffer, key, shared, key.len());
        extend_from_range(&mut self.buffer, value, 0, value.len());
        self.counter = self.counter + 1;
        self.estimate = self.estimate + (self.buffer.len() - curr_size);
        self.entries = Ghost(es2);
        proof {
            assert(value@.subrange(0, value@.len() as int) =~= value@);
            assert(es2[es.len() as int] == (key@, value@));
            assert(self.buffer@ =~= encode_data(es2, every));
            let rs2 = restart_offsets(es2, every);
            assert forall|j: int| 0 <= j < rs2.len() implies #[trigger] self.restarts@[j] as nat == rs2[j] by {
                if j < restart_offsets(es, every).len() {
                } else {
                }
            }
            assert forall|i: int| 0 <= i < es2.len() implies #[trigger] es2[i].0.len() <= u64::MAX
                && es2[i].1.len() <= u64::MAX by {
                if i < es.len() {
                    assert(es2[i] == es[i]);
                }
            }
            assert(self.last_key@ == last_key(es2, seq![]));
            if es.len() > 0 {
                assert(es2[0] == es[0]);
            }
        }
    }

    /// The block's first key and its bytes: entries, the restart offsets as
    /// little-endian `u32`s, then their number.
    pub fn finalize(self) -> (r: (Vec<u8>, Vec<u8>))
        requires
            self.wf(),
            self.entries().len() > 0,
        ensures
            r.0@ == self.entries()[0].0,
            r.1@ == block_image(self.entries(), self.restart_every()),
    {
        proof {
            self.lemma_estimate();
        }
        let ghost es = self.entries@;
        let ghost every = self.restart_every as nat;
        let ghost rs = restart_offsets(es, every);
        let mut buffer = self.buffer;
        let restarts = self.restarts;
        let mut j: usize = 0;
        proof {
            assert(rs.take(0) =~= Seq::<nat>::empty());
        }
        while j < restarts.len()
            invariant
                j <= restarts@.len(),
                restarts@.len() == rs.len(),
                forall|i: int| 0 <= i < rs.len() ==> #[trigger] restarts@[i] as nat == rs[i],
                buffer@ == encode_data(es, every) + u32s_bytes(rs.take(j as int)),
            decreases restarts@.len() - j,
        {
            write_fixed_u32(restarts[j], &mut buffer);
            proof {
                assert(rs.take(j + 1).drop_last() =~= rs.take(j as int));
                assert(restarts@[j as int] as nat == rs[j as int]);
            }
            j = j + 1;
        }
        proof {
            assert(rs.take(rs.len() as int) =~= rs);
        }
        write_fixed_u32(restarts.len() as u32, &mut buffer);
        match self.first_key {
            Some(k) => (k, buffer),
            None => (Vec::new(), buffer),
        }
    }
}

} // verus!

verus! {

/// The keys and values held by a vector of pairs.
pub open spec fn pairs_view(v: Seq<(Vec<u8>, Vec<u8>)>) -> Seq<KeyValue> {
    v.map_values(|p: (Vec<u8>, Vec<u8>)| (p.0@, p.1@))
}

/// The value held by an optional vector.
pub open spec fn opt_view(o: Option<Vec<u8>>) -> Option<Seq<u8>> {
    match o {
        Some(v) => Some(v@),
        None => None,
    }
}

/// Reads the header of the entry at `pos`: its shared length, where its
/// unshared key bytes start, and the lengths of those bytes and of the value.
fn read_entry(data: &[u8], pos: usize) -> (r: Result<(u64, usize, usize, usize), StorageError>)
    requires
        pos <= data@.len(),
    ensures
        match parse_entry(data@.subrange(pos as int, data@.len() as int)) {
            Some((sh, suffix, value, n)) => r matches Ok((rsh, h, ns, vl)) && {
                &&& rsh == sh
                &&& h + ns + vl == pos + n
                &&& h + ns + vl <= data@.len()
                &&& data@.subrange(h as int, h + ns) == suffix
                &&& data@.subrange(h + ns, h + ns + vl) == value
            },
            None => r == Err::<(u64, usize, usize, usize), StorageError>(StorageError::Corrupt),
        },
{
    let ghost s = data@.subrange(pos as int, data@.len() as int);
    let mut p = pos;
    let sh = match read_varint_u64(data, &mut p) {
        Ok(v) => v,
        Err(e) => return Err(e),
    };
    proof {
        assert(data@.subrange(p as int, data@.len() as int) =~= s.subrange((p - pos) as int, s.len() as int));
    }
    let ns = match read_varint_u64(data, &mut p) {
        Ok(v) => v,
        Err(e) => return Err(e),
    };
    proof {
        assert(data@.subrange(p as int, data@.len() as int) =~= s.subrange((p - pos) as int, s.len() as int));
    }
    let vl = match read_varint_u64(data, &mut p) {
        Ok(v) => v,
        Err(e) => return Err(e),
    };
    let rem = data.len() - p;
    if ns > rem as u64 || vl > rem as u64 - ns {
        return Err(StorageError::Corrupt);
    }
    proof {
        let h = (p - pos) as int;
        assert(data@.subrange(p as int, p + ns) =~= s.subrange(h, h + ns));
        assert(data@.subrange(p + ns, p + ns + vl) =~= s.subrange(h + ns, h + ns + vl));
    }
    Ok((sh, p, ns as usize, vl as usize))
}

/// Reads a finalized data block.
pub struct SstBlockReader {
    block: Vec<u8>,
    restarts: Vec<u32>,
}

impl SstBlockReader {
    /// The entry region: the block without its restart array and count.
    pub closed spec fn data(&self) -> Seq<u8> {
        self.block@.subrange(0, self.block@.len() - 4 * self.restarts@.len())
    }

    /// The restart offsets, the implicit first one included.
    pub closed spec fn restart_offsets(&self) -> Seq<nat> {
        self.restarts@.map_values(|r: u32| r as nat)
    }

    pub closed spec fn wf(&self) -> bool {
        &&& self.restarts@.len() >= 1
        &&& 4 * self.restarts@.len() <= self.block@.len()
        &&& forall|j: int| 0 <= j < self.restarts@.len() ==> #[trigger] self.restarts@[j] <= self.data().len()
    }

    /// The block's entries, where they decode.
    pub open spec fn decoded(&self) -> Option<Seq<KeyValue>> {
        decode_entries(self.data(), seq![])
    }

    /// Parses the restart count and the restart array of `block`.
    pub fn new(block: Vec<u8>) -> (r: Result<Self, StorageError>)
        ensures
            r is Ok == block_layout_ok(block@),
            r matches Ok(rd) ==> {
                &&& rd.wf()
                &&& rd.data() == block_data(block@)
                &&& rd.decoded() == block_entries(block@)
                &&& rd.restart_offsets() == block_restarts(block@, block_restart_count(block@).unwrap())
            },
            r matches Err(e) ==> e == StorageError::Corrupt,
    {
        let len = block.len();
        if len < 4 {
            return Err(StorageError::Corrupt);
        }
        let mut pos = len - 4;
        let count = match read_fixed_u32(block.as_slice(), &mut pos) {
            Ok(c) => c,
            Err(e) => return Err(e),
        };
        proof {
            lemma_le_value_bound(block@.subrange(len - 4, len as int));
            reveal_with_fuel(pow256, 5);
        }
        if (count as u64 + 1) * 4 > len as u64 {
            return Err(StorageError::Corrupt);
        }
        let ghost c = count as nat;
        let base = len - 4 * (count as usize + 1);
        let mut restarts: Vec<u32> = Vec::new();
        restarts.push(0);
        let mut j: usize = 0;
        while j < count as usize
            invariant
                block@.len() == len,
                base == data_end(block@, c),
                block_restart_count(block@) == Some(c),
                c == count,
                j <= c,
                restarts@.len() == j + 1,
                restarts@[0] == 0,
                forall|i: int| 0 <= i < j ==> #[trigger] restarts@[i + 1] as nat == stored_restart(block@, c, i),
                forall|i: int| 0 <= i < j ==> stored_restart(block@, c, i) < data_end(block@, c),
            decreases c - j,
        {
            let mut p = base + 4 * j;
            let off = match read_fixed_u32(block.as_slice(), &mut p) {
                Ok(v) => v,
                Err(e) => return Err(e),
            };
            proof {
                lemma_le_value_bound(block@.subrange(base + 4 * j, base + 4 * j + 4));
                reveal_with_fuel(pow256, 5);
                assert(off as nat == stored_restart(block@, c, j as int));
            }
            if off as usize >= base {
                return Err(StorageError::Corrupt);
            }
            let ghost before = restarts@;
            restarts.push(off);
            proof {
                assert forall|i: int| 0 <= i < j + 1 implies #[trigger] restarts@[i + 1] as nat == stored_restart(block@, c, i) by {
                    if i < j {
                        assert(restarts@[i + 1] == before[i + 1]);
                    }
                }
            }
            j = j + 1;
        }
        let r = Self { block, restarts };
        proof {
            assert(r.data().len() == base);
            assert forall|j: int| 0 <= j < r.restarts@.len() implies #[trigger] r.restarts@[j] <= r.data().len() by {
                if j > 0 {
                    let k = j - 1;
                    assert(r.restarts@[k + 1] as nat == stored_restart(r.block@, c, k));
                }
            }
            assert(block_layout_ok(r.block@));
            assert forall|i: int| 0 <= i < c + 1 implies r.restart_offsets()[i] == block_restarts(r.block@, c)[i] by {
                if i > 0 {
                    let k = i - 1;
                    assert(r.restarts@[k + 1] as nat == stored_restart(r.block@, c, k));
                }
            }
            assert(r.restart_offsets() =~= block_restarts(r.block@, c));
        }
        Ok(r)
    }

    /// The entries of the block, in order.
    pub fn iter(&self) -> (r: Result<Vec<(Vec<u8>, Vec<u8>)>, StorageError>)
        requires
            self.wf(),
        ensures
            match self.decoded() {
                Some(es) => r matches Ok(v) && pairs_view(v@) == es,
                None => r == Err::<Vec<(Vec<u8>, Vec<u8>)>, StorageError>(StorageError::Corrupt),
            },
    {
        assert(self.data().subrange(0, self.data().len() as int) =~= self.data());
        self.decode_from(0)
    }

    /// The entries decoded from offset `start` of the entry region, the
    /// first of them sharing nothing with a previous key.
    fn decode_from(&self, start: usize) -> (r: Result<Vec<(Vec<u8>, Vec<u8>)>, StorageError>)
        requires
            self.wf(),
            start <= self.data().len(),
        ensures
            match decode_entries(self.data().subrange(start as int, self.data().len() as int), seq![]) {
                Some(es) => r matches Ok(v) && pairs_view(v@) == es,
                None => r == Err::<Vec<(Vec<u8>, Vec<u8>)>, StorageError>(StorageError::Corrupt),
            },
    {
        let data_len = self.block.len() - 4 * self.restarts.len();
        let data = vstd::slice::slice_subrange(self.block.as_slice(), 0, data_len);
        assert(data@ == self.data());
        let ghost d0 = data@.subrange(start as int, data@.len() as int);
        let mut pos: usize = start;
        let mut key: Vec<u8> = Vec::new();
        let mut out: Vec<(Vec<u8>, Vec<u8>)> = Vec::new();
        proof {
            assert(pairs_view(out@) =~= Seq::<KeyValue>::empty());
            match decode_entries(d0, seq![]) {
                Some(rest) => {
                    assert(pairs_view(out@) + rest =~= rest);
                },
                None => {},
            }
            assert(key@ =~= Seq::<u8>::empty());
        }
        while pos < data.len()
            invariant
                start <= pos <= data@.len(),
                data@ == self.data(),
                d0 == data@.subrange(start as int, data@.len() as int),
                decode_entries(d0, seq![]) == match decode_entries(data@.subrange(pos as int, data@.len() as int), key@) {
                    Some(rest) => Some(pairs_view(out@) + rest),
                    None => None::<Seq<KeyValue>>,
                },
            decreases data@.len() - pos,
        {
            let ghost s = data@.subrange(pos as int, data@.len() as int);
            let (sh, h, ns, vl) = match read_entry(data, pos) {
                Ok(e) => e,
                Err(e) => return Err(e),
            };
            if sh > key.len() as u64 {
                return Err(StorageError::Corrupt);
            }
            let ghost old_key = key@;
            key.truncate(sh as usize);
            extend_from_range(&mut key, data, h, h + ns);
            let value = copy_range(data, h + ns, h + ns + vl);
            let k = copy_range(key.as_slice(), 0, key.len());
            let ghost before = out@;
            out.push((k, value));
            proof {
                let n = (h + ns + vl - pos) as int;
                assert(key@ =~= old_key.subrange(0, sh as int) + data@.subrange(h as int, h + ns));
                assert(k@ =~= key@);
                assert(s.subrange(n, s.len() as int) =~= data@.subrange(h + ns + vl, data@.len() as int));
                assert(pairs_view(out@) =~= pairs_view(before) + seq![(key@, value@)]);
                match decode_entries(data@.subrange(h + ns + vl, data@.len() as int), key@) {
                    Some(rest) => {
                        assert(pairs_view(before) + (seq![(key@, value@)] + rest) =~= pairs_view(out@) + rest);
                    },
                    None => {},
                }
            }
            pos = h + ns + vl;
        }
        proof {
            assert(data@.subrange(pos as int, data@.len() as int) =~= Seq::<u8>::empty());
            assert(pairs_view(out@) + Seq::<KeyValue>::empty() =~= pairs_view(out@));
        }
        Ok(out)
    }

    /// The key stored whole at restart `j`.
    fn restart_key_at(&self, j: usize) -> (r: Result<Vec<u8>, StorageError>)
        requires
            self.wf(),
            j < self.restart_offsets().len(),
        ensures
            match restart_key(self.data(), self.restart_offsets()[j as int]) {
                Some(k) => r matches Ok(v) && v@ == k,
                None => r == Err::<Vec<u8>, StorageError>(StorageError::Corrupt),
            },
    {
        let data_len = self.block.len() - 4 * self.restarts.len();
        let data = vstd::slice::slice_subrange(self.block.as_slice(), 0, data_len);
        assert(data@ == self.data());
        let off = self.restarts[j] as usize;
        assert(off as nat == self.restart_offsets()[j as int]);
        if off > data.len() {
            return Err(StorageError::Corrupt);
        }
        let (sh, h, ns, _) = match read_entry(data, off) {
            Ok(e) => e,
            Err(e) => return Err(e),
        };
        if sh != 0 {
            return Err(StorageError::Corrupt);
        }
        Ok(copy_range(data, h, h + ns))
    }

    /// The restart a scan for keys from `from` starts at, by bisecting the
    /// restart array.
    fn seek_restart(&self, from: &[u8]) -> (r: Result<usize, StorageError>)
        requires
            self.wf(),
        ensures
            match seek(self.data(), self.restart_offsets(), from@, 0, self.restart_offsets().len()) {
                Some(i) => r matches Ok(j) && j as nat == i && i < self.restart_offsets().len(),
                None => r == Err::<usize, StorageError>(StorageError::Corrupt),
            },
    {
        let ghost d = self.data();
        let ghost rs = self.restart_offsets();
        let mut lo: usize = 0;
        let mut hi: usize = self.restarts.len();
        while lo + 1 < hi
            invariant
                self.wf(),
                d == self.data(),
                rs == self.restart_offsets(),
                lo < hi <= rs.len(),
                seek(d, rs, from@, 0, rs.len()) == seek(d, rs, from@, lo as nat, hi as nat),
            decreases hi - lo,
        {
            let mid = lo + (hi - lo) / 2;
            assert(mid == (lo + hi) / 2);
            let k = match self.restart_key_at(mid) {
                Ok(k) => k,
                Err(e) => return Err(e),
            };
            if bytes_lt(from, k.as_slice()) {
                hi = mid;
            } else {
                lo = mid;
            }
        }
        Ok(lo)
    }

    /// The entries whose key is not below `from`, in order: bisects the
    /// restart array for the last restart whose key is not above `from`, then
    /// scans forward from there.
    pub fn iter_from(&self, from: &[u8]) -> (r: Result<Vec<(Vec<u8>, Vec<u8>)>, StorageError>)
        requires
            self.wf(),
        ensures
            match seek_entries(self.data(), self.restart_offsets(), from@) {
                Some(es) => r matches Ok(v) && pairs_view(v@) == es,
                None => r == Err::<Vec<(Vec<u8>, Vec<u8>)>, StorageError>(StorageError::Corrupt),
            },
    {
        let ghost rs = self.restart_offsets();
        let ghost d = self.data();
        let i = match self.seek_restart(from) {
            Ok(i) => i,
            Err(e) => return Err(e),
        };
        let off = self.restarts[i] as usize;
        proof {
            assert(seek(d, rs, from@, 0, rs.len()) == Some(i as nat));
            assert(off as nat == rs[i as int]);
            assert(rs[i as int] <= d.len());
        }
        let all = match self.decode_from(off) {
            Ok(v) => v,
            Err(e) => return Err(e),
        };
        Ok(filter_from(all, from))
    }

    /// The value stored with `key`: the first entry a seek for `key` yields,
    /// where its key is `key`.
    pub fn get(&self, key: &[u8]) -> (r: Result<Option<Vec<u8>>, StorageError>)
        requires
            self.wf(),
        ensures
            match seek_entries(self.data(), self.restart_offsets(), key@) {
                Some(es) => r matches Ok(o) && opt_view(o) == (if es.len() > 0 && es[0].0 == key@ {
                    Some(es[0].1)
                } else {
                    None
                }),
                None => r == Err::<Option<Vec<u8>>, StorageError>(StorageError::Corrupt),
            },
    {
        let found = match self.iter_from(key) {
            Ok(v) => v,
            Err(e) => return Err(e),
        };
        if found.len() > 0 && bytes_eq(found[0].0.as_slice(), key) {
            let v = copy_range(found[0].1.as_slice(), 0, found[0].1.len());
            assert(v@ =~= found@[0].1@);
            Ok(Some(v))
        } else {
            Ok(None)
        }
    }
}

/// The entries of `all` whose key is not below `from`, in order.
pub fn filter_from(all: Vec<(Vec<u8>, Vec<u8>)>, from: &[u8]) -> (r: Vec<(Vec<u8>, Vec<u8>)>)
    ensures
        pairs_view(r@) == entries_from(pairs_view(all@), from@),
{
    let ghost es = pairs_view(all@);
    let mut out: Vec<(Vec<u8>, Vec<u8>)> = Vec::new();
    let mut i: usize = 0;
    proof {
        assert(es.take(0) =~= Seq::<KeyValue>::empty());
        assert(pairs_view(out@) =~= Seq::<KeyValue>::empty());
    }
    while i < all.len()
        invariant
            i <= all@.len(),
            pairs_view(all@) == es,
            pairs_view(out@) == entries_from(es.take(i as int), from@),
        decreases all@.len() - i,
    {
        let ghost before = out@;
        let keep = !bytes_lt(all[i].0.as_slice(), from);
        if keep {
            let k = copy_range(all[i].0.as_slice(), 0, all[i].0.len());
            let v = copy_range(all[i].1.as_slice(), 0, all[i].1.len());
            assert(k@ =~= all@[i as int].0@);
            assert(v@ =~= all@[i as int].1@);
            out.push((k, v));
        }
        proof {
            let t = es.take(i + 1);
            assert(t.drop_last() =~= es.take(i as int));
            assert(t.last() == es[i as int]);
            assert(es[i as int] == (all@[i as int].0@, all@[i as int].1@));
            if keep {
                assert(pairs_view(out@) =~= pairs_view(before).push(es[i as int]));
            } else {
                assert(pairs_view(out@) =~= pairs_view(before));
            }
        }
        i = i + 1;
    }
    proof {
        assert(es.take(all@.len() as int) =~= es);
    }
    out
}

/// The value of the first entry of `all` with key `key`.
pub fn find_entry(all: &Vec<(Vec<u8>, Vec<u8>)>, key: &[u8]) -> (r: Option<Vec<u8>>)
    ensures
        opt_view(r) == find_value(pairs_view(all@), key@),
{
    let ghost es = pairs_view(all@);
    let mut i: usize = 0;
    assert(es.subrange(0, es.len() as int) =~= es);
    while i < all.len()
        invariant
            i <= all@.len(),
            pairs_view(all@) == es,
            find_value(es, key@) == find_value(es.subrange(i as int, es.len() as int), key@),
        decreases all@.len() - i,
    {
        let ghost t = es.subrange(i as int, es.len() as int);
        proof {
            assert(es.len() == all@.len());
            assert(t.len() > 0);
            assert(t[0] == es[i as int]);
            assert(es[i as int] == (all@[i as int].0@, all@[i as int].1@));
        }
        if bytes_eq(all[i].0.as_slice(), key) {
            let v = copy_range(all[i].1.as_slice(), 0, all[i].1.len());
            assert(v@ =~= all@[i as int].1@);
            assert(t[0].0 == key@);
            assert(find_value(t, key@) == Some(t[0].1));
            return Some(v);
        }
        proof {
            assert(t.drop_first() =~= es.subrange(i + 1, es.len() as int));
        }
        i = i + 1;
    }
    None
}

} // verus!
