//! The write-ahead log: records cut into CRC-checked fragments that never
//! straddle a block boundary.
use vstd::prelude::*;

use crate::block::opt_view;
use crate::bytes::{copy_range, extend_from_range};
use crate::crc32::{crc32, crc32_hash};
use crate::fixedint::{le_bytes, le_value, read_fixed_u16, read_fixed_u32, write_fixed_u16, write_fixed_u32, write_fixed_u8};
use crate::options::DbOptions;

verus! {

/// Bytes of a fragment header: CRC, length, record type.
pub const HEADER_SIZE: usize = 7;

/// The largest block size whose fragments' lengths fit the 16-bit length field.
pub const MAX_WAL_BLOCK_SIZE: usize = 65542;

/// The on-disk byte of a fragment that is or is not the record's first and last.
pub open spec fn record_type_byte(is_first: bool, is_last: bool) -> u8 {
    if is_first && is_last {
        1
    } else if is_first {
        2
    } else if is_last {
        4
    } else {
        3
    }
}

/// `n` zero bytes.
pub open spec fn zeros(n: nat) -> Seq<u8> {
    Seq::new(n, |i: int| 0u8)
}

/// The bytes written for `data[written..]` when `remaining` bytes are left in
/// the current block of `bs`, and what is left of the block afterwards;
/// `begun` tells whether a fragment of the record was written already, which
/// decides whether the next one is its first.
pub open spec fn frame(data: Seq<u8>, written: nat, begun: bool, remaining: nat, bs: nat) -> (Seq<u8>, nat)
    decreases data.len() - written, if remaining == HEADER_SIZE {
        1nat
    } else {
        0nat
    },
{
    if written >= data.len() || remaining < HEADER_SIZE || bs <= HEADER_SIZE || remaining > bs {
        (seq![], remaining)
    } else {
        let avail = (remaining - HEADER_SIZE) as nat;
        let left = (data.len() - written) as nat;
        let n = if avail > left {
            left
        } else {
            avail
        };
        let frag = data.subrange(written as int, (written + n) as int);
        let t = record_type_byte(!begun, written + n == data.len());
        let header = le_bytes(crc32(frag) as nat, 4) + le_bytes(n, 2) + seq![t];
        let rem1 = (remaining - n - HEADER_SIZE) as nat;
        let pad = if rem1 < HEADER_SIZE {
            zeros(rem1)
        } else {
            seq![]
        };
        let rem2 = if rem1 < HEADER_SIZE {
            bs
        } else {
            rem1
        };
        let (rest, rem3) = frame(data, written + n, true, rem2, bs);
        (header + frag + pad + rest, rem3)
    }
}

/// The log bytes that a writer appends for the records `rs`, starting with
/// `remaining` bytes left in the current block, and what is left afterwards.
pub open spec fn frame_log(rs: Seq<Seq<u8>>, remaining: nat, bs: nat) -> (Seq<u8>, nat)
    decreases rs.len(),
{
    if rs.len() == 0 {
        (seq![], remaining)
    } else {
        let (a, rem1) = frame(rs[0], 0, false, remaining, bs);
        let (b, rem2) = frame_log(rs.drop_first(), rem1, bs);
        (a + b, rem2)
    }
}

/// No record of `rs` is empty: an empty record writes no fragment.
pub open spec fn framable(rs: Seq<Seq<u8>>) -> bool {
    forall|i: int| 0 <= i < rs.len() ==> #[trigger] rs[i].len() > 0
}

/// The records replayed from position `pos` of `log`, `pending` holding the
/// fragments of an unfinished record. Replay stops, keeping what it has, at
/// the end of the log, at a torn or corrupt fragment and at an unexpected
/// fragment type.
pub open spec fn replay(log: Seq<u8>, pos: nat, bs: nat, pending: Option<Seq<u8>>) -> Seq<Seq<u8>>
    decreases log.len() - pos,
{
    if pos >= log.len() || bs <= HEADER_SIZE {
        seq![]
    } else {
        let left = (bs - pos % bs) as nat;
        if left < HEADER_SIZE {
            if left > 0 && pos + left <= log.len() {
                replay(log, pos + left, bs, pending)
            } else {
                seq![]
            }
        } else if pos + HEADER_SIZE > log.len() {
            seq![]
        } else {
            let crc = le_value(log.subrange(pos as int, (pos + 4) as int));
            let n = le_value(log.subrange((pos + 4) as int, (pos + 6) as int));
            let t = log[(pos + 6) as int];
            if HEADER_SIZE + n > left || pos + HEADER_SIZE + n > log.len() {
                seq![]
            } else {
                let frag = log.subrange((pos + 7) as int, (pos + 7 + n) as int);
                let next = pos + 7 + n;
                if crc32(frag) as nat != crc {
                    seq![]
                } else if t == 1 && pending is None {
                    seq![frag] + replay(log, next, bs, None)
                } else if t == 2 && pending is None {
                    replay(log, next, bs, Some(frag))
                } else if t == 3 && pending is Some {
                    replay(log, next, bs, Some(pending.unwrap() + frag))
                } else if t == 4 && pending is Some {
                    seq![pending.unwrap() + frag] + replay(log, next, bs, None)
                } else {
                    seq![]
                }
            }
        }
    }
}

/// The framing state of one log file: its block size and what is left of the
/// current block. The bytes that `append` returns go to the end of the file.
pub struct Wal {
    seq_num: u32,
    block_size: usize,
    remaining_block_size: usize,
}

impl Wal {
    /// What is left of the current block.
    pub closed spec fn remaining(&self) -> nat {
        self.remaining_block_size as nat
    }

    pub closed spec fn block_size(&self) -> nat {
        self.block_size as nat
    }

    pub closed spec fn seq(&self) -> u32 {
        self.seq_num
    }

    pub closed spec fn inv(&self) -> bool {
        &&& HEADER_SIZE < self.block_size <= MAX_WAL_BLOCK_SIZE
        &&& HEADER_SIZE <= self.remaining_block_size <= self.block_size
    }

    /// The log number `seq_num`, empty, with the options' block size.
    pub fn create(seq_num: u32, options: DbOptions) -> (r: Self)
        requires
            HEADER_SIZE < options.wal_block_size <= MAX_WAL_BLOCK_SIZE,
        ensures
            r.inv(),
            r.seq() == seq_num,
            r.block_size() == options.wal_block_size,
            r.remaining() == options.wal_block_size,
    {
        Self { seq_num, block_size: options.wal_block_size, remaining_block_size: options.wal_block_size }
    }

    /// The log number `seq_num`, already `file_len` bytes long, as this
    /// writer leaves it: padded wherever fewer than a header's bytes were
    /// left of a block.
    pub fn load(seq_num: u32, options: DbOptions, file_len: usize) -> (r: Self)
        requires
            HEADER_SIZE < options.wal_block_size <= MAX_WAL_BLOCK_SIZE,
        ensures
            r.inv(),
            r.seq() == seq_num,
            r.block_size() == options.wal_block_size,
            r.remaining() == (if options.wal_block_size - file_len % options.wal_block_size < HEADER_SIZE {
                options.wal_block_size as int
            } else {
                options.wal_block_size - file_len % options.wal_block_size
            }),
    {
        let bs = options.wal_block_size;
        let left = bs - file_len % bs;
        let remaining_block_size = if left < HEADER_SIZE {
            bs
        } else {
            left
        };
        Self { seq_num, block_size: bs, remaining_block_size }
    }

    fn record_type(begun: bool, data_size: usize, written_size: usize, available_payload_size: usize) -> (r: u8)
        requires
            written_size <= data_size,
        ensures
            r == record_type_byte(
                !begun,
                available_payload_size >= data_size - written_size,
            ),
    {
        let is_first = !begun;
        let can_finish = available_payload_size >= data_size - written_size;
        if is_first && can_finish {
            1
        } else if is_first {
            2
        } else if can_finish {
            4
        } else {
            3
        }
    }

    /// The bytes that append `data` as one record: fragments with their
    /// headers, and zero padding wherever fewer than a header's bytes are left
    /// of a block.
    #[verifier::spinoff_prover]
    #[verifier::rlimit(100)]
    pub fn append(&mut self, data: &[u8]) -> (r: Vec<u8>)
        requires
            old(self).inv(),
        ensures
            final(self).inv(),
            final(self).block_size() == old(self).block_size(),
            final(self).seq() == old(self).seq(),
            (r@, final(self).remaining()) == frame(data@, 0, false, old(self).remaining(), old(self).block_size()),
    {
        let mut out: Vec<u8> = Vec::new();
        let data_size = data.len();
        let mut written_size: usize = 0;
        let mut begun = false;
        let ghost bs = self.block_size as nat;
        let ghost start = frame(data@, 0, false, self.remaining_block_size as nat, bs);
        while written_size < data_size
            invariant
                self.inv(),
                self.block_size == bs,
                self.seq_num == old(self).seq_num,
                data_size == data@.len(),
                written_size <= data_size,
                start == (out@ + frame(data@, written_size as nat, begun, self.remaining_block_size as nat, bs).0, frame(
                    data@,
                    written_size as nat,
                    begun,
                    self.remaining_block_size as nat,
                    bs,
                ).1),
            decreases data_size - written_size, if self.remaining_block_size == HEADER_SIZE {
                1nat
            } else {
                0nat
            },
        {
            let ghost before = out@;
            let ghost rem0 = self.remaining_block_size as nat;
            let ghost w0 = written_size as nat;
            let ghost b0 = begun;
            let available = self.remaining_block_size - HEADER_SIZE;
            let n = if available > data_size - written_size {
                data_size - written_size
            } else {
                available
            };
            let t = Self::record_type(begun, data_size, written_size, available);
            write_fragment(&mut out, data, written_size, n, t);
            written_size = written_size + n;
            begun = true;
            self.remaining_block_size = self.remaining_block_size - (n + HEADER_SIZE);
            let ghost mid = out@;
            if self.remaining_block_size < HEADER_SIZE {
                let mut k: usize = 0;
                while k < self.remaining_block_size
                    invariant
                        k <= self.remaining_block_size,
                        out@ == mid + zeros(k as nat),
                    decreases self.remaining_block_size - k,
                {
                    out.push(0u8);
                    assert(out@ =~= mid + zeros((k + 1) as nat));
                    k = k + 1;
                }
                self.remaining_block_size = self.block_size;
            } else {
                assert(out@ =~= mid + Seq::<u8>::empty());
            }
            proof {
                lemma_frame_step(data@, w0, b0, rem0, bs);
                let f1 = frame(data@, w0, b0, rem0, bs);
                let f2 = frame(data@, written_size as nat, true, self.remaining_block_size as nat, bs);
                assert(before + f1.0 =~= out@ + f2.0);
            }
        }
        proof {
            assert(out@ + Seq::<u8>::empty() =~= out@);
        }
        out
    }
}

/// The header of a fragment: its CRC, its length and its type.
pub open spec fn fragment_header(frag: Seq<u8>, t: u8) -> Seq<u8> {
    le_bytes(crc32(frag) as nat, 4) + le_bytes(frag.len(), 2) + seq![t]
}

/// Appends the fragment `data[written..written + n]` of type `t` with its header.
fn write_fragment(out: &mut Vec<u8>, data: &[u8], written: usize, n: usize, t: u8)
    requires
        written + n <= data@.len(),
        n <= u16::MAX,
    ensures
        final(out)@ == old(out)@ + fragment_header(data@.subrange(written as int, written + n), t) + data@.subrange(
            written as int,
            written + n,
        ),
{
    let ghost start = out@;
    let ghost frag = data@.subrange(written as int, written + n);
    assert(data@.len() == data.len());
    let crc = crc32_hash(vstd::slice::slice_subrange(data, written, written + n));
    write_fixed_u32(crc, out);
    write_fixed_u16(n as u16, out);
    write_fixed_u8(t, out);
    proof {
        assert(le_bytes(t as nat / 256, 0) =~= Seq::<u8>::empty());
        assert((t as nat % 256) as u8 == t);
        assert(le_bytes(t as nat, 1) =~= seq![t]);
    }
    extend_from_range(out, data, written, written + n);
    assert(out@ =~= start + fragment_header(frag, t) + frag);
}

/// One step of the framing: a fragment, its padding, then the rest.
proof fn lemma_frame_step(data: Seq<u8>, written: nat, begun: bool, remaining: nat, bs: nat)
    requires
        written < data.len(),
        HEADER_SIZE <= remaining <= bs,
        HEADER_SIZE < bs,
    ensures
        ({
            let avail = (remaining - HEADER_SIZE) as nat;
            let left = (data.len() - written) as nat;
            let n = if avail > left { left } else { avail };
            let frag = data.subrange(written as int, (written + n) as int);
            let t = record_type_byte(!begun, avail >= left);
            let rem1 = (remaining - n - HEADER_SIZE) as nat;
            let pad = if rem1 < HEADER_SIZE { zeros(rem1) } else { seq![] };
            let rem2 = if rem1 < HEADER_SIZE { bs } else { rem1 };
            frame(data, written, begun, remaining, bs) == (
                fragment_header(frag, t) + frag + pad + frame(data, written + n, true, rem2, bs).0,
                frame(data, written + n, true, rem2, bs).1,
            )
        }),
{
}

/// Replays the records of a log with blocks of `block_size` bytes, stopping
/// at a torn or corrupt tail.
pub fn read_records(log: &[u8], block_size: usize) -> (r: Vec<Vec<u8>>)
    requires
        HEADER_SIZE < block_size,
    ensures
        r@.map_values(|v: Vec<u8>| v@) == replay(log@, 0, block_size as nat, None),
{
    let mut out: Vec<Vec<u8>> = Vec::new();
    let mut pending: Option<Vec<u8>> = None;
    let mut pos: usize = 0;
    let ghost bs = block_size as nat;
    loop
        invariant
            pos <= log@.len(),
            HEADER_SIZE < block_size,
            bs == block_size,
            replay(log@, 0, bs, None) == out@.map_values(|v: Vec<u8>| v@) + replay(
                log@,
                pos as nat,
                bs,
                opt_view(pending),
            ),
        decreases log@.len() - pos,
    {
        let ghost pend = opt_view(pending);
        let ghost outv = out@.map_values(|v: Vec<u8>| v@);
        if pos >= log.len() {
            assert(outv + Seq::<Seq<u8>>::empty() =~= outv);
            return out;
        }
        let left = block_size - pos % block_size;
        if left < HEADER_SIZE {
            if left > log.len() - pos {
                proof {
                    assert(replay(log@, (pos + left) as nat, bs, pend) == Seq::<Seq<u8>>::empty());
                    assert(outv + Seq::<Seq<u8>>::empty() =~= outv);
                }
                return out;
            }
            pos = pos + left;
            continue;
        }
        if HEADER_SIZE > log.len() - pos {
            assert(outv + Seq::<Seq<u8>>::empty() =~= outv);
            return out;
        }
        let mut p = pos;
        let crc = match read_fixed_u32(log, &mut p) {
            Ok(v) => v,
            Err(_) => return out,
        };
        let n = match read_fixed_u16(log, &mut p) {
            Ok(v) => v as usize,
            Err(_) => return out,
        };
        let t = log[pos + 6];
        proof {
            crate::fixedint::lemma_le_value_bound(log@.subrange(pos as int, pos + 4));
            crate::fixedint::lemma_le_value_bound(log@.subrange(pos + 4, pos + 6));
            reveal_with_fuel(crate::fixedint::pow256, 5);
        }
        if HEADER_SIZE + n > left || n > log.len() - pos - HEADER_SIZE {
            assert(outv + Seq::<Seq<u8>>::empty() =~= outv);
            return out;
        }
        let frag = copy_range(log, pos + HEADER_SIZE, pos + HEADER_SIZE + n);
        if crc32_hash(frag.as_slice()) != crc {
            assert(outv + Seq::<Seq<u8>>::empty() =~= outv);
            return out;
        }
        let next = pos + HEADER_SIZE + n;
        let ghost before = out@;
        if t == 1 && pending.is_none() {
            out.push(frag);
            proof {
                assert(out@.map_values(|v: Vec<u8>| v@) =~= outv.push(frag@));
                assert(outv + (seq![frag@] + replay(log@, next as nat, bs, None)) =~= out@.map_values(|v: Vec<u8>| v@) + replay(log@, next as nat, bs, None));
            }
        } else if t == 2 && pending.is_none() {
            pending = Some(frag);
        } else if t == 3 && pending.is_some() {
            let mut acc = pending.unwrap();
            let ghost acc0 = acc@;
            extend_from_range(&mut acc, frag.as_slice(), 0, frag.len());
            assert(acc@ =~= acc0 + frag@);
            pending = Some(acc);
        } else if t == 4 && pending.is_some() {
            let mut acc = pending.unwrap();
            let ghost acc0 = acc@;
            extend_from_range(&mut acc, frag.as_slice(), 0, frag.len());
            assert(acc@ =~= acc0 + frag@);
            let ghost rec = acc@;
            out.push(acc);
            pending = None;
            proof {
                assert(out@.map_values(|v: Vec<u8>| v@) =~= outv.push(rec));
                assert(outv + (seq![rec] + replay(log@, next as nat, bs, None)) =~= out@.map_values(|v: Vec<u8>| v@) + replay(log@, next as nat, bs, None));
            }
        } else {
            assert(outv + Seq::<Seq<u8>>::empty() =~= outv);
            return out;
        }
        pos = next;
    }
}

proof fn lemma_mod_advance(pos: nat, k: nat, bs: nat)
    requires
        bs > 0,
        pos % bs + k <= bs,
    ensures
        pos % bs + k < bs ==> (pos + k) % bs == pos % bs + k,
        pos % bs + k == bs ==> (pos + k) % bs == 0,
{
    let q = (pos / bs) as int;
    let r = (pos % bs) as int;
    vstd::arithmetic::div_mod::lemma_fundamental_div_mod(pos as int, bs as int);
    assert(pos == bs * q + r);
    if r + k < bs {
        assert(pos + k == q * bs + (r + k)) by (nonlinear_arith)
            requires
                pos == bs * q + r,
        ;
        vstd::arithmetic::div_mod::lemma_fundamental_div_mod_converse_mod((pos + k) as int, bs as int, q, r + k);
    } else {
        assert(pos + k == (q + 1) * bs + 0) by (nonlinear_arith)
            requires
                pos == bs * q + r,
                r + k == bs,
        ;
        vstd::arithmetic::div_mod::lemma_fundamental_div_mod_converse_mod((pos + k) as int, bs as int, q + 1, 0);
    }
}

/// Replay skips the padding at the end of a block.
proof fn lemma_replay_skip(log: Seq<u8>, q: nat, r: nat, bs: nat, pending: Option<Seq<u8>>)
    requires
        HEADER_SIZE < bs,
        0 < r < HEADER_SIZE,
        bs - q % bs == r,
        q + r <= log.len(),
    ensures
        replay(log, q, bs, pending) == replay(log, q + r, bs, pending),
{
}

/// The fragments of `data[written..]` replay to the whole record, whatever
/// follows them in the log.
#[verifier::rlimit(100)]
proof fn lemma_replay_frame(log: Seq<u8>, pos: nat, data: Seq<u8>, written: nat, begun: bool, remaining: nat, bs: nat)
    requires
        HEADER_SIZE < bs <= MAX_WAL_BLOCK_SIZE,
        HEADER_SIZE <= remaining <= bs,
        remaining == bs - pos % bs,
        written < data.len(),
        !begun ==> written == 0,
        pos + frame(data, written, begun, remaining, bs).0.len() <= log.len(),
        log.subrange(pos as int, (pos + frame(data, written, begun, remaining, bs).0.len()) as int) == frame(data, written, begun, remaining, bs).0,
    ensures
        ({
            let (f, rem) = frame(data, written, begun, remaining, bs);
            let end = (pos + f.len()) as nat;
            &&& replay(log, pos, bs, if !begun { None } else { Some(data.subrange(0, written as int)) })
                == seq![data] + replay(log, end, bs, None)
            &&& HEADER_SIZE <= rem <= bs
            &&& rem == bs - end % bs
        }),
    decreases data.len() - written, if remaining == HEADER_SIZE {
        1nat
    } else {
        0nat
    },
{
    let avail = (remaining - HEADER_SIZE) as nat;
    let left = (data.len() - written) as nat;
    let n = if avail > left { left } else { avail };
    let frag = data.subrange(written as int, (written + n) as int);
    let t = record_type_byte(!begun, written + n == data.len());
    let header = fragment_header(frag, t);
    let rem1 = (remaining - n - HEADER_SIZE) as nat;
    let pad = if rem1 < HEADER_SIZE { zeros(rem1) } else { seq![] };
    let rem2 = if rem1 < HEADER_SIZE { bs } else { rem1 };
    lemma_frame_step(data, written, begun, remaining, bs);
    let rest = frame(data, written + n, true, rem2, bs);
    let f = frame(data, written, begun, remaining, bs).0;
    assert(f == header + frag + pad + rest.0);
    assert(frag.len() == n);
    crate::fixedint::lemma_le_bytes_len(crc32(frag) as nat, 4);
    crate::fixedint::lemma_le_bytes_len(n, 2);
    assert(header.len() == HEADER_SIZE);
    let lf = log.subrange(pos as int, (pos + f.len()) as int);
    assert(lf == f);
    assert forall|i: int| 0 <= i < f.len() implies #[trigger] log[pos + i] == f[i] by {
        assert(lf[i] == log[pos + i]);
    }
    // The header reads back.
    reveal_with_fuel(crate::fixedint::pow256, 5);
    crate::fixedint::lemma_le_round_trip(crc32(frag) as nat, 4);
    crate::fixedint::lemma_le_round_trip(n, 2);
    assert(log.subrange(pos as int, (pos + 4) as int) =~= le_bytes(crc32(frag) as nat, 4));
    assert forall|i: int| 0 <= i < 2 implies #[trigger] log.subrange((pos + 4) as int, (pos + 6) as int)[i] == le_bytes(n, 2)[i] by {
        assert(log[pos + (4 + i)] == f[4 + i]);
        assert(f[4 + i] == header[4 + i]);
    }
    assert(log.subrange((pos + 4) as int, (pos + 6) as int) =~= le_bytes(n, 2));
    assert(log[(pos + 6) as int] == t);
    let next = (pos + HEADER_SIZE + n) as nat;
    assert forall|i: int| 0 <= i < n implies #[trigger] log.subrange((pos + 7) as int, (pos + 7 + n) as int)[i] == frag[i] by {
        assert(log[pos + (7 + i)] == f[7 + i]);
        assert(f[7 + i] == (header + frag)[7 + i]);
    }
    assert(log.subrange((pos + 7) as int, (pos + 7 + n) as int) =~= frag);
    // Where the next fragment or record starts.
    lemma_mod_advance(pos, (HEADER_SIZE + n) as nat, bs);
    let after_pad = (next + pad.len()) as nat;
    if rem1 < HEADER_SIZE && rem1 > 0 {
        assert(bs - (next % bs) == rem1);
        lemma_replay_skip(log, next, rem1, bs, if written + n == data.len() { None } else { Some(data.subrange(0, (written + n) as int)) });
        lemma_mod_advance(next, rem1, bs);
    }
    assert(rem2 == bs - after_pad % bs);
    let pend = if !begun { None } else { Some(data.subrange(0, written as int)) };
    if written + n == data.len() {
        assert(rest.0 == Seq::<u8>::empty());
        assert(pend matches Some(p) ==> p + frag =~= data);
        assert(!begun ==> frag =~= data);
        assert(replay(log, pos, bs, pend) == seq![data] + replay(log, next, bs, None));
    } else {
        assert forall|i: int| 0 <= i < rest.0.len() implies #[trigger] rest.0[i] == f[HEADER_SIZE + n + pad.len() + i] by {
        }
        assert forall|i: int| 0 <= i < rest.0.len() implies #[trigger] log.subrange(after_pad as int, (after_pad + rest.0.len()) as int)[i] == rest.0[i] by {
            assert(log[pos + (HEADER_SIZE + n + pad.len() + i)] == f[HEADER_SIZE + n + pad.len() + i]);
        }
        assert(log.subrange(after_pad as int, (after_pad + rest.0.len()) as int) =~= rest.0);
        lemma_replay_frame(log, after_pad, data, written + n, true, rem2, bs);
        let npend = Some(data.subrange(0, (written + n) as int));
        assert(pend matches Some(p) ==> p + frag =~= data.subrange(0, (written + n) as int));
        assert(!begun ==> frag =~= data.subrange(0, (written + n) as int));
        assert(replay(log, pos, bs, pend) == replay(log, next, bs, npend));
    }
}

/// A log written by this writer replays to the records written, of any
/// lengths, provided none is empty.
pub proof fn lemma_wal_round_trip(rs: Seq<Seq<u8>>, bs: nat)
    requires
        HEADER_SIZE < bs <= MAX_WAL_BLOCK_SIZE,
        framable(rs),
    ensures
        replay(frame_log(rs, bs, bs).0, 0, bs, None) == rs,
{
    let log = frame_log(rs, bs, bs).0;
    assert(log.subrange(0, log.len() as int) =~= log);
    vstd::arithmetic::div_mod::lemma_small_mod(0, bs);
    lemma_replay_log(log, 0, rs, bs, bs);
    assert(rs + Seq::<Seq<u8>>::empty() =~= rs);
}

proof fn lemma_replay_log(log: Seq<u8>, pos: nat, rs: Seq<Seq<u8>>, remaining: nat, bs: nat)
    requires
        HEADER_SIZE < bs <= MAX_WAL_BLOCK_SIZE,
        HEADER_SIZE <= remaining <= bs,
        remaining == bs - pos % bs,
        framable(rs),
        pos + frame_log(rs, remaining, bs).0.len() <= log.len(),
        log.subrange(pos as int, (pos + frame_log(rs, remaining, bs).0.len()) as int) == frame_log(rs, remaining, bs).0,
    ensures
        replay(log, pos, bs, None) == rs + replay(log, (pos + frame_log(rs, remaining, bs).0.len()) as nat, bs, None),
    decreases rs.len(),
{
    if rs.len() == 0 {
        assert(Seq::<Seq<u8>>::empty() + replay(log, pos, bs, None) =~= replay(log, pos, bs, None));
    } else {
        let (a, rem1) = frame(rs[0], 0, false, remaining, bs);
        let (b, rem2) = frame_log(rs.drop_first(), rem1, bs);
        let f = frame_log(rs, remaining, bs).0;
        assert(rs[0].len() > 0);
        assert(framable(rs.drop_first())) by {
            assert forall|i: int| 0 <= i < rs.drop_first().len() implies #[trigger] rs.drop_first()[i].len() > 0 by {
                assert(rs.drop_first()[i] == rs[i + 1]);
            }
        }
        assert(f == a + b);
        let lf = log.subrange(pos as int, (pos + f.len()) as int);
        assert(lf == f);
        assert forall|i: int| 0 <= i < f.len() implies #[trigger] log[pos + i] == f[i] by {
            assert(lf[i] == log[pos + i]);
        }
        assert forall|i: int| 0 <= i < b.len() implies #[trigger] log.subrange((pos + a.len()) as int, (pos + a.len() + b.len()) as int)[i] == b[i] by {
            assert(log[pos + (a.len() + i)] == f[a.len() + i]);
        }
        assert forall|i: int| 0 <= i < a.len() implies #[trigger] log.subrange(pos as int, (pos + a.len()) as int)[i] == a[i] by {
            assert(log[pos + i] == f[i]);
        }
        assert(log.subrange(pos as int, (pos + a.len()) as int) =~= a);
        lemma_replay_frame(log, pos, rs[0], 0, false, remaining, bs);
        assert(log.subrange((pos + a.len()) as int, (pos + a.len() + b.len()) as int) =~= b);
        lemma_replay_log(log, (pos + a.len()) as nat, rs.drop_first(), rem1, bs);
        let end = (pos + a.len() + b.len()) as nat;
        assert(seq![rs[0]] + (rs.drop_first() + replay(log, end, bs, None)) =~= rs + replay(log, end, bs, None));
    }
}

/// `a` is a prefix of `b`.
pub open spec fn is_prefix(a: Seq<Seq<u8>>, b: Seq<Seq<u8>>) -> bool {
    a.len() <= b.len() && b.subrange(0, a.len() as int) == a
}

/// Replaying a log cut short at `c` bytes yields a prefix of what replaying
/// the whole log yields.
#[verifier::rlimit(100)]
pub proof fn lemma_replay_truncated(log: Seq<u8>, c: nat, pos: nat, bs: nat, pending: Option<Seq<u8>>)
    requires
        c <= log.len(),
    ensures
        is_prefix(replay(log.take(c as int), pos, bs, pending), replay(log, pos, bs, pending)),
    decreases log.len() - pos,
{
    let cut = log.take(c as int);
    let full = replay(log, pos, bs, pending);
    let part = replay(cut, pos, bs, pending);
    if pos >= cut.len() || bs <= HEADER_SIZE {
        assert(part == Seq::<Seq<u8>>::empty());
        assert(full.subrange(0, 0) =~= Seq::<Seq<u8>>::empty());
    } else {
        let left = (bs - pos % bs) as nat;
        if left < HEADER_SIZE {
            if left > 0 && pos + left <= cut.len() {
                lemma_replay_truncated(log, c, pos + left, bs, pending);
            } else {
                assert(full.subrange(0, 0) =~= Seq::<Seq<u8>>::empty());
            }
        } else if pos + HEADER_SIZE > cut.len() {
            assert(full.subrange(0, 0) =~= Seq::<Seq<u8>>::empty());
        } else {
            assert(cut.subrange(pos as int, (pos + 4) as int) =~= log.subrange(pos as int, (pos + 4) as int));
            assert(cut.subrange((pos + 4) as int, (pos + 6) as int) =~= log.subrange((pos + 4) as int, (pos + 6) as int));
            assert(cut[(pos + 6) as int] == log[(pos + 6) as int]);
            let n = le_value(log.subrange((pos + 4) as int, (pos + 6) as int));
            if HEADER_SIZE + n > left || pos + HEADER_SIZE + n > cut.len() {
                assert(full.subrange(0, 0) =~= Seq::<Seq<u8>>::empty());
            } else {
                assert(cut.subrange((pos + 7) as int, (pos + 7 + n) as int) =~= log.subrange((pos + 7) as int, (pos + 7 + n) as int));
                let frag = log.subrange((pos + 7) as int, (pos + 7 + n) as int);
                let next = (pos + 7 + n) as nat;
                let t = log[(pos + 6) as int];
                let crc = le_value(log.subrange(pos as int, (pos + 4) as int));
                if crc32(frag) as nat != crc {
                    assert(full.subrange(0, 0) =~= Seq::<Seq<u8>>::empty());
                } else if t == 1 && pending is None {
                    lemma_replay_truncated(log, c, next, bs, None);
                    let a = replay(cut, next, bs, None);
                    let b = replay(log, next, bs, None);
                    assert((seq![frag] + b).subrange(0, (seq![frag] + a).len() as int) =~= seq![frag] + a);
                } else if t == 2 && pending is None {
                    lemma_replay_truncated(log, c, next, bs, Some(frag));
                } else if t == 3 && pending is Some {
                    lemma_replay_truncated(log, c, next, bs, Some(pending.unwrap() + frag));
                } else if t == 4 && pending is Some {
                    lemma_replay_truncated(log, c, next, bs, None);
                    let r = pending.unwrap() + frag;
                    let a = replay(cut, next, bs, None);
                    let b = replay(log, next, bs, None);
                    assert((seq![r] + b).subrange(0, (seq![r] + a).len() as int) =~= seq![r] + a);
                } else {
                    assert(full.subrange(0, 0) =~= Seq::<Seq<u8>>::empty());
                }
            }
        }
    }
}

/// A log written by this writer and cut short anywhere replays to a prefix
/// of the records written, provided none is empty.
pub proof fn lemma_wal_truncated(rs: Seq<Seq<u8>>, bs: nat, c: nat)
    requires
        HEADER_SIZE < bs <= MAX_WAL_BLOCK_SIZE,
        framable(rs),
        c <= frame_log(rs, bs, bs).0.len(),
    ensures
        is_prefix(replay(frame_log(rs, bs, bs).0.take(c as int), 0, bs, None), rs),
{
    lemma_wal_round_trip(rs, bs);
    lemma_replay_truncated(frame_log(rs, bs, bs).0, c, 0, bs, None);
}

} // verus!
