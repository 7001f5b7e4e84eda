//! Block handles: where a block lies in a table file, as two varints.
use vstd::prelude::*;

use crate::error::StorageError;
use crate::manifest::u64_at;
use crate::varint::{lemma_varint_u64_round_trip, read_varint_u64, varint_encode, write_varint_u64};

verus! {

#[derive(Debug, Clone, Copy, PartialEq, Eq, Structural)]
pub struct SstBlockHandle {
    pub offset: u64,
    pub size: u64,
}

/// The bytes of a handle: offset, then size, as varints.
pub open spec fn handle_bytes(h: SstBlockHandle) -> Seq<u8> {
    varint_encode(h.offset as nat) + varint_encode(h.size as nat)
}

/// The handle at position `p` of `d` and the position after it.
pub open spec fn handle_at(d: Seq<u8>, p: nat) -> Option<(SstBlockHandle, nat)> {
    match u64_at(d, p) {
        Some((offset, p1)) => match u64_at(d, p1) {
            Some((size, p2)) => Some((SstBlockHandle { offset, size }, p2)),
            None => None,
        },
        None => None,
    }
}

impl SstBlockHandle {
    pub fn new(offset: u64, size: u64) -> (r: Self)
        ensures
            r.offset == offset,
            r.size == size,
    {
        Self { offset, size }
    }

    /// Reads a handle at `*pos` and moves past it.
    pub fn read_from(data: &[u8], pos: &mut usize) -> (r: Result<Self, StorageError>)
        requires
            *old(pos) <= data@.len(),
        ensures
            *final(pos) <= data@.len(),
            match handle_at(data@, *old(pos) as nat) {
                Some((h, p)) => r == Ok::<Self, StorageError>(h) && *final(pos) == p,
                None => r == Err::<Self, StorageError>(StorageError::Corrupt),
            },
    {
        let offset = match read_varint_u64(data, pos) {
            Ok(v) => v,
            Err(e) => return Err(e),
        };
        let size = match read_varint_u64(data, pos) {
            Ok(v) => v,
            Err(e) => return Err(e),
        };
        Ok(Self { offset, size })
    }

    /// The handle's bytes as a fresh vector.
    pub fn to_value(&self) -> (r: Vec<u8>)
        ensures
            r@ == handle_bytes(*self),
    {
        let mut res: Vec<u8> = Vec::new();
        self.write(&mut res);
        assert(res@ =~= handle_bytes(*self));
        res
    }

    /// Appends the handle's bytes.
    pub fn write(&self, out: &mut Vec<u8>)
        ensures
            final(out)@ == old(out)@ + handle_bytes(*self),
    {
        let ghost start = out@;
        write_varint_u64(self.offset, out);
        write_varint_u64(self.size, out);
        assert(out@ =~= start + handle_bytes(*self));
    }
}

/// A handle reads back from its bytes, whatever follows them.
pub proof fn lemma_handle_round_trip(h: SstBlockHandle, rest: Seq<u8>)
    ensures
        handle_at(handle_bytes(h) + rest, 0) == Some((h, handle_bytes(h).len())),
{
    let e1 = varint_encode(h.offset as nat);
    let e2 = varint_encode(h.size as nat);
    let d = handle_bytes(h) + rest;
    assert(d.subrange(0, d.len() as int) =~= e1 + (e2 + rest));
    lemma_varint_u64_round_trip(h.offset, e2 + rest);
    assert(d.subrange(e1.len() as int, d.len() as int) =~= e2 + rest);
    lemma_varint_u64_round_trip(h.size, rest);
}

} // verus!
