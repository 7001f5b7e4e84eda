//! Fixed-width little-endian integers.
use vstd::prelude::*;

use crate::error::StorageError;

verus! {

/// The `w` low bytes of `n`, least significant first.
pub open spec fn le_bytes(n: nat, w: nat) -> Seq<u8>
    decreases w,
{
    if w == 0 {
        seq![]
    } else {
        seq![(n % 256) as u8] + le_bytes(n / 256, (w - 1) as nat)
    }
}

/// The number whose little-endian bytes are `s`.
pub open spec fn le_value(s: Seq<u8>) -> nat
    decreases s.len(),
{
    if s.len() == 0 {
        0
    } else {
        s[0] as nat + 256 * le_value(s.drop_first())
    }
}

pub open spec fn pow256(w: nat) -> nat
    decreases w,
{
    if w == 0 {
        1
    } else {
        256 * pow256((w - 1) as nat)
    }
}

pub proof fn lemma_le_bytes_len(n: nat, w: nat)
    ensures
        le_bytes(n, w).len() == w,
    decreases w,
{
    if w > 0 {
        lemma_le_bytes_len(n / 256, (w - 1) as nat);
    }
}

/// Reading back `w` little-endian bytes gives the number that was written.
pub proof fn lemma_le_round_trip(n: nat, w: nat)
    requires
        n < pow256(w),
    ensures
        le_value(le_bytes(n, w)) == n,
        le_bytes(n, w).len() == w,
    decreases w,
{
    lemma_le_bytes_len(n, w);
    if w > 0 {
        let p = pow256((w - 1) as nat);
        assert(n / 256 < p) by (nonlinear_arith)
            requires
                n < 256 * p,
        ;
        lemma_le_round_trip(n / 256, (w - 1) as nat);
        let s = le_bytes(n, w);
        assert(s.drop_first() =~= le_bytes(n / 256, (w - 1) as nat));
        assert(n % 256 + 256 * (n / 256) == n) by (nonlinear_arith);
    } else {
        assert(n == 0) by {
            assert(pow256(0) == 1);
        }
    }
}

pub proof fn lemma_le_value_bound(s: Seq<u8>)
    ensures
        le_value(s) < pow256(s.len()),
    decreases s.len(),
{
    if s.len() > 0 {
        lemma_le_value_bound(s.drop_first());
        let v = le_value(s.drop_first());
        let p = pow256((s.len() - 1) as nat);
        assert(s[0] as nat + 256 * v < 256 * p) by (nonlinear_arith)
            requires
                v < p,
                s[0] < 256,
        ;
    }
}

/// Appends the `width` low bytes of `value`, least significant first.
fn write_le(value: u64, width: usize, out: &mut Vec<u8>)
    requires
        width <= 8,
    ensures
        final(out)@ == old(out)@ + le_bytes(value as nat, width as nat),
{
    let ghost start = out@;
    let mut n: u64 = value;
    let mut i: usize = 0;
    while i < width
        invariant
            i <= width,
            start + le_bytes(value as nat, width as nat) == out@ + le_bytes(n as nat, (width - i) as nat),
        decreases width - i,
    {
        let ghost before = out@;
        out.push((n % 256) as u8);
        assert(before + le_bytes(n as nat, (width - i) as nat) =~= out@ + le_bytes((n / 256) as nat, (width - i - 1) as nat));
        n = n / 256;
        i = i + 1;
    }
    assert(out@ =~= start + le_bytes(value as nat, width as nat));
}

/// Reads `width` little-endian bytes at `pos`.
fn read_le(data: &[u8], pos: usize, width: usize) -> (r: u64)
    requires
        width <= 8,
        pos + width <= data@.len(),
    ensures
        r as nat == le_value(data@.subrange(pos as int, pos + width)),
{
    let ghost s = data@.subrange(pos as int, pos + width);
    let mut k: usize = width;
    let mut value: u64 = 0;
    assert(data@.len() == data.len());
    proof {
        assert(s.subrange(width as int, width as int) =~= Seq::<u8>::empty());
    }
    while k > 0
        invariant
            k <= width,
            width <= 8,
            pos + width <= data@.len(),
            data@.len() == data.len(),
            s == data@.subrange(pos as int, pos + width),
            value as nat == le_value(s.subrange(k as int, width as int)),
        decreases k,
    {
        let b = data[pos + k - 1];
        proof {
            let t = s.subrange(k - 1, width as int);
            assert(t.drop_first() =~= s.subrange(k as int, width as int));
            assert(t[0] == b);
            lemma_le_value_bound(s.subrange(k as int, width as int));
            lemma_pow256_mono((width - k) as nat, 7);
            reveal_with_fuel(pow256, 8);
            assert(pow256(7) == 72057594037927936nat);
            assert(value * 256 + b <= u64::MAX) by (nonlinear_arith)
                requires
                    value < 72057594037927936nat,
                    b < 256,
            ;
        }
        value = value * 256 + b as u64;
        k = k - 1;
    }
    assert(s.subrange(0, width as int) =~= s);
    value
}

proof fn lemma_pow256_mono(a: nat, b: nat)
    requires
        a <= b,
    ensures
        pow256(a) <= pow256(b),
    decreases b,
{
    if a < b {
        lemma_pow256_mono(a, (b - 1) as nat);
    }
}

pub fn write_fixed_u8(value: u8, out: &mut Vec<u8>)
    ensures
        final(out)@ == old(out)@ + le_bytes(value as nat, 1),
{
    write_le(value as u64, 1, out);
}

pub fn write_fixed_u16(value: u16, out: &mut Vec<u8>)
    ensures
        final(out)@ == old(out)@ + le_bytes(value as nat, 2),
{
    write_le(value as u64, 2, out);
}

pub fn write_fixed_u32(value: u32, out: &mut Vec<u8>)
    ensures
        final(out)@ == old(out)@ + le_bytes(value as nat, 4),
{
    write_le(value as u64, 4, out);
}

pub fn write_fixed_u64(value: u64, out: &mut Vec<u8>)
    ensures
        final(out)@ == old(out)@ + le_bytes(value as nat, 8),
{
    write_le(value, 8, out);
}

/// The `w` bytes at `*pos` read as a little-endian number, or `None` when
/// fewer than `w` bytes are left.
pub open spec fn fixed_at(data: Seq<u8>, pos: nat, w: nat) -> Option<nat> {
    if pos + w <= data.len() {
        Some(le_value(data.subrange(pos as int, (pos + w) as int)))
    } else {
        None
    }
}

/// Reads the byte at `*pos` and moves past it; `Corrupt` at the end of `data`.
pub fn read_fixed_u8(data: &[u8], pos: &mut usize) -> (r: Result<u8, StorageError>)
    requires
        *old(pos) <= data@.len(),
    ensures
        match fixed_at(data@, *old(pos) as nat, 1) {
            Some(v) => r == Ok::<u8, StorageError>(v as u8) && *final(pos) == *old(pos) + 1,
            None => r == Err::<u8, StorageError>(StorageError::Corrupt) && *final(pos) == *old(pos),
        },
{
    if data.len() - *pos < 1 {
        return Err(StorageError::Corrupt);
    }
    let v = read_le(data, *pos, 1);
    proof {
        lemma_le_value_bound(data@.subrange(*pos as int, *pos + 1));
        reveal_with_fuel(pow256, 2);
    }
    *pos = *pos + 1;
    Ok(v as u8)
}

/// Reads two little-endian bytes at `*pos` and moves past them.
pub fn read_fixed_u16(data: &[u8], pos: &mut usize) -> (r: Result<u16, StorageError>)
    requires
        *old(pos) <= data@.len(),
    ensures
        match fixed_at(data@, *old(pos) as nat, 2) {
            Some(v) => r == Ok::<u16, StorageError>(v as u16) && *final(pos) == *old(pos) + 2,
            None => r == Err::<u16, StorageError>(StorageError::Corrupt) && *final(pos) == *old(pos),
        },
{
    if data.len() - *pos < 2 {
        return Err(StorageError::Corrupt);
    }
    let v = read_le(data, *pos, 2);
    proof {
        lemma_le_value_bound(data@.subrange(*pos as int, *pos + 2));
        reveal_with_fuel(pow256, 3);
    }
    *pos = *pos + 2;
    Ok(v as u16)
}

/// Reads four little-endian bytes at `*pos` and moves past them.
pub fn read_fixed_u32(data: &[u8], pos: &mut usize) -> (r: Result<u32, StorageError>)
    requires
        *old(pos) <= data@.len(),
    ensures
        match fixed_at(data@, *old(pos) as nat, 4) {
            Some(v) => r == Ok::<u32, StorageError>(v as u32) && *final(pos) == *old(pos) + 4,
            None => r == Err::<u32, StorageError>(StorageError::Corrupt) && *final(pos) == *old(pos),
        },
{
    if data.len() - *pos < 4 {
        return Err(StorageError::Corrupt);
    }
    let v = read_le(data, *pos, 4);
    proof {
        lemma_le_value_bound(data@.subrange(*pos as int, *pos + 4));
        reveal_with_fuel(pow256, 5);
    }
    *pos = *pos + 4;
    Ok(v as u32)
}

/// Reads eight little-endian bytes at `*pos` and moves past them.
pub fn read_fixed_u64(data: &[u8], pos: &mut usize) -> (r: Result<u64, StorageError>)
    requires
        *old(pos) <= data@.len(),
    ensures
        match fixed_at(data@, *old(pos) as nat, 8) {
            Some(v) => r == Ok::<u64, StorageError>(v as u64) && *final(pos) == *old(pos) + 8,
            None => r == Err::<u64, StorageError>(StorageError::Corrupt) && *final(pos) == *old(pos),
        },
{
    if data.len() - *pos < 8 {
        return Err(StorageError::Corrupt);
    }
    let v = read_le(data, *pos, 8);
    *pos = *pos + 8;
    Ok(v)
}

} // verus!
