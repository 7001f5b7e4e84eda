//! Unsigned LEB128 varints: seven payload bits per byte, low group first,
//! the high bit set on every byte but the last.
use vstd::prelude::*;

use crate::error::StorageError;

verus! {

/// The LEB128 bytes of `n`.
pub open spec fn varint_encode(n: nat) -> Seq<u8>
    decreases n,
{
    if n < 128 {
        seq![n as u8]
    } else {
        seq![(n % 128 + 128) as u8] + varint_encode(n / 128)
    }
}

/// Decodes one varint from the front of `s`: its value and the number of
/// bytes it takes, or `None` when no byte without the high bit ends it.
pub open spec fn varint_decode(s: Seq<u8>) -> Option<(nat, nat)>
    decreases s.len(),
{
    if s.len() == 0 {
        None
    } else if s[0] < 128 {
        Some((s[0] as nat, 1))
    } else {
        match varint_decode(s.drop_first()) {
            Some((v, l)) => Some(((s[0] - 128) as nat + 128 * v, l + 1)),
            None => None,
        }
    }
}

/// The number of significant bits of `n` (0 for 0).
pub open spec fn bit_len(n: nat) -> nat
    decreases n,
{
    if n == 0 {
        0
    } else {
        1 + bit_len(n / 2)
    }
}

/// The closed form of a varint's length: one byte per started group of seven bits.
pub open spec fn varint_len(n: nat) -> nat {
    if n == 0 {
        1
    } else {
        ((bit_len(n) + 6) / 7) as nat
    }
}

pub open spec fn pow2(k: nat) -> nat
    decreases k,
{
    if k == 0 {
        1
    } else {
        2 * pow2((k - 1) as nat)
    }
}

pub open spec fn pow128(k: nat) -> nat
    decreases k,
{
    if k == 0 {
        1
    } else {
        128 * pow128((k - 1) as nat)
    }
}

/// The value of the first `i` seven-bit groups of `s`.
pub open spec fn group_sum(s: Seq<u8>, i: nat) -> nat
    decreases i,
{
    if i == 0 {
        0
    } else {
        group_sum(s, (i - 1) as nat) + (s[i - 1] % 128) as nat * pow128((i - 1) as nat)
    }
}

/// What `read_varint_u64` accepts: a terminated varint of at most ten bytes
/// whose value fits in 64 bits.
pub open spec fn varint_u64_at(s: Seq<u8>) -> Option<(nat, nat)> {
    match varint_decode(s) {
        Some((v, l)) => if v <= u64::MAX && l <= 10 {
            Some((v, l))
        } else {
            None
        },
        None => None,
    }
}

/// What `read_varint_u32` accepts: a terminated varint of at most five bytes
/// whose value fits in 32 bits.
pub open spec fn varint_u32_at(s: Seq<u8>) -> Option<(nat, nat)> {
    match varint_decode(s) {
        Some((v, l)) => if v <= u32::MAX && l <= 5 {
            Some((v, l))
        } else {
            None
        },
        None => None,
    }
}

proof fn lemma_pow2_pos(k: nat)
    ensures
        pow2(k) >= 1,
    decreases k,
{
    if k > 0 {
        lemma_pow2_pos((k - 1) as nat);
    }
}

proof fn lemma_pow128_pos(k: nat)
    ensures
        pow128(k) >= 1,
    decreases k,
{
    if k > 0 {
        lemma_pow128_pos((k - 1) as nat);
    }
}

proof fn lemma_bit_len_below(n: nat, k: nat)
    requires
        n < pow2(k),
    ensures
        bit_len(n) <= k,
    decreases k,
{
    if n > 0 {
        if k == 0 {
        } else {
            lemma_bit_len_below(n / 2, (k - 1) as nat);
        }
    }
}

proof fn lemma_bit_len_shift(n: nat, k: nat)
    requires
        n >= pow2(k),
    ensures
        bit_len(n) == k + bit_len(n / pow2(k)),
    decreases k,
{
    if k > 0 {
        let p = pow2((k - 1) as nat);
        lemma_pow2_pos((k - 1) as nat);
        assert(n / 2 >= p) by (nonlinear_arith)
            requires
                n >= 2 * p,
        ;
        lemma_bit_len_shift(n / 2, (k - 1) as nat);
        vstd::arithmetic::div_mod::lemma_div_denominator(n as int, 2, p as int);
        assert(pow2(k) == 2 * p);
        assert(n / pow2(k) == (n / 2) / p);
        assert(n != 0);
    } else {
        assert(pow2(0) == 1);
        assert(n / 1 == n);
    }
}

/// The encoded length matches the closed form.
pub proof fn lemma_varint_len(n: nat)
    ensures
        varint_encode(n).len() == varint_len(n),
    decreases n,
{
    reveal_with_fuel(pow2, 8);
    if n < 128 {
        if n > 0 {
            lemma_bit_len_below(n, 7);
        }
    } else {
        lemma_varint_len(n / 128);
        lemma_bit_len_shift(n, 7);
        assert(n / 128 >= 1);
    }
}

/// Decoding the encoding of `n`, whatever follows it, gives back `n` and the
/// encoding's length.
pub proof fn lemma_varint_round_trip(n: nat, rest: Seq<u8>)
    ensures
        varint_decode(varint_encode(n) + rest) == Some((n, varint_encode(n).len())),
    decreases n,
{
    let s = varint_encode(n) + rest;
    if n < 128 {
        assert(s[0] == n as u8);
    } else {
        lemma_varint_round_trip(n / 128, rest);
        assert(s.drop_first() =~= varint_encode(n / 128) + rest);
    }
}

/// Every value below 2^64 encodes in at most ten bytes.
pub proof fn lemma_varint_u64_round_trip(n: u64, rest: Seq<u8>)
    ensures
        varint_u64_at(varint_encode(n as nat) + rest) == Some((n as nat, varint_encode(n as nat).len())),
        varint_encode(n as nat).len() <= 10,
{
    lemma_varint_round_trip(n as nat, rest);
    lemma_varint_u64_len(n as nat);
}

proof fn lemma_varint_u64_len(n: nat)
    requires
        n <= u64::MAX,
    ensures
        varint_encode(n).len() <= 10,
{
    reveal_with_fuel(pow128, 11);
    assert(pow128(10) == 1180591620717411303424nat);
    lemma_varint_len_bound(n, 10);
}

proof fn lemma_varint_len_bound(n: nat, k: nat)
    requires
        k >= 1,
        n < pow128(k),
    ensures
        varint_encode(n).len() <= k,
    decreases k,
{
    reveal_with_fuel(pow128, 2);
    if n >= 128 {
        if k == 1 {
        } else {
            let p = pow128((k - 1) as nat);
            assert(n / 128 < p) by (nonlinear_arith)
                requires
                    n < 128 * p,
            ;
            lemma_varint_len_bound(n / 128, (k - 1) as nat);
        }
    }
}

/// Walking `i` bytes that all carry the high bit accumulates `group_sum`.
proof fn lemma_decode_prefix(s: Seq<u8>, i: nat)
    requires
        i <= s.len(),
        forall|k: int| 0 <= k < i ==> s[k] >= 128,
    ensures
        varint_decode(s) == match varint_decode(s.subrange(i as int, s.len() as int)) {
            Some((v, l)) => Some((group_sum(s, i) + pow128(i) * v, i + l)),
            None => None::<(nat, nat)>,
        },
    decreases i,
{
    if i > 0 {
        let t = s.drop_first();
        assert(s[0] >= 128);
        assert(varint_decode(s) == match varint_decode(t) {
            Some((v, l)) => Some(((s[0] - 128) as nat + 128 * v, l + 1)),
            None => None::<(nat, nat)>,
        });
        assert forall|k: int| 0 <= k < i - 1 implies t[k] >= 128 by {
            assert(t[k] == s[k + 1]);
        }
        lemma_decode_prefix(t, (i - 1) as nat);
        assert(t.subrange(i - 1, t.len() as int) =~= s.subrange(i as int, s.len() as int));
        lemma_group_sum_shift(s, i);
        match varint_decode(s.subrange(i as int, s.len() as int)) {
            Some((v, l)) => {
                let g = group_sum(t, (i - 1) as nat);
                let p = pow128((i - 1) as nat);
                let d = (s[0] % 128) as nat;
                assert((s[0] - 128) as nat == d);
                assert(pow128(i) == 128 * p);
                assert(d + 128 * (g + p * v) == (d + 128 * g) + (128 * p) * v) by (nonlinear_arith);
                assert(varint_decode(t) == Some((g + p * v, ((i - 1) + l) as nat)));
                assert(group_sum(s, i) + pow128(i) * v == d + 128 * (g + p * v));
            },
            None => {},
        }
    } else {
        assert(s.subrange(0, s.len() as int) =~= s);
        assert(pow128(0) == 1);
        match varint_decode(s) {
            Some((v, l)) => {
                assert(1 * v == v) by (nonlinear_arith);
            },
            None => {},
        }
    }
}

proof fn lemma_group_sum_shift(s: Seq<u8>, i: nat)
    requires
        1 <= i <= s.len(),
    ensures
        group_sum(s, i) == (s[0] % 128) as nat + 128 * group_sum(s.drop_first(), (i - 1) as nat),
    decreases i,
{
    let t = s.drop_first();
    assert(t.len() == s.len() - 1);
    if i > 1 {
        lemma_group_sum_shift(s, (i - 1) as nat);
        let d = (s[i - 1] % 128) as nat;
        let p = pow128((i - 2) as nat);
        let g = group_sum(t, (i - 2) as nat);
        assert(t[i - 2] == s[i - 1]);
        assert(pow128((i - 1) as nat) == 128 * p);
        assert(group_sum(t, (i - 1) as nat) == g + d * p);
        assert(group_sum(s, i) == group_sum(s, (i - 1) as nat) + d * (128 * p));
        assert(d * (128 * p) == 128 * (d * p)) by (nonlinear_arith);
        assert(128 * (g + d * p) == 128 * g + 128 * (d * p)) by (nonlinear_arith);
        assert(group_sum(s, (i - 1) as nat) == (s[0] % 128) as nat + 128 * g);
        assert(group_sum(s, i) == (s[0] % 128) as nat + 128 * group_sum(t, (i - 1) as nat));
    } else {
        assert(group_sum(s, 1) == group_sum(s, 0) + (s[0] % 128) as nat * pow128(0));
        assert(group_sum(t, 0) == 0);
        assert(pow128(0) == 1);
        let d0 = (s[0] % 128) as nat;
        assert(d0 * 1 == d0) by (nonlinear_arith);
        assert(group_sum(s, 1) == d0);
        assert(group_sum(s, i) == (s[0] % 128) as nat + 128 * group_sum(t, (i - 1) as nat));
    }
}

proof fn lemma_group_sum_bound(s: Seq<u8>, i: nat)
    requires
        i <= s.len(),
    ensures
        group_sum(s, i) < pow128(i),
    decreases i,
{
    if i > 0 {
        lemma_group_sum_bound(s, (i - 1) as nat);
        let d = (s[i - 1] % 128) as nat;
        let p = pow128((i - 1) as nat);
        let g = group_sum(s, (i - 1) as nat);
        assert(g + d * p < 128 * p) by (nonlinear_arith)
            requires
                g < p,
                d < 128,
        ;
    }
}

/// Appends the varint encoding of `value` to `out`.
pub fn write_varint_u64(value: u64, out: &mut Vec<u8>)
    ensures
        final(out)@ == old(out)@ + varint_encode(value as nat),
{
    let mut v: u64 = value;
    let ghost start = out@;
    while v >= 128
        invariant
            start + varint_encode(value as nat) == out@ + varint_encode(v as nat),
        decreases v,
    {
        let ghost before = out@;
        out.push((v % 128 + 128) as u8);
        assert(before + varint_encode(v as nat) =~= out@ + varint_encode((v / 128) as nat));
        v = v / 128;
    }
    let ghost before = out@;
    out.push(v as u8);
    assert(varint_encode(v as nat) == seq![v as u8]);
    assert(out@ =~= before + varint_encode(v as nat));
}

pub fn write_varint_u32(value: u32, out: &mut Vec<u8>)
    ensures
        final(out)@ == old(out)@ + varint_encode(value as nat),
{
    write_varint_u64(value as u64, out);
}

pub fn write_varint_usize(value: usize, out: &mut Vec<u8>)
    ensures
        final(out)@ == old(out)@ + varint_encode(value as nat),
{
    write_varint_u64(value as u64, out);
}

/// The number of bytes that `write_varint_u64` writes for `value`.
pub fn len_varint_u64(value: u64) -> (r: usize)
    ensures
        r == varint_encode(value as nat).len(),
        r == varint_len(value as nat),
        1 <= r <= 10,
{
    let mut v: u64 = value;
    let mut length: usize = 0;
    proof {
        lemma_varint_len(value as nat);
        lemma_varint_u64_len(value as nat);
    }
    loop
        invariant
            length + varint_encode(v as nat).len() == varint_encode(value as nat).len(),
            varint_encode(value as nat).len() <= 10,
            varint_encode(value as nat).len() == varint_len(value as nat),
        decreases v,
    {
        length += 1;
        v = v / 128;
        if v == 0 {
            return length;
        }
    }
}

pub fn len_varint_u32(value: u32) -> (r: usize)
    ensures
        r == varint_encode(value as nat).len(),
        r == varint_len(value as nat),
        1 <= r <= 5,
{
    proof {
        reveal_with_fuel(pow128, 6);
        lemma_varint_len_bound(value as nat, 5);
    }
    len_varint_u64(value as u64)
}

pub fn len_varint_usize(value: usize) -> (r: usize)
    ensures
        r == varint_encode(value as nat).len(),
        r == varint_len(value as nat),
        1 <= r <= 10,
{
    len_varint_u64(value as u64)
}

/// Reads one varint at `*pos` in `data` and moves `*pos` past it. Fails with
/// `Corrupt`, leaving `*pos` as it was, where the bytes end before the varint
/// does, where it runs over ten bytes, or where its value exceeds 64 bits.
pub fn read_varint_u64(data: &[u8], pos: &mut usize) -> (r: Result<u64, StorageError>)
    requires
        *old(pos) <= data@.len(),
    ensures
        match varint_u64_at(data@.subrange(*old(pos) as int, data@.len() as int)) {
            Some((v, l)) => r == Ok::<u64, StorageError>(v as u64) && *final(pos) == *old(pos) + l,
            None => r == Err::<u64, StorageError>(StorageError::Corrupt) && *final(pos) == *old(pos),
        },
        *final(pos) <= data@.len(),
        r is Ok ==> *final(pos) > *old(pos),
{
    proof {
        lemma_varint_decode_bounds(data@.subrange(*pos as int, data@.len() as int));
    }
    let start = *pos;
    let ghost s = data@.subrange(start as int, data@.len() as int);
    let mut value: u64 = 0;
    let mut mult: u64 = 1;
    let mut i: usize = 0;
    loop
        invariant
            start + i <= data@.len(),
            i < 10,
            s == data@.subrange(start as int, data@.len() as int),
            *pos == start,
            start == *old(pos),
            value as nat == group_sum(s, i as nat),
            mult as nat == pow128(i as nat),
            forall|k: int| 0 <= k < i ==> s[k] >= 128,
        decreases 10 - i,
    {
        proof {
            lemma_decode_prefix(s, i as nat);
        }
        if i >= data.len() - start {
            proof {
                assert(s.subrange(i as int, s.len() as int).len() == 0);
            }
            return Err(StorageError::Corrupt);
        }
        let b = data[start + i];
        let digit: u64 = (b % 128) as u64;
        let ghost tail = s.subrange(i as int, s.len() as int);
        proof {
            assert(tail[0] == b);
            lemma_group_sum_bound(s, i as nat);
            lemma_pow128_pos(i as nat);
        }
        let room: u64 = (u64::MAX - value) / mult;
        if digit > room {
            proof {
                // The value so far already exceeds 64 bits, whatever follows.
                assert(value + digit * mult > u64::MAX) by (nonlinear_arith)
                    requires
                        digit > room,
                        room as int == (u64::MAX - value) as int / mult as int,
                        mult >= 1,
                        value <= u64::MAX,
                ;
                lemma_decode_overflow(s, i as nat);
            }
            return Err(StorageError::Corrupt);
        }
        proof {
            assert(digit * mult <= u64::MAX - value) by (nonlinear_arith)
                requires
                    digit <= room,
                    room as int == (u64::MAX - value) as int / mult as int,
                    mult >= 1,
                    value <= u64::MAX,
            ;
        }
        value = value + digit * mult;
        i = i + 1;
        proof {
            assert(s[i - 1] == b);
            assert(group_sum(s, i as nat) == group_sum(s, (i - 1) as nat) + (s[i - 1] % 128) as nat * pow128((i - 1) as nat));
            assert(digit * mult == (s[i - 1] % 128) as nat * pow128((i - 1) as nat)) by (nonlinear_arith)
                requires
                    digit == s[i - 1] % 128,
                    mult == pow128((i - 1) as nat),
            ;
        }
        if b < 128 {
            proof {
                lemma_decode_prefix(s, (i - 1) as nat);
                assert(varint_decode(tail) == Some((b as nat, 1nat)));
                assert(digit == b);
                assert(pow128((i - 1) as nat) * (b as nat) == (b as nat) * pow128((i - 1) as nat)) by (nonlinear_arith);
                assert(varint_decode(s) == Some((value as nat, i as nat)));
                assert(varint_u64_at(s) == Some((value as nat, i as nat)));
            }
            *pos = start + i;
            return Ok(value);
        }
        if i >= 10 {
            proof {
                lemma_decode_prefix(s, i as nat);
                lemma_decode_len(s.subrange(i as int, s.len() as int));
            }
            return Err(StorageError::Corrupt);
        }
        proof {
            lemma_pow128_mono((i - 1) as nat, 8);
            reveal_with_fuel(pow128, 9);
            assert(pow128(8) == 72057594037927936nat);
        }
        mult = mult * 128;
    }
}

proof fn lemma_pow128_mono(a: nat, b: nat)
    requires
        a <= b,
    ensures
        pow128(a) <= pow128(b),
    decreases b,
{
    if a < b {
        lemma_pow128_mono(a, (b - 1) as nat);
    }
}

/// A decoded varint takes at least one byte and no more than there are.
pub proof fn lemma_varint_decode_bounds(s: Seq<u8>)
    ensures
        varint_decode(s) matches Some((v, l)) ==> 1 <= l <= s.len(),
    decreases s.len(),
{
    if s.len() > 0 && s[0] >= 128 {
        lemma_varint_decode_bounds(s.drop_first());
    }
}

proof fn lemma_decode_len(s: Seq<u8>)
    ensures
        varint_decode(s) matches Some((v, l)) ==> l >= 1,
    decreases s.len(),
{
    if s.len() > 0 && s[0] >= 128 {
        lemma_decode_len(s.drop_first());
    }
}

/// Once the groups read so far plus the next one exceed 64 bits, no
/// completion of the varint fits.
proof fn lemma_decode_overflow(s: Seq<u8>, i: nat)
    requires
        i < s.len(),
        forall|k: int| 0 <= k < i ==> s[k] >= 128,
        group_sum(s, i) + (s[i as int] % 128) as nat * pow128(i) > u64::MAX,
    ensures
        varint_u64_at(s) is None,
{
    lemma_decode_prefix(s, i);
    let t = s.subrange(i as int, s.len() as int);
    assert(t[0] == s[i as int]);
    match varint_decode(t) {
        Some((v, l)) => {
            lemma_decode_low_group(t);
            let d = (s[i as int] % 128) as nat;
            let p = pow128(i);
            assert(p * v >= d * p) by (nonlinear_arith)
                requires
                    v >= d,
            ;
        },
        None => {},
    }
}

proof fn lemma_decode_low_group(t: Seq<u8>)
    requires
        t.len() > 0,
    ensures
        varint_decode(t) matches Some((v, l)) ==> v >= (t[0] % 128) as nat,
{
}

/// Reads a varint of at most five bytes holding a 32-bit value at `*pos`;
/// anything longer or larger is `Corrupt`.
pub fn read_varint_u32(data: &[u8], pos: &mut usize) -> (r: Result<u32, StorageError>)
    requires
        *old(pos) <= data@.len(),
    ensures
        *final(pos) <= data@.len(),
        r is Ok ==> *final(pos) > *old(pos),
        match varint_u32_at(data@.subrange(*old(pos) as int, data@.len() as int)) {
            Some((v, l)) => r == Ok::<u32, StorageError>(v as u32) && *final(pos) == *old(pos) + l,
            None => r == Err::<u32, StorageError>(StorageError::Corrupt) && *final(pos) == *old(pos),
        },
{
    let start = *pos;
    match read_varint_u64(data, pos) {
        Ok(v) => {
            if v > u32::MAX as u64 || *pos - start > 5 {
                *pos = start;
                Err(StorageError::Corrupt)
            } else {
                Ok(v as u32)
            }
        },
        Err(e) => Err(e),
    }
}

pub fn read_varint_usize(data: &[u8], pos: &mut usize) -> (r: Result<usize, StorageError>)
    requires
        *old(pos) <= data@.len(),
    ensures
        *final(pos) <= data@.len(),
        r is Ok ==> *final(pos) > *old(pos),
        match varint_u64_at(data@.subrange(*old(pos) as int, data@.len() as int)) {
            Some((v, l)) => if v <= usize::MAX {
                r == Ok::<usize, StorageError>(v as usize) && *final(pos) == *old(pos) + l
            } else {
                r == Err::<usize, StorageError>(StorageError::Corrupt) && *final(pos) == *old(pos)
            },
            None => r == Err::<usize, StorageError>(StorageError::Corrupt) && *final(pos) == *old(pos),
        },
{
    let start = *pos;
    match read_varint_u64(data, pos) {
        Ok(v) => {
            if v > usize::MAX as u64 {
                *pos = start;
                Err(StorageError::Corrupt)
            } else {
                Ok(v as usize)
            }
        },
        Err(e) => Err(e),
    }
}

/// Byte `i` of the encoding of `n` holds the `i`-th group of seven bits of
/// `n`, with the high bit set on every byte but the last.
pub proof fn lemma_varint_bytes(n: nat)
    ensures
        forall|i: int|
            0 <= i < varint_encode(n).len() ==> #[trigger] varint_encode(n)[i] as nat == (n / pow128(i as nat)) % 128 + (
            if i + 1 < varint_encode(n).len() {
                128nat
            } else {
                0nat
            }),
    decreases n,
{
    let e = varint_encode(n);
    if n < 128 {
        assert(pow128(0) == 1);
        assert(n / 1 == n);
    } else {
        let t = varint_encode(n / 128);
        lemma_varint_bytes(n / 128);
        assert(t.len() >= 1) by {
            lemma_varint_len_pos(n / 128);
        }
        assert forall|i: int| 0 <= i < e.len() implies #[trigger] e[i] as nat == (n / pow128(i as nat)) % 128 + (
        if i + 1 < e.len() {
            128nat
        } else {
            0nat
        }) by {
            if i == 0 {
                assert(pow128(0) == 1);
                assert(n / 1 == n);
            } else {
                assert(e[i] == t[i - 1]);
                let p = pow128((i - 1) as nat);
                lemma_pow128_pos((i - 1) as nat);
                assert(pow128(i as nat) == 128 * p);
                vstd::arithmetic::div_mod::lemma_div_denominator(n as int, 128, p as int);
            }
        }
    }
}

proof fn lemma_varint_len_pos(n: nat)
    ensures
        varint_encode(n).len() >= 1,
    decreases n,
{
    if n >= 128 {
        lemma_varint_len_pos(n / 128);
    }
}

} // verus!
