//! Length-prefixed byte strings and UTF-8 strings: a varint length, then the bytes.
use vstd::prelude::*;
use vstd::utf8::{decode_utf8, encode_utf8, valid_utf8};

use crate::bytes::{copy_range, extend_from_range};
use crate::error::StorageError;
use crate::varint::{read_varint_u64, varint_encode, varint_u64_at, write_varint_usize};

verus! {

/// The length-prefixed encoding of `b`.
pub open spec fn lp_bytes(b: Seq<u8>) -> Seq<u8> {
    varint_encode(b.len()) + b
}

/// A length-prefixed byte string at the front of `s`, and the bytes it takes.
pub open spec fn lp_at(s: Seq<u8>) -> Option<(Seq<u8>, nat)> {
    match varint_u64_at(s) {
        Some((l, k)) => if k + l <= s.len() {
            Some((s.subrange(k as int, (k + l) as int), (k + l) as nat))
        } else {
            None
        },
        None => None,
    }
}

/// A length-prefixed UTF-8 string at the front of `s`, and the bytes it takes.
pub open spec fn lp_string_at(s: Seq<u8>) -> Option<(Seq<char>, nat)> {
    match lp_at(s) {
        Some((b, n)) => if valid_utf8(b) {
            Some((decode_utf8(b), n))
        } else {
            None
        },
        None => None,
    }
}

/// Relies on `String::from_utf8`: it accepts exactly the well-formed UTF-8
/// byte strings and keeps the characters they encode.
#[verifier::external_body]
fn string_from_utf8(bytes: Vec<u8>) -> (r: Option<String>)
    ensures
        r is Some == valid_utf8(bytes@),
        r matches Some(s) ==> s@ == decode_utf8(bytes@),
{
    String::from_utf8(bytes).ok()
}

/// Appends `value` with its length in front.
pub fn write_bytes(value: &[u8], out: &mut Vec<u8>)
    ensures
        final(out)@ == old(out)@ + lp_bytes(value@),
{
    let ghost start = out@;
    write_varint_usize(value.len(), out);
    extend_from_range(out, value, 0, value.len());
    assert(value@.subrange(0, value@.len() as int) =~= value@);
    assert(out@ =~= start + lp_bytes(value@));
}

/// Appends the UTF-8 bytes of `value` with their length in front.
pub fn write_string(value: &str, out: &mut Vec<u8>)
    ensures
        final(out)@ == old(out)@ + lp_bytes(encode_utf8(value@)),
{
    write_bytes(value.as_bytes(), out);
}

/// Reads a length-prefixed byte string at `*pos` and moves past it.
pub fn read_bytes(data: &[u8], pos: &mut usize) -> (r: Result<Vec<u8>, StorageError>)
    requires
        *old(pos) <= data@.len(),
    ensures
        *final(pos) <= data@.len(),
        match lp_at(data@.subrange(*old(pos) as int, data@.len() as int)) {
            Some((b, n)) => r matches Ok(v) && v@ == b && *final(pos) == *old(pos) + n,
            None => r == Err::<Vec<u8>, StorageError>(StorageError::Corrupt) && *final(pos) == *old(pos),
        },
{
    let start = *pos;
    let ghost s = data@.subrange(start as int, data@.len() as int);
    let len = match read_varint_u64(data, pos) {
        Ok(l) => l,
        Err(e) => return Err(e),
    };
    if len > (data.len() - *pos) as u64 {
        *pos = start;
        return Err(StorageError::Corrupt);
    }
    let end = *pos + len as usize;
    let v = copy_range(data, *pos, end);
    proof {
        let k = (*pos - start) as int;
        assert(data@.subrange(*pos as int, end as int) =~= s.subrange(k, k + len));
    }
    *pos = end;
    Ok(v)
}

/// Reads a length-prefixed UTF-8 string at `*pos` and moves past it;
/// malformed UTF-8 is `Corrupt`.
pub fn read_string(data: &[u8], pos: &mut usize) -> (r: Result<String, StorageError>)
    requires
        *old(pos) <= data@.len(),
    ensures
        *final(pos) <= data@.len(),
        match lp_string_at(data@.subrange(*old(pos) as int, data@.len() as int)) {
            Some((cs, n)) => r matches Ok(v) && v@ == cs && *final(pos) == *old(pos) + n,
            None => r == Err::<String, StorageError>(StorageError::Corrupt) && *final(pos) == *old(pos),
        },
{
    let start = *pos;
    let bytes = match read_bytes(data, pos) {
        Ok(b) => b,
        Err(e) => return Err(e),
    };
    match string_from_utf8(bytes) {
        Some(s) => Ok(s),
        None => {
            *pos = start;
            Err(StorageError::Corrupt)
        },
    }
}

} // verus!
