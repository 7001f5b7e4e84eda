//! CRC-32 (the reflected polynomial 0xEDB88320, as in zlib and Ethernet).
use vstd::prelude::*;

verus! {

pub open spec fn crc_step(c: u32) -> u32 {
    if c & 1u32 == 1u32 {
        (c >> 1u32) ^ 0xEDB88320u32
    } else {
        c >> 1u32
    }
}

/// The register after one more byte.
pub open spec fn crc_byte(c: u32, b: u8) -> u32 {
    let x = c ^ (b as u32);
    crc_step(crc_step(crc_step(crc_step(crc_step(crc_step(crc_step(crc_step(x))))))))
}

/// The register after the bytes of `d`, starting from all ones.
pub open spec fn crc_register(d: Seq<u8>) -> u32
    decreases d.len(),
{
    if d.len() == 0 {
        0xFFFF_FFFFu32
    } else {
        crc_byte(crc_register(d.drop_last()), d.last())
    }
}

/// The CRC-32 of `d`.
pub open spec fn crc32(d: Seq<u8>) -> u32 {
    crc_register(d) ^ 0xFFFF_FFFFu32
}

fn step(c: u32) -> (r: u32)
    ensures
        r == crc_step(c),
{
    if c & 1u32 == 1u32 {
        (c >> 1u32) ^ 0xEDB88320u32
    } else {
        c >> 1u32
    }
}

/// The CRC-32 of `data`.
pub fn crc32_hash(data: &[u8]) -> (r: u32)
    ensures
        r == crc32(data@),
{
    let mut c: u32 = 0xFFFF_FFFFu32;
    let mut i: usize = 0;
    assert(data@.take(0) =~= Seq::<u8>::empty());
    while i < data.len()
        invariant
            i <= data@.len(),
            c == crc_register(data@.take(i as int)),
        decreases data@.len() - i,
    {
        let x = c ^ (data[i] as u32);
        c = step(step(step(step(step(step(step(step(x))))))));
        proof {
            assert(data@.take(i + 1).drop_last() =~= data@.take(i as int));
        }
        i = i + 1;
    }
    assert(data@.take(i as int) =~= data@);
    c ^ 0xFFFF_FFFFu32
}

} // verus!
