use storage::fixedint::{
    read_fixed_u16, read_fixed_u32, read_fixed_u64, read_fixed_u8, write_fixed_u16,
    write_fixed_u32, write_fixed_u64, write_fixed_u8,
};
use storage::string::{read_bytes, read_string, write_bytes, write_string};
use storage::varint::{
    len_varint_u32, len_varint_u64, len_varint_usize, read_varint_u32, read_varint_u64,
    read_varint_usize, write_varint_u32, write_varint_u64, write_varint_usize,
};
use storage::error::StorageError;

#[test]
fn varint_varint_write_test() {
    let mut buffer = Vec::new();
    write_varint_u32(150u32, &mut buffer);
    write_varint_u64(150u64, &mut buffer);
    write_varint_usize(150usize, &mut buffer);
    assert_eq!(buffer, vec![150, 01, 150, 01, 150, 01]);
}

#[test]
fn varint_varint_read_test() {
    let buffer = vec![150, 1];
    let mut pos = 0;
    let res: u64 = read_varint_u64(&buffer, &mut pos).unwrap();
    assert_eq!(res, 150);
}

#[test]
fn varint_varint_length_test() {
    assert_eq!(len_varint_u32(150u32), 2);
    assert_eq!(len_varint_u64(150u64), 2);
    assert_eq!(len_varint_usize(150usize), 2);
}

#[test]
fn varint_round_trip_edges() {
    for &n in &[0u64, 1, 127, 128, 255, 16383, 16384, u32::MAX as u64, u64::MAX - 1, u64::MAX] {
        let mut buf = Vec::new();
        write_varint_u64(n, &mut buf);
        assert_eq!(buf.len(), len_varint_u64(n));
        let bits = 64 - n.leading_zeros() as usize;
        let closed_form = if n == 0 { 1 } else { (bits + 6) / 7 };
        assert_eq!(buf.len(), closed_form);
        let mut pos = 0;
        assert_eq!(read_varint_u64(&buf, &mut pos), Ok(n));
        assert_eq!(pos, buf.len());
    }
    let mut buf = Vec::new();
    write_varint_u64(u64::MAX, &mut buf);
    assert_eq!(buf.len(), 10);
}

#[test]
fn varint_read_errors() {
    let mut pos = 0;
    assert_eq!(read_varint_u64(&[0x80, 0x80], &mut pos), Err(StorageError::Corrupt));
    assert_eq!(pos, 0);
    let too_long = vec![0x80u8; 11];
    assert_eq!(read_varint_u64(&too_long, &mut pos), Err(StorageError::Corrupt));
    let over = vec![0xff, 0xff, 0xff, 0xff, 0xff, 0xff, 0xff, 0xff, 0xff, 0x02];
    assert_eq!(read_varint_u64(&over, &mut pos), Err(StorageError::Corrupt));
    let mut buf = Vec::new();
    write_varint_u64(u32::MAX as u64 + 1, &mut buf);
    assert_eq!(read_varint_u32(&buf, &mut pos), Err(StorageError::Corrupt));
    assert_eq!(pos, 0);
    assert_eq!(read_varint_usize(&[5], &mut pos), Ok(5));
    assert_eq!(pos, 1);
}

#[test]
fn fixed_int_round_trip() {
    let mut buf = Vec::new();
    write_fixed_u8(0xab, &mut buf);
    write_fixed_u16(0x1234, &mut buf);
    write_fixed_u32(0xdeadbeef, &mut buf);
    write_fixed_u64(0x0102030405060708, &mut buf);
    assert_eq!(&buf[0..7], &[0xab, 0x34, 0x12, 0xef, 0xbe, 0xad, 0xde]);
    let mut pos = 0;
    assert_eq!(read_fixed_u8(&buf, &mut pos), Ok(0xab));
    assert_eq!(read_fixed_u16(&buf, &mut pos), Ok(0x1234));
    assert_eq!(read_fixed_u32(&buf, &mut pos), Ok(0xdeadbeef));
    assert_eq!(read_fixed_u64(&buf, &mut pos), Ok(0x0102030405060708));
    assert_eq!(read_fixed_u8(&buf, &mut pos), Err(StorageError::Corrupt));
}

#[test]
fn length_prefixed_strings() {
    let mut buf = Vec::new();
    write_bytes(b"abc", &mut buf);
    write_string("h\u{e9}llo", &mut buf);
    assert_eq!(&buf[0..4], &[3, b'a', b'b', b'c']);
    let mut pos = 0;
    assert_eq!(read_bytes(&buf, &mut pos).unwrap(), b"abc".to_vec());
    assert_eq!(read_string(&buf, &mut pos).unwrap(), "h\u{e9}llo".to_string());
    assert_eq!(pos, buf.len());
    let bad = vec![2u8, 0xc3, 0x28];
    let mut p = 0;
    assert_eq!(read_string(&bad, &mut p), Err(StorageError::Corrupt));
    let short = vec![5u8, 1, 2];
    assert_eq!(read_bytes(&short, &mut p), Err(StorageError::Corrupt));
}

#[test]
fn len_varint_length_test() {
    assert_eq!(len_varint_u32(150u32), 2);
    assert_eq!(len_varint_u64(150u64), 2);
    assert_eq!(len_varint_usize(150usize), 2);
}

#[test]
fn read_varint_read_test() {
    let buffer = vec![150, 1];
    let mut pos = 0;
    let res: u64 = read_varint_u64(&buffer, &mut pos).unwrap();
    assert_eq!(res, 150);
}

#[test]
fn write_varint_write_test() {
    let mut buffer = Vec::new();
    write_varint_u32(150u32, &mut buffer);
    write_varint_u64(150u64, &mut buffer);
    write_varint_usize(150usize, &mut buffer);
    assert_eq!(buffer, vec![150, 01, 150, 01, 150, 01]);
}

#[test]
fn varint_u32_at_most_five_bytes() {
    let mut pos = 0;
    assert_eq!(read_varint_u32(&[0x80, 0x80, 0x80, 0x80, 0x80, 0x00], &mut pos), Err(StorageError::Corrupt));
    assert_eq!(pos, 0);
    let mut buf = Vec::new();
    write_varint_u32(u32::MAX, &mut buf);
    assert_eq!(buf.len(), 5);
    assert_eq!(read_varint_u32(&buf, &mut pos), Ok(u32::MAX));
    let mut p = 0;
    assert_eq!(read_varint_u64(&[0x80, 0x80, 0x80, 0x80, 0x80, 0x00], &mut p), Ok(0));
}
