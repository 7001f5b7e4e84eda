use storage::crc32::crc32_hash;
use storage::options::DbOptions;
use storage::wal::{read_records, Wal};
use storage::wal_entry::{WalEntry, WalRequest};

#[test]
fn crc32_check_value() {
    assert_eq!(crc32_hash(b"123456789"), 0xCBF43926);
    assert_eq!(crc32_hash(b""), 0);
}

#[test]
fn wal_test() {
    let mut wal = Wal::create(0, DbOptions::default());
    let bytes = wal.append(b"Hello world");
    assert_eq!(bytes.len(), 7 + 11);
    assert_eq!(bytes[6], 1);
    assert_eq!(&bytes[4..6], &[11, 0]);
    assert_eq!(read_records(&bytes, 32768), vec![b"Hello world".to_vec()]);
}

#[test]
fn wal_long() {
    let mut wal = Wal::create(0, DbOptions::default());
    let records = vec![vec![b'a'; 1000], vec![b'b'; 97270], vec![b'c'; 8000]];
    let mut log = Vec::new();
    for r in &records {
        log.extend(wal.append(r));
    }
    assert_eq!(read_records(&log, 32768), records);
}

#[test]
fn wal_padding_and_truncation() {
    let options = DbOptions { wal_block_size: 64, ..Default::default() };
    let mut wal = Wal::create(3, options);
    // 64 - 7 - 52 = 5 bytes left: padded.
    let first = wal.append(&[1u8; 52]);
    assert_eq!(first.len(), 64);
    assert_eq!(&first[59..], &[0, 0, 0, 0, 0]);
    let records: Vec<Vec<u8>> = vec![vec![1u8; 52], vec![2u8; 150], vec![3u8; 3], vec![4u8; 57]];
    let mut log = first;
    for r in &records[1..] {
        log.extend(wal.append(r));
    }
    assert_eq!(read_records(&log, 64), records);
    for cut in 0..log.len() {
        let got = read_records(&log[..cut], 64);
        assert!(got.len() <= records.len());
        assert_eq!(got[..], records[..got.len()]);
    }
    let mut bad = log.clone();
    bad[70] ^= 1;
    assert_eq!(read_records(&bad, 64), records[..1].to_vec());
}

#[test]
fn wal_load_resumes_block() {
    let options = DbOptions { wal_block_size: 64, ..Default::default() };
    let mut wal = Wal::create(0, options.clone());
    let mut log = wal.append(&[9u8; 10]);
    let mut resumed = Wal::load(0, options, log.len());
    log.extend(resumed.append(&[8u8; 100]));
    assert_eq!(read_records(&log, 64), vec![vec![9u8; 10], vec![8u8; 100]]);
}

#[test]
fn wal_request_payload() {
    let req = WalRequest::new(
        5,
        vec![
            WalEntry::Put { key: b"k".to_vec(), value: b"vv".to_vec() },
            WalEntry::Delete { key: b"x".to_vec() },
        ],
    );
    let bytes = req.to_vec();
    assert_eq!(
        bytes,
        vec![5, 0, 0, 0, 0, 0, 0, 0, 2, 0, 0, 0, 1, 1, b'k', 2, b'v', b'v', 2, 1, b'x']
    );
    let mut one = Vec::new();
    WalEntry::Delete { key: b"x".to_vec() }.write(&mut one);
    assert_eq!(one, vec![2, 1, b'x']);
}

#[test]
fn wal_record_after_exactly_a_header_left() {
    // The first record leaves exactly seven bytes in a 15-byte block.
    let options = DbOptions { wal_block_size: 15, ..Default::default() };
    let mut wal = Wal::create(0, options);
    let mut log = wal.append(&[97]);
    log.extend(wal.append(&[98]));
    assert_eq!(read_records(&log, 15), vec![vec![97u8], vec![98u8]]);
    // The same with the default block size after a 32754-byte record.
    let mut wal = Wal::create(0, DbOptions::default());
    let records = vec![vec![1u8; 32754], vec![2u8; 40], vec![3u8; 5]];
    let mut log = Vec::new();
    for r in &records {
        log.extend(wal.append(r));
    }
    assert_eq!(read_records(&log, 32768), records);
}
