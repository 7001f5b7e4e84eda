use storage::block::{SstBlockReader, SstBlockWriter};
use storage::bytes::slice_shared_offset;
use storage::error::StorageError;

#[test]
fn slice_shared_offset_test() {
    assert_eq!(slice_shared_offset(b"hello", b"world"), 0);
    assert_eq!(slice_shared_offset(b"hello", b"hell"), 4);
    assert_eq!(slice_shared_offset(b"hello", b"hello"), 5);
    assert_eq!(slice_shared_offset(b"hello", b"hello world"), 5);
}

fn three_entry_block() -> Vec<u8> {
    let mut writer = SstBlockWriter::new(16);
    writer.append(b"hello0", b"world0");
    writer.append(b"hello1", b"world1");
    writer.append(b"hello2", b"world2");
    let (_, block) = writer.finalize();
    block
}

#[test]
fn read_none() {
    let block = three_entry_block();
    let reader = SstBlockReader::new(block).unwrap();
    assert_eq!(reader.get(b"test").unwrap(), None);
    assert_eq!(reader.get(b"abc").unwrap(), None);
}

#[test]
fn writer_read_write() {
    let block = three_entry_block();
    let reader = SstBlockReader::new(block).unwrap();
    let entries = reader.iter().unwrap();
    let mut iter = entries.into_iter();

    let (key0, value0) = iter.next().unwrap();
    assert_eq!(key0, b"hello0");
    assert_eq!(value0, b"world0");

    let (key1, value1) = iter.next().unwrap();
    assert_eq!(key1, b"hello1");
    assert_eq!(value1, b"world1");

    let (key2, value2) = iter.next().unwrap();
    assert_eq!(key2, b"hello2");
    assert_eq!(value2, b"world2");

    assert_eq!(iter.next(), None);
}

#[test]
fn block_prefix_compression_layout() {
    let block = three_entry_block();
    // First entry whole: shared 0, 6 key bytes, 6 value bytes.
    assert_eq!(&block[0..3], &[0, 6, 6]);
    assert_eq!(&block[3..9], b"hello0");
    // Second entry shares "hello".
    assert_eq!(&block[15..18], &[5, 1, 6]);
    // Restart array [0] and count 1.
    let n = block.len();
    assert_eq!(&block[n - 8..], &[0, 0, 0, 0, 1, 0, 0, 0]);
    let mut writer = SstBlockWriter::new(16);
    writer.append(b"hello0", b"world0");
    writer.append(b"hello1", b"world1");
    assert_eq!(writer.estimate_after_append(b"hello2", b"world2"), n);
}

#[test]
fn block_round_trip_with_restarts() {
    let mut writer = SstBlockWriter::new(4);
    let mut expected = Vec::new();
    for i in 0..50u32 {
        let key = format!("key{:03}", i).into_bytes();
        let value = format!("v{}", i * 7).into_bytes();
        writer.append(&key, &value);
        expected.push((key, value));
    }
    assert!(!writer.is_empty());
    let (first, block) = writer.finalize();
    assert_eq!(first, b"key000".to_vec());
    // 50 entries restarting every 4: restarts at 0, 4, 8, ..., 48.
    let n = block.len();
    assert_eq!(u32::from_le_bytes([block[n - 4], block[n - 3], block[n - 2], block[n - 1]]), 13);
    let reader = SstBlockReader::new(block.clone()).unwrap();
    assert_eq!(reader.iter().unwrap(), expected);
    for (k, v) in &expected {
        assert_eq!(reader.get(k).unwrap(), Some(v.clone()));
    }
    assert_eq!(reader.get(b"key0505").unwrap(), None);
    let from = reader.iter_from(b"key0455").unwrap();
    assert_eq!(from, expected[46..].to_vec());
    // Every restart offset points at an entry whose shared length is 0.
    for j in 0..13usize {
        let base = n - 4 * 14;
        let off = u32::from_le_bytes([block[base + 4 * j], block[base + 4 * j + 1], block[base + 4 * j + 2], block[base + 4 * j + 3]]) as usize;
        assert_eq!(block[off], 0);
    }
}

#[test]
fn block_reader_rejects_corruption() {
    assert!(matches!(SstBlockReader::new(vec![1, 0]), Err(StorageError::Corrupt)));
    assert!(matches!(SstBlockReader::new(vec![0, 0, 0, 9]), Err(StorageError::Corrupt)));
    // A restart offset at the end of the (here empty) entry region points at no entry.
    assert!(matches!(SstBlockReader::new(vec![0, 0, 0, 0, 1, 0, 0, 0]), Err(StorageError::Corrupt)));
    let mut block = three_entry_block();
    block[1] = 200;
    let reader = SstBlockReader::new(block).unwrap();
    assert_eq!(reader.iter(), Err(StorageError::Corrupt));
}

#[test]
fn block_seek_from_restarts() {
    // Restarts every 3 entries; keys k00, k02, ..., k58 (even numbers only).
    let mut writer = SstBlockWriter::new(3);
    let mut expected = Vec::new();
    for i in (0..60u32).step_by(2) {
        let key = format!("k{:02}", i).into_bytes();
        let value = vec![i as u8];
        writer.append(&key, &value);
        expected.push((key, value));
    }
    let (_, block) = writer.finalize();
    let reader = SstBlockReader::new(block).unwrap();
    // Before the first key, between keys, at a restart key, after the last key.
    assert_eq!(reader.iter_from(b"a").unwrap(), expected);
    assert_eq!(reader.iter_from(b"k07").unwrap(), expected[4..].to_vec());
    assert_eq!(reader.iter_from(b"k12").unwrap(), expected[6..].to_vec());
    assert_eq!(reader.iter_from(b"z").unwrap(), vec![]);
    for (k, v) in &expected {
        assert_eq!(reader.get(k).unwrap(), Some(v.clone()));
    }
    assert_eq!(reader.get(b"k07").unwrap(), None);
    assert_eq!(reader.get(b"a").unwrap(), None);
    assert_eq!(reader.get(b"z").unwrap(), None);
}
