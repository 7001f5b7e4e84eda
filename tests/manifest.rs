use storage::db::{
    identity_entry, identity_text, manifest_bootstrap, manifest_seq, open_identity,
    wal_addition_entry, Db, DbCmd,
};
use storage::error::StorageError;
use storage::manifest::{read_entries, write_entries, ManifestLogEntry, NewFileTag, WalTag};
use storage::options::DbOptions;
use storage::wal_entry::WalEntry;

#[test]
fn manifest_entries_round_trip() {
    let entries = vec![
        ManifestLogEntry::DbId { db_id: "test2".to_string() },
        ManifestLogEntry::WalAddition { log_number: 0, tags: vec![WalTag::SyncedSize { size: 0 }] },
        ManifestLogEntry::LogNumber { log_number: 7 },
        ManifestLogEntry::DeletedFile { level: 2, file_number: 300 },
        ManifestLogEntry::NewFile {
            level: 1,
            file_number: 9,
            file_size: 4096,
            smallest: b"a".to_vec(),
            largest: b"z".to_vec(),
            smallest_seqno: 1,
            largest_seqno: 99,
            tags: vec![
                NewFileTag::NeedCompaction,
                NewFileTag::FileCreationTime { time: 1234 },
                NewFileTag::FileCheckSum { chec_sum: 77 },
                NewFileTag::FileCheckSumFuncName { func_name: "crc32".to_string() },
            ],
        },
        ManifestLogEntry::WalDeletion { log_number: 3 },
        ManifestLogEntry::MaxColumnFamily { max_column_family: 4 },
        ManifestLogEntry::InAtomicGroup { version_edit_count: 2 },
    ];
    let mut bytes = Vec::new();
    write_entries(&entries, &mut bytes);
    assert_eq!(&bytes[0..7], &[9, 5, b't', b'e', b's', b't', b'2']);
    assert_eq!(&bytes[7..12], &[10, 0, 1, 0, 0]);
    let (back, used) = read_entries(&bytes).unwrap();
    assert_eq!(used, bytes.len());
    assert_eq!(format!("{:?}", back), format!("{:?}", entries));
    // A torn last record ends the stream after the records before it.
    let (partial, used) = read_entries(&bytes[..bytes.len() - 1]).unwrap();
    assert_eq!(partial.len(), entries.len() - 1);
    assert!(used < bytes.len() - 1);
}

#[test]
fn manifest_rejects_unknown_type() {
    let mut pos = 0;
    assert!(matches!(ManifestLogEntry::read(&[12, 0], &mut pos), Err(StorageError::Corrupt)));
    let mut pos = 0;
    assert!(matches!(WalTag::read(&[5], &mut pos), Err(StorageError::Corrupt)));
    let mut pos = 0;
    assert!(matches!(NewFileTag::read(&[9], &mut pos), Err(StorageError::Corrupt)));
    assert_eq!(ManifestLogEntry::WalDeletion { log_number: 1 }.get_type(), 11);
    assert_eq!(WalTag::SyncedSize { size: 1 }.get_type(), 1);
    assert_eq!(NewFileTag::FileCheckSumFuncName { func_name: String::new() }.get_type(), 4);
}

#[test]
fn bootstrap_identity() {
    let id: u128 = 0x550e8400_e29b_41d4_a716_446655440000;
    let text = identity_text(id);
    assert_eq!(text, "550e8400-e29b-41d4-a716-446655440000");
    assert_eq!(open_identity(None, id), Ok((id, true)));
    assert_eq!(open_identity(Some(&text), 1), Ok((id, false)));
    assert_eq!(open_identity(Some("not a uuid"), 1), Err(StorageError::Corrupt));
    let bytes = manifest_bootstrap(id);
    let (entries, _) = read_entries(&bytes).unwrap();
    match &entries[0] {
        ManifestLogEntry::DbId { db_id } => assert_eq!(db_id, &text),
        _ => panic!("first record is not the identity"),
    }
    match identity_entry(id) {
        ManifestLogEntry::DbId { db_id } => assert_eq!(db_id, text),
        _ => panic!("not an identity record"),
    }
    match wal_addition_entry(0) {
        ManifestLogEntry::WalAddition { log_number, tags } => {
            assert_eq!(log_number, 0);
            assert!(tags.is_empty());
        }
        _ => panic!("not a log addition"),
    }
}

#[test]
fn current_file_name() {
    assert_eq!(manifest_seq(b"MANIFEST-0"), Ok(0));
    assert_eq!(manifest_seq(b"MANIFEST-42"), Ok(42));
    assert_eq!(manifest_seq(b"MANIFEST-"), Err(StorageError::Corrupt));
    assert_eq!(manifest_seq(b"MANIFEST-4x"), Err(StorageError::Corrupt));
    assert_eq!(manifest_seq(b"MANIFEXT-4"), Err(StorageError::Corrupt));
    assert_eq!(manifest_seq(b"MANIFEST-18446744073709551616"), Err(StorageError::Corrupt));
    assert_eq!(manifest_seq(b"MANIFEST-18446744073709551615"), Ok(u64::MAX));
}

#[test]
fn commit_sequence_numbers() {
    let mut db = Db::new(7, DbOptions::default());
    assert_eq!(db.id(), 7);
    let r0 = db.batch(vec![DbCmd::Put { key: b"foo".to_vec(), value: b"bar".to_vec() }]);
    let r1 = db.set(b"a", b"b");
    let r2 = db.delete(b"a");
    assert_eq!((r0.seq_num, r1.seq_num, r2.seq_num), (0, 1, 2));
    match &r0.entries[0] {
        WalEntry::Put { key, value } => {
            assert_eq!(key, b"foo");
            assert_eq!(value, b"bar");
        }
        _ => panic!("not a put"),
    }
    assert!(matches!(r2.entries[0], WalEntry::Delete { .. }));
    assert_eq!(db.get(b"foo"), None);
    let r3 = db.batch(vec![
        DbCmd::Delete { key: b"1".to_vec() },
        DbCmd::Put { key: b"2".to_vec(), value: b"3".to_vec() },
    ]);
    assert_eq!(r3.seq_num, 3);
    assert!(matches!(r3.entries[0], WalEntry::Delete { .. }));
    assert!(matches!(r3.entries[1], WalEntry::Put { .. }));
}

#[test]
fn manifest_torn_tail_and_corruption() {
    let entries = vec![
        ManifestLogEntry::LogNumber { log_number: 300 },
        ManifestLogEntry::DbId { db_id: "abc".to_string() },
        ManifestLogEntry::WalDeletion { log_number: 5 },
    ];
    let mut bytes = Vec::new();
    write_entries(&entries, &mut bytes);
    // Every cut inside the last record is a torn tail: the first two records come back.
    let last_start = bytes.len() - 2;
    for cut in last_start..bytes.len() {
        let (got, used) = read_entries(&bytes[..cut]).unwrap();
        assert_eq!(got.len(), 2);
        assert_eq!(used, last_start);
    }
    // A cut inside the identity record's text is torn too.
    let (got, _) = read_entries(&bytes[..5]).unwrap();
    assert_eq!(got.len(), 1);
    // An unknown record type before the end is corrupt.
    let mut bad = bytes.clone();
    bad[3] = 40;
    assert_eq!(read_entries(&bad).map(|r| r.1), Err(StorageError::Corrupt));
    // So is malformed UTF-8 in a complete identity record.
    let mut bad_text = bytes.clone();
    bad_text[5] = 0xff;
    assert_eq!(read_entries(&bad_text).map(|r| r.1), Err(StorageError::Corrupt));
}

#[test]
fn manifest_overlong_type_is_corrupt() {
    // An entry type written in six bytes is no 32-bit varint.
    let bytes = vec![0x81, 0x80, 0x80, 0x80, 0x80, 0x00, 7];
    let mut pos = 0;
    assert!(matches!(ManifestLogEntry::read(&bytes, &mut pos), Err(StorageError::Corrupt)));
    assert_eq!(read_entries(&bytes).map(|r| r.1), Err(StorageError::Corrupt));
    // Four continuation bytes at the end are a torn type.
    let (got, used) = read_entries(&[0x81, 0x80, 0x80, 0x80]).unwrap();
    assert!(got.is_empty());
    assert_eq!(used, 0);
}
