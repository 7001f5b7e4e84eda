use storage::error::StorageError;
use storage::handle::SstBlockHandle;
use storage::options::DbOptions;
use storage::stats::SstStats;
use storage::table::{SstTable, SstTableWriter};

fn filter_params(item_count: usize, miss_rate: f64) -> (usize, u32) {
    let filter_size = (((item_count as f64) * miss_rate.ln())
        / (1.0f64 / 2.0f64.powf(2.0f64.ln())).ln())
    .ceil() as usize;
    let num_functions = ((filter_size as f64 / item_count as f64) * 2.0f64.ln()).round() as u32;
    (filter_size, num_functions)
}

/// A table of `count` entries `fooNNN -> fooNNN`, its bytes, and the table
/// opened from those bytes.
fn filled_table(count: usize, options: DbOptions) -> (Vec<u8>, SstTable) {
    let count_digit = (count - 1).to_string().len();
    let (bits, k) = filter_params(count, 0.01);
    let mut writer = SstTableWriter::new(options, bits, k);
    for i in 0..count {
        let key = format!("foo{:0>count_digit$}", i);
        writer.add(key.as_bytes(), key.as_bytes()).unwrap();
    }
    let (bytes, _) = writer.finish().unwrap();
    let table = SstTable::open(&bytes).unwrap();
    (bytes, table)
}

#[test]
fn table_read_write() {
    let (file, table) = filled_table(1000, DbOptions::default());

    let res = table.get(&file, b"foo382").unwrap();
    assert!(res.is_some());
    assert_eq!(res.unwrap(), b"foo382");

    let res2 = table.get(&file, b"foo383").unwrap();
    assert!(res2.is_some());
    assert_eq!(res2.unwrap(), b"foo383");

    let res3 = table.get(&file, b"foo384").unwrap();
    assert!(res3.is_some());
    assert_eq!(res3.unwrap(), b"foo384");

    let res4 = table.get(&file, b"abc").unwrap();
    assert!(res4.is_none());

    let res2 = table.get(&file, b"bar").unwrap();
    assert!(res2.is_none());
}

#[test]
fn iter_write() {
    let table_size = 10000;
    let (file, table) = filled_table(table_size, DbOptions::default());
    let entries = table.iter(&file).unwrap();
    let mut i = 0;
    for (key, value) in entries {
        let test = format!("foo{:0>4}", i);
        assert_eq!(key, test.as_bytes());
        assert_eq!(value, test.as_bytes());
        i += 1;
    }
    assert_eq!(i, table_size);
}

#[test]
fn iter_from_write() {
    let table_size = 1000;
    let options = DbOptions { sst_block_size: 4096, ..Default::default() };
    let (file, table) = filled_table(table_size, options);
    let entries = table.iter_from(&file, b"foo567").unwrap();
    let mut i = 567;
    for (key, value) in entries {
        let test = format!("foo{:0>3}", i);
        assert_eq!(String::from_utf8(key).unwrap(), test);
        assert_eq!(String::from_utf8(value).unwrap(), test);
        i += 1;
    }
    assert_eq!(i, table_size);
}

#[test]
fn table_every_key_found() {
    let (file, table) = filled_table(1000, DbOptions::default());
    assert!(table.index.len() > 1);
    for i in 0..1000 {
        let key = format!("foo{:0>3}", i);
        assert_eq!(table.get(&file, key.as_bytes()).unwrap(), Some(key.as_bytes().to_vec()));
    }
    assert_eq!(table.get(&file, b"foo1000").unwrap(), None);
    assert_eq!(table.get(&file, b"zzz").unwrap(), None);
}

#[test]
fn table_footer_and_meta_index() {
    let (file, _) = filled_table(300, DbOptions::default());
    let n = file.len();
    assert_eq!(&file[n - 8..], &0x78e50942a7d0c7beu64.to_le_bytes());
    let mut pos = n - 28;
    let meta = SstBlockHandle::read_from(&file, &mut pos).unwrap();
    assert_eq!(meta.offset + meta.size, (n - 28) as u64);
    assert!(file[pos..n - 8].iter().all(|b| *b == 0));
}

#[test]
fn table_writer_rejects_bad_input() {
    let (bits, k) = filter_params(10, 0.01);
    let mut writer = SstTableWriter::new(DbOptions::default(), bits, k);
    writer.add(b"b", b"1").unwrap();
    assert_eq!(writer.add(b"a", b"2"), Err(StorageError::Invariant));
    assert_eq!(writer.add(b"b", b"2"), Err(StorageError::Invariant));
    writer.add(b"c", b"3").unwrap();
    let (file, table) = writer.finish().unwrap();
    assert_eq!(table.get(&file, b"c").unwrap(), Some(b"3".to_vec()));
    let empty = SstTableWriter::new(DbOptions::default(), bits, k);
    assert!(matches!(empty.finish(), Err(StorageError::Invariant)));
}

#[test]
fn table_open_rejects_bad_magic() {
    let (mut file, _) = filled_table(50, DbOptions::default());
    let n = file.len();
    file[n - 1] ^= 0xff;
    assert!(matches!(SstTable::open(&file), Err(StorageError::Corrupt)));
    assert!(matches!(SstTable::open(&file[..10]), Err(StorageError::Corrupt)));
}

#[test]
fn block_handle_round_trip() {
    let h = SstBlockHandle::new(300, 5);
    let v = h.to_value();
    assert_eq!(v, vec![0xac, 0x02, 0x05]);
    let mut pos = 0;
    assert_eq!(SstBlockHandle::read_from(&v, &mut pos), Ok(h));
    let mut out = Vec::new();
    h.write(&mut out);
    assert_eq!(out, v);
}

#[test]
fn stats_counting() {
    let mut stats = SstStats::default();
    stats.add_entry(b"ab", b"cde");
    stats.add_entry(b"f", b"");
    stats.add_data_block(100);
    stats.set_index_size(7);
    stats.set_filter_size(9);
    assert_eq!(stats.entries_count, 2);
    assert_eq!(stats.raw_key_size, 3);
    assert_eq!(stats.raw_value_size, 3);
    assert_eq!(stats.data_block_count, 1);
    assert_eq!(stats.data_size, 100);
    assert_eq!(stats.index_size, 7);
    assert_eq!(stats.filter_size, 9);
}

#[test]
fn table_from_writer_answers_lookups() {
    // A filter probed a number of times other than 7: the table that `finish`
    // returns still answers lookups with its own probe count.
    let options = DbOptions::default();
    let mut writer = SstTableWriter::new(options, 2048, 3);
    for i in 0..300 {
        let key = format!("k{:03}", i);
        writer.add(key.as_bytes(), b"v").unwrap();
    }
    let (file, table) = writer.finish().unwrap();
    assert!(table.check());
    assert_eq!(table.filter.num_functions, 3);
    for i in 0..300 {
        let key = format!("k{:03}", i);
        assert_eq!(table.get(&file, key.as_bytes()).unwrap(), Some(b"v".to_vec()));
    }
    assert_eq!(table.get(&file, b"k300").unwrap(), None);
    assert_eq!(table.iter_from(&file, b"k298").unwrap().len(), 2);
}

#[test]
fn table_lookup_by_block() {
    let (file, table) = filled_table(1000, DbOptions::default());
    let h = table.block_for(b"foo500").unwrap();
    let block = file[h.offset as usize..(h.offset + h.size) as usize].to_vec();
    assert_eq!(storage::table::get_in_block(block, b"foo500").unwrap(), Some(b"foo500".to_vec()));
    assert!(table.block_for(b"abc").is_none());
}
