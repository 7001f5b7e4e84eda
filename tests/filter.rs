use storage::bitvec::BitVec;
use storage::filter::SstFilter;
use storage::murmur3::{murmur3_hash, Murmur3Hasher};

/// The filter size and probe count for `item_count` items at `miss_rate`.
fn filter_params(item_count: usize, miss_rate: f64) -> (usize, u32) {
    let filter_size = (((item_count as f64) * miss_rate.ln())
        / (1.0f64 / 2.0f64.powf(2.0f64.ln())).ln())
    .ceil() as usize;
    let num_functions = ((filter_size as f64 / item_count as f64) * 2.0f64.ln()).round() as u32;
    (filter_size, num_functions)
}

#[test]
fn buffer_size() {
    let bitvec = BitVec::new(10);
    assert_eq!(bitvec.data.len(), 2);

    let bitvec = BitVec::new(8);
    assert_eq!(bitvec.data.len(), 1);

    let bitvec = BitVec::new(31);
    assert_eq!(bitvec.data.len(), 4);

    let bitvec = BitVec::new(32);
    assert_eq!(bitvec.data.len(), 4);
}

#[test]
fn set_and_get() {
    let mut bitvec = BitVec::new(12);
    bitvec.set(10);
    assert_eq!(bitvec.get(10), true);
    assert_eq!(bitvec.get(11), false);
}

#[test]
fn test_murmur3() {
    let mut hasher = Murmur3Hasher::new(0);
    hasher.update(b"hello world");
    let hash = hasher.finalize();
    assert_eq!(hash, 1586663183);
}

#[test]
fn murmur3_incremental_matches_one_shot() {
    let data = b"The quick brown fox jumps over the lazy dog";
    for split in 0..data.len() {
        let mut hasher = Murmur3Hasher::new(42);
        hasher.update(&data[..split]);
        hasher.update(&data[split..]);
        assert_eq!(hasher.finalize(), murmur3_hash(42, data));
    }
    assert_eq!(murmur3_hash(0, b""), 0);
    assert_eq!(murmur3_hash(1, b""), 0x514e28b7);
}

#[test]
fn filter_size() {
    let (bits, k) = filter_params(4000, 0.01);
    let filter = SstFilter::new(bits, k);
    assert_eq!(filter.bitvec.len, 38344); // 38341 rounded to next byte
    assert_eq!(filter.num_functions, 7);
}

#[test]
fn test_filter() {
    let (bits, k) = filter_params(100, 0.01);
    let mut filter = SstFilter::new(bits, k);
    for i in 0..100 {
        let key = format!("foo{}", i);
        filter.add(key.as_bytes());
    }

    for i in 0..100 {
        let key = format!("foo{}", i);
        assert_eq!(filter.may_contain(key.as_bytes()), true);
    }
}

#[test]
fn filter_false_positive_rate() {
    let (bits, k) = filter_params(4000, 0.01);
    let mut filter = SstFilter::new(bits, k);
    for i in 0..4000 {
        filter.add(format!("key{}", i).as_bytes());
    }
    for i in 0..4000 {
        assert!(filter.may_contain(format!("key{}", i).as_bytes()));
    }
    let mut hits = 0;
    for i in 0..20000 {
        if filter.may_contain(format!("other{}", i).as_bytes()) {
            hits += 1;
        }
    }
    let rate = hits as f64 / 20000.0;
    assert!(rate < 0.03, "false-positive rate {}", rate);
    let restored = SstFilter::from_data(&filter.bitvec.data, k);
    assert!(restored.may_contain(b"key17"));
}
