use hatp_engine::bloom::{djb2, fnv1a, BloomFilter};
use hatp_engine::file_io::FakeFileIO;

/// A filter for `items` keys with about `fp_rate` false positives.
fn filter_for(items: usize, fp_rate: f64) -> BloomFilter {
    let n = items.max(1) as f64;
    let p = fp_rate.clamp(1e-9, 0.5);
    let ln2 = std::f64::consts::LN_2;
    let m = (-n * p.ln() / (ln2 * ln2)).ceil().max(64.0);
    let k = (m / n * ln2).round().clamp(1.0, 32.0);
    BloomFilter::new(m as u64, k as u32)
}

#[test]
fn insert_then_contains() {
    let mut filter = filter_for(1000, 0.01);
    filter.insert(b"alice");
    filter.insert(b"bob");
    assert!(filter.contains(b"alice"));
    assert!(filter.contains(b"bob"));
    // False positives are possible but must not be systematic: a key far
    // from the inserted set should (with overwhelming probability) miss.
    assert!(!filter.contains(b"charlie"));
}

#[test]
fn round_trip_bytes() {
    let mut filter = filter_for(500, 0.05);
    filter.insert(b"key-1");
    filter.insert(b"key-2");
    let bytes = filter.to_bytes();
    let decoded = BloomFilter::from_bytes(&bytes).expect("decode");
    assert_eq!(filter, decoded);
    assert!(decoded.contains(b"key-1"));
    assert!(!decoded.contains(b"key-9"));
}

#[test]
fn bloom_rejects_corrupt_input() {
    assert!(BloomFilter::from_bytes(b"").is_none());
    assert!(BloomFilter::from_bytes(b"XXXX").is_none());
    assert!(BloomFilter::from_bytes(b"BF01garbage").is_none());
    // Truncate a valid encoding.
    let filter = filter_for(100, 0.01);
    let mut bytes = filter.to_bytes();
    bytes.pop();
    assert!(BloomFilter::from_bytes(&bytes).is_none());
}

#[test]
fn determinism_across_instances() {
    // Two independently-built filters with the same parameters and keys
    // must produce identical bytes (restart safety).
    let mut a = filter_for(1000, 0.01);
    let mut b = filter_for(1000, 0.01);
    for key in [b"k1", b"k2", b"k3"] {
        a.insert(key);
        b.insert(key);
    }
    assert_eq!(a.to_bytes(), b.to_bytes());
}

#[test]
fn invariants_hold_for_valid_filter() {
    let filter = filter_for(1000, 0.01);
    assert!(filter.assert_invariants());
}

#[test]
fn invariants_reject_zero_num_bits() {
    let mut filter = filter_for(1000, 0.01);
    filter.num_bits = 0;
    assert!(!filter.assert_invariants());
}

#[test]
fn hashes_match_their_published_values() {
    assert_eq!(fnv1a(b""), 0xcbf2_9ce4_8422_2325);
    assert_eq!(fnv1a(b"a"), 0xaf63_dc4c_8601_ec8c);
    assert_eq!(djb2(b""), 5381);
    assert_eq!(djb2(b"a"), 5381 * 33 + 97);
}

#[test]
fn sizes_round_up_to_powers_of_two() {
    assert_eq!(BloomFilter::new(1, 3).num_bits, 64);
    assert_eq!(BloomFilter::new(65, 3).num_bits, 128);
    assert_eq!(BloomFilter::new(9586, 7).num_bits, 16384);
    assert_eq!(BloomFilter::new(64, 0).num_hashes, 1);
    assert_eq!(BloomFilter::new(64, 99).num_hashes, 32);
}

#[test]
fn a_filter_survives_its_file() {
    let mut disk = FakeFileIO::new("unused");
    let mut filter = filter_for(10, 0.01);
    filter.insert(b"k");
    filter.write_to(&mut disk, "a.bloom").expect("write");
    let read = BloomFilter::read_from(&mut disk, "a.bloom").expect("read");
    assert_eq!(read, filter);
    assert!(BloomFilter::read_from(&mut disk, "b.bloom").is_none());
    disk.corrupt("a.bloom", vec![1, 2, 3]);
    assert!(BloomFilter::read_from(&mut disk, "a.bloom").is_none());
}
