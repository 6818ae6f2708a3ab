use rust_solo_all_db::engine::BloomFilter;
use std::collections::hash_map::DefaultHasher;
use std::hash::Hasher;

// The size of a filter for `n` items at a false-positive rate `p`, by the
// formula with natural logarithms.
fn sizing(n: usize, p: f64) -> (usize, usize) {
    let m = (-(n as f64 * p.ln()) / (2.0_f64.ln().powi(2))).ceil() as usize;
    let k = ((m as f64 / n as f64) * 2.0_f64.ln()).ceil() as usize;
    (m, k)
}

#[test]
fn test_bloom_filter_basic() {
    let mut bloom = BloomFilter::new(1000);

    bloom.insert("key1");
    bloom.insert("key2");
    bloom.insert("key3");

    assert!(bloom.contains("key1"));
    assert!(bloom.contains("key2"));
    assert!(bloom.contains("key3"));

    println!("Bloom filter size: {} bits", bloom.len());
}

#[test]
fn test_bloom_filter_false_negatives() {
    let (m, k) = sizing(10, 0.1);
    let mut bloom = BloomFilter::with_size(m, k);

    for i in 0..5 {
        bloom.insert(&format!("key{}", i));
    }

    for i in 0..5 {
        assert!(bloom.contains(&format!("key{}", i)), "False negative for key{}", i);
    }
}

#[test]
fn test_bloom_filter_clear() {
    let mut bloom = BloomFilter::new(100);

    bloom.insert("test");
    assert!(bloom.contains("test"));

    bloom.clear();
    assert!(!bloom.contains("test"));
    assert_eq!(bloom.len(), 959);
}

#[test]
fn test_bloom_filter_custom_size() {
    let mut bloom = BloomFilter::with_size(1000, 3);

    bloom.insert("custom");
    assert!(bloom.contains("custom"));
    assert_eq!(bloom.len(), 1000);
}

#[test]
fn test_bloom_sizing_matches_formula() {
    for n in [1usize, 2, 3, 10, 100, 1000, 12345] {
        let (m, k) = sizing(n, 0.01);
        let bloom = BloomFilter::new(n);
        assert_eq!(bloom.len(), m, "bits for {} items", n);
        assert_eq!(bloom.hash_functions(), k, "hashes for {} items", n);
    }
    let bloom = BloomFilter::new(1000);
    assert_eq!(bloom.len(), 9586);
    assert_eq!(bloom.hash_functions(), 7);
    let empty = BloomFilter::new(0);
    assert_eq!(empty.len(), 0);
    assert_eq!(empty.hash_functions(), 0);
    assert!(empty.contains("anything"));
}

#[test]
fn test_bloom_positions_by_double_hashing() {
    // the positions of a key are (h1 + i * h2) mod m, with h1 from the
    // default hasher and h2 from FNV-1a
    let m: usize = 64;
    let k: usize = 5;
    let mut bloom = BloomFilter::with_size(m, k);
    bloom.insert("abc");

    let mut h = DefaultHasher::new();
    h.write(b"abc");
    let h1 = h.finish();
    let mut f = fnv::FnvHasher::default();
    f.write(b"abc");
    let h2 = f.finish();
    // FNV-1a by hand
    let mut by_hand: u64 = 0xcbf29ce484222325;
    for b in b"abc" {
        by_hand ^= *b as u64;
        by_hand = by_hand.wrapping_mul(0x100000001b3);
    }
    assert_eq!(h2, by_hand);

    let mut expected = vec![false; m];
    for i in 0..k {
        let p = ((h1 as u128 + (i as u128) * (h2 as u128)) % (m as u128)) as usize;
        expected[p] = true;
    }
    let bytes = bloom.to_bytes();
    assert_eq!(bytes.len(), 24 + 8);
    assert_eq!(&bytes[0..8], &(m as u64).to_le_bytes());
    assert_eq!(&bytes[8..16], &(k as u64).to_le_bytes());
    assert_eq!(&bytes[16..24], &0u64.to_le_bytes());
    for (i, want) in expected.iter().enumerate() {
        let got = (bytes[24 + i / 8] >> (7 - i % 8)) & 1 == 1;
        assert_eq!(got, *want, "bit {}", i);
    }
}

#[test]
fn test_bloom_bytes_round_trip() {
    let mut bloom = BloomFilter::with_size(77, 4);
    for i in 0..10 {
        bloom.insert(&format!("k{}", i));
    }
    let bytes = bloom.to_bytes();
    assert_eq!(bytes.len(), 24 + 10);
    let back = BloomFilter::from_bytes(&bytes).expect("the bytes hold a filter");
    assert_eq!(back.len(), 77);
    assert_eq!(back.hash_functions(), 4);
    assert_eq!(back.to_bytes(), bytes);
    for i in 0..10 {
        assert!(back.contains(&format!("k{}", i)));
    }
    assert!(BloomFilter::from_bytes(&bytes[..20]).is_none());
    assert!(BloomFilter::from_bytes(&bytes[..bytes.len() - 1]).is_none());
}

#[test]
fn test_bloom_clone_keeps_bits() {
    let mut bloom = BloomFilter::with_size(128, 3);
    bloom.insert("x");
    let copy = bloom.clone();
    assert_eq!(copy.to_bytes(), bloom.to_bytes());
    assert!(copy.contains("x"));
}

#[test]
fn test_set_bits_are_counted() {
    let mut filter = BloomFilter::with_size(64, 3);
    assert_eq!(filter.count_set_bits(), 0);
    filter.insert("a");
    let after_one = filter.count_set_bits();
    assert!(after_one >= 1 && after_one <= 3);
    filter.insert("a");
    assert_eq!(filter.count_set_bits(), after_one);
    filter.clear();
    assert_eq!(filter.count_set_bits(), 0);
    assert_eq!(BloomFilter::with_size(0, 3).count_set_bits(), 0);
}
